use lib::ancestor::AncestorRealistic;
use lib::fspec::ParamTrial;
use lib::funcdata::{BlockBasic, BlockId, Funcdata, OpId, SeqNum, VarnodeId};
use lib::opcode::OpCode;
use lib::space::{Address, SpaceManager};

fn trial(addr: Address) -> ParamTrial {
    ParamTrial {
        addr,
        size: 8,
        op_slot: 1,
        checked: false,
        active: false,
        killed_by_call: false,
        cond_exe_effect: false,
        ind_create_formed: false,
        ancestor_realistic: false,
        ancestor_solid: false,
        used: false,
        def_no_use: false,
        unref: false,
    }
}

/// A function, its register space's address `off`, and a sequence number.
fn setup() -> (Funcdata, SeqNum) {
    let spaces = SpaceManager::standard();
    let ram = spaces.by_name("ram").unwrap();
    let f = Funcdata::new("t", Address::new(ram, 0), spaces);
    (f, SeqNum { pc: Address::new(ram, 0x1000), uniq: 0 })
}

fn reg(f: &Funcdata, off: u64) -> Address {
    Address::new(f.spaces.by_name("register").unwrap(), off)
}

/// A call passing `arg` in its slot 1.
fn call_with(f: &mut Funcdata, seq: SeqNum, arg: VarnodeId) -> OpId {
    let target = f.new_const(8, 0x4000);
    f.new_op(OpCode::Call, seq, vec![target, arg])
}

#[test]
fn ancestor_rejects_an_untouched_input() {
    let (mut f, seq) = setup();
    let a = reg(&f, 0x38);
    let x = f.new_input(8, a);
    let call = call_with(&mut f, seq, x);
    let mut t = trial(a);
    assert!(!AncestorRealistic::new().execute(&f, call, 1, &mut t, false));
    assert!(!t.ancestor_realistic);
}

#[test]
fn ancestor_accepts_arithmetic_as_solid_movement() {
    let (mut f, seq) = setup();
    let a = reg(&f, 0x38);
    let x = f.new_input(8, reg(&f, 0x8));
    let c = f.new_const(8, 4);
    let add = f.new_op(OpCode::IntAdd, seq, vec![x, c]);
    let v = f.new_output(add, 8, a);
    let call = call_with(&mut f, seq, v);
    let mut t = trial(a);
    assert!(AncestorRealistic::new().execute(&f, call, 1, &mut t, false));
    assert!(t.ancestor_realistic);
    assert!(t.ancestor_solid);
}

#[test]
fn ancestor_copy_from_an_input_needs_a_direct_write() {
    for direct in [false, true] {
        let (mut f, seq) = setup();
        let a = reg(&f, 0x38);
        let x = f.new_input(8, reg(&f, 0x8));
        f.vns[x.0].direct_write = direct;
        let copy = f.new_op(OpCode::Copy, seq, vec![x]);
        let v = f.new_output(copy, 8, a);
        let call = call_with(&mut f, seq, v);
        let mut t = trial(a);
        assert_eq!(AncestorRealistic::new().execute(&f, call, 1, &mut t, false), direct);
        assert_eq!(t.ancestor_solid, direct);
    }
}

#[test]
fn ancestor_a_value_created_by_a_call_is_killed() {
    let (mut f, seq) = setup();
    let a = reg(&f, 0x38);
    let zero = f.new_const(8, 0);
    f.vns[zero.0].indirect_creation = true;
    let iop = f.new_const(8, 0);
    let ind = f.new_op(OpCode::Indirect, seq, vec![zero, iop]);
    let v = f.new_output(ind, 8, a);
    f.vns[v.0].indirect_creation = true;
    let call = call_with(&mut f, seq, v);
    let mut t = trial(a);
    assert!(!AncestorRealistic::new().execute(&f, call, 1, &mut t, false));
    assert!(t.ind_create_formed);
}

/// `MULTIEQUAL(x + 4, killed)` feeding the call, the MULTIEQUAL in a block of two in-edges
/// whose second predecessor has a single way out.
fn joined() -> (Funcdata, OpId, Address) {
    let (mut f, seq) = setup();
    let a = reg(&f, 0x38);
    let x = f.new_input(8, reg(&f, 0x8));
    let c = f.new_const(8, 4);
    let add = f.new_op(OpCode::IntAdd, seq, vec![x, c]);
    let solid = f.new_output(add, 8, a);
    let zero = f.new_const(8, 0);
    f.vns[zero.0].indirect_creation = true;
    let iop = f.new_const(8, 0);
    let ind = f.new_op(OpCode::Indirect, seq, vec![zero, iop]);
    let killed = f.new_output(ind, 8, a);
    f.vns[killed.0].indirect_creation = true;
    let multi = f.new_op(OpCode::Multiequal, seq, vec![solid, killed]);
    let m = f.new_output(multi, 8, a);
    let call = call_with(&mut f, seq, m);
    f.set_blocks(vec![
        BlockBasic { ops: vec![add], in_edges: vec![], out_edges: vec![BlockId(2)] },
        BlockBasic { ops: vec![ind], in_edges: vec![], out_edges: vec![BlockId(2)] },
        BlockBasic { ops: vec![multi, call], in_edges: vec![BlockId(0), BlockId(1)], out_edges: vec![] },
    ]);
    f.op_set_parent(multi, BlockId(2));
    (f, call, a)
}

#[test]
fn ancestor_a_killed_path_outweighs_solid_movement_without_a_failing_path() {
    let (f, call, a) = joined();
    let mut t = trial(a);
    assert!(!AncestorRealistic::new().execute(&f, call, 1, &mut t, false));
    assert!(!t.ancestor_realistic);
}

#[test]
fn ancestor_a_killed_path_from_conditional_execution_is_slated() {
    let (f, call, a) = joined();
    let mut t = trial(a);
    assert!(AncestorRealistic::new().execute(&f, call, 1, &mut t, true));
    assert!(t.ancestor_realistic);
    assert!(!t.ancestor_solid);
    assert!(t.cond_exe_effect);
}
