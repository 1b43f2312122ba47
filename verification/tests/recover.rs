use lib::fspec::{CallSpec, ParamActive, ParamTrial};
use lib::funcdata::{BlockBasic, BlockId, Funcdata, OpId, SeqNum, VarnodeId};
use lib::opcode::OpCode;
use lib::recover::{
    build_input_from_trials, build_return_output, check_call_double_use, check_input_trial_use,
    check_output_trial_use, final_input_check, find_preexisting_whole, locked_register_inputs, return_trial_kept,
    StackAliases,
};
use lib::space::{Address, SpaceManager};

const RAX: u64 = 0x0;
const XMM0: u64 = 0x1200;

/// `RAX = INT_ADD(RDI, 1)`, read by the RETURN; `extra` optionally attaches a second use of RAX.
fn rax_add(extra: impl FnOnce(&mut Funcdata, VarnodeId, SeqNum)) -> (Funcdata, OpId) {
    let spaces = SpaceManager::standard();
    let ram = spaces.by_name("ram").unwrap();
    let reg = spaces.by_name("register").unwrap();
    let mut f = Funcdata::new("t", Address::new(ram, 0), spaces);
    let seq = SeqNum { pc: Address::new(ram, 0), uniq: 0 };
    let rdi = f.new_input(8, Address::new(reg, 0x38));
    let c = f.new_const(8, 1);
    let add = f.new_op(OpCode::IntAdd, seq, vec![rdi, c]);
    let rax = f.new_output(add, 8, Address::new(reg, RAX));
    extra(&mut f, rax, seq);
    let retaddr = f.new_input(8, Address::new(reg, 0x20));
    let ret = f.new_op(OpCode::Return, seq, vec![retaddr, rax]);
    (f, ret)
}

#[test]
fn return_value_only_used_by_return_is_kept() {
    let (f, ret) = rax_add(|_, _, _| {});
    assert!(return_trial_kept(&f, ret, 1), "a computed value used only by the return is a real return value");
}

#[test]
fn return_value_used_as_store_address_is_voided() {
    let (f, ret) = rax_add(|f, rax, seq| {
        let space_annot = f.new_const(8, 0);
        let val = f.new_const(4, 0x10);
        f.new_op(OpCode::Store, seq, vec![space_annot, rax, val]);
    });
    assert!(!return_trial_kept(&f, ret, 1), "a value used as a STORE address is not a return value");
}

#[test]
fn return_value_copied_to_persistent_global_is_voided() {
    let (f, ret) = rax_add(|f, rax, seq| {
        let cp = f.new_op(OpCode::Copy, seq, vec![rax]);
        let ram = f.spaces.by_name("ram").unwrap();
        let g = f.new_output(cp, 8, Address::new(ram, 0x600000));
        f.vns[g.0].persist = true;
    });
    assert!(!return_trial_kept(&f, ret, 1), "a value stored to a persistent global is not a return value");
}

#[test]
fn return_multiequal_of_store_addresses_is_voided() {
    let spaces = SpaceManager::standard();
    let ram = spaces.by_name("ram").unwrap();
    let reg = spaces.by_name("register").unwrap();
    let mut f = Funcdata::new("t", Address::new(ram, 0), spaces);
    let seq = SeqNum { pc: Address::new(ram, 0), uniq: 0 };
    let rdi = f.new_input(8, Address::new(reg, 0x38));
    let store_addr = |f: &mut Funcdata, k: u64| -> VarnodeId {
        let c = f.new_const(8, k);
        let add = f.new_op(OpCode::IntAdd, seq, vec![rdi, c]);
        let a = f.new_output(add, 8, Address::new(reg, RAX));
        let sp = f.new_const(8, 0);
        let v = f.new_const(4, 0x10);
        f.new_op(OpCode::Store, seq, vec![sp, a, v]);
        a
    };
    let a = store_addr(&mut f, 12);
    let b = store_addr(&mut f, 16);
    let phi = f.new_op(OpCode::Multiequal, seq, vec![a, b]);
    let rax = f.new_output(phi, 8, Address::new(reg, RAX));
    let retaddr = f.new_input(8, Address::new(reg, 0x20));
    let ret = f.new_op(OpCode::Return, seq, vec![retaddr, rax]);
    assert!(!return_trial_kept(&f, ret, 1), "a MULTIEQUAL of leftover STORE addresses is not returned (condconst)");
}

#[test]
fn sibling_slot_use_fails_the_own_slot_test() {
    let spaces = SpaceManager::standard();
    let ram = spaces.by_name("ram").unwrap();
    let reg = spaces.by_name("register").unwrap();
    let mut f = Funcdata::new("t", Address::new(ram, 0), spaces);
    let seq = SeqNum { pc: Address::new(ram, 0), uniq: 0 };
    let rdi = f.new_input(8, Address::new(reg, 0x38));
    let c = f.new_const(8, 1);
    let add = f.new_op(OpCode::IntAdd, seq, vec![rdi, c]);
    let v = f.new_output(add, 8, Address::new(reg, XMM0));
    let z = f.new_const(8, 0);
    let subop = f.new_op(OpCode::Subpiece, seq, vec![v, z]);
    let sub = f.new_output(subop, 4, Address::new(reg, XMM0));
    let retaddr = f.new_input(8, Address::new(reg, 0x20));
    let ret = f.new_op(OpCode::Return, seq, vec![retaddr, v, sub]);
    assert!(
        !return_trial_kept(&f, ret, 1),
        "the value's use at a sibling return-value slot is a real use under the own-slot test"
    );
}

/// A CALL reading `v` at slot 1, plus a RETURN. `active` selects whether the CALL's slot-1
/// input trial is active or checked-but-inactive.
fn call_double_use_setup(active: bool) -> (Funcdata, OpId, OpId, VarnodeId) {
    let spaces = SpaceManager::standard();
    let ram = spaces.by_name("ram").unwrap();
    let reg = spaces.by_name("register").unwrap();
    let mut f = Funcdata::new("t", Address::new(ram, 0), spaces);
    let seq = SeqNum { pc: Address::new(ram, 0), uniq: 0 };
    let rdi = f.new_input(8, Address::new(reg, 0x38));
    let c = f.new_const(8, 1);
    let addop = f.new_op(OpCode::IntAdd, seq, vec![rdi, c]);
    let v = f.new_output(addop, 8, Address::new(reg, RAX));
    let target = f.new_const(8, 0x400400);
    let call = f.new_op(OpCode::Call, seq, vec![target, v]);
    let retaddr = f.new_input(8, Address::new(reg, 0x20));
    let ret = f.new_op(OpCode::Return, seq, vec![retaddr, v]);
    let mut ai = ParamActive::new(Some(reg));
    let ti = ai.register_trial(Address::new(reg, 0x38), 8);
    ai.trial[ti].op_slot = 1;
    if active {
        ai.trial[ti].mark_active();
    } else {
        ai.trial[ti].mark_inactive();
    }
    f.set_active_input(call, ai);
    (f, ret, call, v)
}

#[test]
fn check_call_double_use_accepts_inactive_second_call_trial() {
    let (f, ret, call, v) = call_double_use_setup(false);
    let addr = f.vn(v).loc;
    assert!(check_call_double_use(&f, ret, call, v, 0, addr), "an inactive second-call trial is a legitimate double-use");
}

#[test]
fn check_call_double_use_rejects_active_second_call_trial() {
    let (f, ret, call, v) = call_double_use_setup(true);
    let addr = f.vn(v).loc;
    assert!(!check_call_double_use(&f, ret, call, v, 0, addr), "an active second-call trial disqualifies the double-use");
}

#[test]
fn check_call_double_use_ignores_the_call_target() {
    let (f, ret, call, _v) = call_double_use_setup(false);
    let target = f.op(call).input(0).unwrap();
    let addr = f.vn(target).loc;
    assert!(!check_call_double_use(&f, ret, call, target, 0, addr));
}

#[test]
fn unwritten_input_is_not_a_return_value() {
    let spaces = SpaceManager::standard();
    let ram = spaces.by_name("ram").unwrap();
    let reg = spaces.by_name("register").unwrap();
    let mut f = Funcdata::new("t", Address::new(ram, 0), spaces);
    let seq = SeqNum { pc: Address::new(ram, 0), uniq: 0 };
    let rax = f.new_input(8, Address::new(reg, RAX));
    let retaddr = f.new_input(8, Address::new(reg, 0x20));
    let ret = f.new_op(OpCode::Return, seq, vec![retaddr, rax]);
    assert!(!return_trial_kept(&f, ret, 1));
    assert!(!return_trial_kept(&f, ret, 2));
}

/// A used output trial at register offset `off` of `size` bytes, read from RETURN slot `slot`.
fn used_trial(reg: lib::space::SpaceId, off: u64, size: u32, slot: u32) -> ParamTrial {
    ParamTrial {
        addr: Address::new(reg, off),
        size,
        op_slot: slot,
        checked: true,
        active: true,
        killed_by_call: false,
        cond_exe_effect: false,
        ind_create_formed: false,
        ancestor_realistic: false,
        ancestor_solid: false,
        used: true,
        def_no_use: false,
        unref: false,
    }
}

#[test]
fn a_recovered_return_keeps_only_its_value() {
    let (mut f, ret) = rax_add(|_, _, _| {});
    let reg = f.spaces.by_name("register").unwrap();
    let rdx = f.new_input(8, Address::new(reg, 0x10));
    f.op_append_input(ret, rdx);
    let rax = f.op(ret).input(1).unwrap();
    let mut active = ParamActive::new(Some(reg));
    active.trial.push(used_trial(reg, RAX, 8, 1));
    f.active_output = Some(active);
    build_return_output(&mut f);
    assert_eq!(f.op(ret).num_inputs(), 2);
    assert_eq!(f.op(ret).input(1), Some(rax));
}

#[test]
fn a_return_in_two_lanes_is_joined_by_a_piece() {
    let spaces = SpaceManager::standard();
    let ram = spaces.by_name("ram").unwrap();
    let reg = spaces.by_name("register").unwrap();
    let mut f = Funcdata::new("t", Address::new(ram, 0), spaces);
    let seq = SeqNum { pc: Address::new(ram, 0), uniq: 0 };
    let lo = f.new_input(4, Address::new(reg, XMM0));
    let hi = f.new_input(4, Address::new(reg, XMM0 + 4));
    let retaddr = f.new_input(8, Address::new(reg, 0x20));
    let ret = f.new_op(OpCode::Return, seq, vec![retaddr, lo, hi]);
    let mut active = ParamActive::new(Some(reg));
    active.trial.push(used_trial(reg, XMM0, 4, 1));
    active.trial.push(used_trial(reg, XMM0 + 4, 4, 2));
    f.active_output = Some(active);
    build_return_output(&mut f);
    assert_eq!(f.op(ret).num_inputs(), 2);
    let whole = f.op(ret).input(1).unwrap();
    assert_eq!(f.vn(whole).size, 8);
    assert_eq!(f.vn(whole).loc, Address::new(reg, XMM0));
    let piece = f.vn(whole).def.unwrap();
    assert_eq!(f.op(piece).code(), OpCode::Piece);
    assert_eq!(f.op(piece).input(0), Some(hi));
    assert_eq!(f.op(piece).input(1), Some(lo));
}

#[test]
fn an_output_pass_marks_a_kept_trial_active() {
    let (mut f, _ret) = rax_add(|_, _, _| {});
    let reg = f.spaces.by_name("register").unwrap();
    let mut active = ParamActive::new(Some(reg));
    let t = active.register_trial(Address::new(reg, RAX), 8);
    active.trial[t].op_slot = 1;
    f.active_output = Some(active);
    assert_eq!(check_output_trial_use(&mut f), 1);
    let a = f.active_output.as_ref().unwrap();
    assert!(a.trial[t].checked && a.trial[t].active);
    assert_eq!(a.numpasses, 1);
    assert!(a.fully_checked);
    assert_eq!(check_output_trial_use(&mut f), 0, "a checked trial is not evaluated again");
}

#[test]
fn two_halves_read_by_one_piece_have_a_whole() {
    let spaces = SpaceManager::standard();
    let ram = spaces.by_name("ram").unwrap();
    let reg = spaces.by_name("register").unwrap();
    let mut f = Funcdata::new("t", Address::new(ram, 0), spaces);
    let seq = SeqNum { pc: Address::new(ram, 0), uniq: 0 };
    let lo = f.new_input(4, Address::new(reg, RAX));
    let hi = f.new_input(4, Address::new(reg, 0x10));
    let piece = f.new_op(OpCode::Piece, seq, vec![hi, lo]);
    let whole = f.new_output(piece, 8, Address::new(reg, RAX));
    assert_eq!(find_preexisting_whole(&f, hi, lo), Some(whole));
    f.new_op(OpCode::Copy, seq, vec![lo]);
    assert_eq!(find_preexisting_whole(&f, hi, lo), None, "the low half now has a second reader");
}

#[test]
fn a_conditionally_active_input_that_fails_again_is_dropped() {
    let spaces = SpaceManager::standard();
    let ram = spaces.by_name("ram").unwrap();
    let reg = spaces.by_name("register").unwrap();
    let mut f = Funcdata::new("t", Address::new(ram, 0), spaces);
    let seq = SeqNum { pc: Address::new(ram, 0), uniq: 0 };
    let x = f.new_input(8, Address::new(reg, 0x38));
    f.vns[x.0].unaffected = true;
    let target = f.new_const(8, 0x4000);
    let call = f.new_op(OpCode::Call, seq, vec![target, x]);
    let mut active = ParamActive::new(Some(reg));
    let t = active.register_trial(Address::new(reg, 0x38), 8);
    active.trial[t].op_slot = 1;
    active.trial[t].checked = true;
    active.trial[t].active = true;
    active.trial[t].cond_exe_effect = true;
    let other = active.register_trial(Address::new(reg, 0x30), 8);
    f.set_active_input(call, active);
    final_input_check(&mut f, call);
    let a = f.active_input(call).unwrap();
    assert!(!a.trial[t].active && a.trial[t].checked && !a.trial[t].used);
    assert!(!a.trial[other].checked, "a trial not slated for a second look is left alone");
}

/// A call `CALL(0x4000, RDI-input, stack:8-input)` with one trial per input plus one for a slot
/// the call does not have.
fn input_trial_setup() -> (Funcdata, OpId, VarnodeId, ParamActive) {
    let spaces = SpaceManager::standard();
    let ram = spaces.by_name("ram").unwrap();
    let reg = spaces.by_name("register").unwrap();
    let stack = spaces.by_name("stack").unwrap();
    let mut f = Funcdata::new("t", Address::new(ram, 0), spaces);
    let seq = SeqNum { pc: Address::new(ram, 0), uniq: 0 };
    let rdi = f.new_input(8, Address::new(reg, 0x38));
    let slot8 = f.new_input(4, Address::new(stack, 8));
    let target = f.new_const(8, 0x4000);
    let call = f.new_op(OpCode::Call, seq, vec![target, rdi, slot8]);
    let mut active = ParamActive::new(Some(reg));
    let a = active.register_trial(Address::new(reg, 0x38), 8);
    active.trial[a].op_slot = 1;
    let b = active.register_trial(Address::new(stack, 8), 4);
    active.trial[b].op_slot = 2;
    let c = active.register_trial(Address::new(reg, 0x30), 8);
    active.trial[c].op_slot = 3;
    active.set_max_pass(1);
    (f, call, slot8, active)
}

#[test]
fn an_input_evaluation_decides_each_open_trial() {
    let (mut f, call, slot8, active) = input_trial_setup();
    f.set_active_input(call, active);
    check_input_trial_use(&mut f, call, &StackAliases { aliased: vec![] });
    let a = f.active_input(call).unwrap();
    // An unwritten register input is not realistic, but may still be a parameter.
    assert!(a.trial[0].checked && !a.trial[0].active && !a.trial[0].def_no_use);
    assert_eq!(f.op(call).inrefs[1], VarnodeId(0));
    // A stack slot outside the local range is definitely unused, and its value is freed.
    assert!(a.trial[1].checked && !a.trial[1].active && a.trial[1].def_no_use);
    let freed = f.op(call).inrefs[2];
    assert_ne!(freed, slot8);
    assert!(f.vn(freed).constant && f.vn(freed).loc.offset == 0 && f.vn(freed).size == 4);
    // A slot the call does not have is definitely unused.
    assert!(a.trial[2].checked && !a.trial[2].active && a.trial[2].def_no_use);
    assert_eq!(a.numpasses, 1);
    assert!(!a.fully_checked, "one pass does not exceed a limit of one");
    check_input_trial_use(&mut f, call, &StackAliases { aliased: vec![] });
    let a = f.active_input(call).unwrap();
    assert_eq!(a.numpasses, 2);
    assert!(a.fully_checked);
}

#[test]
fn storage_the_callee_reads_is_an_argument() {
    let (mut f, call, slot8, active) = input_trial_setup();
    let stack = f.spaces.by_name("stack").unwrap();
    f.set_active_input(call, active);
    f.set_call_spec(call, CallSpec { reads: Some(vec![(Address::new(stack, 8), 8)]), ..CallSpec::default() });
    check_input_trial_use(&mut f, call, &StackAliases { aliased: vec![] });
    let a = f.active_input(call).unwrap();
    assert!(a.trial[1].checked && a.trial[1].active && !a.trial[1].def_no_use);
    assert_eq!(f.op(call).inrefs[2], slot8, "an argument keeps its value");
}

#[test]
fn a_decided_trial_is_left_alone() {
    let (mut f, call, slot8, mut active) = input_trial_setup();
    active.trial[1].checked = true;
    active.trial[1].active = true;
    f.set_active_input(call, active);
    check_input_trial_use(&mut f, call, &StackAliases { aliased: vec![] });
    let a = f.active_input(call).unwrap();
    assert!(a.trial[1].checked && a.trial[1].active && !a.trial[1].def_no_use);
    assert_eq!(f.op(call).inrefs[2], slot8);
}

/// A call `CALL(0x4000, RDI:8, RSI:8)` in a block of its own, with its trials.
fn commit_setup() -> (Funcdata, OpId, VarnodeId, VarnodeId, ParamActive) {
    let spaces = SpaceManager::standard();
    let ram = spaces.by_name("ram").unwrap();
    let reg = spaces.by_name("register").unwrap();
    let mut f = Funcdata::new("t", Address::new(ram, 0), spaces);
    let seq = SeqNum { pc: Address::new(ram, 0x40), uniq: 0 };
    let rdi = f.new_input(8, Address::new(reg, 0x38));
    let rsi = f.new_input(8, Address::new(reg, 0x30));
    let target = f.new_const(8, 0x4000);
    let call = f.new_op(OpCode::Call, seq, vec![target, rdi, rsi]);
    f.set_blocks(vec![BlockBasic { ops: vec![call], ..Default::default() }]);
    f.op_set_parent(call, BlockId(0));
    let active = ParamActive::new(Some(reg));
    (f, call, rdi, rsi, active)
}

#[test]
fn committed_arguments_follow_the_used_trials() {
    let (mut f, call, rdi, _rsi, mut active) = commit_setup();
    let reg = f.spaces.by_name("register").unwrap();
    // EDI (4 bytes of RDI) is an argument; RSI is not; RDX fills a hole and has no input yet.
    let a = active.register_trial(Address::new(reg, 0x38), 4);
    active.trial[a].op_slot = 1;
    active.trial[a].used = true;
    let b = active.register_trial(Address::new(reg, 0x30), 8);
    active.trial[b].op_slot = 2;
    let c = active.register_trial(Address::new(reg, 0x10), 8);
    active.trial[c].used = true;
    active.trial[c].unref = true;
    f.set_active_input(call, active);
    build_input_from_trials(&mut f, call);
    let ins = f.op(call).inrefs.clone();
    assert_eq!(ins.len(), 3, "the target and two arguments");
    // The wider RDI is narrowed to the trial's 4 bytes by a SUBPIECE placed before the call.
    let narrowed = ins[1];
    assert_eq!(f.vn(narrowed).size, 4);
    assert_eq!(f.vn(narrowed).loc, Address::new(reg, 0x38));
    let sub = f.vn(narrowed).def.unwrap();
    assert_eq!(f.op(sub).code(), OpCode::Subpiece);
    assert_eq!(f.op(sub).inrefs[0], rdi);
    assert_eq!(f.vn(f.op(sub).inrefs[1]).loc.offset, 0);
    assert_eq!(f.blocks[0].ops, vec![sub, call]);
    // The hole gets a new free RDX, marked for heritage.
    let rdx = ins[2];
    assert_eq!(f.vn(rdx).loc, Address::new(reg, 0x10));
    assert!(f.vn(rdx).def.is_none() && !f.vn(rdx).input && f.vn(rdx).active_heritage);
    assert_eq!(f.calls_awaiting_output, vec![call], "a free argument waits for an earlier output");
    // Only the chosen trials remain, numbered by their new slots.
    let a = f.active_input(call).unwrap();
    assert_eq!(a.trial.len(), 2);
    assert_eq!((a.trial[0].addr.offset, a.trial[0].op_slot), (0x38, 1));
    assert_eq!((a.trial[1].addr.offset, a.trial[1].op_slot), (0x10, 2));
}

#[test]
fn a_hole_already_filled_keeps_its_input() {
    let (mut f, call, rdi, rsi, mut active) = commit_setup();
    let reg = f.spaces.by_name("register").unwrap();
    let a = active.register_trial(Address::new(reg, 0x38), 8);
    active.trial[a].op_slot = 1;
    active.trial[a].used = true;
    let b = active.register_trial(Address::new(reg, 0x30), 8);
    active.trial[b].op_slot = 2;
    active.trial[b].used = true;
    active.trial[b].unref = true;
    f.set_active_input(call, active);
    let before = f.num_varnodes();
    build_input_from_trials(&mut f, call);
    assert_eq!(f.op(call).inrefs, vec![VarnodeId(2), rdi, rsi]);
    assert_eq!(f.num_varnodes(), before, "nothing new is made");
    assert!(f.calls_awaiting_output.is_empty(), "function inputs are not free");
}

#[test]
fn a_recovered_register_prototype_locks_the_call() {
    let (mut f, call, _rdi, _rsi, active) = commit_setup();
    let reg = f.spaces.by_name("register").unwrap();
    f.set_active_input(call, active);
    let reads = vec![(Address::new(reg, 0x0), 4), (Address::new(reg, 0x10), 4)];
    f.set_call_spec(call, CallSpec { reads: Some(reads), reads_recovered: true, ..CallSpec::default() });
    assert!(locked_register_inputs(&mut f, call));
    let ins = f.op(call).inrefs.clone();
    assert_eq!(ins.len(), 5);
    assert_eq!((f.vn(ins[3]).loc, f.vn(ins[3]).size), (Address::new(reg, 0x0), 4));
    assert_eq!((f.vn(ins[4]).loc, f.vn(ins[4]).size), (Address::new(reg, 0x10), 4));
    assert!(f.vn(ins[3]).def.is_none() && !f.vn(ins[3]).input);
    let a = f.active_input(call).unwrap();
    assert_eq!(a.trial.len(), 2);
    assert!(a.trial[0].checked && a.trial[0].active && a.trial[0].op_slot == 3);
    assert!(a.trial[1].checked && a.trial[1].active && a.trial[1].op_slot == 4);
}

#[test]
fn a_prototype_naming_the_stack_does_not_lock() {
    let (mut f, call, _rdi, _rsi, active) = commit_setup();
    let reg = f.spaces.by_name("register").unwrap();
    let stack = f.spaces.by_name("stack").unwrap();
    f.set_active_input(call, active);
    let reads = vec![(Address::new(reg, 0x0), 4), (Address::new(stack, 0x4), 4)];
    f.set_call_spec(call, CallSpec { reads: Some(reads), reads_recovered: true, ..CallSpec::default() });
    let before = f.num_varnodes();
    assert!(!locked_register_inputs(&mut f, call));
    assert_eq!(f.op(call).inrefs.len(), 3);
    assert_eq!(f.num_varnodes(), before);
    assert_eq!(f.active_input(call).unwrap().trial.len(), 0);
}

#[test]
fn an_unrecovered_prototype_does_not_lock() {
    let (mut f, call, _rdi, _rsi, active) = commit_setup();
    let reg = f.spaces.by_name("register").unwrap();
    f.set_active_input(call, active);
    assert!(!locked_register_inputs(&mut f, call), "no call facts at all");
    let reads = vec![(Address::new(reg, 0x0), 4)];
    f.set_call_spec(call, CallSpec { reads: Some(reads), reads_recovered: false, ..CallSpec::default() });
    assert!(!locked_register_inputs(&mut f, call));
    assert_eq!(f.op(call).inrefs.len(), 3);
}

#[test]
fn a_constant_register_argument_is_kept_but_not_active() {
    let spaces = SpaceManager::standard();
    let ram = spaces.by_name("ram").unwrap();
    let reg = spaces.by_name("register").unwrap();
    let mut f = Funcdata::new("t", Address::new(ram, 0), spaces);
    let seq = SeqNum { pc: Address::new(ram, 0), uniq: 0 };
    let five = f.new_const(8, 5);
    let target = f.new_const(8, 0x4000);
    let call = f.new_op(OpCode::Call, seq, vec![target, five]);
    let mut active = ParamActive::new(Some(reg));
    let a = active.register_trial(Address::new(reg, 0x38), 8);
    active.trial[a].op_slot = 1;
    f.set_active_input(call, active);
    check_input_trial_use(&mut f, call, &StackAliases { aliased: vec![] });
    let a = f.active_input(call).unwrap();
    assert!(a.trial[0].checked && !a.trial[0].active && !a.trial[0].def_no_use);
    assert_eq!(f.op(call).inrefs[1], five, "an inactive trial keeps its value");
}
