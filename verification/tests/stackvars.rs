use lib::fspec::{CallSpec, EXTRAPOP_UNKNOWN};
use lib::funcdata::{Funcdata, SeqNum};
use lib::opcode::OpCode;
use lib::space::{Address, SpaceManager};
use lib::stackvars::{analyze_extra_pop, mask_value, ActionStackPtrFlow, StackSolver, NO_SOLN};

/// A function whose stack pointer is `register:0x10`, 4 bytes.
fn sp_fixture() -> (Funcdata, Address, u32) {
    let mut spaces = SpaceManager::standard();
    let reg = spaces.by_name("register").unwrap();
    let stack = spaces.by_name("stack").unwrap();
    let sp = Address::new(reg, 0x10);
    spaces.set_spacebase(stack, sp, 4);
    let ram = spaces.by_name("ram").unwrap();
    let f = Funcdata::new("t", Address::new(ram, 0), spaces);
    (f, sp, 4)
}

fn seq(f: &Funcdata, off: u64) -> SeqNum {
    let ram = f.spaces.by_name("ram").unwrap();
    SeqNum { pc: Address::new(ram, off), uniq: off as u32 }
}

/// The solver solves a straight chain of stack-pointer adds: each `sp = sp + k` gets the
/// running total, and the input is 0.
#[test]
fn solver_chains_constant_adds() {
    let (mut f, sp, size) = sp_fixture();
    let v0 = f.new_input(size, sp);
    let k = f.new_const(size, 0xfffffffc); // -4
    let add1 = f.new_op(OpCode::IntAdd, seq(&f, 0), vec![v0, k]);
    let v1 = f.new_output(add1, size, sp);
    let k2 = f.new_const(size, 0xfffffff8); // -8
    let add2 = f.new_op(OpCode::IntAdd, seq(&f, 4), vec![v1, k2]);
    f.new_output(add2, size, sp);

    let mut s = StackSolver::default();
    s.build(&f, sp, size).expect("input stack pointer is used");
    assert_eq!(s.vnlist.len(), 3);
    s.solve();
    assert_eq!(s.soln[0], 0);
    assert_eq!(s.soln[1], -4);
    assert_eq!(s.soln[2], -12);
}

/// A COPY of the stack pointer is an equation with rhs 0.
#[test]
fn solver_treats_copy_as_zero_offset() {
    let (mut f, sp, size) = sp_fixture();
    let v0 = f.new_input(size, sp);
    let k = f.new_const(size, 0xfffffff0); // -16
    let add = f.new_op(OpCode::IntAdd, seq(&f, 0), vec![v0, k]);
    let v1 = f.new_output(add, size, sp);
    let cp = f.new_op(OpCode::Copy, seq(&f, 4), vec![v1]);
    f.new_output(cp, size, sp);

    let mut s = StackSolver::default();
    s.build(&f, sp, size).expect("input stack pointer is used");
    s.solve();
    assert_eq!(s.soln[1], -16);
    assert_eq!(s.soln[2], -16, "a COPY carries the offset unchanged");
}

/// An `INT_AND` on the stack pointer (a function aligning its frame) is treated as a copy.
#[test]
fn solver_treats_alignment_and_as_copy() {
    let (mut f, sp, size) = sp_fixture();
    let v0 = f.new_input(size, sp);
    let k = f.new_const(size, 0xfffffff0);
    let and = f.new_op(OpCode::IntAnd, seq(&f, 0), vec![v0, k]);
    f.new_output(and, size, sp);

    let mut s = StackSolver::default();
    s.build(&f, sp, size).expect("input stack pointer is used");
    s.solve();
    assert_eq!(s.soln[1], 0, "alignment is treated as a copy, not an offset");
}

/// An `INDIRECT` on the stack pointer standing for a call with unknown extrapop is rewritten
/// into `sp_input + <solution>`, and the call's recovered stack change is recorded.
#[test]
fn analyze_extra_pop_resolves_indirect_to_add() {
    let (mut f, sp, size) = sp_fixture();
    f.proto_model.extrapop = EXTRAPOP_UNKNOWN;
    let v0 = f.new_input(size, sp);
    let target = f.new_const(4, 0x1000);
    let call = f.new_op(OpCode::Call, seq(&f, 0), vec![target]);
    f.set_call_spec(call, CallSpec::default());
    let ind = f.new_op(OpCode::Indirect, seq(&f, 0), vec![v0]);
    f.op_set_guarded(ind, call);
    let out = f.new_output(ind, size, sp);
    let use_op = f.new_op(OpCode::Copy, seq(&f, 4), vec![out]);
    let reg = f.spaces.by_name("register").unwrap();
    f.new_output(use_op, size, Address::new(reg, 0x40));

    analyze_extra_pop(&mut f, sp, size);

    assert_eq!(f.op(ind).code(), OpCode::IntAdd, "the INDIRECT is resolved to an add");
    assert_eq!(f.op(ind).input(0), Some(v0), "rebased on the stack-pointer input");
    let k = f.op(ind).input(1).expect("the solved constant");
    assert!(f.vn(k).is_constant());
    assert_eq!(f.vn(k).constant_value(), 4, "the guess: the call pops 4 bytes");
    assert_eq!(
        f.call_spec(call).unwrap().effective_extrapop,
        Some(4),
        "the recovered per-call stack change is recorded"
    );
}

/// With a known extrapop there is nothing to solve, so the graph is untouched.
#[test]
fn analyze_extra_pop_is_inert_for_known_extrapop() {
    let (mut f, sp, size) = sp_fixture();
    f.proto_model.extrapop = 8;
    let v0 = f.new_input(size, sp);
    let k = f.new_const(size, 0xfffffffc);
    let add = f.new_op(OpCode::IntAdd, seq(&f, 0), vec![v0, k]);
    f.new_output(add, size, sp);
    let before = f.op(add).input(1);

    analyze_extra_pop(&mut f, sp, size);

    assert_eq!(f.op(add).input(1), before, "a known extrapop needs no linear analysis");
}

/// With no control-flow graph an op has no parent block.
#[test]
fn extra_pop_setup_needs_a_built_cfg() {
    let (mut f, _sp, _size) = sp_fixture();
    let ram = f.spaces.by_name("ram").unwrap();
    let target = f.new_const(4, 0x1000);
    let call = f.new_op(OpCode::Call, SeqNum { pc: Address::new(ram, 0), uniq: 0 }, vec![target]);
    assert_eq!(f.num_blocks(), 0);
    assert_eq!(f.op(call).parent, None, "with no CFG an op has no parent block to insert into");
}

#[test]
fn build_refuses_a_stack_pointer_without_its_input() {
    let (mut f, sp, size) = sp_fixture();
    let reg = f.spaces.by_name("register").unwrap();
    let other = f.new_input(size, Address::new(reg, 0x40));
    let k = f.new_const(size, 4);
    let add = f.new_op(OpCode::IntAdd, seq(&f, 0), vec![other, k]);
    f.new_output(add, size, sp);
    let mut s = StackSolver::new();
    assert_eq!(s.build(&f, sp, size), Err("Input value of stackpointer is not used"));
}

#[test]
fn propagate_keeps_existing_solutions() {
    let mut s = StackSolver::new();
    s.soln = vec![NO_SOLN, 7, NO_SOLN];
    s.eqs = vec![
        lib::stackvars::StackEqn { var1: 0, var2: 1, rhs: 3 },
        lib::stackvars::StackEqn { var1: 0, var2: 2, rhs: 5 },
    ];
    s.propagate(0, 10);
    assert_eq!(s.soln, vec![10, 7, 5]);
}

#[test]
fn duplicate_mirrors_and_orders() {
    let mut s = StackSolver::new();
    s.eqs = vec![lib::stackvars::StackEqn { var1: 2, var2: 0, rhs: 8 }];
    s.duplicate();
    assert_eq!(s.eqs.len(), 2);
    assert_eq!((s.eqs[0].var1, s.eqs[0].var2, s.eqs[0].rhs), (0, 2, -8));
    assert_eq!((s.eqs[1].var1, s.eqs[1].var2, s.eqs[1].rhs), (2, 0, 8));
}

#[test]
fn mask_value_cuts_to_size() {
    assert_eq!(mask_value(0xffff_fffc, 2), 0xfffc);
    assert_eq!(mask_value(u64::MAX, 8), u64::MAX);
    assert_eq!(mask_value(0x1234, 1), 0x34);
}

#[test]
fn stack_ptr_flow_finishes_once() {
    let (mut f, sp, size) = sp_fixture();
    let _v0 = f.new_input(size, sp);
    let mut a = ActionStackPtrFlow::new();
    assert_eq!(a.name(), "stackptrflow");
    assert_eq!(a.apply(&mut f), 0);
    assert!(a.analysis_finished);
    assert_eq!(a.apply(&mut f), 0);
    a.reset(&mut f);
    assert!(!a.analysis_finished);
}

/// Variables the equations do not reach from the input are solved by a guess, and what the
/// guess reaches then follows by the equations.
#[test]
fn a_guess_solves_what_the_equations_cannot_reach() {
    let mut s = StackSolver::new();
    s.vnlist = vec![
        lib::funcdata::VarnodeId(0),
        lib::funcdata::VarnodeId(1),
        lib::funcdata::VarnodeId(2),
        lib::funcdata::VarnodeId(3),
    ];
    // var1 = var0 - 8 ; var3 = var2 - 4 ; and a guess var2 = var1 - 12.
    s.eqs = vec![
        lib::stackvars::StackEqn { var1: 0, var2: 1, rhs: 8 },
        lib::stackvars::StackEqn { var1: 2, var2: 3, rhs: 4 },
    ];
    s.guess = vec![lib::stackvars::StackEqn { var1: 1, var2: 2, rhs: 12 }];
    s.solve();
    assert_eq!(s.soln, vec![0, -8, -20, -24]);
}

/// A variable neither the equations nor a guess reach stays unsolved.
#[test]
fn an_unreached_variable_stays_unsolved() {
    let mut s = StackSolver::new();
    s.vnlist = vec![lib::funcdata::VarnodeId(0), lib::funcdata::VarnodeId(1), lib::funcdata::VarnodeId(2)];
    s.eqs = vec![lib::stackvars::StackEqn { var1: 0, var2: 1, rhs: -4 }];
    s.solve();
    assert_eq!(s.soln, vec![0, 4, NO_SOLN]);
}
