use lib::funcdata::{BlockBasic, BlockId, Funcdata, SeqNum};
use lib::opcode::OpCode;
use lib::ptrarith::{
    sext_const, sign_extend, uintb_negate, RulePtrArith, RulePtraddUndo, RulePtrsubUndo, RulePushPtr,
};
use lib::space::{Address, SpaceManager};
use lib::types::Datatype;

/// A function with type recovery started.
fn fd() -> (Funcdata, Address) {
    let spaces = SpaceManager::standard();
    let ram = spaces.by_name("ram").unwrap();
    let mut f = Funcdata::new("t", Address::new(ram, 0), spaces);
    f.start_type_recovery();
    (f, Address::new(ram, 0))
}

#[test]
fn ptrsub_undo_converts_when_base_is_not_a_pointer() {
    let (mut f, ram) = fd();
    let reg = f.spaces.by_name("register").unwrap();
    let seq = SeqNum { pc: ram, uniq: 0 };
    let base = f.new_input(8, Address::new(reg, 0x10));
    f.vn_update_type(base, Datatype::Uint(8));
    let off = f.new_const(8, 0x10);
    let sub = f.new_op(OpCode::Ptrsub, seq, vec![base, off]);
    f.new_output_unique(sub, 8);
    f.set_blocks(vec![BlockBasic { ops: vec![sub], ..Default::default() }]);
    f.op_set_parent(sub, BlockId(0));
    assert_eq!(RulePtrsubUndo.apply_op(sub, &mut f), 1);
    assert_eq!(f.op(sub).code(), OpCode::IntAdd);
    assert_eq!(f.vn(f.op(sub).input(1).unwrap()).constant_value(), 0x10);
}

#[test]
fn sext_const_reads_a_stack_offset_as_negative() {
    assert_eq!(sext_const(0xffff_ffe6, 4), -26, "0xffffffe6 is -26, not 4294967270");
    assert_eq!(sext_const(0x10, 4), 16);
    assert_eq!(sext_const(0xffff_ffff_ffff_ffe6, 8), -26);
}

#[test]
fn ptrsub_undo_declines_a_negative_stack_offset() {
    let (mut f, ram) = fd();
    let spaces_stack = f.spaces.by_name("stack").unwrap();
    let seq = SeqNum { pc: ram, uniq: 0 };
    let reg = f.spaces.by_name("register").unwrap();
    let base = f.new_input(4, Address::new(reg, 0x20));
    f.vn_update_type(base, Datatype::Pointer(4, Box::new(Datatype::Spacebase(spaces_stack))));
    let off = f.new_const(4, 0xffff_ffe6); // -26
    let sub = f.new_op(OpCode::Ptrsub, seq, vec![base, off]);
    f.new_output_unique(sub, 4);
    f.set_blocks(vec![BlockBasic { ops: vec![sub], ..Default::default() }]);
    f.op_set_parent(sub, BlockId(0));
    assert_eq!(RulePtrsubUndo.apply_op(sub, &mut f), 0, "a negative frame offset is valid");
    assert_eq!(f.op(sub).code(), OpCode::Ptrsub);
}

#[test]
fn ptrsub_undo_declines_before_type_recovery() {
    let spaces = SpaceManager::standard();
    let ram_space = spaces.by_name("ram").unwrap();
    let ram = Address::new(ram_space, 0);
    let mut f = Funcdata::new("t", ram, spaces);
    let reg = f.spaces.by_name("register").unwrap();
    let seq = SeqNum { pc: ram, uniq: 0 };
    let base = f.new_input(8, Address::new(reg, 0x10));
    f.vn_update_type(base, Datatype::Uint(8));
    let off = f.new_const(8, 0x10);
    let sub = f.new_op(OpCode::Ptrsub, seq, vec![base, off]);
    f.new_output_unique(sub, 8);
    f.set_blocks(vec![BlockBasic { ops: vec![sub], ..Default::default() }]);
    f.op_set_parent(sub, BlockId(0));
    assert_eq!(RulePtrsubUndo.apply_op(sub, &mut f), 0);
    assert_eq!(f.op(sub).code(), OpCode::Ptrsub);
}

#[test]
fn ptrsub_undo_lumps_the_constant_added_below_it() {
    let (mut f, ram) = fd();
    let reg = f.spaces.by_name("register").unwrap();
    let seq = |u: u32| SeqNum { pc: ram, uniq: u };
    let base = f.new_input(8, Address::new(reg, 0x10));
    f.vn_update_type(base, Datatype::Uint(8));
    let off = f.new_const(8, 0x10);
    let sub = f.new_op(OpCode::Ptrsub, seq(0), vec![base, off]);
    let sub_out = f.new_output_unique(sub, 8);
    let four = f.new_const(8, 4);
    let add = f.new_op(OpCode::IntAdd, seq(1), vec![sub_out, four]);
    f.new_output_unique(add, 8);
    f.set_blocks(vec![BlockBasic { ops: vec![sub, add], ..Default::default() }]);
    f.op_set_parent(sub, BlockId(0));
    f.op_set_parent(add, BlockId(0));
    assert_eq!(RulePtrsubUndo.apply_op(sub, &mut f), 1);
    assert_eq!(f.op(sub).code(), OpCode::IntAdd);
    assert_eq!(f.vn(f.op(sub).input(1).unwrap()).constant_value(), 0x14);
    assert_eq!(f.op(add).code(), OpCode::Copy);
    assert_eq!(f.op(add).num_inputs(), 1);
}

#[test]
fn ptradd_undo_keeps_a_fitting_pointer() {
    let (mut f, ram) = fd();
    let reg = f.spaces.by_name("register").unwrap();
    let seq = SeqNum { pc: ram, uniq: 0 };
    let base = f.new_input(8, Address::new(reg, 0x10));
    f.vn_update_type(base, Datatype::Pointer(8, Box::new(Datatype::Int(4))));
    let idx = f.new_input(8, Address::new(reg, 0x18));
    let four = f.new_const(8, 4);
    let pa = f.new_op(OpCode::Ptradd, seq, vec![base, idx, four]);
    f.new_output_unique(pa, 8);
    assert_eq!(RulePtraddUndo.apply_op(pa, &mut f), 0);
    assert_eq!(f.op(pa).code(), OpCode::Ptradd);
}

#[test]
fn ptradd_undo_scales_a_mismatched_constant_index() {
    let (mut f, ram) = fd();
    let reg = f.spaces.by_name("register").unwrap();
    let seq = SeqNum { pc: ram, uniq: 0 };
    let base = f.new_input(8, Address::new(reg, 0x10));
    f.vn_update_type(base, Datatype::Pointer(8, Box::new(Datatype::Int(2))));
    let idx = f.new_const(8, 3);
    let four = f.new_const(8, 4);
    let pa = f.new_op(OpCode::Ptradd, seq, vec![base, idx, four]);
    f.new_output_unique(pa, 8);
    assert_eq!(RulePtraddUndo.apply_op(pa, &mut f), 1);
    assert_eq!(f.op(pa).code(), OpCode::IntAdd);
    assert_eq!(f.op(pa).num_inputs(), 2);
    assert_eq!(f.vn(f.op(pa).input(1).unwrap()).constant_value(), 12);
}

#[test]
fn ptradd_undo_multiplies_a_variable_index() {
    let (mut f, ram) = fd();
    let reg = f.spaces.by_name("register").unwrap();
    let seq = SeqNum { pc: ram, uniq: 0 };
    let base = f.new_input(8, Address::new(reg, 0x10));
    f.vn_update_type(base, Datatype::Uint(8));
    let idx = f.new_input(8, Address::new(reg, 0x18));
    let four = f.new_const(8, 4);
    let pa = f.new_op(OpCode::Ptradd, seq, vec![base, idx, four]);
    f.new_output_unique(pa, 8);
    f.set_blocks(vec![BlockBasic { ops: vec![pa], ..Default::default() }]);
    f.op_set_parent(pa, BlockId(0));
    assert_eq!(RulePtraddUndo.apply_op(pa, &mut f), 1);
    assert_eq!(f.op(pa).code(), OpCode::IntAdd);
    let scaled = f.op(pa).input(1).unwrap();
    let mult = f.vn(scaled).def.unwrap();
    assert_eq!(f.op(mult).code(), OpCode::IntMult);
    assert_eq!(f.op(mult).input(0), Some(idx));
    assert_eq!(f.op(mult).input(1), Some(four));
    assert_eq!(f.block(BlockId(0)).ops, vec![mult, pa]);
}

#[test]
fn sign_extend_and_negate() {
    assert_eq!(sign_extend(0x80, 7), -128);
    assert_eq!(sign_extend(0x7f, 7), 127);
    assert_eq!(sign_extend(0x1_0000_0080, 7), -128);
    assert_eq!(sign_extend(u64::MAX, 63), -1);
    assert_eq!(uintb_negate(0, 2), 0xffff);
    assert_eq!(uintb_negate(uintb_negate(0x1234_5678, 2), 2), 0x5678);
}

/// `p + x` read by a LOAD, with `p` a pointer to `pointee`; returns the sum and its output.
fn loaded_sum(f: &mut Funcdata, ram: Address, pointee: Datatype, x: lib::funcdata::VarnodeId) -> (lib::funcdata::OpId, lib::funcdata::VarnodeId, lib::funcdata::VarnodeId) {
    let reg = f.spaces.by_name("register").unwrap();
    let p = f.new_input(8, Address::new(reg, 0x38));
    f.vn_update_type(p, Datatype::Pointer(8, Box::new(pointee)));
    let add = f.new_op(OpCode::IntAdd, SeqNum { pc: ram, uniq: 1 }, vec![p, x]);
    let out = f.new_output_unique(add, 8);
    let spc = f.new_const(8, 1);
    let load = f.new_op(OpCode::Load, SeqNum { pc: ram, uniq: 2 }, vec![spc, out]);
    f.new_output_unique(load, 4);
    f.set_blocks(vec![BlockBasic { ops: vec![add, load], ..Default::default() }]);
    f.op_set_parent(add, BlockId(0));
    f.op_set_parent(load, BlockId(0));
    (add, out, p)
}

#[test]
fn ptrarith_turns_a_scaled_index_into_ptradd() {
    let (mut f, ram) = fd();
    let reg = f.spaces.by_name("register").unwrap();
    let i = f.new_input(8, Address::new(reg, 0x08));
    let four = f.new_const(8, 4);
    let mul = f.new_op(OpCode::IntMult, SeqNum { pc: ram, uniq: 0 }, vec![i, four]);
    let m = f.new_output_unique(mul, 8);
    let (add, out, p) = loaded_sum(&mut f, ram, Datatype::Int(4), m);
    assert_eq!(RulePtrArith.apply_op(add, &mut f), 1);
    assert!(f.op(add).is_dead());
    let w = f.vn(out).def.unwrap();
    assert_eq!(f.op(w).code(), OpCode::Ptradd);
    assert_eq!(f.op(w).input(0), Some(p));
    assert_eq!(f.op(w).input(1), Some(i));
    assert_eq!(f.vn(f.op(w).input(2).unwrap()).constant_value(), 4);
}

#[test]
fn ptrarith_turns_a_field_offset_into_ptrsub() {
    let (mut f, ram) = fd();
    let c = f.new_const(8, 4);
    let (add, out, p) = loaded_sum(&mut f, ram, Datatype::Struct(16), c);
    assert_eq!(RulePtrArith.apply_op(add, &mut f), 1);
    assert!(f.op(add).is_dead());
    let w = f.vn(out).def.unwrap();
    assert_eq!(f.op(w).code(), OpCode::Ptrsub);
    assert_eq!(f.op(w).input(0), Some(p));
    assert_eq!(f.vn(f.op(w).input(1).unwrap()).constant_value(), 4);
}

#[test]
fn ptrarith_makes_a_byte_pointer_sum_a_single_ptradd() {
    let (mut f, ram) = fd();
    let reg = f.spaces.by_name("register").unwrap();
    let i = f.new_input(8, Address::new(reg, 0x08));
    let (add, out, p) = loaded_sum(&mut f, ram, Datatype::Char, i);
    f.vn_update_type(out, Datatype::Pointer(8, Box::new(Datatype::Char)));
    assert_eq!(RulePtrArith.apply_op(add, &mut f), 1);
    assert_eq!(f.op(add).code(), OpCode::Ptradd);
    assert_eq!(f.op(add).input(0), Some(p));
    assert_eq!(f.op(add).input(1), Some(i));
    assert_eq!(f.vn(f.op(add).input(2).unwrap()).constant_value(), 1);
}

#[test]
fn ptrarith_waits_for_type_recovery() {
    let spaces = SpaceManager::standard();
    let ram_space = spaces.by_name("ram").unwrap();
    let ram = Address::new(ram_space, 0);
    let mut f = Funcdata::new("t", ram, spaces);
    let c = f.new_const(8, 4);
    let (add, _, _) = loaded_sum(&mut f, ram, Datatype::Struct(16), c);
    assert_eq!(RulePtrArith.apply_op(add, &mut f), 0);
    assert_eq!(f.op(add).code(), OpCode::IntAdd);
    assert!(!f.op(add).is_dead());
}

#[test]
fn pushptr_adds_the_pointer_last() {
    let (mut f, ram) = fd();
    let reg = f.spaces.by_name("register").unwrap();
    let p = f.new_input(8, Address::new(reg, 0x38));
    f.vn_update_type(p, Datatype::Pointer(8, Box::new(Datatype::Int(4))));
    let eight = f.new_const(8, 8);
    let j = f.new_input(8, Address::new(reg, 0x08));
    let a = f.new_op(OpCode::IntAdd, SeqNum { pc: ram, uniq: 0 }, vec![p, eight]);
    let a_out = f.new_output_unique(a, 8);
    let b = f.new_op(OpCode::IntAdd, SeqNum { pc: ram, uniq: 1 }, vec![a_out, j]);
    f.new_output_unique(b, 8);
    f.set_blocks(vec![BlockBasic { ops: vec![a, b], ..Default::default() }]);
    f.op_set_parent(a, BlockId(0));
    f.op_set_parent(b, BlockId(0));
    assert_eq!(RulePushPtr.apply_op(a, &mut f), 1);
    assert!(f.op(a).is_dead());
    assert_eq!(f.op(b).input(0), Some(p));
    let inner = f.vn(f.op(b).input(1).unwrap()).def.unwrap();
    assert_eq!(f.op(inner).code(), OpCode::IntAdd);
    assert_eq!(f.op(inner).input(0), Some(j));
    assert_eq!(f.op(inner).input(1), Some(eight));
    assert!(f.descend(a_out).is_empty());
}

#[test]
fn pushptr_leaves_a_sum_that_is_loaded_from() {
    let (mut f, ram) = fd();
    let c = f.new_const(8, 4);
    let (add, _, _) = loaded_sum(&mut f, ram, Datatype::Int(4), c);
    assert_eq!(RulePushPtr.apply_op(add, &mut f), 0);
    assert!(!f.op(add).is_dead());
}
