use lib::funcdata::{BlockBasic, BlockId, Funcdata, OpId, SeqNum};
use lib::opcode::OpCode;
use lib::printc::{
    inherits_sign, inherits_sign_first_only, is_moveable, is_subpiece_cast, most_natural_base, op_flip_normalizes,
    push_char_constant, render_const, render_const_unsigned, widen_to_storage,
};
use lib::space::{Address, SpaceManager};
use lib::types::Datatype;

/// Character constants render as C character literals, escapes included.
#[test]
fn char_constants_render_as_c_character_literals() {
    for (val, want) in [
        (0u64, "'\\0'"),
        (7, "'\\a'"),
        (8, "'\\b'"),
        (9, "'\\t'"),
        (10, "'\\n'"),
        (11, "'\\v'"),
        (12, "'\\f'"),
        (13, "'\\r'"),
        (92, "'\\\\'"),
        (0x22, "'\\\"'"),
        (0x27, "'\\''"),
    ] {
        assert_eq!(push_char_constant(val, 1).as_deref(), Some(want), "val={val:#x}");
    }
    assert_eq!(push_char_constant(1, 1).as_deref(), Some("'\\x01'"));
    assert_eq!(push_char_constant(0x1f, 1).as_deref(), Some("'\\x1f'"));
    assert_eq!(push_char_constant(0x7f, 1).as_deref(), Some("'\\x7f'"));
    assert_eq!(push_char_constant(0x41, 1).as_deref(), Some("'A'"));
    assert_eq!(push_char_constant(0x20, 1).as_deref(), Some("' '"));
    assert_eq!(push_char_constant(0x7e, 1).as_deref(), Some("'~'"));
    assert_eq!(push_char_constant(0x80, 1), None);
    assert_eq!(push_char_constant(0xff, 1), None);
}

#[test]
fn wide_char_constants_use_wider_escapes() {
    assert_eq!(push_char_constant(0x141, 2).as_deref(), Some("'\\x0141'"));
    assert_eq!(push_char_constant(0x1f600, 4).as_deref(), Some("'\\x0001f600'"));
    assert_eq!(push_char_constant(0x1_0041, 1).as_deref(), Some("'A'"));
    assert_eq!(push_char_constant(0xe9, 2).as_deref(), Some("'\u{e9}'"));
}

#[test]
fn constants_print_in_their_most_natural_base() {
    assert_eq!(render_const(5, 4), "5");
    assert_eq!(render_const(10, 4), "10");
    assert_eq!(render_const(0x10, 4), "0x10");
    assert_eq!(render_const(100, 4), "100");
    assert_eq!(render_const(0x12345, 4), "0x12345");
    assert_eq!(render_const(0xffff_ffff, 4), "-1");
    assert_eq!(render_const(0xffff_fff0, 4), "-0x10");
    assert_eq!(render_const(0xffff_ff9c, 4), "-100");
    assert_eq!(render_const(0xffff_0000, 4), "0xffff0000");
    assert_eq!(render_const(u64::MAX, 8), "-1");
}

#[test]
fn round_numbers_read_best_in_decimal() {
    assert_eq!(most_natural_base(0), 10);
    assert_eq!(most_natural_base(10), 10);
    assert_eq!(most_natural_base(20), 16);
    assert_eq!(most_natural_base(19), 16);
    assert_eq!(most_natural_base(99), 10);
    assert_eq!(most_natural_base(999), 10);
    assert_eq!(most_natural_base(1000), 10);
    assert_eq!(most_natural_base(1100), 16);
    assert_eq!(most_natural_base(0x10), 16);
}

#[test]
fn unsigned_constants_carry_a_u_suffix() {
    assert_eq!(render_const_unsigned(7, 4), "7U");
    assert_eq!(render_const_unsigned(0x1ff, 1), "0xffU");
    assert_eq!(render_const_unsigned(0x10, 8), "0x10U");
}

#[test]
fn widening_to_storage_keeps_the_kind_of_integer() {
    assert!(matches!(widen_to_storage(&Datatype::Char, 4), Datatype::Int(4)));
    assert!(matches!(widen_to_storage(&Datatype::Uint(2), 4), Datatype::Uint(4)));
    assert!(matches!(widen_to_storage(&Datatype::Unknown(1), 4), Datatype::Unknown(4)));
    assert!(matches!(widen_to_storage(&Datatype::Float(4), 8), Datatype::Float(4)));
    assert!(matches!(widen_to_storage(&Datatype::Int(8), 4), Datatype::Int(8)));
    assert!(matches!(widen_to_storage(&Datatype::Int(2), 0), Datatype::Int(2)));
}

#[test]
fn subpieces_print_as_casts_only_from_the_bottom_of_a_scalar() {
    let p = |n| Datatype::Pointer(n, Box::new(Datatype::Int(4)));
    assert!(is_subpiece_cast(&Datatype::Int(4), &Datatype::Int(8), 0));
    assert!(!is_subpiece_cast(&Datatype::Int(4), &Datatype::Int(8), 4));
    assert!(is_subpiece_cast(&Datatype::Float(4), &Datatype::Uint(8), 0));
    assert!(is_subpiece_cast(&p(4), &p(8), 0));
    assert!(!is_subpiece_cast(&p(8), &p(8), 0));
    assert!(is_subpiece_cast(&Datatype::Uint(4), &p(8), 0));
    assert!(!is_subpiece_cast(&Datatype::Float(4), &p(8), 0));
    assert!(!is_subpiece_cast(&Datatype::Int(4), &Datatype::Bool, 0));
}

#[test]
fn integer_operations_pass_their_sign_to_constants() {
    assert!(inherits_sign(OpCode::IntAdd));
    assert!(inherits_sign(OpCode::IntSless));
    assert!(!inherits_sign(OpCode::Copy));
    assert!(!inherits_sign(OpCode::FloatAdd));
    assert!(inherits_sign_first_only(OpCode::IntLeft));
    assert!(inherits_sign_first_only(OpCode::IntSrem));
    assert!(!inherits_sign_first_only(OpCode::IntAdd));
}

#[test]
fn flipping_a_conjunction_follows_its_first_operand() {
    let spaces = SpaceManager::standard();
    let ram = spaces.by_name("ram").unwrap();
    let mut f = Funcdata::new("t", Address::new(ram, 0), spaces);
    let reg = f.spaces.by_name("register").unwrap();
    let seq = SeqNum { pc: Address::new(ram, 0), uniq: 0 };
    let x = f.new_input(4, Address::new(reg, 0));
    let y = f.new_input(4, Address::new(reg, 8));
    let ne = f.new_op(OpCode::IntNotequal, seq, vec![x, y]);
    let a = f.new_output(ne, 1, Address::new(reg, 0x100));
    let c = f.new_const(4, 3);
    let less = f.new_op(OpCode::IntLess, seq, vec![x, c]);
    let b = f.new_output(less, 1, Address::new(reg, 0x101));
    let and = f.new_op(OpCode::BoolAnd, seq, vec![a, b]);
    f.new_output(and, 1, Address::new(reg, 0x102));
    assert_eq!(op_flip_normalizes(&f, ne), 0);
    assert_eq!(op_flip_normalizes(&f, less), 1);
    assert_eq!(op_flip_normalizes(&f, and), 0);
    let eq = f.new_op(OpCode::IntEqual, seq, vec![x, y]);
    assert_eq!(op_flip_normalizes(&f, eq), 1);
    let copy = f.new_op(OpCode::Copy, seq, vec![a]);
    assert_eq!(op_flip_normalizes(&f, copy), 2);
    assert_eq!(op_flip_normalizes(&f, and), 2, "its first operand now has a second reader");
}

/// One block: `a = x + 1 ; b = COPY y ; call ; c = COPY b ; d = COPY a`, with `x`, `y` inputs in
/// registers. Returns the function and the ops in block order.
fn movement_block(tie_a: bool) -> (Funcdata, Vec<OpId>) {
    let spaces = SpaceManager::standard();
    let reg = spaces.by_name("register").unwrap();
    let ram = spaces.by_name("ram").unwrap();
    let mut f = Funcdata::new("t", Address::new(ram, 0), spaces);
    let seq = |u| SeqNum { pc: Address::new(ram, u), uniq: u as u32 };
    let x = f.new_input(8, Address::new(reg, 0x0));
    let y = f.new_input(8, Address::new(reg, 0x8));
    let one = f.new_const(8, 1);
    let a = f.new_op(OpCode::IntAdd, seq(0), vec![x, one]);
    let av = f.new_output(a, 8, Address::new(reg, 0x10));
    if tie_a {
        f.vns[av.0].addrtied = true;
    }
    let b = f.new_op(OpCode::Copy, seq(1), vec![y]);
    let bv = f.new_output(b, 8, Address::new(reg, 0x18));
    let target = f.new_const(8, 0x401000);
    let call = f.new_op(OpCode::Call, seq(2), vec![target]);
    let c = f.new_op(OpCode::Copy, seq(3), vec![bv]);
    f.new_output(c, 8, Address::new(reg, 0x20));
    let d = f.new_op(OpCode::Copy, seq(4), vec![av]);
    f.new_output(d, 8, Address::new(reg, 0x28));
    let order = vec![a, b, call, c, d];
    f.set_blocks(vec![BlockBasic { ops: order.clone(), ..Default::default() }]);
    for &op in &order {
        f.op_set_parent(op, BlockId(0));
    }
    (f, order)
}

/// An ordinary op moves down past a CALL to just before a point its output is not read
/// before; it may not move past its own reader, nor up, and any op may stay where it is.
#[test]
fn an_untied_op_moves_down_to_its_use() {
    let (f, ops) = movement_block(false);
    let (a, b, c, d) = (ops[0], ops[1], ops[3], ops[4]);
    assert!(is_moveable(&f, a, c), "past a copy and a call, reader still ahead");
    assert!(is_moveable(&f, a, d) == false, "the point reads the output");
    assert!(is_moveable(&f, c, a) == false, "ops do not move up");
    assert!(is_moveable(&f, b, b), "no movement is always possible");
}

/// An op writing address-tied storage may not cross a CALL.
#[test]
fn a_tied_output_does_not_cross_a_call() {
    let (f, ops) = movement_block(true);
    assert!(is_moveable(&f, ops[0], ops[1]), "before the call it still moves");
    assert!(is_moveable(&f, ops[0], ops[3]) == false, "the call stops it");
}

/// A CALL itself never moves, and nothing moves between blocks.
#[test]
fn special_ops_and_other_blocks_stop_the_move() {
    let (mut f, ops) = movement_block(false);
    assert!(is_moveable(&f, ops[2], ops[3]) == false, "a call is special");
    f.set_blocks(vec![
        BlockBasic { ops: vec![ops[0], ops[1], ops[2]], ..Default::default() },
        BlockBasic { ops: vec![ops[3], ops[4]], ..Default::default() },
    ]);
    f.op_set_parent(ops[3], BlockId(1));
    f.op_set_parent(ops[4], BlockId(1));
    assert!(is_moveable(&f, ops[0], ops[3]) == false, "different blocks");
}
