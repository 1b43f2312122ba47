use lib::funcdata::{BlockBasic, BlockId, Funcdata, OpId, SeqNum};
use lib::opcode::OpCode;
use lib::space::{Address, SpaceManager};
use lib::splitflow::{RuleSplitFlow, SplitFlow};

/// An 8-byte value zero-joined into a 16-byte register through a MULTIEQUAL, read back by a
/// high SUBPIECE, splits into low/high 8-byte lanes: the high lane is constant zero, so the high
/// SUBPIECE resolves to a COPY of it.
#[test]
fn rule_splits_a_joined_value_read_by_a_high_subpiece() {
    let spaces = SpaceManager::standard();
    let reg = spaces.by_name("register").unwrap();
    let ram = spaces.by_name("ram").unwrap();
    let mut f = Funcdata::new("t", Address::new(ram, 0), spaces);
    let seq = |u| SeqNum { pc: Address::new(ram, 0), uniq: u };
    // lo:8 = COPY src ; whole:16 = PIECE(#0:8, lo) ; phi:16 = MULTIEQUAL(whole, whole) ;
    // hi:8 = SUBPIECE(phi, #8)   -- the trigger (high half of a joined value).
    let src = f.new_input(8, Address::new(ram, 0x100080));
    let copyop = f.new_op(OpCode::Copy, seq(0), vec![src]);
    let lo = f.new_output(copyop, 8, Address::new(reg, 0x1200));
    let zhi = f.new_const(8, 0);
    let piece = f.new_op(OpCode::Piece, seq(1), vec![zhi, lo]);
    let whole = f.new_output(piece, 16, Address::new(reg, 0x1200));
    let phi = f.new_op(OpCode::Multiequal, seq(2), vec![whole, whole]);
    let phivn = f.new_output(phi, 16, Address::new(reg, 0x1200));
    let eight = f.new_const(4, 8);
    let sub = f.new_op(OpCode::Subpiece, seq(3), vec![phivn, eight]);
    let hi = f.new_output(sub, 8, Address::new(reg, 0x1208));
    // Keep the high lane live so it survives (a use outside the split).
    let sink = f.new_op(OpCode::Copy, seq(4), vec![hi]);
    f.new_output(sink, 8, Address::new(reg, 0x1300));
    f.set_blocks(vec![BlockBasic { ops: vec![copyop, piece, phi, sub, sink], ..Default::default() }]);
    for op in [copyop, piece, phi, sub, sink] {
        f.op_set_parent(op, BlockId(0));
    }

    let n = RuleSplitFlow.apply_op(sub, &mut f);
    assert_eq!(n, 1, "RuleSplitFlow fires on the high SUBPIECE of the joined value");

    // The wide 16-byte PIECE and MULTIEQUAL are destroyed (split into lanes).
    assert!(f.op(piece).is_dead(), "the wide PIECE is split away");
    assert!(f.op(phi).is_dead(), "the wide MULTIEQUAL is split into lanes");
    // The high SUBPIECE is rewritten in place as a COPY of the high 8-byte lane -- the op
    // survives, now reading an 8-byte value, not the 16-byte register.
    assert_eq!(f.op(sub).code(), OpCode::Copy, "the high SUBPIECE becomes a COPY of the high lane");
    let sub_in = f.op(sub).input(0).unwrap();
    assert_eq!(f.vn(sub_in).size, 8, "the rewritten SUBPIECE reads an 8-byte lane");
    // The sink still reads the (now 8-byte-lane-fed) result.
    let sink_in = f.op(sink).input(0).unwrap();
    assert_eq!(f.vn(sink_in).size, 8, "the sink reads an 8-byte lane, not the 16-byte register");
    // No live 16-byte register op survives the split.
    let wide = (0..f.num_ops())
        .map(OpId)
        .filter(|&o| !f.op(o).is_dead())
        .filter(|&o| f.op(o).output.map(|v| f.vn(v).size == 16).unwrap_or(false))
        .count();
    assert_eq!(wide, 0, "no 16-byte register value remains after the split");
}

/// The lanes get their own varnodes at the register's lane addresses, each written by its own
/// op placed where the split op stood.
#[test]
fn split_lanes_sit_at_their_byte_addresses() {
    let spaces = SpaceManager::standard();
    let reg = spaces.by_name("register").unwrap();
    let ram = spaces.by_name("ram").unwrap();
    let mut f = Funcdata::new("t", Address::new(ram, 0), spaces);
    let seq = |u| SeqNum { pc: Address::new(ram, 0), uniq: u };
    let src = f.new_input(8, Address::new(ram, 0x100080));
    let copyop = f.new_op(OpCode::Copy, seq(0), vec![src]);
    let lo = f.new_output(copyop, 8, Address::new(reg, 0x1200));
    let zhi = f.new_const(8, 0);
    let piece = f.new_op(OpCode::Piece, seq(1), vec![zhi, lo]);
    let whole = f.new_output(piece, 16, Address::new(reg, 0x1200));
    let phi = f.new_op(OpCode::Multiequal, seq(2), vec![whole, whole]);
    let phivn = f.new_output(phi, 16, Address::new(reg, 0x1200));
    let eight = f.new_const(4, 8);
    let sub = f.new_op(OpCode::Subpiece, seq(3), vec![phivn, eight]);
    f.new_output(sub, 8, Address::new(reg, 0x1208));
    f.set_blocks(vec![BlockBasic { ops: vec![copyop, piece, phi, sub], ..Default::default() }]);
    for op in [copyop, piece, phi, sub] {
        f.op_set_parent(op, BlockId(0));
    }
    assert_eq!(RuleSplitFlow.apply_op(sub, &mut f), 1);
    let lane = f.op(sub).input(0).unwrap();
    assert_eq!(f.vn(lane).loc, Address::new(reg, 0x1208), "the high lane sits 8 bytes into the register");
    let lane_def = f.vn(lane).def.unwrap();
    assert_eq!(f.op(lane_def).code(), OpCode::Multiequal);
    assert!(!f.op(lane_def).is_dead());
    assert_eq!(f.op(lane_def).num_inputs(), 2);
    let block = &f.blocks[0].ops;
    let at = block.iter().position(|&o| o == lane_def).unwrap();
    let phi_gone = block.iter().all(|&o| o != phi);
    assert!(phi_gone, "the wide MULTIEQUAL left the block");
    assert!(at < block.iter().position(|&o| o == sub).unwrap(), "the lane op comes before its reader");
}

/// A SUBPIECE of the low part does not fire the rule, and changes nothing.
#[test]
fn a_low_subpiece_is_left_alone() {
    let spaces = SpaceManager::standard();
    let reg = spaces.by_name("register").unwrap();
    let ram = spaces.by_name("ram").unwrap();
    let mut f = Funcdata::new("t", Address::new(ram, 0), spaces);
    let seq = |u| SeqNum { pc: Address::new(ram, 0), uniq: u };
    let src = f.new_input(8, Address::new(ram, 0x100080));
    let copyop = f.new_op(OpCode::Copy, seq(0), vec![src]);
    let lo = f.new_output(copyop, 8, Address::new(reg, 0x1200));
    let zhi = f.new_const(8, 0);
    let piece = f.new_op(OpCode::Piece, seq(1), vec![zhi, lo]);
    let whole = f.new_output(piece, 16, Address::new(reg, 0x1200));
    let phi = f.new_op(OpCode::Multiequal, seq(2), vec![whole, whole]);
    let phivn = f.new_output(phi, 16, Address::new(reg, 0x1200));
    let zero = f.new_const(4, 0);
    let sub = f.new_op(OpCode::Subpiece, seq(3), vec![phivn, zero]);
    f.new_output(sub, 8, Address::new(reg, 0x1200));
    let before = f.num_ops();
    assert_eq!(RuleSplitFlow.apply_op(sub, &mut f), 0);
    assert_eq!(f.num_ops(), before);
    assert!(!f.op(piece).is_dead() && !f.op(phi).is_dead());
    assert_eq!(f.op(sub).code(), OpCode::Subpiece);
}

/// A right shift by exactly the low lane's width reads only the high lane: it becomes a zero
/// extension of it.
#[test]
fn a_right_shift_by_the_low_width_extends_the_high_lane() {
    let spaces = SpaceManager::standard();
    let reg = spaces.by_name("register").unwrap();
    let ram = spaces.by_name("ram").unwrap();
    let mut f = Funcdata::new("t", Address::new(ram, 0), spaces);
    let seq = |u| SeqNum { pc: Address::new(ram, 0), uniq: u };
    let src_lo = f.new_input(4, Address::new(ram, 0x100));
    let src_hi = f.new_input(4, Address::new(ram, 0x104));
    let c0 = f.new_op(OpCode::Copy, seq(0), vec![src_lo]);
    let lo = f.new_output(c0, 4, Address::new(reg, 0x0));
    let c1 = f.new_op(OpCode::Copy, seq(1), vec![src_hi]);
    let hi = f.new_output(c1, 4, Address::new(reg, 0x10));
    let piece = f.new_op(OpCode::Piece, seq(2), vec![hi, lo]);
    let whole = f.new_output(piece, 8, Address::new(reg, 0x0));
    let phi = f.new_op(OpCode::Multiequal, seq(3), vec![whole, whole]);
    let phivn = f.new_output(phi, 8, Address::new(reg, 0x0));
    let four = f.new_const(4, 4);
    let sub = f.new_op(OpCode::Subpiece, seq(4), vec![phivn, four]);
    f.new_output(sub, 4, Address::new(reg, 0x4));
    let thirty_two = f.new_const(4, 32);
    let shr = f.new_op(OpCode::IntRight, seq(5), vec![phivn, thirty_two]);
    f.new_output(shr, 8, Address::new(reg, 0x20));
    f.set_blocks(vec![BlockBasic { ops: vec![c0, c1, piece, phi, sub, shr], ..Default::default() }]);
    for op in [c0, c1, piece, phi, sub, shr] {
        f.op_set_parent(op, BlockId(0));
    }
    assert_eq!(RuleSplitFlow.apply_op(sub, &mut f), 1);
    assert_eq!(f.op(shr).code(), OpCode::IntZext, "the shift becomes an extension");
    let lane = f.op(shr).input(0).unwrap();
    assert_eq!(f.vn(lane).size, 4);
    assert_eq!(f.vn(lane).loc, Address::new(reg, 0x4), "the high lane of the 8-byte register");
    assert_eq!(f.op(shr).num_inputs(), 1);
    // The high lane's MULTIEQUAL reads what the PIECE's high part was copied into.
    let lane_def = f.vn(lane).def.unwrap();
    assert_eq!(f.op(lane_def).code(), OpCode::Multiequal);
    let from = f.op(lane_def).input(0).unwrap();
    let copy = f.vn(from).def.unwrap();
    assert_eq!(f.op(copy).code(), OpCode::Copy);
    assert_eq!(f.op(copy).input(0), Some(hi));
}

/// A reader the split cannot pass (here a multiplication) stops the trace, and nothing changes.
#[test]
fn an_unsplittable_reader_stops_the_split() {
    let spaces = SpaceManager::standard();
    let reg = spaces.by_name("register").unwrap();
    let ram = spaces.by_name("ram").unwrap();
    let mut f = Funcdata::new("t", Address::new(ram, 0), spaces);
    let seq = |u| SeqNum { pc: Address::new(ram, 0), uniq: u };
    let src = f.new_input(4, Address::new(ram, 0x100));
    let c0 = f.new_op(OpCode::Copy, seq(0), vec![src]);
    let lo = f.new_output(c0, 4, Address::new(reg, 0x0));
    let z = f.new_const(4, 0);
    let piece = f.new_op(OpCode::Piece, seq(1), vec![z, lo]);
    let whole = f.new_output(piece, 8, Address::new(reg, 0x0));
    let phi = f.new_op(OpCode::Multiequal, seq(2), vec![whole, whole]);
    let phivn = f.new_output(phi, 8, Address::new(reg, 0x0));
    let four = f.new_const(4, 4);
    let sub = f.new_op(OpCode::Subpiece, seq(3), vec![phivn, four]);
    f.new_output(sub, 4, Address::new(reg, 0x4));
    let three = f.new_const(8, 3);
    let mul = f.new_op(OpCode::IntMult, seq(4), vec![phivn, three]);
    f.new_output(mul, 8, Address::new(reg, 0x20));
    let before = f.num_ops();
    assert_eq!(RuleSplitFlow.apply_op(sub, &mut f), 0);
    assert_eq!(f.num_ops(), before);
    assert!(!f.op(piece).is_dead() && !f.op(phi).is_dead());
    assert_eq!(f.op(sub).code(), OpCode::Subpiece);
}

/// A value written by a PIECE of two lane-sized halves and read only by a SUBPIECE of its high
/// lane traces on its own: the trace succeeds, leaves nothing queued and no varnode marked.
#[test]
fn split_trace_of_a_lone_piece_succeeds() {
    let spaces = SpaceManager::standard();
    let reg = spaces.by_name("register").unwrap();
    let ram = spaces.by_name("ram").unwrap();
    let mut f = Funcdata::new("t", Address::new(ram, 0), spaces);
    let seq = |u| SeqNum { pc: Address::new(ram, 0), uniq: u };
    let src = f.new_input(8, Address::new(ram, 0x100080));
    let copyop = f.new_op(OpCode::Copy, seq(0), vec![src]);
    let lo = f.new_output(copyop, 8, Address::new(reg, 0x1200));
    let zhi = f.new_const(8, 0);
    let piece = f.new_op(OpCode::Piece, seq(1), vec![zhi, lo]);
    let whole = f.new_output(piece, 16, Address::new(reg, 0x1200));
    let eight = f.new_const(4, 8);
    let sub = f.new_op(OpCode::Subpiece, seq(2), vec![whole, eight]);
    f.new_output(sub, 8, Address::new(reg, 0x1208));
    let mut sf = SplitFlow::new(&f, whole, 8);
    assert!(sf.do_trace(&f), "a PIECE read by a high SUBPIECE traces");
    assert!(sf.worklist.is_empty());
    assert!(sf.marks.iter().all(|m| m.is_none()));
}
