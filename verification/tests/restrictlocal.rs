use lib::fspec::{EffectKind, EffectRecord};
use lib::funcdata::{Funcdata, SeqNum};
use lib::opcode::OpCode;
use lib::restrictlocal::ActionRestrictLocal;
use lib::space::{Address, SpaceManager};

/// A function saving the input register at `reg_off` to the stack slot at `slot`.
fn saving(reg_off: u64, slot: u64, effect: EffectKind, unaffected: bool) -> Funcdata {
    let spaces = SpaceManager::standard();
    let ram = spaces.by_name("ram").unwrap();
    let mut f = Funcdata::new("t", Address::new(ram, 0), spaces);
    let reg = f.spaces.by_name("register").unwrap();
    let stack = f.spaces.by_name("stack").unwrap();
    f.proto_model.effectlist.push(EffectRecord { offset: reg_off, size: 8, effect });
    let saved = f.new_input(8, Address::new(reg, reg_off));
    f.vns[saved.0].unaffected = unaffected;
    let copy = f.new_op(OpCode::Copy, SeqNum { pc: Address::new(ram, 0), uniq: 0 }, vec![saved]);
    f.new_output(copy, 8, Address::new(stack, slot));
    f
}

#[test]
fn restrictlocal_carves_out_a_saved_register_slot() {
    let mut f = saving(0x28, 0xffff_fff8, EffectKind::Unaffected, true);
    let stack = f.spaces.by_name("stack").unwrap();
    assert_eq!(ActionRestrictLocal.apply(&mut f), 0);
    assert_eq!(f.not_mapped, vec![(stack, 0xffff_fff8, 8)]);
}

#[test]
fn restrictlocal_ignores_a_register_calls_may_overwrite() {
    let mut f = saving(0x28, 0xffff_fff8, EffectKind::KilledByCall, true);
    assert_eq!(ActionRestrictLocal.apply(&mut f), 0);
    assert!(f.not_mapped.is_empty());
}

#[test]
fn restrictlocal_ignores_an_input_not_known_preserved() {
    let mut f = saving(0x28, 0xffff_fff8, EffectKind::Unaffected, false);
    assert_eq!(ActionRestrictLocal.apply(&mut f), 0);
    assert!(f.not_mapped.is_empty());
}
