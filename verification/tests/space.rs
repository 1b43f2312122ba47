use lib::space::{Address, Range, RangeList, SpaceId, SpaceKind, SpaceManager};

/// The standard x86-64 space set carries the heritage delays: registers (and the
/// const/unique spaces) at pass 0, `ram`/`stack` at pass 1. `deadcodedelay` mirrors `delay`.
#[test]
fn standard_space_delays_match_ghidra() {
    let m = SpaceManager::standard();
    for (name, delay, heritaged) in [
        ("const", 0, false),
        ("register", 0, true),
        ("ram", 1, true),
        ("unique", 0, true),
        ("stack", 1, true),
    ] {
        let s = m.get(m.by_name(name).unwrap());
        assert_eq!(s.delay, delay, "{name} delay");
        assert_eq!(s.deadcodedelay, delay, "{name} deadcodedelay");
        assert_eq!(s.is_heritaged(), heritaged, "{name} heritaged");
    }
}

/// The standard space set registers RSP `(register:0x20, 8)` as the `stack` space's spacebase
/// register, and `space_by_spacebase` resolves it.
#[test]
fn stack_spacebase_register_registered() {
    let m = SpaceManager::standard();
    let register = m.by_name("register").unwrap();
    let stack = m.by_name("stack").unwrap();
    let rsp = Address::new(register, 0x20);
    assert_eq!(m.get(stack).spacebase, vec![(rsp, 8)]);
    assert_eq!(m.space_by_spacebase(rsp, 8), Some(stack));
    assert_eq!(m.space_by_spacebase(rsp, 4), None);
    assert_eq!(m.space_by_spacebase(Address::new(register, 0), 8), None);
}

#[test]
fn range_list_insert_then_query() {
    let mut r = RangeList::new();
    assert!(r.is_empty());
    let s = SpaceId(1);
    r.insert_range(s, 0x10, 0x1f);
    assert!(r.in_range(Address::new(s, 0x10), 16));
    assert!(r.in_range(Address::new(s, 0x18), 8));
    assert!(!r.in_range(Address::new(s, 0x18), 9));
    assert!(!r.in_range(Address::new(SpaceId(2), 0x10), 1));
    r.insert_range(s, 0x18, 0x2f);
    assert!(r.in_range(Address::new(s, 0x10), 0x20));
    assert_eq!(r.iter().count(), 1);
}

#[test]
fn range_list_remove_splits() {
    let mut r = RangeList::new();
    let s = SpaceId(1);
    r.insert_range(s, 0, 0xff);
    r.remove_range(s, 0x40, 0x4f);
    assert!(r.in_range(Address::new(s, 0), 0x40));
    assert!(!r.in_range(Address::new(s, 0x40), 1));
    assert!(!r.in_range(Address::new(s, 0x4f), 1));
    assert!(r.in_range(Address::new(s, 0x50), 0xb0));
    assert_eq!(r.iter().count(), 2);
    r.remove_range(s, 0, 0xff);
    assert!(r.is_empty());
}

#[test]
fn wrap_offset_folds_into_the_space() {
    let m = SpaceManager::standard();
    let reg = m.get(m.by_name("register").unwrap());
    assert_eq!(reg.highest(), 0xffff_ffff);
    assert_eq!(reg.wrap_offset(0x10), 0x10);
    assert_eq!(reg.wrap_offset(0x1_0000_0010), 0x10);
    let ram = m.get(m.by_name("ram").unwrap());
    assert_eq!(ram.wrap_offset(u64::MAX), u64::MAX);
}

#[test]
fn add_registers_once_per_name() {
    let mut m = SpaceManager::standard();
    let n = m.num_spaces();
    let again = m.add("ram", SpaceKind::Processor, 4, 1);
    assert_eq!(Some(again), m.by_name("ram"));
    assert_eq!(m.num_spaces(), n);
    let other = m.add("other", SpaceKind::Processor, 4, 1);
    assert_eq!(other, SpaceId(n as u32));
    assert_eq!(m.get(other).delay, 1);
    assert!(!m.is_big_endian(other));
    m.set_big_endian(true);
    assert!(m.is_big_endian(other));
}

#[test]
fn justified_contain_little_endian() {
    let m = SpaceManager::standard();
    let reg = m.by_name("register").unwrap();
    assert_eq!(m.justified_contain(Address::new(reg, 0), 8, Address::new(reg, 4), 4, false), Some(4));
    assert_eq!(m.justified_contain(Address::new(reg, 0), 8, Address::new(reg, 6), 4, false), None);
}

#[test]
fn range_list_merges_adjacent_ranges() {
    let s = SpaceId(1);
    let mut l = RangeList::new();
    l.insert_range(s, 0, 4);
    l.insert_range(s, 5, 9);
    assert_eq!(l.iter().copied().collect::<Vec<_>>(), vec![Range { spc: s, first: 0, last: 9 }]);
    l.insert_range(s, 11, 12);
    assert_eq!(l.iter().count(), 2);
    l.insert_range(s, 10, 10);
    assert_eq!(l.iter().copied().collect::<Vec<_>>(), vec![Range { spc: s, first: 0, last: 12 }]);
}

#[test]
fn range_list_insert_absorbs_touched_ranges() {
    let s = SpaceId(1);
    let mut l = RangeList::new();
    l.insert_range(s, 0x10, 0x1f);
    l.insert_range(s, 0x18, 0x2f);
    l.insert_range(s, 0x40, 0x4f);
    assert_eq!(
        l.iter().copied().collect::<Vec<_>>(),
        vec![Range { spc: s, first: 0x10, last: 0x2f }, Range { spc: s, first: 0x40, last: 0x4f }]
    );
    l.insert_range(s, 0x28, 0x44);
    assert_eq!(l.iter().copied().collect::<Vec<_>>(), vec![Range { spc: s, first: 0x10, last: 0x4f }]);
}

#[test]
fn range_list_remove_narrows_both_sides() {
    let s = SpaceId(1);
    let mut l = RangeList::new();
    l.insert_range(s, 0, 0x1f);
    l.insert_range(s, 0x40, 0x5f);
    l.remove_range(s, 0x8, 0x47);
    assert_eq!(
        l.iter().copied().collect::<Vec<_>>(),
        vec![Range { spc: s, first: 0, last: 7 }, Range { spc: s, first: 0x48, last: 0x5f }]
    );
}
