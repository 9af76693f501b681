use lib::slot::{parse_u64, Slot, SlotTable};

#[test]
fn numeric_slots_are_multiples_of_four() {
    assert_eq!(Slot::numeric(0), Slot(0));
    assert_eq!(Slot::numeric(3), Slot(12));
}

#[test]
fn missing_slot_is_u32_max() {
    assert_eq!(Slot::missing(), Slot(u32::MAX as u64));
}

#[test]
fn fresh_slots_are_new_each_time() {
    let mut tab = SlotTable::new();
    let a = Slot::fresh(&mut tab);
    let b = Slot::fresh(&mut tab);
    assert_eq!(a, Slot(1));
    assert_eq!(b, Slot(5));
    assert_ne!(a, b);
}

#[test]
fn named_numbers_are_numeric_slots() {
    let mut tab = SlotTable::new();
    assert_eq!(Slot::named(&mut tab, "42"), Slot(168));
    assert_eq!(Slot::named(&mut tab, "+7"), Slot(28));
    assert_eq!(tab.named_vec.len(), 0);
}

#[test]
fn named_fresh_slots_move_the_counter_past_them() {
    let mut tab = SlotTable::new();
    assert_eq!(Slot::named(&mut tab, "f3"), Slot(13));
    assert_eq!(Slot::fresh(&mut tab), Slot(17));
}

#[test]
fn named_slots_are_cached() {
    let mut tab = SlotTable::new();
    let x1 = Slot::named(&mut tab, "x");
    let y = Slot::named(&mut tab, "y");
    let x2 = Slot::named(&mut tab, "x");
    assert_eq!(x1, Slot(2));
    assert_eq!(y, Slot(6));
    assert_eq!(x1, x2);
    assert_eq!(tab.named_vec.len(), 2);
}

#[test]
fn show_writes_the_slot() {
    let mut tab = SlotTable::new();
    let x = Slot::named(&mut tab, "abc");
    assert_eq!(Slot(168).show(&tab), "$42");
    assert_eq!(Slot(13).show(&tab), "$f3");
    assert_eq!(x.show(&tab), "$abc");
}

#[test]
fn show_then_named_gives_the_slot_back() {
    let mut tab = SlotTable::new();
    let x = Slot::named(&mut tab, "x_1");
    let f = Slot::fresh(&mut tab);
    for s in [Slot(0), Slot(40), x, f] {
        let shown = s.show(&tab);
        assert_eq!(Slot::named(&mut tab, &shown[1..]), s);
    }
}

#[test]
fn parse_u64_reads_decimals() {
    assert_eq!(parse_u64("0"), Some(0));
    assert_eq!(parse_u64("+12"), Some(12));
    assert_eq!(parse_u64("18446744073709551615"), Some(u64::MAX));
    assert_eq!(parse_u64("18446744073709551616"), None);
    assert_eq!(parse_u64(""), None);
    assert_eq!(parse_u64("+"), None);
    assert_eq!(parse_u64("1a"), None);
    assert_eq!(parse_u64("-1"), None);
}
