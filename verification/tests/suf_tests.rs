use lib::applied::{AppliedId, Id};
use lib::slot::{Slot, SlotTable};
use lib::slotmap::SlotMap;
use lib::slotset::SlotSet;
use lib::suf::{Suf, SUF};
use lib::unionfind::{UfClass, Unionfind};

fn set_named(tab: &mut SlotTable, x: &[&str]) -> SlotSet {
    let mut s = SlotSet::new();
    for name in x {
        s.insert(Slot::named(tab, name));
    }
    s
}

fn set(v: &[u64]) -> SlotSet {
    let v: Vec<Slot> = v.iter().map(|x| Slot(*x)).collect();
    SlotSet::from_vec(&v)
}

fn map(v: &[(u64, u64)]) -> SlotMap {
    let mut m = SlotMap::new();
    for (k, x) in v {
        m.insert(Slot(*k), Slot(*x));
    }
    m
}

#[test]
fn simple() {
    let mut tab = SlotTable::new();
    let mut suf = Suf::new();
    let a = suf.add(set_named(&mut tab, &["a_1", "a_2"]));
    let b = suf.add(set_named(&mut tab, &["b_1", "b_2"]));
    assert_eq!(a, 0);
    assert_eq!(b, 1);
}

#[test]
fn added_classes_are_their_own_roots() {
    let mut suf: SUF<u8> = SUF::new();
    let a = suf.add(set(&[0, 4]), 1);
    let b = suf.add(set(&[0, 4]), 2);
    assert_eq!(a.id, Id(0));
    assert_eq!(b.id, Id(1));
    let f = suf.find(&a);
    assert_eq!(f.id, Id(0));
    assert!(f.m.map_eq(&SlotMap::identity(&set(&[0, 4]))));
    assert!(suf.is_equal(&a, &a));
    assert!(!suf.is_equal(&a, &b));
}

#[test]
fn union_links_the_roots() {
    let mut suf: SUF<()> = SUF::new();
    let a = suf.add(set(&[0, 4]), ());
    let b = suf.add(set(&[0, 4]), ());
    let c = suf.add(set(&[0]), ());
    suf.union(&a, &b);
    assert_eq!(suf.find(&b).id, Id(0));
    assert_eq!(suf.find(&a).id, Id(0));
    assert_eq!(suf.find(&c).id, Id(2));
    assert!(suf.is_equal(&a, &b));
    assert!(!suf.is_equal(&a, &c));
}

#[test]
fn union_with_a_swap_records_a_symmetry() {
    let mut suf: SUF<()> = SUF::new();
    let a = suf.add(set(&[0, 4]), ());
    let swapped = AppliedId::new(Id(0), map(&[(0, 4), (4, 0)]));
    assert!(!suf.is_equal(&a, &swapped));
    suf.union(&a, &swapped);
    assert!(suf.is_equal(&a, &swapped));
    assert_eq!(suf.classes[0].group.count(), 2);
}

#[test]
fn union_drops_slots_that_the_other_side_lacks() {
    let mut suf: SUF<()> = SUF::new();
    let a = suf.add(set(&[0, 4]), ());
    let b = suf.add(set(&[0]), ());
    suf.union(&a, &b);
    assert!(suf.classes[0].slots.set_eq(&set(&[0])));
    assert_eq!(suf.find(&b).id, Id(0));
}

#[test]
fn shrink_removes_whole_orbits() {
    let mut suf: SUF<()> = SUF::new();
    let a = suf.add(set(&[0, 4, 8]), ());
    let swapped = AppliedId::new(Id(0), map(&[(0, 4), (4, 0), (8, 8)]));
    suf.union(&a, &swapped);
    suf.shrink(Id(0), &set(&[0, 8]));
    assert!(suf.classes[0].slots.set_eq(&set(&[8])));
    assert!(suf.classes[0].group.is_trivial());
}

#[test]
fn suf_find_and_is_equal_by_number() {
    let mut suf = Suf::new();
    let a = suf.add(set(&[0, 4]));
    let (m, id) = suf.find(map(&[(0, 8), (4, 12)]), a);
    assert_eq!(id, a);
    assert_eq!(m.get(Slot(0)), Some(Slot(8)));
    assert!(suf.is_equal(a, a, SlotMap::identity(&set(&[0, 4]))));
    suf.shrink(a, &set(&[4]));
    assert!(suf.inner.classes[0].slots.set_eq(&set(&[4])));
}

#[test]
fn unionfind_add_makes_leaders() {
    let mut uf = Unionfind { classes: Vec::new() };
    assert_eq!(uf.add(2), Id(0));
    assert_eq!(uf.add(0), Id(1));
    match &uf.classes[0] {
        UfClass::Leader(l) => {
            assert!(l.group.is_trivial());
            assert!(l.group.omega.set_eq(&set(&[0, 4])));
        }
        _ => panic!("expected a leader"),
    }
}

#[test]
fn union_of_renamed_invocations_makes_them_equal() {
    let mut suf: SUF<()> = SUF::new();
    let a = suf.add(set(&[0, 4]), ());
    let b = suf.add(set(&[0, 4]), ());
    // a(x, y) = b(y, x), written with the slots 8 and 12
    let x = AppliedId::new(Id(0), map(&[(0, 8), (4, 12)]));
    let y = AppliedId::new(Id(1), map(&[(0, 12), (4, 8)]));
    assert!(!suf.is_equal(&x, &y));
    suf.union(&x, &y);
    assert!(suf.is_equal(&x, &y));
    // the same equation under another renaming of its slots
    let x2 = AppliedId::new(Id(0), map(&[(0, 16), (4, 20)]));
    let y2 = AppliedId::new(Id(1), map(&[(0, 20), (4, 16)]));
    assert!(suf.is_equal(&x2, &y2));
    // but not the unswapped one
    let y3 = AppliedId::new(Id(1), map(&[(0, 16), (4, 20)]));
    assert!(!suf.is_equal(&x2, &y3));
    let _ = b;
}
