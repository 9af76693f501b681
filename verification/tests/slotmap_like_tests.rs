use lib::slot::Slot;
use lib::slotmap::SlotMap;
use lib::slotmap_like::{Compose, SlotMapLike};

fn map(v: &[(u64, u64)]) -> SlotMap {
    let mut m = SlotMap::new();
    for (k, x) in v {
        m.insert(Slot(*k), Slot(*x));
    }
    m
}

#[test]
fn slotmap_is_slotmap_like() {
    let m = map(&[(0, 4), (8, 12)]);
    assert_eq!(SlotMapLike::map(&m, Slot(0)), Some(Slot(4)));
    assert_eq!(SlotMapLike::map(&m, Slot(4)), None);
    let mut entries = SlotMapLike::iter(&m);
    entries.sort_by_key(|(k, _)| k.0);
    assert_eq!(entries, vec![(Slot(0), Slot(4)), (Slot(8), Slot(12))]);
    let back = SlotMapLike::into(m.clone());
    assert!(back.map_eq(&m));
}

#[test]
fn compose_renames_right_then_left() {
    // right: 0 -> 4, 8 -> 12, 16 -> 20; left: 4 -> 40, 12 -> 48
    let left = map(&[(4, 40), (12, 48)]);
    let right = map(&[(0, 4), (8, 12), (16, 20)]);
    let c = Compose(left, right);
    assert_eq!(c.map(Slot(0)), Some(Slot(40)));
    assert_eq!(c.map(Slot(8)), Some(Slot(48)));
    // 16 -> 20, and the left map does not rename 20
    assert_eq!(c.map(Slot(16)), None);
    assert_eq!(c.map(Slot(4)), None);
    let mut entries = c.iter();
    entries.sort_by_key(|(k, _)| k.0);
    assert_eq!(entries, vec![(Slot(0), Slot(40)), (Slot(8), Slot(48))]);
    let flat = SlotMapLike::into(c);
    assert!(flat.map_eq(&map(&[(0, 40), (8, 48)])));
}

#[test]
fn compose_of_compose() {
    let a = map(&[(40, 1)]);
    let b = map(&[(4, 40)]);
    let c = map(&[(0, 4), (8, 12)]);
    let abc = Compose(a, Compose(b, c));
    assert_eq!(abc.map(Slot(0)), Some(Slot(1)));
    assert_eq!(abc.map(Slot(8)), None);
    assert_eq!(abc.iter(), vec![(Slot(0), Slot(1))]);
}
