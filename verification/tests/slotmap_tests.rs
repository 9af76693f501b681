use lib::slot::{Slot, SlotTable};
use lib::slotmap::SlotMap;
use lib::slotset::SlotSet;

fn set(v: &[u64]) -> SlotSet {
    let v: Vec<Slot> = v.iter().map(|x| Slot(*x)).collect();
    SlotSet::from_vec(&v)
}

fn map(v: &[(u64, u64)]) -> SlotMap {
    let mut m = SlotMap::new();
    for (k, x) in v {
        m.insert(Slot(*k), Slot(*x));
    }
    m
}

fn same(a: &SlotMap, b: &SlotMap) -> bool {
    a.map_eq(b)
}

#[test]
fn slotset_operations() {
    let a = set(&[0, 4, 8]);
    let b = set(&[4, 12]);
    assert_eq!(a.len(), 3);
    assert!(a.contains(Slot(4)));
    assert!(!a.contains(Slot(12)));
    assert!(a.union(&b).set_eq(&set(&[0, 4, 8, 12])));
    assert!(a.intersection(&b).set_eq(&set(&[4])));
    assert!(a.difference(&b).set_eq(&set(&[0, 8])));
    assert!(set(&[4]).is_subset(&a));
    assert!(!b.is_subset(&a));
    assert!(set(&[0]).is_disjoint(&b));
    let mut c = a.clone();
    assert!(!c.insert(Slot(0)));
    assert!(c.insert(Slot(16)));
    c.remove(Slot(0));
    assert!(c.set_eq(&set(&[4, 8, 16])));
    assert_eq!(set(&[1, 1, 2]).len(), 2);
}

#[test]
fn slotmap_get_insert_remove() {
    let mut m = map(&[(0, 4), (4, 8)]);
    assert_eq!(m.len(), 2);
    assert_eq!(m.get(Slot(0)), Some(Slot(4)));
    assert_eq!(m.get(Slot(8)), None);
    assert_eq!(m.index(Slot(8)), Slot::missing());
    m.insert(Slot(0), Slot(12));
    assert_eq!(m.get(Slot(0)), Some(Slot(12)));
    m.remove(Slot(4));
    assert!(!m.contains_key(Slot(4)));
    assert_eq!(m.len(), 1);
}

#[test]
fn compose_partial_drops_unmapped_values() {
    let a = map(&[(0, 4), (4, 8), (8, 20)]);
    let b = map(&[(4, 12), (8, 16)]);
    let c = a.compose_partial(&b);
    assert!(same(&c, &map(&[(0, 12), (4, 16)])));
}

#[test]
fn compose_and_inverse() {
    let a = map(&[(0, 4), (4, 0)]);
    let b = map(&[(0, 8), (4, 12)]);
    assert!(same(&a.compose(&b), &map(&[(0, 12), (4, 8)])));
    let inv = b.inverse();
    assert!(same(&inv, &map(&[(8, 0), (12, 4)])));
    assert!(same(&b.compose(&inv), &map(&[(0, 0), (4, 4)])));
}

#[test]
fn identity_restrict_and_predicates() {
    let id = SlotMap::identity(&set(&[0, 4]));
    assert!(id.is_identity());
    assert!(id.is_perm());
    assert!(id.is_bijection());
    let swap = map(&[(0, 4), (4, 0)]);
    assert!(swap.is_perm());
    assert!(!swap.is_identity());
    let collapse = map(&[(0, 4), (4, 4)]);
    assert!(!collapse.is_bijection());
    assert!(!map(&[(0, 4)]).is_perm());
    let r = map(&[(0, 4), (4, 8), (8, 0)]).restrict(&set(&[0, 8]));
    assert!(same(&r, &map(&[(0, 4), (8, 0)])));
    assert!(map(&[(0, 4)]).keys().set_eq(&set(&[0])));
    assert!(map(&[(0, 4)]).values().set_eq(&set(&[4])));
    assert_eq!(map(&[(0, 4)]).iter(), vec![(Slot(0), Slot(4))]);
}

#[test]
fn try_union_only_of_agreeing_maps() {
    let a = map(&[(0, 4)]);
    let b = map(&[(8, 12)]);
    let c = map(&[(0, 8)]);
    let u = a.try_union(&b).unwrap();
    assert!(same(&u, &map(&[(0, 4), (8, 12)])));
    assert!(a.try_union(&c).is_none());
    assert!(a.try_union(&a).is_some());
    assert!(same(&a.union(&b), &u));
}

#[test]
fn compose_fresh_gives_fresh_slots() {
    let mut tab = SlotTable::new();
    let a = map(&[(0, 4), (8, 12)]);
    let b = map(&[(4, 16)]);
    let c = a.compose_fresh(&b, &mut tab);
    assert_eq!(c.get(Slot(0)), Some(Slot(16)));
    let f = c.get(Slot(8)).unwrap();
    assert_eq!(f.0 % 4, 1);
    let bij = SlotMap::bijection_from_fresh_to(&set(&[0, 4]), &mut tab);
    assert_eq!(bij.len(), 2);
    assert!(bij.values().set_eq(&set(&[0, 4])));
    assert!(bij.keys().v.iter().all(|s| s.0 % 4 == 1));
}
