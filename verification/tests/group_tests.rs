use lib::group::Group;
use lib::slot::Slot;
use lib::slotmap::SlotMap;
use lib::slotset::SlotSet;

fn set(v: &[u64]) -> SlotSet {
    let v: Vec<Slot> = v.iter().map(|x| Slot(*x)).collect();
    SlotSet::from_vec(&v)
}

fn map(v: &[(u64, u64)]) -> SlotMap {
    let mut m = SlotMap::new();
    for (k, x) in v {
        m.insert(Slot(*k), Slot(*x));
    }
    m
}

#[test]
fn trivial_group_holds_only_the_identity() {
    let omega = set(&[0, 4, 8]);
    let g = Group::trivial(&omega);
    assert!(g.is_trivial());
    assert_eq!(g.count(), 1);
    assert!(g.contains(&SlotMap::identity(&omega)));
    assert!(!g.contains(&map(&[(0, 4), (4, 0), (8, 8)])));
    assert!(g.generators().is_empty());
    assert!(g.orbit(Slot(4)).set_eq(&set(&[4])));
}

#[test]
fn group_of_a_swap() {
    let omega = set(&[0, 4, 8]);
    let swap = map(&[(0, 4), (4, 0), (8, 8)]);
    let g = Group::new(&omega, vec![swap]);
    assert!(!g.is_trivial());
    assert_eq!(g.count(), 2);
    assert!(g.contains(&map(&[(0, 4), (4, 0), (8, 8)])));
    assert!(g.contains(&SlotMap::identity(&omega)));
    assert!(!g.contains(&map(&[(0, 4), (4, 8), (8, 0)])));
    assert!(g.orbit(Slot(0)).set_eq(&set(&[0, 4])));
    assert!(g.orbit(Slot(8)).set_eq(&set(&[8])));
    assert_eq!(g.generators().len(), 1);
}

#[test]
fn full_symmetric_group_of_three() {
    let omega = set(&[0, 4, 8]);
    let swap = map(&[(0, 4), (4, 0), (8, 8)]);
    let cycle = map(&[(0, 4), (4, 8), (8, 0)]);
    let g = Group::new(&omega, vec![swap, cycle]);
    assert_eq!(g.count(), 6);
    assert!(g.contains(&map(&[(0, 8), (4, 4), (8, 0)])));
    assert!(g.orbit(Slot(8)).set_eq(&omega));
}

#[test]
fn add_set_grows_only_with_new_elements() {
    let omega = set(&[0, 4, 8]);
    let swap = map(&[(0, 4), (4, 0), (8, 8)]);
    let mut g = Group::new(&omega, vec![swap]);
    assert!(!g.add_set(vec![map(&[(0, 4), (4, 0), (8, 8)])]));
    assert_eq!(g.count(), 2);
    assert!(g.add_set(vec![map(&[(0, 4), (4, 8), (8, 0)])]));
    assert_eq!(g.count(), 6);
}

#[test]
fn group_of_a_four_cycle() {
    let omega = set(&[0, 4, 8, 12]);
    let cycle = map(&[(0, 4), (4, 8), (8, 12), (12, 0)]);
    let g = Group::new(&omega, vec![cycle]);
    assert_eq!(g.count(), 4);
    assert!(g.contains(&map(&[(0, 8), (4, 12), (8, 0), (12, 4)])));
    assert!(!g.contains(&map(&[(0, 4), (4, 0), (8, 8), (12, 12)])));
}

#[test]
fn every_generator_is_a_member() {
    let omega = set(&[1, 2, 3, 5]);
    let a = map(&[(1, 2), (2, 1), (3, 3), (5, 5)]);
    let b = map(&[(1, 1), (2, 3), (3, 5), (5, 2)]);
    let c = map(&[(1, 5), (2, 2), (3, 3), (5, 1)]);
    let g = Group::new(&omega, vec![a.clone(), b.clone(), c.clone()]);
    assert!(g.contains(&a));
    assert!(g.contains(&b));
    assert!(g.contains(&c));
    assert!(g.contains(&a.compose(&b)));
}

#[test]
fn added_permutations_are_members() {
    let omega = set(&[1, 2, 3]);
    let mut g = Group::trivial(&omega);
    let cycle = map(&[(1, 2), (2, 3), (3, 1)]);
    assert!(g.add_set(vec![cycle.clone()]));
    assert!(g.contains(&cycle));
    assert_eq!(g.count(), 3);
}
