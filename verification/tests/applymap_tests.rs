use lib::applied::{AppliedBy, AppliedId, Id};
use lib::applymap::{ApplyMap, CoreEGraph, SEGraph};
use lib::lang::ENode;
use lib::slot::Slot;
use lib::slotmap::SlotMap;

fn map(v: &[(u64, u64)]) -> SlotMap {
    let mut m = SlotMap::new();
    for (k, x) in v {
        m.insert(Slot(*k), Slot(*x));
    }
    m
}

#[test]
fn insert_raw_keeps_the_first_entry() {
    let mut am = ApplyMap::new();
    let k = ENode::Var(Slot(0));
    assert!(am.insert_raw(k.clone(), AppliedId::new(Id(3), map(&[(0, 0)]))).is_none());
    let again = am.insert_raw(k.clone(), AppliedId::new(Id(4), SlotMap::new()));
    assert_eq!(again.unwrap().id, Id(3));
    let got = am.get(&AppliedBy(map(&[(0, 8)]), k.clone())).unwrap();
    assert_eq!(got.id, Id(3));
    assert_eq!(got.m.get(Slot(0)), Some(Slot(8)));
    am.remove(&AppliedBy(SlotMap::new(), k.clone()));
    assert!(am.get(&AppliedBy(SlotMap::new(), k)).is_none());
}

#[test]
fn insert_stores_the_value_in_the_key_slots() {
    let mut am = ApplyMap::new();
    let k = ENode::Var(Slot(0));
    let r = am.insert(AppliedBy(map(&[(0, 8)]), k.clone()), AppliedBy(map(&[(0, 8)]), Id(5)));
    assert!(r.is_none());
    let stored = am.get(&AppliedBy(SlotMap::new(), k.clone())).unwrap();
    assert!(stored.m.map_eq(&SlotMap::new()));
    let got = am.get(&AppliedBy(map(&[(0, 0)]), k.clone())).unwrap();
    assert_eq!(got.id, Id(5));
    let hit = am.insert(AppliedBy(map(&[(0, 4)]), k), AppliedBy(SlotMap::new(), Id(6)));
    assert_eq!(hit.unwrap().id, Id(5));
}

#[test]
fn empty_egraphs() {
    let mut sg = SEGraph::new();
    assert!(sg.add_shape(ENode::Var(Slot(0)), AppliedId::new(Id(0), SlotMap::new())).is_none());
    assert!(sg.add_shape(ENode::Var(Slot(0)), AppliedId::new(Id(1), SlotMap::new())).is_some());
    let cg = CoreEGraph::new();
    assert_eq!(cg.suf.classes.len(), 0);
    assert_eq!(cg.usages.len(), 0);
}
