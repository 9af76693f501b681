use lib::applied::{AppliedId, Id};
use lib::lang::{enode_eq, ENode, SyntaxElem};
use lib::slot::{Slot, SlotTable};
use lib::slotmap::SlotMap;
use lib::slotset::SlotSet;

fn map(v: &[(u64, u64)]) -> SlotMap {
    let mut m = SlotMap::new();
    for (k, x) in v {
        m.insert(Slot(*k), Slot(*x));
    }
    m
}

fn app(id: usize, v: &[(u64, u64)]) -> AppliedId {
    AppliedId::new(Id(id), map(v))
}

#[test]
fn slot_occurrences_of_a_lambda() {
    // lam $10. c1($0 -> $10, $4 -> $20)
    let n = ENode::Lam(Slot(10), app(1, &[(0, 10), (4, 20)]));
    assert_eq!(n.all_slot_occurrences(), vec![Slot(10), Slot(10), Slot(20)]);
    assert_eq!(n.public_slot_occurrences(), vec![Slot(20)]);
    assert_eq!(n.private_slot_occurrences(), vec![Slot(10), Slot(10)]);
    assert!(n.slots().set_eq(&SlotSet::from_vec(&vec![Slot(20)])));
    assert!(n.private_slots().set_eq(&SlotSet::from_vec(&vec![Slot(10)])));
    assert_eq!(n.ids(), vec![Id(1)]);
    assert_eq!(n.applied_id_occurrences().len(), 1);
}

#[test]
fn shape_numbers_slots_by_first_occurrence() {
    let n = ENode::App(app(1, &[(0, 20)]), app(2, &[(0, 8), (4, 20)]));
    let sh = n.shape();
    let expect = ENode::App(app(1, &[(0, 0)]), app(2, &[(0, 4), (4, 0)]));
    assert!(enode_eq(&sh, &expect));
    let (ws, bij) = n.weak_shape();
    assert!(enode_eq(&ws, &expect));
    assert_eq!(bij.get(Slot(0)), Some(Slot(20)));
    assert_eq!(bij.get(Slot(4)), Some(Slot(8)));
    assert!(enode_eq(&ws.apply_slotmap(&bij), &n));
}

#[test]
fn apply_slotmap_renames_public_slots_only() {
    let n = ENode::Lam(Slot(10), app(1, &[(0, 10), (4, 20)]));
    let r = n.apply_slotmap(&map(&[(20, 40), (10, 99)]));
    let expect = ENode::Lam(Slot(10), app(1, &[(0, 10), (4, 40)]));
    assert!(enode_eq(&r, &expect));
    let partial = ENode::Var(Slot(8)).apply_slotmap_partial(&SlotMap::new());
    assert!(enode_eq(&partial, &ENode::Var(Slot::missing())));
}

#[test]
fn map_slots_and_ids() {
    let n = ENode::App(app(1, &[(0, 4)]), app(2, &[(0, 8)]));
    let r = n.map_slots(&|s: Slot| Slot(s.0 + 100));
    assert!(enode_eq(&r, &ENode::App(app(1, &[(0, 104)]), app(2, &[(0, 108)]))));
    let r2 = n.map_ids(&|a: AppliedId| AppliedId::new(Id(a.id.0 + 10), a.m.clone()));
    assert_eq!(r2.ids(), vec![Id(11), Id(12)]);
}

#[test]
fn syntax_round_trip() {
    let n = ENode::Lam(Slot(2), app(3, &[(0, 2)]));
    let syn = n.to_syntax();
    assert_eq!(syn.len(), 3);
    assert!(matches!(&syn[0], SyntaxElem::String(s) if s == "lam"));
    let back = ENode::from_syntax(&syn).unwrap();
    assert!(enode_eq(&back, &n));
    let bad = vec![SyntaxElem::String("foo".to_string())];
    assert!(ENode::from_syntax(&bad).is_none());
    let var = vec![SyntaxElem::String("var".to_string()), SyntaxElem::Slot(Slot(4))];
    assert!(enode_eq(&ENode::from_syntax(&var).unwrap(), &ENode::Var(Slot(4))));
}

#[test]
fn nullify_and_refresh() {
    let n = ENode::Lam(Slot(10), app(1, &[(0, 10), (4, 20)]));
    let null = n.nullify_app_ids();
    assert!(enode_eq(&null, &ENode::Lam(Slot(10), AppliedId::null())));
    let mut tab = SlotTable::new();
    let r = n.refresh_private(&mut tab);
    let occ = r.all_slot_occurrences();
    assert_eq!(occ[0], occ[1]);
    assert_eq!(occ[0].0 % 4, 1);
    assert_eq!(occ[2], Slot(20));
}

#[test]
fn applied_id_operations() {
    let a = app(1, &[(0, 8), (4, 12)]);
    assert!(a.check());
    let r = a.apply_slotmap(&map(&[(8, 16), (12, 20)]));
    assert_eq!(r.id, Id(1));
    assert_eq!(r.m.get(Slot(0)), Some(Slot(16)));
    assert!(a.slots().set_eq(&SlotSet::from_vec(&vec![Slot(8), Slot(12)])));
    assert!(!app(1, &[(0, 8), (4, 8)]).check());
    let n = AppliedId::null();
    assert_eq!(n.id(), Id(0));
    assert_eq!(n.m().len(), 0);
}
