use lib::applied::{AppliedId, Id};
use lib::slotmap::SlotMap;
use lib::slotset::SlotSet;
use lib::egraph::{pattern_subst, EGraph};
use lib::expr::{Pattern, RecExpr};
use lib::slot::SlotTable;
use lib::lang::ENode;
use lib::slot::Slot;

#[test]
fn an_empty_egraph_has_no_classes() {
    let eg = EGraph::new();
    assert!(eg.ids().is_empty());
    assert!(eg.pending.is_empty());
}

#[test]
fn adding_the_same_enode_twice_gives_the_same_class() {
    let mut eg = EGraph::new();
    let a = eg.add(ENode::Var(Slot(4)));
    let b = eg.add(ENode::Var(Slot(4)));
    assert_eq!(a.id, b.id);
    assert_eq!(eg.ids(), vec![Id(0)]);
    assert!(eg.eq(&a, &b));
    assert_eq!(a.m.keys, vec![Slot(4)]);
    assert_eq!(a.m.vals, vec![Slot(4)]);
}

#[test]
fn different_enodes_get_different_classes() {
    let mut eg = EGraph::new();
    let a = eg.add(ENode::Var(Slot(4)));
    let b = eg.add(ENode::Var(Slot(8)));
    assert_eq!(a.id, Id(0));
    assert_eq!(b.id, Id(1));
    assert_eq!(eg.ids(), vec![Id(0), Id(1)]);
    assert!(!eg.eq(&a, &b));
}

#[test]
fn union_makes_two_classes_equal_and_reports_change() {
    let mut eg = EGraph::new();
    let a = eg.add(ENode::Var(Slot(4)));
    let b = eg.add(ENode::Var(Slot(8)));
    assert!(eg.union(&a, &b));
    assert!(eg.eq(&a, &b));
    assert!(eg.eq(&b, &a));
    assert!(!eg.union(&a, &b));
    assert!(eg.is_alive(Id(0)));
    assert!(!eg.is_alive(Id(1)));
    assert_eq!(eg.ids(), vec![Id(0)]);
    assert_eq!(eg.find_applied_id(&b).id, Id(0));
}

#[test]
fn union_moves_the_enodes_and_leaves_nothing_pending() {
    let mut eg = EGraph::new();
    let a = eg.add(ENode::Var(Slot(4)));
    let b = eg.add(ENode::Var(Slot(8)));
    eg.union(&a, &b);
    assert_eq!(eg.nodes[0].len(), 2);
    assert!(eg.nodes[1].is_empty());
    assert!(eg.pending.is_empty());
}

fn inv(i: usize, s: u64) -> AppliedId {
    let mut m = SlotMap::new();
    m.insert(Slot(s), Slot(s));
    AppliedId::new(Id(i), m)
}

#[test]
fn union_restores_congruence_upwards() {
    let mut eg = EGraph::new();
    let a = eg.add(ENode::Var(Slot(4)));
    let b = eg.add(ENode::Var(Slot(8)));
    let fa = eg.add(ENode::App(inv(0, 4), inv(0, 4)));
    let fb = eg.add(ENode::App(inv(1, 8), inv(1, 8)));
    assert_eq!(eg.ids().len(), 4);
    assert!(eg.union(&a, &b));
    assert_eq!(eg.find_applied_id(&fa).id, eg.find_applied_id(&fb).id);
    assert_eq!(eg.ids().len(), 2);
    assert!(eg.pending.is_empty());
}

#[test]
fn congruence_compares_children_by_their_classes() {
    let mut eg = EGraph::new();
    let a = eg.add(ENode::Var(Slot(4)));
    let b = eg.add(ENode::Var(Slot(8)));
    let n1 = ENode::App(inv(0, 4), inv(0, 4));
    let n2 = ENode::App(inv(1, 8), inv(1, 8));
    assert!(!eg.is_congruent(&n1, &n2));
    eg.union(&a, &b);
    assert!(eg.is_congruent(&n1, &n2));
    assert!(eg.is_congruent(&ENode::Var(Slot(4)), &ENode::Var(Slot(4))));
    assert!(!eg.is_congruent(&ENode::Var(Slot(4)), &ENode::Var(Slot(8))));
}

#[test]
fn rebuild_on_a_closed_egraph_changes_no_class() {
    let mut eg = EGraph::new();
    eg.add(ENode::Var(Slot(4)));
    eg.add(ENode::Var(Slot(8)));
    eg.rebuild();
    assert_eq!(eg.ids(), vec![Id(0), Id(1)]);
}

#[test]
fn a_class_stays_equal_to_itself_after_unions() {
    let mut eg = EGraph::new();
    let a = eg.add(ENode::Var(Slot(4)));
    let b = eg.add(ENode::Var(Slot(8)));
    let c = eg.add(ENode::Var(Slot(12)));
    eg.union(&a, &b);
    eg.union(&b, &c);
    assert!(eg.eq(&a, &c));
    assert_eq!(eg.ids().len(), 1);
}

#[test]
fn shrinking_a_class_drops_the_slots_it_lacks() {
    let mut eg = EGraph::new();
    let mut m0 = SlotMap::new();
    m0.insert(Slot(4), Slot(4));
    let mut m1 = SlotMap::new();
    m1.insert(Slot(8), Slot(8));
    let app = eg.add(ENode::App(AppliedId::new(Id(0), m0), AppliedId::new(Id(1), m1)));
    assert!(eg.suf.classes[app.id.0].slots.contains(Slot(8)));
    eg.shrink_slots(app.id, &SlotSet::from_vec(&vec![Slot(4)]));
    assert!(eg.suf.classes[app.id.0].slots.contains(Slot(4)));
    assert!(!eg.suf.classes[app.id.0].slots.contains(Slot(8)));
    assert!(eg.is_alive(app.id));
    assert_eq!(eg.nodes[app.id.0].len(), 1);
}

#[test]
fn lookup_finds_the_class_of_a_congruent_enode() {
    let mut eg = EGraph::new();
    let a = eg.add(ENode::Var(Slot(4)));
    let found = eg.lookup(&ENode::Var(Slot(4))).unwrap();
    assert_eq!(found.id, a.id);
    assert!(eg.lookup(&ENode::Var(Slot(8))).is_none());
}

#[test]
fn adding_a_congruent_enode_gives_back_its_class() {
    let mut eg = EGraph::new();
    let a = eg.add(ENode::Var(Slot(4)));
    let b = eg.add(ENode::Var(Slot(8)));
    let fa = eg.add(ENode::App(inv(0, 4), inv(0, 4)));
    eg.union(&a, &b);
    let fb = eg.add(ENode::App(inv(1, 8), inv(1, 8)));
    assert_eq!(fa.id, fb.id);
    assert_eq!(eg.ids().len(), 2);
}

#[test]
fn pattern_subst_then_lookup_rec_expr_finds_the_same_class() {
    let mut tab = SlotTable::new();
    let p = Pattern::parse("(app (var $x) (var $x))", &mut tab).ok().unwrap();
    let re = RecExpr::parse("(app (var $x) (var $x))", &mut tab).ok().unwrap();
    let mut eg = EGraph::new();
    let a = pattern_subst(&mut eg, &p, &Vec::new());
    assert_eq!(eg.ids().len(), 2);
    let found = eg.lookup_rec_expr(&re).unwrap();
    assert_eq!(found.id, a.id);
    let again = pattern_subst(&mut eg, &p, &Vec::new());
    assert_eq!(again.id, a.id);
    assert_eq!(eg.ids().len(), 2);
}

#[test]
fn lookup_rec_expr_of_a_missing_term_is_none() {
    let mut tab = SlotTable::new();
    let re = RecExpr::parse("(var $x)", &mut tab).ok().unwrap();
    let eg = EGraph::new();
    assert!(eg.lookup_rec_expr(&re).is_none());
}

#[test]
fn union_instantiations_equates_the_two_instances() {
    let mut tab = SlotTable::new();
    let from = Pattern::parse("(app ?a ?b)", &mut tab).ok().unwrap();
    let to = Pattern::parse("(app ?b ?a)", &mut tab).ok().unwrap();
    let mut eg = EGraph::new();
    let x = eg.add(ENode::Var(Slot(4)));
    let y = eg.add(ENode::Var(Slot(8)));
    let subst = vec![("a".to_string(), x.clone()), ("b".to_string(), y.clone())];
    assert!(eg.union_instantiations(&from, &to, &subst));
    let xy = eg.lookup(&ENode::App(x.clone(), y.clone())).unwrap();
    let yx = eg.lookup(&ENode::App(y.clone(), x.clone())).unwrap();
    assert_eq!(eg.find_applied_id(&xy).id, eg.find_applied_id(&yx).id);
    assert!(!eg.union_instantiations(&from, &to, &subst));
    assert!(eg.pending.is_empty());
}

#[test]
fn a_merged_class_stays_merged() {
    let mut eg = EGraph::new();
    let a = eg.add(ENode::Var(Slot(4)));
    let b = eg.add(ENode::Var(Slot(8)));
    let c = eg.add(ENode::Var(Slot(12)));
    eg.union(&a, &b);
    assert!(!eg.is_alive(Id(1)));
    eg.union(&c, &a);
    eg.rebuild();
    assert!(!eg.is_alive(Id(1)));
    assert!(!eg.is_alive(Id(0)));
    assert!(eg.is_alive(Id(2)));
}
