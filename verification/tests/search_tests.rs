use lib::applied::{AppliedId, Id};
use lib::egraph::EGraph;
use lib::expr::Pattern;
use lib::lang::ENode;
use lib::search::{apply_rewrites, ematch_all, valid_invocation, Rewrite};
use lib::slot::{Slot, SlotTable};
use lib::slotmap::SlotMap;

fn inv(i: usize, s: u64) -> AppliedId {
    let mut m = SlotMap::new();
    m.insert(Slot(s), Slot(s));
    AppliedId::new(Id(i), m)
}

#[test]
fn ematch_all_binds_the_children_of_matching_enodes() {
    let mut tab = SlotTable::new();
    let p = Pattern::parse("(app ?a ?b)", &mut tab).ok().unwrap();
    let mut eg = EGraph::new();
    eg.add(ENode::Var(Slot(4)));
    eg.add(ENode::Var(Slot(8)));
    eg.add(ENode::App(inv(0, 4), inv(1, 8)));
    let ms = ematch_all(&eg, &p);
    assert_eq!(ms.len(), 1);
    assert_eq!(ms[0].len(), 2);
    assert_eq!(ms[0][0].0, "a");
    assert_eq!(ms[0][0].1.id, Id(0));
    assert_eq!(ms[0][1].0, "b");
    assert_eq!(ms[0][1].1.id, Id(1));
}

#[test]
fn a_repeated_variable_needs_the_same_class() {
    let mut tab = SlotTable::new();
    let p = Pattern::parse("(app ?a ?a)", &mut tab).ok().unwrap();
    let mut eg = EGraph::new();
    eg.add(ENode::Var(Slot(4)));
    eg.add(ENode::Var(Slot(8)));
    eg.add(ENode::App(inv(0, 4), inv(1, 8)));
    eg.add(ENode::App(inv(0, 4), inv(0, 4)));
    let ms = ematch_all(&eg, &p);
    assert_eq!(ms.len(), 1);
    assert_eq!(ms[0][0].1.id, Id(0));
}

#[test]
fn a_rewrite_equates_both_sides_and_reports_change() {
    let mut tab = SlotTable::new();
    let rw = Rewrite {
        rule: "comm".to_string(),
        searcher: Pattern::parse("(app ?a ?b)", &mut tab).ok().unwrap(),
        applier: Pattern::parse("(app ?b ?a)", &mut tab).ok().unwrap(),
    };
    let mut eg = EGraph::new();
    let x = eg.add(ENode::Var(Slot(4)));
    let y = eg.add(ENode::Var(Slot(8)));
    let xy = eg.add(ENode::App(x.clone(), y.clone()));
    let rws = vec![rw];
    assert!(apply_rewrites(&mut eg, &rws));
    let yx = eg.lookup(&ENode::App(y.clone(), x.clone())).unwrap();
    assert_eq!(eg.find_applied_id(&xy).id, eg.find_applied_id(&yx).id);
    assert!(!apply_rewrites(&mut eg, &rws));
}

#[test]
fn valid_invocations_rename_all_slots_one_to_one() {
    let mut eg = EGraph::new();
    let x = eg.add(ENode::Var(Slot(4)));
    assert!(valid_invocation(&eg, &x));
    assert!(!valid_invocation(&eg, &AppliedId::new(Id(0), SlotMap::new())));
    assert!(!valid_invocation(&eg, &inv(5, 4)));
}
