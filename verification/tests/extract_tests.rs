use lib::applied::{AppliedId, Id};
use lib::egraph::EGraph;
use lib::extract::{ast_size_extract, Extractor};
use lib::lang::ENode;
use lib::slot::Slot;
use lib::slotmap::SlotMap;

fn inv(i: usize, s: u64) -> AppliedId {
    let mut m = SlotMap::new();
    m.insert(Slot(s), Slot(s));
    AppliedId::new(Id(i), m)
}

#[test]
fn extracting_an_application_gives_its_whole_term() {
    let mut eg = EGraph::new();
    let x = eg.add(ENode::Var(Slot(4)));
    let app = eg.add(ENode::App(inv(0, 4), inv(0, 4)));
    let t = ast_size_extract(&app, &eg).unwrap();
    assert!(matches!(t.node, ENode::App(..)));
    assert_eq!(t.children.len(), 2);
    assert!(matches!(t.children[0].node, ENode::Var(Slot(4))));
    let leaf = ast_size_extract(&x, &eg).unwrap();
    assert!(leaf.children.is_empty());
}

#[test]
fn extraction_picks_the_smallest_term_of_a_merged_class() {
    let mut eg = EGraph::new();
    let x = eg.add(ENode::Var(Slot(4)));
    let app = eg.add(ENode::App(inv(0, 4), inv(0, 4)));
    eg.union(&app, &x);
    let t = ast_size_extract(&app, &eg).unwrap();
    assert!(matches!(t.node, ENode::Var(Slot(4))));
    assert!(t.children.is_empty());
}

#[test]
fn the_extractor_records_least_sizes() {
    let mut eg = EGraph::new();
    eg.add(ENode::Var(Slot(4)));
    eg.add(ENode::App(inv(0, 4), inv(0, 4)));
    let ext = Extractor::new(&eg);
    assert_eq!(ext.cost[0], Some(1));
    assert_eq!(ext.cost[1], Some(3));
}

#[test]
fn a_class_whose_children_leave_the_egraph_has_no_term() {
    let mut eg = EGraph::new();
    let app = eg.add(ENode::App(inv(7, 4), inv(7, 4)));
    assert!(ast_size_extract(&app, &eg).is_none());
}
