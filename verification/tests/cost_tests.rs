use lib::applied::{AppliedId, Id};
use lib::cost::{cost_rec, renumber, AstSize, CostFunction};
use lib::expr::RecExpr;
use lib::lang::{enode_eq, ENode};
use lib::pending::PendingType;
use lib::slot::Slot;
use lib::slotmap::SlotMap;

fn at(i: usize) -> AppliedId {
    AppliedId::new(Id(i), SlotMap::new())
}

fn leaf(n: ENode) -> RecExpr {
    RecExpr { node: n, children: vec![] }
}

#[test]
fn ast_size_counts_the_e_nodes() {
    // (app (var $0) (lam $4 (var $4)))
    let e = RecExpr {
        node: ENode::App(AppliedId::null(), AppliedId::null()),
        children: vec![
            leaf(ENode::Var(Slot(0))),
            RecExpr {
                node: ENode::Lam(Slot(4), AppliedId::null()),
                children: vec![leaf(ENode::Var(Slot(4)))],
            },
        ],
    };
    assert_eq!(cost_rec(&AstSize, &e), 4);
    assert_eq!(cost_rec(&AstSize, &leaf(ENode::Var(Slot(8)))), 1);
}

#[test]
fn ast_size_of_one_e_node() {
    let n = ENode::App(at(1), at(0));
    assert_eq!(AstSize.cost(&n, &vec![5, 7]), 13);
    assert_eq!(AstSize.cost(&ENode::Lam(Slot(0), at(0)), &vec![u64::MAX]), u64::MAX);
}

#[test]
fn renumbering_the_children() {
    let n = renumber(&ENode::App(at(7), at(3)));
    assert!(enode_eq(&n, &ENode::App(at(0), at(1))));
}

#[test]
fn merging_pending_work() {
    assert_eq!(PendingType::OnlyAnalysis.merge(PendingType::OnlyAnalysis), PendingType::OnlyAnalysis);
    assert_eq!(PendingType::OnlyAnalysis.merge(PendingType::Full), PendingType::Full);
    assert_eq!(PendingType::Full.merge(PendingType::OnlyAnalysis), PendingType::Full);
}
