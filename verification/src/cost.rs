use vstd::prelude::*;
use crate::slot::Slot;
use crate::slotmap::SlotMap;
use crate::applied::{AppliedId, Id};
use crate::lang::{ENode, ENodeView, AppView, app_ids_spec};
use crate::expr::RecExpr;

verus! {

/// A cost function to guide extraction: the cost of an e-node from the costs of its children.
pub trait CostFunction {
    /// What `cost` gives for an e-node whose child invocation with id `Id(i)` costs `costs[i]`.
    spec fn cost_spec(&self, enode: ENodeView, costs: Seq<u64>) -> u64;

    /// The cost of `enode`, where the child invocation with id `Id(i)` costs `costs[i]`.
    fn cost(&self, enode: &ENode, costs: &Vec<u64>) -> (r: u64)
        requires
            forall|k: int| 0 <= k < app_ids_spec(*enode).len() ==> (#[trigger] app_ids_spec(*enode)[k]).id.0 < costs@.len(),
        ensures
            r == self.cost_spec(enode@, costs@),
    ;
}

/// Every e-node of the term has no more child invocations than the term has children there.
pub open spec fn costable(e: RecExpr) -> bool
    decreases e,
{
    &&& app_ids_spec(e.node).len() <= e.children@.len()
    &&& forall|i: int| #![trigger e.children@[i]] 0 <= i < e.children@.len() ==> costable(e.children@[i])
}

/// The invocation of the `i`-th child, without slots.
pub open spec fn numbered(i: int) -> AppView {
    (Id(i as usize), Seq::empty(), Seq::empty())
}

/// The e-node with its child invocations numbered in order, without slots.
pub open spec fn renumbered(n: ENode) -> ENodeView {
    match n {
        ENode::Lam(s, _) => ENodeView::Lam(s, numbered(0)),
        ENode::App(_, _) => ENodeView::App(numbered(0), numbered(1)),
        ENode::Var(s) => ENodeView::Var(s),
    }
}

/// The cost of a term: the cost of its e-node, with its children numbered in order, from
/// the costs of the child terms.
pub open spec fn cost_rec_spec<C: CostFunction>(cf: &C, e: RecExpr) -> u64
    decreases e, 1nat,
{
    cf.cost_spec(renumbered(e.node), child_costs_spec(cf, e))
}

/// The costs of the child terms, in order.
pub open spec fn child_costs_spec<C: CostFunction>(cf: &C, e: RecExpr) -> Seq<u64>
    decreases e, 0nat,
{
    Seq::new(
        e.children@.len(),
        |i: int|
            if 0 <= i < e.children@.len() {
                cost_rec_spec(cf, e.children@[i])
            } else {
                0
            },
    )
}

/// The e-node with its child invocations numbered in order, without slots.
pub fn renumber(n: &ENode) -> (r: ENode)
    ensures
        r@ == renumbered(*n),
        forall|k: int| 0 <= k < app_ids_spec(r).len() ==> (#[trigger] app_ids_spec(r)[k]).id.0 == k,
{
    match n {
        ENode::Lam(s, _) => {
            let a = AppliedId::new(Id(0), SlotMap::new());
            assert(a.m.keys@ =~= Seq::<Slot>::empty() && a.m.vals@ =~= Seq::<Slot>::empty());
            let r = ENode::Lam(*s, a);
            assert(app_ids_spec(r) =~= seq![a]);
            r
        },
        ENode::App(_, _) => {
            let a = AppliedId::new(Id(0), SlotMap::new());
            let b = AppliedId::new(Id(1), SlotMap::new());
            assert(a.m.keys@ =~= Seq::<Slot>::empty() && a.m.vals@ =~= Seq::<Slot>::empty());
            assert(b.m.keys@ =~= Seq::<Slot>::empty() && b.m.vals@ =~= Seq::<Slot>::empty());
            let r = ENode::App(a, b);
            assert(app_ids_spec(r) =~= seq![a, b]);
            r
        },
        ENode::Var(s) => ENode::Var(*s),
    }
}

/// The cost of a term: each child's cost first, then the cost of the e-node from them.
pub fn cost_rec<C: CostFunction>(cf: &C, expr: &RecExpr) -> (r: u64)
    requires
        costable(*expr),
    ensures
        r == cost_rec_spec(cf, *expr),
    decreases expr,
{
    let mut child_costs: Vec<u64> = Vec::new();
    let mut i: usize = 0;
    while i < expr.children.len()
        invariant
            costable(*expr),
            0 <= i <= expr.children@.len(),
            child_costs@.len() == i,
            forall|j: int| 0 <= j < i ==> child_costs@[j] == cost_rec_spec(cf, #[trigger] expr.children@[j]),
        decreases expr.children@.len() - i,
    {
        proof {
            let v = expr.children;
            assert(decreases_to!(*expr => v));
            assert(decreases_to!(v => v@));
            assert(decreases_to!(v@ => v@[i as int]));
        }
        let c = cost_rec(cf, &expr.children[i]);
        child_costs.push(c);
        i = i + 1;
    }
    let node = renumber(&expr.node);
    assert(child_costs@ =~= child_costs_spec(cf, *expr));
    cf.cost(&node, &child_costs)
}

/// The size of the syntax tree: one for each e-node.
#[derive(Debug)]
pub struct AstSize;

/// One more than the children's costs, summed, saturating at `u64::MAX`.
pub open spec fn ast_size_cost(n: ENodeView, costs: Seq<u64>) -> u64 {
    match n {
        ENodeView::Lam(_, a) => 1u64.saturating_add(costs[a.0.0 as int]),
        ENodeView::App(a, b) => 1u64.saturating_add(costs[a.0.0 as int]).saturating_add(costs[b.0.0 as int]),
        ENodeView::Var(_) => 1,
    }
}

impl CostFunction for AstSize {
    open spec fn cost_spec(&self, enode: ENodeView, costs: Seq<u64>) -> u64 {
        ast_size_cost(enode, costs)
    }

    fn cost(&self, enode: &ENode, costs: &Vec<u64>) -> (r: u64) {
        let mut s: u64 = 1;
        match enode {
            ENode::Lam(_, a) => {
                assert(app_ids_spec(*enode)[0] == *a);
                s = s.saturating_add(costs[a.id.0]);
            },
            ENode::App(a, b) => {
                assert(app_ids_spec(*enode)[0] == *a);
                assert(app_ids_spec(*enode)[1] == *b);
                s = s.saturating_add(costs[a.id.0]);
                s = s.saturating_add(costs[b.id.0]);
            },
            ENode::Var(_) => {},
        }
        s
    }
}

} // verus!
