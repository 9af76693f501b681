use vstd::prelude::*;
use crate::slot::Slot;
use crate::applied::{AppliedId, Id};
use crate::lang::{ENode, app_ids_spec, with_all_slots, rename_public};
use crate::expr::RecExpr;
use crate::proofs::{ProvenEqRaw, EqView, app_map, null_view_of, view_children, lemma_children_views};
use crate::slot::SlotTable;
use crate::slotmap::SlotMap;
use crate::steps::{nodes_wf, Step, FlatteningContext, chained, step_text};
use crate::show::{show_re, check_showable};
use crate::proofs::takes;
use vstd::string::StringExecFns;

verus! {

/// The syntactic e-node of each e-class, by class id: what an e-graph reads to build the
/// canonical term of an invocation.
pub struct SynClasses {
    pub syn_enode: Vec<ENode>,
}

/// `e` is the canonical term of the invocation `a` over the syntactic e-nodes `g`: the
/// syntactic e-node of its class, renamed by its map, with each child invocation replaced by
/// the canonical term of that child.
pub open spec fn is_syn_expr(g: Seq<ENode>, a: (Id, Map<Slot, Slot>), e: RecExpr) -> bool
    decreases e,
{
    let k = a.0.0 as int;
    let v = with_all_slots(g[k], rename_public(g[k], a.1));
    &&& 0 <= k < g.len()
    &&& e.node.wf()
    &&& e.node@ == null_view_of(v)
    &&& e.children@.len() == view_children(v).len()
    &&& forall|j: int|
        #![trigger e.children@[j]]
        0 <= j < e.children@.len() ==> is_syn_expr(g, app_map(view_children(v)[j]), e.children@[j])
}

/// Two canonical terms of one invocation are the same term.
pub proof fn lemma_syn_same(g: Seq<ENode>, a: (Id, Map<Slot, Slot>), e1: RecExpr, e2: RecExpr)
    requires
        is_syn_expr(g, a, e1),
        is_syn_expr(g, a, e2),
    ensures
        crate::expr::same_term(e1, e2),
    decreases e1,
{
    let k = a.0.0 as int;
    let v = with_all_slots(g[k], rename_public(g[k], a.1));
    assert forall|j: int| #![trigger e1.children@[j]] 0 <= j < e1.children@.len() implies crate::expr::same_term(
        e1.children@[j],
        e2.children@[j],
    ) by {
        assert(is_syn_expr(g, app_map(view_children(v)[j]), e1.children@[j]));
        assert(is_syn_expr(g, app_map(view_children(v)[j]), e2.children@[j]));
        lemma_syn_same(g, app_map(view_children(v)[j]), e1.children@[j], e2.children@[j]);
    }
}

/// Two canonical terms of one invocation have the same operators in the same places.
pub proof fn lemma_syn_alike(g: Seq<ENode>, a: (Id, Map<Slot, Slot>), e1: RecExpr, e2: RecExpr)
    requires
        is_syn_expr(g, a, e1),
        is_syn_expr(g, a, e2),
    ensures
        crate::steps::alike(e1, e2),
    decreases e1,
{
    let k = a.0.0 as int;
    let v = with_all_slots(g[k], rename_public(g[k], a.1));
    assert(app_ids_spec(e1.node).len() == view_children(v).len()) by {
        match e1.node {
            ENode::Lam(..) => {},
            ENode::App(..) => {},
            ENode::Var(..) => {},
        }
    }
    assert(app_ids_spec(e2.node).len() == view_children(v).len()) by {
        match e2.node {
            ENode::Lam(..) => {},
            ENode::App(..) => {},
            ENode::Var(..) => {},
        }
    }
    assert(crate::steps::op_name(e1.node) == crate::steps::op_name(e2.node)) by {
        match e1.node {
            ENode::Lam(..) => {},
            ENode::App(..) => {},
            ENode::Var(..) => {},
        }
    }
    assert forall|j: int| #![trigger e1.children@[j]] 0 <= j < app_ids_spec(e1.node).len() implies crate::steps::alike(
        e1.children@[j],
        e2.children@[j],
    ) by {
        lemma_syn_alike(g, app_map(view_children(v)[j]), e1.children@[j], e2.children@[j]);
    }
}

impl SynClasses {
    /// Each syntactic e-node is well formed, and its children are classes of smaller id:
    /// a class's syntactic e-node was added after its children.
    pub open spec fn wf(&self) -> bool {
        forall|k: int|
            #![trigger self.syn_enode@[k]]
            0 <= k < self.syn_enode@.len() ==> {
                &&& self.syn_enode@[k].wf()
                &&& forall|j: int|
                    0 <= j < app_ids_spec(self.syn_enode@[k]).len() ==> (#[trigger] app_ids_spec(
                        self.syn_enode@[k],
                    )[j].id.0 as int) < k
            }
    }

    /// The syntactic e-node of the class of `i`, renamed by the map of `i`.
    pub fn get_syn_node(&self, i: &AppliedId) -> (r: ENode)
        requires
            self.wf(),
            (i.id.0 as int) < self.syn_enode@.len(),
            i.wf(),
        ensures
            r.wf(),
            r@ == with_all_slots(
                self.syn_enode@[i.id.0 as int],
                rename_public(self.syn_enode@[i.id.0 as int], i.m@),
            ),
    {
        let syn = &self.syn_enode[i.id.0];
        syn.apply_slotmap(&i.m)
    }

    /// The canonical term of `i`, built from the syntactic e-nodes.
    pub fn get_syn_expr(&self, i: &AppliedId) -> (r: RecExpr)
        requires
            self.wf(),
            (i.id.0 as int) < self.syn_enode@.len(),
            i.wf(),
        ensures
            is_syn_expr(self.syn_enode@, (i.id, i.m@), r),
        decreases i.id.0,
    {
        let enode = self.get_syn_node(i);
        let ghost syn = self.syn_enode@[i.id.0 as int];
        let ghost v = enode@;
        let cs_occ = enode.applied_id_occurrences();
        proof {
            lemma_children_views(enode);
            lemma_children_views(syn);
            assert(crate::lang::app_views(cs_occ@).len() == crate::lang::app_views(app_ids_spec(enode)).len());
            assert(cs_occ@.len() == app_ids_spec(enode).len());
            assert(app_ids_spec(enode).len() == app_ids_spec(syn).len());
            assert forall|t: int| 0 <= t < cs_occ@.len() implies (#[trigger] cs_occ@[t]).id == app_ids_spec(enode)[t].id
                && cs_occ@[t].m@ == app_ids_spec(enode)[t].m@ by {
                assert(crate::lang::app_views(cs_occ@)[t] == crate::lang::app_views(app_ids_spec(enode))[t]);
                assert(cs_occ@[t].m@ =~= app_ids_spec(enode)[t].m@);
            }
            assert forall|t: int| 0 <= t < cs_occ@.len() implies (#[trigger] cs_occ@[t]).id == app_ids_spec(syn)[t].id by {
                assert(crate::lang::app_views(cs_occ@)[t] == crate::lang::app_views(app_ids_spec(enode))[t]);
                assert(view_children(v)[t] == crate::lang::app_views(app_ids_spec(enode))[t]);
            }
        }
        let mut cs: Vec<RecExpr> = Vec::new();
        let mut j: usize = 0;
        while j < cs_occ.len()
            invariant
                self.wf(),
                (i.id.0 as int) < self.syn_enode@.len(),
                syn == self.syn_enode@[i.id.0 as int],
                v == enode@,
                enode.wf(),
                cs_occ@.len() == view_children(v).len(),
                cs_occ@.len() == app_ids_spec(syn).len(),
                forall|t: int| 0 <= t < cs_occ@.len() ==> (#[trigger] cs_occ@[t]).wf(),
                forall|t: int| 0 <= t < cs_occ@.len() ==> (#[trigger] cs_occ@[t]).id == app_ids_spec(syn)[t].id,
                forall|t: int|
                    0 <= t < cs_occ@.len() ==> (#[trigger] cs_occ@[t]).id == app_map(view_children(v)[t]).0
                        && cs_occ@[t].m@ == app_map(view_children(v)[t]).1,
                0 <= j <= cs_occ@.len(),
                cs@.len() == j,
                forall|t: int|
                    #![trigger cs@[t]]
                    0 <= t < j ==> is_syn_expr(self.syn_enode@, app_map(view_children(v)[t]), cs@[t]),
            decreases cs_occ@.len() - j,
        {
            let c = &cs_occ[j];
            assert((app_ids_spec(syn)[j as int].id.0 as int) < i.id.0);
            let e = self.get_syn_expr(c);
            cs.push(e);
            j = j + 1;
        }
        let node = enode.nullify_app_ids();
        proof {
            assert(app_ids_spec(node).len() == app_ids_spec(enode).len());
            if app_ids_spec(node).len() > 0 {
                assert(crate::lang::app_view(app_ids_spec(node)[0]) == (Id(0), Seq::<Slot>::empty(), Seq::<Slot>::empty()));
            }
            if app_ids_spec(node).len() > 1 {
                assert(crate::lang::app_view(app_ids_spec(node)[1]) == (Id(0), Seq::<Slot>::empty(), Seq::<Slot>::empty()));
            }
            assert(seq![] =~= Seq::<Slot>::empty());
        }
        let r = RecExpr { node, children: cs };
        assert(r.node@ == null_view_of(v));
        r
    }
}

/// A canonical term has well-formed e-nodes only.
pub proof fn lemma_syn_nodes_wf(g: Seq<ENode>, a: (Id, Map<Slot, Slot>), e: RecExpr)
    requires
        is_syn_expr(g, a, e),
    ensures
        nodes_wf(e),
    decreases e,
{
    let k = a.0.0 as int;
    let v = with_all_slots(g[k], rename_public(g[k], a.1));
    assert forall|i: int| #![trigger e.children@[i]] 0 <= i < e.children@.len() implies nodes_wf(e.children@[i]) by {
        lemma_syn_nodes_wf(g, app_map(view_children(v)[i]), e.children@[i]);
    }
}

/// The left side of `e` where `left`, else its right side.
pub open spec fn side_of(e: EqView, left: bool) -> (Id, Map<Slot, Slot>) {
    if left {
        e.0
    } else {
        e.1
    }
}

impl ProvenEqRaw {
    /// The canonical term of the source side (`src`) or of the destination side of the
    /// equation, read from right to left where `symm`; `None` where that side's class has no
    /// syntactic e-node.
    pub(crate) fn side(&self, src: bool, symm: bool, graph: &SynClasses) -> (r: Option<RecExpr>)
        requires
            graph.wf(),
            self.wf(),
        ensures
            match r {
                Some(e) => is_syn_expr(graph.syn_enode@, side_of(self.eq_spec(), src != symm), e),
                None => side_of(self.eq_spec(), src != symm).0.0 >= graph.syn_enode@.len(),
            },
    {
        let e = self.equ();
        let id = if src != symm {
            e.l
        } else {
            e.r
        };
        if id.id.0 < graph.syn_enode.len() {
            Some(graph.get_syn_expr(&id))
        } else {
            None
        }
    }
}

/// The printed form of a flattened explanation: the start term, then each step on a line
/// of its own.
pub open spec fn flat_text(tab: SlotTable, start: RecExpr, steps: Seq<Step>) -> Seq<char>
    decreases steps.len(),
{
    if steps.len() == 0 {
        show_re(tab, start)
    } else {
        let s = steps.last();
        flat_text(tab, start, steps.drop_last()) + seq!['\n'] + step_text(tab, s.dst, s.rw_pos@, s.jus@, s.back)
    }
}

impl ProvenEqRaw {
    /// The explanation as text: the canonical term of the left side, then each rewrite
    /// step with the whole term after it, one per line.
    ///
    /// `None` where [ProvenEqRaw::to_steps] finds no steps, or where a term holds a slot
    /// that cannot be printed.
    pub fn to_flat_string(&self, graph: &SynClasses, tab: &SlotTable) -> (r: Option<String>)
        requires
            graph.wf(),
            self.tree_wf(),
        ensures
            r matches Some(text) ==> exists|start: RecExpr, steps: Seq<Step>, head: RecExpr| {
                &&& is_syn_expr(graph.syn_enode@, self.eq_spec().0, start)
                &&& takes(steps, self.rewrites(seq![], false))
                &&& chained(start, steps, head)
                &&& text@ == flat_text(*tab, start, steps)
            },
            self.proof_spec() is Reflexivity && self.eq_spec().0.0.0 < graph.syn_enode@.len() && (forall|e: RecExpr|
                #[trigger] is_syn_expr(graph.syn_enode@, self.eq_spec().0, e) ==> crate::show::re_showable(*tab, e))
                ==> r is Some,
    {
        proof {
            self.lemma_tree_wf();
        }
        let start = match self.side(true, false, graph) {
            Some(e) => e,
            None => {
                return None;
            },
        };
        if !check_showable(tab, &start) {
            return None;
        }
        let mut result = start.show(tab);
        let ghost start_v = start;
        let mut ctx = FlatteningContext { head: start, slot_map: SlotMap::new() };
        let pos: Vec<u8> = Vec::new();
        assert(pos@ =~= seq![]);
        proof {
            assert(crate::steps::subexpr_spec(start_v, pos@) == start_v);
            assert forall|e: RecExpr| is_syn_expr(graph.syn_enode@, side_of(self.eq_spec(), !false), e)
                implies #[trigger] crate::steps::alike(crate::steps::subexpr_spec(start_v, pos@), e) by {
                lemma_syn_alike(graph.syn_enode@, self.eq_spec().0, start_v, e);
            }
        }
        let steps = match Self::to_steps(graph, self, pos, false, &mut ctx) {
            Some(s) => s,
            None => {
                return None;
            },
        };
        let ghost plain = self.proof_spec() is Reflexivity && self.eq_spec().0.0.0 < graph.syn_enode@.len();
        assert(plain ==> steps@.len() == 0);
        let mut i: usize = 0;
        while i < steps.len()
            invariant
                0 <= i <= steps@.len(),
                plain ==> steps@.len() == 0,
                plain == (self.proof_spec() is Reflexivity && self.eq_spec().0.0.0 < graph.syn_enode@.len()),
                result@ == flat_text(*tab, start_v, steps@.subrange(0, i as int)),
            decreases steps@.len() - i,
        {
            if !check_showable(tab, &steps[i].dst) {
                return None;
            }
            let line = steps[i].to_string(tab);
            proof {
                reveal_strlit("\n");
            }
            result.append("\n");
            result.append(line.as_str());
            proof {
                let sub = steps@.subrange(0, i + 1);
                assert(sub.drop_last() =~= steps@.subrange(0, i as int));
                assert(sub.last() == steps@[i as int]);
            }
            assert(result@ =~= flat_text(*tab, start_v, steps@.subrange(0, i + 1)));
            i = i + 1;
        }
        assert(steps@.subrange(0, steps@.len() as int) =~= steps@);
        Some(result)
    }
}

} // verus!
