use vstd::prelude::*;
use crate::slotmap::SlotMap;
use crate::applied::{AppliedId, Id};
use crate::lang::{ENode, ENodeView, AppView, app_view};

verus! {

/// A term: an e-node whose child invocations stand for the terms in `children`, in order.
///
/// The invocations inside `node` are placeholders; the children replace them.
pub struct RecExpr {
    pub node: ENode,
    pub children: Vec<RecExpr>,
}

/// A pattern: a term with pattern variables (`?x`) and substitutions (`b[x := t]`).
pub enum Pattern {
    ENode(ENode, Vec<Pattern>),
    PVar(String),
    Subst(Box<Pattern>, Box<Pattern>, Box<Pattern>),
}

/// The pattern holds only e-nodes: no variable and no substitution.
pub open spec fn is_ground(p: Pattern) -> bool
    decreases p,
{
    match p {
        Pattern::ENode(_, ch) => forall|i: int| #![trigger ch@[i]] 0 <= i < ch@.len() ==> is_ground(ch@[i]),
        _ => false,
    }
}

/// The pattern holds no substitution.
pub open spec fn no_subst(p: Pattern) -> bool
    decreases p,
{
    match p {
        Pattern::ENode(_, ch) => forall|i: int| #![trigger ch@[i]] 0 <= i < ch@.len() ==> no_subst(ch@[i]),
        Pattern::PVar(_) => true,
        Pattern::Subst(..) => false,
    }
}

/// `re` is the term that the ground pattern `p` spells out.
pub open spec fn spells(re: RecExpr, p: Pattern) -> bool
    decreases p,
{
    match p {
        Pattern::ENode(n, ch) => {
            &&& re.node@ == n@
            &&& re.children@.len() == ch@.len()
            &&& forall|i: int| #![trigger ch@[i]] 0 <= i < ch@.len() ==> spells(re.children@[i], ch@[i])
        },
        _ => false,
    }
}

/// The two terms have the same e-nodes in the same places.
pub open spec fn same_term(a: RecExpr, b: RecExpr) -> bool
    decreases a,
{
    &&& a.node@ == b.node@
    &&& a.children@.len() == b.children@.len()
    &&& forall|i: int| #![trigger a.children@[i]] 0 <= i < a.children@.len() ==> same_term(a.children@[i], b.children@[i])
}

/// A pattern spells out only ground patterns.
pub proof fn lemma_spells_ground(re: RecExpr, p: Pattern)
    requires
        spells(re, p),
    ensures
        is_ground(p),
    decreases p,
{
    if let Pattern::ENode(_, ch) = p {
        assert forall|i: int| #![trigger ch@[i]] 0 <= i < ch@.len() implies is_ground(ch@[i]) by {
            lemma_spells_ground(re.children@[i], ch@[i]);
        }
    }
}

/// Every term is the same term as itself.
pub proof fn lemma_same_term_refl(e: RecExpr)
    ensures
        same_term(e, e),
    decreases e,
{
    assert forall|i: int| #![trigger e.children@[i]] 0 <= i < e.children@.len() implies same_term(e.children@[i], e.children@[i]) by {
        lemma_same_term_refl(e.children@[i]);
    }
}

impl Clone for RecExpr {
    fn clone(&self) -> (r: Self)
        ensures
            same_term(r, *self),
        decreases self,
    {
        let mut children: Vec<RecExpr> = Vec::new();
        let mut i: usize = 0;
        while i < self.children.len()
            invariant
                0 <= i <= self.children@.len(),
                children@.len() == i,
                forall|j: int| #![trigger children@[j]] 0 <= j < i ==> same_term(children@[j], self.children@[j]),
            decreases self.children@.len() - i,
        {
            proof {
                let v = self.children;
                assert(decreases_to!(*self => v));
                assert(decreases_to!(v => v@));
                assert(decreases_to!(v@ => v@[i as int]));
            }
            let c = self.children[i].clone();
            children.push(c);
            i = i + 1;
        }
        RecExpr { node: self.node.clone(), children }
    }
}

/// A ground pattern spells out one term: two terms that it spells out are the same.
pub proof fn lemma_spells_unique(a: RecExpr, b: RecExpr, p: Pattern)
    requires
        spells(a, p),
        spells(b, p),
    ensures
        same_term(a, b),
    decreases p,
{
    if let Pattern::ENode(_, ch) = p {
        assert forall|i: int| #![trigger a.children@[i]] 0 <= i < a.children@.len() implies same_term(
            a.children@[i],
            b.children@[i],
        ) by {
            lemma_spells_unique(a.children@[i], b.children@[i], ch@[i]);
        }
    }
}

/// The two ground patterns have the same e-nodes in the same places.
pub open spec fn same_pattern(p: Pattern, q: Pattern) -> bool
    decreases p,
{
    match (p, q) {
        (Pattern::ENode(n, ch), Pattern::ENode(n2, ch2)) => {
            &&& n@ == n2@
            &&& ch@.len() == ch2@.len()
            &&& forall|i: int| #![trigger ch@[i]] 0 <= i < ch@.len() ==> same_pattern(ch@[i], ch2@[i])
        },
        _ => false,
    }
}

/// A term is spelled by one ground pattern only: turning a pattern into a term and back
/// gives the same pattern.
pub proof fn lemma_pattern_round_trip(re: RecExpr, p: Pattern, q: Pattern)
    requires
        spells(re, p),
        spells(re, q),
    ensures
        same_pattern(p, q),
    decreases p,
{
    if let Pattern::ENode(_, ch) = p {
        if let Pattern::ENode(_, ch2) = q {
            assert forall|i: int| #![trigger ch@[i]] 0 <= i < ch@.len() implies same_pattern(ch@[i], ch2@[i]) by {
                lemma_pattern_round_trip(re.children@[i], ch@[i], ch2@[i]);
            }
        }
    }
}

/// Turning a term into a pattern and back gives the same term.
pub proof fn lemma_round_trip(re: RecExpr, p: Pattern, re2: RecExpr)
    requires
        spells(re, p),
        spells(re2, p),
    ensures
        same_term(re, re2),
{
    lemma_spells_unique(re, re2, p);
}

/// The term that a ground pattern spells out.
pub fn pattern_to_re(pat: &Pattern) -> (r: RecExpr)
    requires
        is_ground(*pat),
    ensures
        spells(r, *pat),
    decreases pat,
{
    match pat {
        Pattern::ENode(n, ch) => {
            let mut children: Vec<RecExpr> = Vec::new();
            let mut i: usize = 0;
            while i < ch.len()
                invariant
                    0 <= i <= ch@.len(),
                    *pat == Pattern::ENode(*n, *ch),
                    forall|k: int| #![trigger ch@[k]] 0 <= k < ch@.len() ==> is_ground(ch@[k]),
                    children@.len() == i,
                    forall|k: int| #![trigger ch@[k]] 0 <= k < i ==> spells(children@[k], ch@[k]),
                decreases ch@.len() - i,
            {
                assert(is_ground(ch@[i as int]));
                proof {
                    let v = pat->ENode_1;
                    assert(decreases_to!(*pat => v));
                    assert(decreases_to!(v => v@));
                    assert(decreases_to!(v@ => v@[i as int]));
                    assert(decreases_to!(*pat => ch@[i as int]));
                }
                let c = pattern_to_re(&ch[i]);
                children.push(c);
                i = i + 1;
            }
            let r = RecExpr { node: n.clone(), children };
            assert(r.children@ == children@);
            r
        },
        _ => {
            assert(false);
            RecExpr { node: ENode::Var(crate::slot::Slot::missing()), children: Vec::new() }
        },
    }
}

/// The ground pattern that spells out a term.
pub fn re_to_pattern(re: &RecExpr) -> (r: Pattern)
    ensures
        spells(*re, r),
        is_ground(r),
    decreases re,
{
    let mut children: Vec<Pattern> = Vec::new();
    let mut i: usize = 0;
    while i < re.children.len()
        invariant
            0 <= i <= re.children@.len(),
            children@.len() == i,
            forall|k: int| #![trigger children@[k]] 0 <= k < i ==> spells(re.children@[k], children@[k]),
        decreases re.children@.len() - i,
    {
        proof {
            assert(decreases_to!(*re => re.children@[i as int]));
        }
        let c = re_to_pattern(&re.children[i]);
        children.push(c);
        i = i + 1;
    }
    let r = Pattern::ENode(re.node.clone(), children);
    proof {
        assert(r->ENode_1 == children);
        lemma_spells_ground(*re, r);
    }
    r
}

/// An e-node or a pattern variable: a node of a flattened pattern.
pub enum ENodeOrVar<L> {
    ENode(L),
    Var(String),
}

/// A term or pattern laid out as a list of nodes, children before their parents; a child
/// invocation of a node refers to an earlier node by its position.
pub struct RecExprFlat<L> {
    pub nodes: Vec<L>,
}

impl<L> RecExprFlat<L> {
    /// The empty list.
    pub fn new() -> (r: Self)
        ensures
            r.nodes@.len() == 0,
    {
        RecExprFlat { nodes: Vec::new() }
    }

    /// The empty list.
    pub fn default() -> (r: Self)
        ensures
            r.nodes@.len() == 0,
    {
        Self::new()
    }

    /// Appends `node`; returns its position as an invocation without slots.
    pub fn add(&mut self, node: L) -> (r: AppliedId)
        ensures
            final(self).nodes@ == old(self).nodes@.push(node),
            r.id == Id(old(self).nodes@.len() as usize),
            r.m@ == Map::<crate::slot::Slot, crate::slot::Slot>::empty(),
            r.wf(),
    {
        let id = AppliedId::new(Id(self.nodes.len()), SlotMap::new());
        self.nodes.push(node);
        id
    }

    pub fn is_empty(&self) -> (r: bool)
        ensures
            r == (self.nodes@.len() == 0),
    {
        self.nodes.len() == 0
    }

    pub fn len(&self) -> (r: usize)
        ensures
            r == self.nodes@.len(),
    {
        self.nodes.len()
    }

    /// The last node, which is the root.
    pub fn root(&self) -> (r: AppliedId)
        requires
            self.nodes@.len() > 0,
        ensures
            r.id.0 as int == self.nodes@.len() - 1,
            r.m@ == Map::<crate::slot::Slot, crate::slot::Slot>::empty(),
            r.wf(),
    {
        AppliedId { id: Id(self.nodes.len() - 1), m: SlotMap::new() }
    }
}

/// What a node of a flattened pattern holds.
pub enum FlatView {
    ENode(ENodeView),
    Var(Seq<char>),
}

pub open spec fn flat_view(x: ENodeOrVar<ENode>) -> FlatView {
    match x {
        ENodeOrVar::ENode(n) => FlatView::ENode(n@),
        ENodeOrVar::Var(s) => FlatView::Var(s@),
    }
}

pub open spec fn flat_views(s: Seq<ENodeOrVar<ENode>>) -> Seq<FlatView> {
    s.map_values(|x: ENodeOrVar<ENode>| flat_view(x))
}

/// The invocation `a` pointed at `id` where `ids` has an entry at position `k`.
pub open spec fn redirect(a: AppliedId, ids: Seq<Id>, k: int) -> AppView {
    if k < ids.len() {
        (ids[k], a.m.keys@, a.m.vals@)
    } else {
        app_view(a)
    }
}

/// The e-node whose child invocations point, in order, at `ids` (as far as `ids` goes).
pub open spec fn with_ids(n: ENode, ids: Seq<Id>) -> ENodeView {
    match n {
        ENode::Lam(s, a) => ENodeView::Lam(s, redirect(a, ids, 0)),
        ENode::App(a, b) => ENodeView::App(redirect(a, ids, 0), redirect(b, ids, 1)),
        ENode::Var(s) => ENodeView::Var(s),
    }
}

/// The nodes that flattening `p` appends after `start` nodes: each child's nodes in turn,
/// then the node itself.
pub open spec fn flat_of(p: Pattern, start: nat) -> Seq<FlatView>
    decreases p, 0nat,
{
    match p {
        Pattern::PVar(s) => seq![FlatView::Var(s@)],
        Pattern::ENode(n, ch) => {
            let (ns, ids) = flat_list(ch@, ch@.len(), start);
            ns.push(FlatView::ENode(with_ids(n, ids)))
        },
        Pattern::Subst(..) => seq![],
    }
}

/// The nodes of the first `k` patterns of `ch`, flattened one after the other after `start`
/// nodes, and the position of each one's root.
pub open spec fn flat_list(ch: Seq<Pattern>, k: nat, start: nat) -> (Seq<FlatView>, Seq<Id>)
    decreases ch, k,
{
    if k == 0 || k > ch.len() {
        (seq![], seq![])
    } else {
        let (ns, ids) = flat_list(ch, (k - 1) as nat, start);
        let sub = flat_of(ch[k - 1], start + ns.len());
        (ns + sub, ids.push(Id((start + ns.len() + sub.len() - 1) as usize)))
    }
}

/// Appends the nodes of `p` to `expr`, children first; returns the position of its root.
fn build_flat(p: &Pattern, expr: &mut RecExprFlat<ENodeOrVar<ENode>>) -> (r: AppliedId)
    requires
        no_subst(*p),
        old(expr).nodes@.len() + flat_of(*p, old(expr).nodes@.len() as nat).len() <= usize::MAX,
    ensures
        flat_views(final(expr).nodes@) == flat_views(old(expr).nodes@) + flat_of(
            *p,
            old(expr).nodes@.len() as nat,
        ),
        r.id == Id((final(expr).nodes@.len() - 1) as usize),
        r.m@ == Map::<crate::slot::Slot, crate::slot::Slot>::empty(),
        r.wf(),
    decreases p,
{
    let ghost start = expr.nodes@.len() as nat;
    let ghost before = expr.nodes@;
    match p {
        Pattern::PVar(name) => {
            let r = expr.add(ENodeOrVar::Var(name.clone()));
            assert(flat_views(expr.nodes@) =~= flat_views(before) + flat_of(*p, start));
            r
        },
        Pattern::ENode(op, ch) => {
            let mut ids: Vec<Id> = Vec::new();
            let mut j: usize = 0;
            while j < ch.len()
                invariant
                    0 <= j <= ch@.len(),
                    *p == Pattern::ENode(*op, *ch),
                    forall|k: int| #![trigger ch@[k]] 0 <= k < ch@.len() ==> no_subst(ch@[k]),
                    start + flat_list(ch@, ch@.len(), start).0.len() < usize::MAX,
                    before.len() == start,
                    flat_views(expr.nodes@) == flat_views(before) + flat_list(ch@, j as nat, start).0,
                    ids@ == flat_list(ch@, j as nat, start).1,
                decreases ch@.len() - j,
            {
                proof {
                    lemma_flat_list_prefix(ch@, ch@.len(), (j + 1) as nat, start);
                }
                let ghost prev = flat_list(ch@, j as nat, start);
                let ghost sub = flat_of(ch@[j as int], start + prev.0.len());
                assert(flat_list(ch@, (j + 1) as nat, start) == (prev.0 + sub, prev.1.push(
                    Id((start + prev.0.len() + sub.len() - 1) as usize),
                )));
                assert(expr.nodes@.len() == start + prev.0.len());
                proof {
                    let v = p->ENode_1;
                    assert(decreases_to!(*p => v));
                    assert(decreases_to!(v => v@));
                    assert(decreases_to!(v@ => v@[j as int]));
                }
                let c = build_flat(&ch[j], expr);
                assert(flat_views(expr.nodes@).len() == expr.nodes@.len());
                assert(flat_views(before).len() == before.len());
                assert(c.id == Id((start + prev.0.len() + sub.len() - 1) as usize));
                ids.push(c.id);
                assert(ids@ == prev.1.push(c.id));
                j = j + 1;
            }
            let ghost all = flat_list(ch@, ch@.len(), start);
            let node = match op {
                ENode::Lam(s, a) => {
                    let a2 = if ids.len() > 0 {
                        AppliedId::new(ids[0], a.m.clone())
                    } else {
                        a.clone()
                    };
                    ENode::Lam(*s, a2)
                },
                ENode::App(a, b) => {
                    let a2 = if ids.len() > 0 {
                        AppliedId::new(ids[0], a.m.clone())
                    } else {
                        a.clone()
                    };
                    let b2 = if ids.len() > 1 {
                        AppliedId::new(ids[1], b.m.clone())
                    } else {
                        b.clone()
                    };
                    ENode::App(a2, b2)
                },
                ENode::Var(s) => ENode::Var(*s),
            };
            assert(node@ == with_ids(*op, all.1));
            let ghost mid = expr.nodes@;
            let r = expr.add(ENodeOrVar::ENode(node));
            assert(flat_views(expr.nodes@) =~= flat_views(mid).push(FlatView::ENode(node@)));
            assert(flat_views(expr.nodes@) =~= flat_views(before) + flat_of(*p, start));
            r
        },
        Pattern::Subst(..) => {
            assert(false);
            expr.add(ENodeOrVar::Var(String::new()))
        },
    }
}

/// The flattened pattern grows with each child that it takes in.
proof fn lemma_flat_list_prefix(ch: Seq<Pattern>, k: nat, a: nat, start: nat)
    ensures
        a <= k <= ch.len() ==> flat_list(ch, a, start).0.len() <= flat_list(ch, k, start).0.len(),
    decreases k,
{
    if a <= k <= ch.len() && a < k {
        lemma_flat_list_prefix(ch, (k - 1) as nat, a, start);
    }
}

/// The flattened form of a pattern: the nodes in post-order, each child invocation pointing
/// at the position of the child's root.
pub fn pattern_ast_to_flat(pattern: &Pattern) -> (r: RecExprFlat<ENodeOrVar<ENode>>)
    requires
        no_subst(*pattern),
        flat_of(*pattern, 0).len() <= usize::MAX,
    ensures
        flat_views(r.nodes@) == flat_of(*pattern, 0),
{
    let mut result: RecExprFlat<ENodeOrVar<ENode>> = RecExprFlat::default();
    build_flat(pattern, &mut result);
    assert(flat_views(result.nodes@) =~= flat_of(*pattern, 0));
    result
}

} // verus!
