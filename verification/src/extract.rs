use vstd::prelude::*;
use crate::slotmap::{identity_map, compose_partial_map, lemma_compose_dom};
use crate::applied::{AppliedId, Id};
use crate::lang::{ENode, app_ids_spec};
use crate::expr::RecExpr;
use crate::egraph::{EGraph, with_kids, lemma_root_iff};

verus! {

/// The number of e-nodes of a term.
pub open spec fn term_size(re: RecExpr) -> nat
    decreases re, 1int, 0int,
{
    1 + sizes_upto(re, re.children@.len() as int)
}

/// The sizes of the first `k` children of `re`, added up.
pub open spec fn sizes_upto(re: RecExpr, k: int) -> nat
    decreases re, 0int, k,
{
    if k <= 0 || k > re.children@.len() {
        0
    } else {
        sizes_upto(re, k - 1) + term_size(re.children@[k - 1])
    }
}

/// The value of a cost entry; zero where there is none.
pub open spec fn cval(o: Option<u64>) -> int {
    match o {
        Some(v) => v as int,
        None => 0,
    }
}

/// The class that the invocation `a` reaches.
pub open spec fn kid_class(eg: EGraph, a: AppliedId) -> int {
    eg.class_of(a.id.0 as int)
}

/// One plus the costs of the classes that the children of `n` reach; `None` where a child
/// leaves the e-graph or reaches a class without a cost.
pub open spec fn node_cost(eg: EGraph, cost: Seq<Option<u64>>, n: ENode) -> Option<int> {
    match n {
        ENode::Var(_) => Some(1),
        ENode::Lam(_, a) => if a.id.0 < eg.len() && cost[kid_class(eg, a)] is Some {
            Some(1 + cval(cost[kid_class(eg, a)]))
        } else {
            None
        },
        ENode::App(a, b) => if a.id.0 < eg.len() && b.id.0 < eg.len() && cost[kid_class(eg, a)] is Some
            && cost[kid_class(eg, b)] is Some {
            Some(1 + cval(cost[kid_class(eg, a)]) + cval(cost[kid_class(eg, b)]))
        } else {
            None
        },
    }
}

/// The potential of a cost table: each class without a cost counts above every cost.
pub open spec fn pot(s: Seq<Option<u64>>) -> nat
    decreases s.len(),
{
    if s.len() == 0 {
        0
    } else {
        pot(s.drop_last()) + match s.last() {
            Some(v) => v as nat,
            None => u64::MAX as nat + 1,
        }
    }
}

/// A table for extracting a term of least size from each class of an e-graph: the least
/// size found for each class and the e-node that gives it.
pub struct Extractor {
    pub cost: Vec<Option<u64>>,
    pub best: Vec<usize>,
}

impl Extractor {
    /// Each cost belongs to an alive class, and its best e-node has children whose classes
    /// have costs that add up, with one, to at most that cost.
    pub open spec fn wf(&self, eg: EGraph) -> bool {
        &&& self.cost@.len() == eg.len()
        &&& self.best@.len() == eg.len()
        &&& forall|c: int|
            0 <= c < eg.len() && self.cost@[c] is Some ==> {
                &&& eg.suf.is_root(c)
                &&& (#[trigger] self.best@[c]) < eg.nodes@[c]@.len()
                &&& node_cost(eg, self.cost@, eg.nodes@[c]@[self.best@[c] as int]) is Some
                &&& cval(self.cost@[c]) >= node_cost(eg, self.cost@, eg.nodes@[c]@[self.best@[c] as int])->Some_0
            }
    }

    /// No e-node gives its class a lower cost than the table holds.
    pub open spec fn fixpoint(&self, eg: EGraph) -> bool {
        forall|c: int, k: int|
            0 <= c < eg.len() && 0 <= k < eg.nodes@[c]@.len() && (#[trigger] node_cost(eg, self.cost@, eg.nodes@[c]@[k])) is Some
                && node_cost(eg, self.cost@, eg.nodes@[c]@[k])->Some_0 <= u64::MAX ==> {
                &&& self.cost@[c] is Some
                &&& cval(self.cost@[c]) <= node_cost(eg, self.cost@, eg.nodes@[c]@[k])->Some_0
            }
    }

    /// The cost that `n` gives, where it fits in a `u64`.
    fn cost_of(&self, eg: &EGraph, n: &ENode) -> (r: Option<u64>)
        requires
            eg.wf(),
            n.wf(),
            self.cost@.len() == eg.len(),
        ensures
            match r {
                Some(v) => node_cost(*eg, self.cost@, *n) == Some(v as int),
                None => node_cost(*eg, self.cost@, *n) is None || node_cost(*eg, self.cost@, *n)->Some_0 > u64::MAX,
            },
    {
        let len = eg.nodes.len();
        match n {
            ENode::Var(_) => Some(1),
            ENode::Lam(_, a) => {
                assert(app_ids_spec(*n)[0] == *a);
                if a.id.0 >= len {
                    return None;
                }
                let ka = eg.find_applied_id(a).id.0;
                match self.cost[ka] {
                    Some(x) => x.checked_add(1),
                    None => None,
                }
            },
            ENode::App(a, b) => {
                assert(app_ids_spec(*n)[0] == *a && app_ids_spec(*n)[1] == *b);
                if a.id.0 >= len || b.id.0 >= len {
                    return None;
                }
                let ka = eg.find_applied_id(a).id.0;
                let kb = eg.find_applied_id(b).id.0;
                match (self.cost[ka], self.cost[kb]) {
                    (Some(x), Some(y)) => match x.checked_add(y) {
                        Some(z) => z.checked_add(1),
                        None => None,
                    },
                    _ => None,
                }
            },
        }
    }
}


impl Extractor {
    /// No e-node of class `c` gives it a lower cost than the table holds.
    pub open spec fn settled_at(&self, eg: EGraph, c: int) -> bool {
        forall|k: int|
            0 <= k < eg.nodes@[c]@.len() && (#[trigger] node_cost(eg, self.cost@, eg.nodes@[c]@[k])) is Some
                && node_cost(eg, self.cost@, eg.nodes@[c]@[k])->Some_0 <= u64::MAX ==> {
                &&& self.cost@[c] is Some
                &&& cval(self.cost@[c]) <= node_cost(eg, self.cost@, eg.nodes@[c]@[k])->Some_0
            }
    }

    /// Lowers the cost of class `c` wherever one of its e-nodes gives less. Returns whether
    /// it changed; where it did not, the class is settled.
    fn relax_class(&mut self, eg: &EGraph, c: usize) -> (changed: bool)
        requires
            eg.wf(),
            old(self).wf(*eg),
            c < eg.nodes@.len(),
        ensures
            final(self).wf(*eg),
            changed ==> pot(final(self).cost@) < pot(old(self).cost@),
            !changed ==> *final(self) == *old(self) && final(self).settled_at(*eg, c as int),
    {
        let ghost start = *self;
        let mut changed = false;
        let mut k: usize = 0;
        while k < eg.nodes[c].len()
            invariant
                eg.wf(),
                self.wf(*eg),
                0 <= c < eg.nodes@.len(),
                0 <= k <= eg.nodes@[c as int]@.len(),
                changed ==> pot(self.cost@) < pot(start.cost@),
                !changed ==> *self == start,
                !changed ==> forall|k2: int|
                    0 <= k2 < k && (#[trigger] node_cost(*eg, self.cost@, eg.nodes@[c as int]@[k2])) is Some
                        && node_cost(*eg, self.cost@, eg.nodes@[c as int]@[k2])->Some_0 <= u64::MAX ==> {
                        &&& self.cost@[c as int] is Some
                        &&& cval(self.cost@[c as int]) <= node_cost(*eg, self.cost@, eg.nodes@[c as int]@[k2])->Some_0
                    },
            decreases eg.nodes@[c as int]@.len() - k,
        {
            let m = &eg.nodes[c][k];
            match self.cost_of(eg, m) {
                Some(v) => {
                    let better = match self.cost[c] {
                        Some(x) => v < x,
                        None => true,
                    };
                    if better {
                        let ghost before = self.cost@;
                        let ghost before_best = self.best@;
                        let ghost old_changed = changed;
                        self.cost.set(c, Some(v));
                        self.best.set(c, k);
                        proof {
                            assert(self.cost@ == before.update(c as int, Some(v)));
                            lemma_pot_update(before, c as int, Some(v));
                            assert(eg.suf.is_root(c as int));
                            assert forall|d: int| 0 <= d < eg.len() && self.cost@[d] is Some implies {
                                &&& eg.suf.is_root(d)
                                &&& (#[trigger] self.best@[d]) < eg.nodes@[d]@.len()
                                &&& node_cost(*eg, self.cost@, eg.nodes@[d]@[self.best@[d] as int]) is Some
                                &&& cval(self.cost@[d]) >= node_cost(*eg, self.cost@, eg.nodes@[d]@[self.best@[d] as int])->Some_0
                            } by {
                                if d == c {
                                    lemma_node_cost_kept(*eg, before, c as int, v, *m);
                                } else {
                                    assert(before[d] is Some);
                                    lemma_node_cost_update(*eg, before, c as int, v, eg.nodes@[d]@[before_best[d] as int]);
                                }
                            }
                        }
                        changed = true;
                    }
                },
                None => {},
            }
            k = k + 1;
        }
        changed
    }

    /// One pass over all classes. Returns whether a cost changed; where none did, the table
    /// is a fixpoint.
    fn relax_pass(&mut self, eg: &EGraph) -> (changed: bool)
        requires
            eg.wf(),
            old(self).wf(*eg),
        ensures
            final(self).wf(*eg),
            changed ==> pot(final(self).cost@) < pot(old(self).cost@),
            !changed ==> *final(self) == *old(self) && final(self).fixpoint(*eg),
    {
        let ghost start = *self;
        let mut changed = false;
        let mut c: usize = 0;
        while c < eg.nodes.len()
            invariant
                eg.wf(),
                self.wf(*eg),
                0 <= c <= eg.nodes@.len(),
                changed ==> pot(self.cost@) < pot(start.cost@),
                !changed ==> *self == start,
                !changed ==> forall|c2: int| 0 <= c2 < c ==> #[trigger] self.settled_at(*eg, c2),
            decreases eg.nodes@.len() - c,
        {
            let ch = self.relax_class(eg, c);
            if ch {
                changed = true;
            }
            c = c + 1;
        }
        proof {
            if !changed {
                assert forall|c2: int, k: int|
                    0 <= c2 < eg.len() && 0 <= k < eg.nodes@[c2]@.len() && (#[trigger] node_cost(*eg, self.cost@, eg.nodes@[c2]@[k])) is Some
                        && node_cost(*eg, self.cost@, eg.nodes@[c2]@[k])->Some_0 <= u64::MAX implies {
                        &&& self.cost@[c2] is Some
                        &&& cval(self.cost@[c2]) <= node_cost(*eg, self.cost@, eg.nodes@[c2]@[k])->Some_0
                    } by {
                    assert(self.settled_at(*eg, c2));
                }
            }
        }
        changed
    }

    /// The table of least sizes for the e-graph: costs are lowered pass by pass until no
    /// e-node lowers one.
    pub fn new(eg: &EGraph) -> (r: Extractor)
        requires
            eg.wf(),
        ensures
            r.wf(*eg),
            r.fixpoint(*eg),
    {
        let mut cost: Vec<Option<u64>> = Vec::new();
        let mut best: Vec<usize> = Vec::new();
        let mut i: usize = 0;
        while i < eg.nodes.len()
            invariant
                0 <= i <= eg.nodes@.len(),
                cost@.len() == i,
                best@.len() == i,
                forall|j: int| 0 <= j < i ==> (#[trigger] cost@[j]) is None,
            decreases eg.nodes@.len() - i,
        {
            cost.push(None);
            best.push(0);
            i = i + 1;
        }
        let mut ext = Extractor { cost, best };
        loop
            invariant
                eg.wf(),
                ext.wf(*eg),
            ensures
                ext.wf(*eg),
                ext.fixpoint(*eg),
            decreases pot(ext.cost@),
        {
            if !ext.relax_pass(eg) {
                break;
            }
        }
        ext
    }
}

/// Lowering one entry lowers the potential.
proof fn lemma_pot_update(s: Seq<Option<u64>>, i: int, x: Option<u64>)
    requires
        0 <= i < s.len(),
        x is Some,
        s[i] is None || cval(x) < cval(s[i]),
    ensures
        pot(s.update(i, x)) < pot(s),
    decreases s.len(),
{
    let t = s.update(i, x);
    if i == s.len() - 1 {
        assert(t.drop_last() =~= s.drop_last());
    } else {
        lemma_pot_update(s.drop_last(), i, x);
        assert(t.drop_last() =~= s.drop_last().update(i, x));
    }
}

/// Lowering the cost of class `c` lowers, or keeps, what each e-node gives.
proof fn lemma_node_cost_update(eg: EGraph, t: Seq<Option<u64>>, c: int, v: u64, n: ENode)
    requires
        eg.wf(),
        t.len() == eg.len(),
        0 <= c < t.len(),
        t[c] is None || v < cval(t[c]),
        node_cost(eg, t, n) is Some,
    ensures
        node_cost(eg, t.update(c, Some(v)), n) is Some,
        node_cost(eg, t.update(c, Some(v)), n)->Some_0 <= node_cost(eg, t, n)->Some_0,
{
    let t2 = t.update(c, Some(v));
    match n {
        ENode::Var(_) => {},
        ENode::Lam(_, a) => {
            eg.suf.lemma_find_root(a.id.0 as int, a.m@);
        },
        ENode::App(a, b) => {
            eg.suf.lemma_find_root(a.id.0 as int, a.m@);
            eg.suf.lemma_find_root(b.id.0 as int, b.m@);
        },
    }
}

/// An e-node that lowers the cost of its own class has no child in that class, so what it
/// gives stays.
proof fn lemma_node_cost_kept(eg: EGraph, t: Seq<Option<u64>>, c: int, v: u64, n: ENode)
    requires
        eg.wf(),
        t.len() == eg.len(),
        0 <= c < t.len(),
        t[c] is None || v < cval(t[c]),
        node_cost(eg, t, n) == Some(v as int),
    ensures
        node_cost(eg, t.update(c, Some(v)), n) == Some(v as int),
{
    match n {
        ENode::Var(_) => {},
        ENode::Lam(_, a) => {
            eg.suf.lemma_find_root(a.id.0 as int, a.m@);
        },
        ENode::App(a, b) => {
            eg.suf.lemma_find_root(a.id.0 as int, a.m@);
            eg.suf.lemma_find_root(b.id.0 as int, b.m@);
        },
    }
}


impl Extractor {
    /// The term of class `c` built from the best e-nodes: each child is the term of the
    /// class its invocation reaches.
    #[verifier::spinoff_prover]
    fn extract_class(&self, eg: &EGraph, c: usize) -> (r: RecExpr)
        requires
            eg.wf(),
            self.wf(*eg),
            c < eg.len(),
            self.cost@[c as int] is Some,
        ensures
            eg.holds_term(r, c as int),
            term_size(r) <= cval(self.cost@[c as int]),
        decreases cval(self.cost@[c as int]),
    {
        let m = &eg.nodes[c][self.best[c]];
        proof {
            assert(eg.suf.is_root(c as int));
            assert(eg.nodes@[c as int]@[self.best@[c as int] as int].wf());
            assert(crate::lang::enode_wf(*m));
        }
        match m {
            ENode::Var(s) => {
                let r = RecExpr { node: ENode::Var(*s), children: Vec::new() };
                proof {
                    lemma_holds_leaf(*eg, c as int, self.best@[c as int] as int, *s, r);
                }
                r
            },
            ENode::Lam(s, a) => {
                assert(app_ids_spec(*m)[0] == *a);
                assert(a.wf());
                let f = eg.find_applied_id(a);
                let ch = self.extract_class(eg, f.id.0);
                let mut v: Vec<RecExpr> = Vec::new();
                v.push(ch);
                let node = ENode::Lam(*s, f.clone());
                let r = RecExpr { node, children: v };
                proof {
                    assert(r.children@[0] == ch);
                    lemma_holds_lam(*eg, c as int, self.best@[c as int] as int, *s, *a, f, r);
                }
                r
            },
            ENode::App(a, b) => {
                assert(app_ids_spec(*m)[0] == *a && app_ids_spec(*m)[1] == *b);
                assert(a.wf() && b.wf());
                let fa = eg.find_applied_id(a);
                let fb = eg.find_applied_id(b);
                let ca = self.extract_class(eg, fa.id.0);
                let cb = self.extract_class(eg, fb.id.0);
                let mut v: Vec<RecExpr> = Vec::new();
                v.push(ca);
                v.push(cb);
                let node = ENode::App(fa.clone(), fb.clone());
                let r = RecExpr { node, children: v };
                proof {
                    assert(r.children@[0] == ca && r.children@[1] == cb);
                    lemma_holds_app(*eg, c as int, self.best@[c as int] as int, *a, *b, fa, fb, r);
                }
                r
            },
        }
    }

    /// The term of least size of the class that `i` reaches.
    pub fn extract(&self, i: &AppliedId, eg: &EGraph) -> (r: RecExpr)
        requires
            eg.wf(),
            self.wf(*eg),
            i.wf(),
            i.id.0 < eg.len(),
            self.cost@[eg.class_of(i.id.0 as int)] is Some,
        ensures
            eg.holds_term(r, eg.class_of(i.id.0 as int)),
            term_size(r) <= cval(self.cost@[eg.class_of(i.id.0 as int)]),
            self.fixpoint(*eg) ==> forall|t: RecExpr|
                eg.holds_term(t, eg.class_of(i.id.0 as int)) && term_size(t) <= u64::MAX ==> term_size(r) <= #[trigger] term_size(t),
    {
        let f = eg.find_applied_id(i);
        let r = self.extract_class(eg, f.id.0);
        proof {
            if self.fixpoint(*eg) {
                assert forall|t: RecExpr|
                    eg.holds_term(t, eg.class_of(i.id.0 as int)) && term_size(t) <= u64::MAX implies term_size(r) <= #[trigger] term_size(t) by {
                    lemma_least(*self, *eg, t, eg.class_of(i.id.0 as int));
                }
            }
        }
        r
    }
}

/// The term of least size of the class that `i` reaches; `None` where the class holds no
/// term whose size fits in a `u64`.
pub fn ast_size_extract(i: &AppliedId, eg: &EGraph) -> (r: Option<RecExpr>)
    requires
        eg.wf(),
        i.wf(),
        i.id.0 < eg.len(),
    ensures
        match r {
            Some(t0) => {
                &&& eg.holds_term(t0, eg.class_of(i.id.0 as int))
                &&& term_size(t0) <= u64::MAX
                &&& forall|t: RecExpr|
                    eg.holds_term(t, eg.class_of(i.id.0 as int)) && term_size(t) <= u64::MAX ==> term_size(t0) <= #[trigger] term_size(t)
            },
            None => forall|t: RecExpr| #[trigger] eg.holds_term(t, eg.class_of(i.id.0 as int)) ==> term_size(t) > u64::MAX,
        },
{
    let ext = Extractor::new(eg);
    let f = eg.find_applied_id(i);
    match ext.cost[f.id.0] {
        Some(_) => Some(ext.extract(i, eg)),
        None => {
            proof {
                assert forall|t: RecExpr| #[trigger] eg.holds_term(t, eg.class_of(i.id.0 as int)) implies term_size(t) > u64::MAX by {
                    if term_size(t) <= u64::MAX {
                        lemma_least(ext, *eg, t, eg.class_of(i.id.0 as int));
                    }
                }
            }
            None
        },
    }
}

/// A class that holds a variable e-node holds the term of it.
proof fn lemma_holds_leaf(eg: EGraph, c: int, k: int, s: crate::slot::Slot, r: RecExpr)
    requires
        eg.wf(),
        0 <= c < eg.nodes@.len(),
        0 <= k < eg.nodes@[c]@.len(),
        eg.nodes@[c]@[k] == ENode::Var(s),
        r.node == ENode::Var(s),
        r.children@.len() == 0,
    ensures
        eg.holds_term(r, c),
        term_size(r) == 1,
{
    let kids = Seq::<AppliedId>::empty();
    assert(with_kids(r.node, kids) == r.node);
    assert(eg.congruent(with_kids(r.node, kids), eg.nodes@[c]@[k]));
}

/// A class that holds a binder e-node holds the term of it, with the child's term.
proof fn lemma_holds_lam(eg: EGraph, c: int, k: int, s: crate::slot::Slot, a: AppliedId, f: AppliedId, r: RecExpr)
    requires
        eg.wf(),
        0 <= c < eg.nodes@.len(),
        0 <= k < eg.nodes@[c]@.len(),
        eg.nodes@[c]@[k] == ENode::Lam(s, a),
        a.id.0 < eg.len(),
        f.id.0 < eg.len(),
        (f.id.0 as int, f.m@) == eg.suf.find_view(a.id.0 as int, a.m@),
        r.node matches ENode::Lam(s2, _) && s2 == s,
        r.children@.len() == 1,
        eg.holds_term(r.children@[0], f.id.0 as int),
    ensures
        eg.holds_term(r, c),
        term_size(r) == 1 + term_size(r.children@[0]),
{
    lemma_find_again(eg, a);
    let kids = seq![f];
    assert(with_kids(r.node, kids) == ENode::Lam(s, f));
    assert(app_ids_spec(ENode::Lam(s, f))[0] == f);
    assert(app_ids_spec(ENode::Lam(s, a))[0] == a);
    assert(eg.congruent(with_kids(r.node, kids), eg.nodes@[c]@[k]));
    assert(eg.holds_congruent(c, with_kids(r.node, kids)));
    assert forall|j: int| #![trigger r.children@[j]] 0 <= j < kids.len() implies eg.holds_term(
        r.children@[j],
        kids[j].id.0 as int,
    ) by {}
    assert(sizes_upto(r, 0) == 0);
    assert(sizes_upto(r, 1) == term_size(r.children@[0]));
}

/// A class that holds an application e-node holds the term of it, with the children's terms.
proof fn lemma_holds_app(eg: EGraph, c: int, k: int, a: AppliedId, b: AppliedId, fa: AppliedId, fb: AppliedId, r: RecExpr)
    requires
        eg.wf(),
        0 <= c < eg.nodes@.len(),
        0 <= k < eg.nodes@[c]@.len(),
        eg.nodes@[c]@[k] == ENode::App(a, b),
        a.id.0 < eg.len(),
        b.id.0 < eg.len(),
        fa.id.0 < eg.len(),
        fb.id.0 < eg.len(),
        (fa.id.0 as int, fa.m@) == eg.suf.find_view(a.id.0 as int, a.m@),
        (fb.id.0 as int, fb.m@) == eg.suf.find_view(b.id.0 as int, b.m@),
        r.node is App,
        r.children@.len() == 2,
        eg.holds_term(r.children@[0], fa.id.0 as int),
        eg.holds_term(r.children@[1], fb.id.0 as int),
    ensures
        eg.holds_term(r, c),
        term_size(r) == 1 + term_size(r.children@[0]) + term_size(r.children@[1]),
{
    lemma_find_again(eg, a);
    lemma_find_again(eg, b);
    let kids = seq![fa, fb];
    assert(with_kids(r.node, kids) == ENode::App(fa, fb));
    assert(app_ids_spec(ENode::App(fa, fb))[0] == fa && app_ids_spec(ENode::App(fa, fb))[1] == fb);
    assert(app_ids_spec(ENode::App(a, b))[0] == a && app_ids_spec(ENode::App(a, b))[1] == b);
    assert(eg.congruent(with_kids(r.node, kids), eg.nodes@[c]@[k]));
    assert(eg.holds_congruent(c, with_kids(r.node, kids)));
    assert forall|j: int| #![trigger r.children@[j]] 0 <= j < kids.len() implies eg.holds_term(
        r.children@[j],
        kids[j].id.0 as int,
    ) by {}
    assert(sizes_upto(r, 0) == 0);
    assert(sizes_upto(r, 1) == term_size(r.children@[0]));
    assert(sizes_upto(r, 2) == term_size(r.children@[0]) + term_size(r.children@[1]));
}

/// Finding again from what finding gave changes nothing.
pub proof fn lemma_find_again(eg: EGraph, a: AppliedId)
    requires
        eg.wf(),
        a.id.0 < eg.len(),
    ensures
        eg.suf.find_view(eg.suf.find_view(a.id.0 as int, a.m@).0, eg.suf.find_view(a.id.0 as int, a.m@).1)
            == eg.suf.find_view(a.id.0 as int, a.m@),
{
    let s = eg.suf;
    let f = s.find_view(a.id.0 as int, a.m@);
    s.lemma_find_root(a.id.0 as int, a.m@);
    s.lemma_find_pre_root(a.id.0 as int, a.m@);
    let r = f.0;
    assert(s.class_ok(r));
    let sl = s.classes@[r].slots@;
    let pre = s.pre_root(a.id.0 as int, a.m@);
    lemma_compose_dom(identity_map(sl), pre);
    lemma_compose_dom(identity_map(sl), f.1);
    assert(s.classes@[r].leader.m@ == identity_map(sl));
    assert(compose_partial_map(identity_map(sl), f.1) =~= f.1);
    assert(s.find_view(r, f.1) == (r, compose_partial_map(s.classes@[r].leader.m@, f.1)));
}

/// A class that holds a term has a cost, at most the size of the term, where that size
/// fits in a `u64`.
pub proof fn lemma_least(ext: Extractor, eg: EGraph, t: RecExpr, c: int)
    requires
        eg.wf(),
        ext.wf(eg),
        ext.fixpoint(eg),
        eg.holds_term(t, c),
        term_size(t) <= u64::MAX,
    ensures
        ext.cost@[c] is Some,
        cval(ext.cost@[c]) <= term_size(t),
    decreases t,
{
    let kids = choose|kids: Seq<AppliedId>| {
        &&& kids.len() == t.children@.len()
        &&& kids.len() == app_ids_spec(t.node).len()
        &&& forall|j: int|
            #![trigger t.children@[j]]
            0 <= j < kids.len() ==> eg.holds_term(t.children@[j], kids[j].id.0 as int)
        &&& eg.holds_congruent(c, with_kids(t.node, kids))
    };
    let k = choose|k: int| 0 <= k < eg.nodes@[c]@.len() && #[trigger] eg.congruent(with_kids(t.node, kids), eg.nodes@[c]@[k]);
    let m = eg.nodes@[c]@[k];
    assert(eg.congruent(with_kids(t.node, kids), m));
    match t.node {
        ENode::Var(_) => {
            assert(node_cost(eg, ext.cost@, m) == Some(1int));
            assert(term_size(t) >= 1);
        },
        ENode::Lam(_, _) => {
            let ch = t.children@[0];
            assert(sizes_upto(t, 0) == 0);
            assert(sizes_upto(t, 1) == term_size(ch));
            assert(eg.holds_term(ch, kids[0].id.0 as int));
            lemma_kid_root(eg, ch, kids[0]);
            lemma_least(ext, eg, ch, kids[0].id.0 as int);
            match m {
                ENode::Lam(_, a) => {
                    assert(app_ids_spec(m)[0] == a);
                    assert(app_ids_spec(with_kids(t.node, kids))[0] == kids[0]);
                    eg.suf.lemma_find_root(a.id.0 as int, a.m@);
                    eg.suf.lemma_find_root(kids[0].id.0 as int, kids[0].m@);
                    assert(kid_class(eg, a) == kids[0].id.0);
                    assert(node_cost(eg, ext.cost@, m) == Some(1 + cval(ext.cost@[kids[0].id.0 as int])));
                },
                _ => {},
            }
        },
        ENode::App(_, _) => {
            let c0 = t.children@[0];
            let c1 = t.children@[1];
            assert(sizes_upto(t, 0) == 0);
            assert(sizes_upto(t, 1) == term_size(c0));
            assert(sizes_upto(t, 2) == term_size(c0) + term_size(c1));
            assert(eg.holds_term(c0, kids[0].id.0 as int));
            assert(eg.holds_term(c1, kids[1].id.0 as int));
            lemma_kid_root(eg, c0, kids[0]);
            lemma_kid_root(eg, c1, kids[1]);
            lemma_least(ext, eg, c0, kids[0].id.0 as int);
            lemma_least(ext, eg, c1, kids[1].id.0 as int);
            match m {
                ENode::App(a, b) => {
                    assert(app_ids_spec(m)[0] == a && app_ids_spec(m)[1] == b);
                    assert(app_ids_spec(with_kids(t.node, kids))[0] == kids[0]);
                    assert(app_ids_spec(with_kids(t.node, kids))[1] == kids[1]);
                    eg.suf.lemma_find_root(a.id.0 as int, a.m@);
                    eg.suf.lemma_find_root(b.id.0 as int, b.m@);
                    eg.suf.lemma_find_root(kids[0].id.0 as int, kids[0].m@);
                    eg.suf.lemma_find_root(kids[1].id.0 as int, kids[1].m@);
                    assert(kid_class(eg, a) == kids[0].id.0);
                    assert(kid_class(eg, b) == kids[1].id.0);
                },
                _ => {},
            }
        },
    }
}

/// A class that holds a term is alive: it is its own root.
proof fn lemma_kid_root(eg: EGraph, t: RecExpr, kid: AppliedId)
    requires
        eg.wf(),
        eg.holds_term(t, kid.id.0 as int),
    ensures
        eg.class_of(kid.id.0 as int) == kid.id.0,
        eg.suf.is_root(kid.id.0 as int),
{
    let c = kid.id.0 as int;
    assert(eg.nodes@[c]@.len() > 0);
    lemma_root_iff(eg.suf, c);
}

} // verus!
