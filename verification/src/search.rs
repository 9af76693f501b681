use vstd::prelude::*;
use crate::slotmap::{SlotMap, identity_map, compose_partial_map};
use crate::applied::{AppliedId, Id};
use crate::lang::{ENode, app_ids_spec};
use crate::expr::Pattern;
use crate::egraph::{EGraph, with_kids, pattern_shaped, first_named, vars_named};

verus! {

/// A substitution: pattern variables and the invocations they stand for.
pub type Subst = Vec<(String, AppliedId)>;

/// `t` starts with the entries of `s`: the same names and the same invocations.
pub open spec fn extends_subst(t: Seq<(String, AppliedId)>, s: Seq<(String, AppliedId)>) -> bool {
    &&& s.len() <= t.len()
    &&& forall|i: int|
        0 <= i < s.len() ==> (#[trigger] t[i]).0@ == s[i].0@ && t[i].1.id == s[i].1.id && t[i].1.m@ == s[i].1.m@
}

/// Every invocation of the substitution is well formed.
pub open spec fn subst_wf(s: Seq<(String, AppliedId)>) -> bool {
    forall|i: int| 0 <= i < s.len() ==> (#[trigger] s[i]).1.wf()
}

/// The root e-node of a pattern and an e-node of the e-graph agree where the pattern does
/// not look through children: the same kind, and the same slot where it names one.
pub open spec fn head_match(n: ENode, m: ENode) -> bool {
    match (n, m) {
        (ENode::Var(s1), ENode::Var(s2)) => s1 == s2,
        (ENode::Lam(s1, _), ENode::Lam(s2, _)) => s1 == s2,
        (ENode::App(_, _), ENode::App(_, _)) => true,
        _ => false,
    }
}

fn head_matches(n: &ENode, m: &ENode) -> (r: bool)
    ensures
        r == head_match(*n, *m),
{
    match (n, m) {
        (ENode::Var(s1), ENode::Var(s2)) => *s1 == *s2,
        (ENode::Lam(s1, _), ENode::Lam(s2, _)) => *s1 == *s2,
        (ENode::App(_, _), ENode::App(_, _)) => true,
        _ => false,
    }
}

/// A copy of the substitution.
fn copy_subst(s: &Subst) -> (r: Subst)
    ensures
        extends_subst(r@, s@),
        r@.len() == s@.len(),
        subst_wf(s@) ==> subst_wf(r@),
{
    let mut r: Subst = Vec::new();
    let mut i: usize = 0;
    while i < s.len()
        invariant
            0 <= i <= s@.len(),
            r@.len() == i,
            forall|j: int|
                0 <= j < i ==> (#[trigger] r@[j]).0@ == s@[j].0@ && r@[j].1.id == s@[j].1.id && r@[j].1.m.keys@
                    == s@[j].1.m.keys@ && r@[j].1.m.vals@ == s@[j].1.m.vals@,
        decreases s@.len() - i,
    {
        let name = s[i].0.clone();
        let a = s[i].1.clone();
        r.push((name, a));
        i = i + 1;
    }
    proof {
        assert forall|j: int| 0 <= j < s@.len() implies (#[trigger] r@[j]).0@ == s@[j].0@ && r@[j].1.id == s@[j].1.id
            && r@[j].1.m@ == s@[j].1.m@ by {
            assert(r@[j].1.m@ =~= s@[j].1.m@);
        }
    }
    r
}

/// Instances stay instances when the substitution grows at its end.
proof fn lemma_instantiates_subst(eg: EGraph, p: Pattern, s: Seq<(String, AppliedId)>, t: Seq<(String, AppliedId)>, a: AppliedId)
    requires
        eg.instantiates(p, s, a),
        extends_subst(t, s),
    ensures
        eg.instantiates(p, t, a),
    decreases p,
{
    if p is PVar {
        let v = p->PVar_0;
        let i = choose|i: int| #[trigger] first_named(s, v@, i) && a.id == s[i].1.id && a.m@ == s[i].1.m@;
        assert(t[i].0@ == s[i].0@);
        assert forall|j: int| 0 <= j < i implies #[trigger] t[j].0@ != v@ by {
            assert(t[j].0@ == s[j].0@);
        }
        assert(first_named(t, p->PVar_0@, i) && a.id == t[i].1.id && a.m@ == t[i].1.m@);
        assert(eg.instantiates(p, t, a));
    } else if p is ENode {
        let n = p->ENode_0;
        let ch = p->ENode_1;
        let kids = choose|kids: Seq<AppliedId>| {
            &&& kids.len() == ch@.len()
            &&& forall|j: int|
                #![trigger ch@[j]]
                0 <= j < ch@.len() ==> eg.instantiates(ch@[j], s, kids[j]) && kids[j].id.0 < eg.len()
            &&& eg.holds_congruent(a.id.0 as int, with_kids(n, kids))
        };
        assert forall|j: int| #![trigger ch@[j]] 0 <= j < ch@.len() implies eg.instantiates(ch@[j], t, kids[j])
            && kids[j].id.0 < eg.len() by {
            assert(decreases_to!(p => ch));
            lemma_instantiates_subst(eg, ch@[j], s, t, kids[j]);
        }
        assert(kids.len() == p->ENode_1@.len());
        assert(forall|j: int|
            #![trigger p->ENode_1@[j]]
            0 <= j < p->ENode_1@.len() ==> eg.instantiates(p->ENode_1@[j], t, kids[j]) && kids[j].id.0 < eg.len());
        assert(eg.holds_congruent(a.id.0 as int, with_kids(p->ENode_0, kids)));
        assert(eg.instantiates(p, t, a)) by {
            reveal_with_fuel(EGraph::instantiates, 2);
        }
    } else {
        assert(eg.instantiates(p, s, a));
    }
}


/// Each entry of `t` that is the first with its name holds the invocation that the first
/// entry of `u` with that name reaches once found.
pub open spec fn reaches_from(eg: EGraph, t: Seq<(String, AppliedId)>, u: Seq<(String, AppliedId)>) -> bool {
    forall|i: int|
        #[trigger] first_named(t, t[i].0@, i) ==> exists|j: int|
            #[trigger] first_named(u, t[i].0@, j) && (t[i].1.id.0 as int, t[i].1.m@) == eg.suf.find_view(
                u[j].1.id.0 as int,
                u[j].1.m@,
            )
}

/// `t` names every variable of `p`, each by what the same variable of `u` reaches.
pub open spec fn represents(eg: EGraph, p: Pattern, t: Seq<(String, AppliedId)>, u: Seq<(String, AppliedId)>) -> bool {
    vars_named(p, t) && reaches_from(eg, t, u)
}

/// Some substitution of `out`, from `start` on, represents `u` for `p`.
pub open spec fn found_in(eg: EGraph, p: Pattern, u: Seq<(String, AppliedId)>, out: Seq<Subst>, start: int) -> bool {
    exists|q: int| start <= q < out.len() && represents(eg, p, (#[trigger] out[q])@, u)
}

/// The pattern e-node `n` with child patterns `ch` has an instance under `u` congruent to `m`.
pub open spec fn node_instance(eg: EGraph, n: ENode, ch: Seq<Pattern>, u: Seq<(String, AppliedId)>, m: ENode) -> bool {
    exists|kids: Seq<AppliedId>|
        {
            &&& kids.len() == ch.len()
            &&& forall|j: int|
                #![trigger ch[j]]
                0 <= j < ch.len() ==> eg.instantiates(ch[j], u, kids[j]) && kids[j].id.0 < eg.len()
            &&& eg.congruent(with_kids(n, kids), m)
        }
}

/// A name has one first entry.
proof fn lemma_first_unique(s: Seq<(String, AppliedId)>, v: Seq<char>, i: int, j: int)
    requires
        first_named(s, v, i),
        first_named(s, v, j),
    ensures
        i == j,
{
    if i < j {
        assert(s[i].0@ == v);
    } else if j < i {
        assert(s[j].0@ == v);
    }
}

/// A copy of `s` reaches what `s` reaches.
proof fn lemma_reaches_copy(eg: EGraph, s: Seq<(String, AppliedId)>, t: Seq<(String, AppliedId)>, u: Seq<(String, AppliedId)>)
    requires
        extends_subst(t, s),
        t.len() == s.len(),
        reaches_from(eg, s, u),
    ensures
        reaches_from(eg, t, u),
{
    assert forall|i: int| #[trigger] first_named(t, t[i].0@, i) implies exists|j: int|
        #[trigger] first_named(u, t[i].0@, j) && (t[i].1.id.0 as int, t[i].1.m@) == eg.suf.find_view(u[j].1.id.0 as int, u[j].1.m@) by {
        assert(t[i].0@ == s[i].0@);
        assert forall|k: int| 0 <= k < i implies #[trigger] s[k].0@ != s[i].0@ by {
            assert(t[k].0@ == s[k].0@);
        }
        assert(first_named(s, s[i].0@, i));
    }
}

/// `s` with one entry for a variable it did not name reaches what `s` reaches, and for the
/// new variable what `u` names it by.
proof fn lemma_reaches_push(
    eg: EGraph,
    s: Seq<(String, AppliedId)>,
    t: Seq<(String, AppliedId)>,
    u: Seq<(String, AppliedId)>,
    j: int,
)
    requires
        extends_subst(t, s),
        t.len() == s.len() + 1,
        forall|k: int| 0 <= k < s.len() ==> #[trigger] s[k].0@ != t[s.len() as int].0@,
        reaches_from(eg, s, u),
        first_named(u, t[s.len() as int].0@, j),
        (t[s.len() as int].1.id.0 as int, t[s.len() as int].1.m@) == eg.suf.find_view(u[j].1.id.0 as int, u[j].1.m@),
    ensures
        reaches_from(eg, t, u),
{
    assert forall|i: int| #[trigger] first_named(t, t[i].0@, i) implies exists|j2: int|
        #[trigger] first_named(u, t[i].0@, j2) && (t[i].1.id.0 as int, t[i].1.m@) == eg.suf.find_view(u[j2].1.id.0 as int, u[j2].1.m@) by {
        if i < s.len() {
            assert(t[i].0@ == s[i].0@);
            assert forall|k: int| 0 <= k < i implies #[trigger] s[k].0@ != s[i].0@ by {
                assert(t[k].0@ == s[k].0@);
            }
            assert(first_named(s, s[i].0@, i));
        } else {
            assert(i == s.len());
        }
    }
}

/// Variables named in `s` stay named in what extends it.
proof fn lemma_vars_named_extends(p: Pattern, s: Seq<(String, AppliedId)>, t: Seq<(String, AppliedId)>)
    requires
        extends_subst(t, s),
        vars_named(p, s),
    ensures
        vars_named(p, t),
    decreases p,
{
    match p {
        Pattern::PVar(v) => {
            let i = choose|i: int| 0 <= i < s.len() && #[trigger] s[i].0@ == v@;
            assert(t[i].0@ == s[i].0@);
        },
        Pattern::ENode(_, ch) => {
            assert forall|j: int| #![trigger ch@[j]] 0 <= j < ch@.len() implies vars_named(ch@[j], t) by {
                assert(decreases_to!(p => ch));
                lemma_vars_named_extends(ch@[j], s, t);
            }
        },
        Pattern::Subst(..) => {},
    }
}

/// A representative stays found where the list only grows.
proof fn lemma_found_grows(eg: EGraph, p: Pattern, u: Seq<(String, AppliedId)>, out1: Seq<Subst>, out2: Seq<Subst>, start: int)
    requires
        0 <= start,
        found_in(eg, p, u, out1, start),
        out1.len() <= out2.len(),
        forall|q: int| 0 <= q < out1.len() ==> #[trigger] out2[q] == out1[q],
    ensures
        found_in(eg, p, u, out2, start),
{
    let q = choose|q: int| start <= q < out1.len() && represents(eg, p, (#[trigger] out1[q])@, u);
    assert(out2[q] == out1[q]);
}

/// An e-node congruent to an e-node of the pattern agrees with its head.
proof fn lemma_congruent_head(eg: EGraph, n: ENode, kids: Seq<AppliedId>, m: ENode)
    requires
        eg.congruent(with_kids(n, kids), m),
    ensures
        head_match(n, m),
{
}

/// An alive class invoked by the identity of its slots is found as it is.
proof fn lemma_find_identity(eg: EGraph, b: AppliedId)
    requires
        eg.wf(),
        eg.is_alive_spec(b.id),
        b.m@ == identity_map(eg.suf.classes@[b.id.0 as int].slots@),
    ensures
        eg.suf.find_view(b.id.0 as int, b.m@) == (b.id.0 as int, b.m@),
{
    let r = b.id.0 as int;
    let sl = eg.suf.classes@[r].slots@;
    assert(eg.suf.class_ok(r));
    crate::extract::lemma_find_again(eg, b);
    eg.suf.lemma_find_root(r, b.m@);
    assert(eg.suf.classes@[r].leader.m@ == identity_map(sl));
    crate::slotmap::lemma_compose_dom(identity_map(sl), b.m@);
    assert(compose_partial_map(identity_map(sl), b.m@) =~= b.m@);
}

/// Every match in `out` from `start` on extends `s` and makes `a` an instance of `p`.
pub open spec fn all_match(eg: EGraph, p: Pattern, a: AppliedId, s: Seq<(String, AppliedId)>, out: Seq<Subst>, start: int) -> bool {
    forall|q: int|
        start <= q < out.len() ==> extends_subst((#[trigger] out[q])@, s) && subst_wf(out[q]@) && eg.instantiates(p, out[q]@, a)
}

/// Appends a copy of each substitution of `subs` to `out`.
fn append_copies(out: &mut Vec<Subst>, subs: &Vec<Subst>)
    ensures
        final(out)@.len() == old(out)@.len() + subs@.len(),
        forall|q: int| 0 <= q < old(out)@.len() ==> #[trigger] final(out)@[q] == old(out)@[q],
        forall|q: int|
            0 <= q < subs@.len() ==> extends_subst(#[trigger] final(out)@[old(out)@.len() + q]@, subs@[q]@)
                && final(out)@[old(out)@.len() + q]@.len() == subs@[q]@.len() && (subst_wf(subs@[q]@) ==> subst_wf(
                final(out)@[old(out)@.len() + q]@,
            )),
{
    let ghost o = out@;
    let mut i: usize = 0;
    while i < subs.len()
        invariant
            0 <= i <= subs@.len(),
            out@.len() == o.len() + i,
            forall|q: int| 0 <= q < o.len() ==> #[trigger] out@[q] == o[q],
            forall|q: int|
                0 <= q < i ==> extends_subst(#[trigger] out@[o.len() + q]@, subs@[q]@) && out@[o.len() + q]@.len()
                    == subs@[q]@.len() && (subst_wf(subs@[q]@) ==> subst_wf(out@[o.len() + q]@)),
        decreases subs@.len() - i,
    {
        let t = copy_subst(&subs[i]);
        out.push(t);
        i = i + 1;
    }
}

/// The matches of the pattern `p` against the invocation `a`, each extending `s`, appended
/// to `out`. A variable already named in `s` matches where its first entry is `a` itself;
/// a new variable is named for `a`. An e-node of the pattern matches each e-node of the
/// class of `a` with the same kind (and the same slot where it names one), its child
/// patterns matched in order against the alive classes that the children reach.
/// Every instance is found: where `a` is what an instance of `p` under `u` reaches and `s`
/// agrees with `u`, some match appended represents `u`.
#[verifier::rlimit(60)]
pub fn ematch_class(eg: &EGraph, p: &Pattern, a: &AppliedId, s: &Subst, out: &mut Vec<Subst>)
    requires
        eg.wf(),
        a.wf(),
        a.id.0 < eg.len(),
        pattern_shaped(*p),
        subst_wf(s@),
    ensures
        final(out)@.len() >= old(out)@.len(),
        forall|q: int| 0 <= q < old(out)@.len() ==> #[trigger] final(out)@[q] == old(out)@[q],
        all_match(*eg, *p, *a, s@, final(out)@, old(out)@.len() as int),
        forall|u: Seq<(String, AppliedId)>, b: AppliedId|
            #[trigger] eg.instantiates(*p, u, b) && b.id.0 < eg.len() && eg.suf.find_view(b.id.0 as int, b.m@) == (
                a.id.0 as int,
                a.m@,
            ) && reaches_from(*eg, s@, u) ==> found_in(*eg, *p, u, final(out)@, old(out)@.len() as int),
    decreases p,
{
    let ghost o = out@;
    match p {
        Pattern::PVar(v) => {
            let mut i: usize = 0;
            while i < s.len()
                invariant
                    0 <= i <= s@.len(),
                    forall|j: int| 0 <= j < i ==> #[trigger] s@[j].0@ != v@,
                    *p == Pattern::PVar(*v),
                    out@ == o,
                    o == old(out)@,
                    subst_wf(s@),
                    a.wf(),
                decreases s@.len() - i,
            {
                if s[i].0 == *v {
                    proof {
                        assert(first_named(s@, s@[i as int].0@, i as int));
                    }
                    if s[i].1.id.0 == a.id.0 && s[i].1.m.map_eq(&a.m) {
                        let t = copy_subst(s);
                        proof {
                            assert(first_named(t@, p->PVar_0@, i as int) && a.id == t@[i as int].1.id && a.m@ == t@[i as int].1.m@);
                            assert(eg.instantiates(*p, t@, *a));
                        }
                        let ghost tv = t@;
                        out.push(t);
                        proof {
                            assert(out@[o.len() as int]@ == tv);
                            assert forall|u: Seq<(String, AppliedId)>, b: AppliedId|
                                #[trigger] eg.instantiates(*p, u, b) && b.id.0 < eg.len() && eg.suf.find_view(b.id.0 as int, b.m@) == (
                                    a.id.0 as int,
                                    a.m@,
                                ) && reaches_from(*eg, s@, u) implies found_in(*eg, *p, u, out@, o.len() as int) by {
                                lemma_reaches_copy(*eg, s@, tv, u);
                                assert(tv[i as int].0@ == v@);
                                assert(vars_named(*p, tv));
                                assert(represents(*eg, *p, out@[o.len() as int]@, u));
                            }
                        }
                    } else {
                        proof {
                            assert forall|u: Seq<(String, AppliedId)>, b: AppliedId|
                                #[trigger] eg.instantiates(*p, u, b) && b.id.0 < eg.len() && eg.suf.find_view(b.id.0 as int, b.m@) == (
                                    a.id.0 as int,
                                    a.m@,
                                ) && reaches_from(*eg, s@, u) implies found_in(*eg, *p, u, out@, o.len() as int) by {
                                let i2 = choose|i2: int| #[trigger] first_named(u, p->PVar_0@, i2) && b.id == u[i2].1.id && b.m@ == u[i2].1.m@;
                                let j = choose|j: int|
                                    #[trigger] first_named(u, s@[i as int].0@, j) && (s@[i as int].1.id.0 as int, s@[i as int].1.m@)
                                        == eg.suf.find_view(u[j].1.id.0 as int, u[j].1.m@);
                                lemma_first_unique(u, v@, i2, j);
                            }
                        }
                    }
                    return;
                }
                i = i + 1;
            }
            let mut t = copy_subst(s);
            let ghost t0 = t@;
            t.push((v.clone(), a.clone()));
            proof {
                assert(t@[s@.len() as int].1.m@ =~= a.m@);
                assert forall|j: int| 0 <= j < s@.len() implies #[trigger] t@[j].0@ != p->PVar_0@ by {
                    assert(t@[j] == t0[j]);
                }
                assert(first_named(t@, p->PVar_0@, s@.len() as int));
                assert(eg.instantiates(*p, t@, *a));
                assert(extends_subst(t@, s@)) by {
                    assert forall|j: int| 0 <= j < s@.len() implies (#[trigger] t@[j]).0@ == s@[j].0@ && t@[j].1.id == s@[j].1.id
                        && t@[j].1.m@ == s@[j].1.m@ by {
                        assert(t@[j] == t0[j]);
                    }
                }
                assert(subst_wf(t@)) by {
                    assert forall|j: int| 0 <= j < t@.len() implies (#[trigger] t@[j]).1.wf() by {
                        if j < s@.len() {
                            assert(t@[j] == t0[j]);
                        }
                    }
                }
            }
            let ghost tv = t@;
            out.push(t);
            proof {
                assert(out@[o.len() as int]@ == tv);
                assert forall|u: Seq<(String, AppliedId)>, b: AppliedId|
                    #[trigger] eg.instantiates(*p, u, b) && b.id.0 < eg.len() && eg.suf.find_view(b.id.0 as int, b.m@) == (
                        a.id.0 as int,
                        a.m@,
                    ) && reaches_from(*eg, s@, u) implies found_in(*eg, *p, u, out@, o.len() as int) by {
                    let i2 = choose|i2: int| #[trigger] first_named(u, p->PVar_0@, i2) && b.id == u[i2].1.id && b.m@ == u[i2].1.m@;
                    assert(tv[s@.len() as int].0@ == v@);
                    assert forall|k: int| 0 <= k < s@.len() implies #[trigger] s@[k].0@ != tv[s@.len() as int].0@ by {}
                    lemma_reaches_push(*eg, s@, tv, u, i2);
                    assert(vars_named(*p, tv));
                    assert(represents(*eg, *p, out@[o.len() as int]@, u));
                }
            }
        },
        Pattern::ENode(n, ch) => {
            let c = a.id.0;
            let len = eg.nodes.len();
            let mut k: usize = 0;
            while k < eg.nodes[c].len()
                invariant
                    eg.wf(),
                    a.wf(),
                    c == a.id.0,
                    c < eg.len(),
                    len == eg.len(),
                    *p == Pattern::ENode(*n, *ch),
                    pattern_shaped(*p),
                    subst_wf(s@),
                    0 <= k <= eg.nodes@[c as int]@.len(),
                    o == old(out)@,
                    out@.len() >= o.len(),
                    forall|q: int| 0 <= q < o.len() ==> #[trigger] out@[q] == o[q],
                    all_match(*eg, *p, *a, s@, out@, o.len() as int),
                    forall|u: Seq<(String, AppliedId)>, k0: int|
                        0 <= k0 < k && reaches_from(*eg, s@, u) && #[trigger] node_instance(*eg, *n, ch@, u, eg.nodes@[c as int]@[k0])
                            ==> found_in(*eg, *p, u, out@, o.len() as int),
                decreases eg.nodes@[c as int]@.len() - k,
            {
                let m = &eg.nodes[c][k];
                let ghost before = out@;
                if head_matches(n, m) {
                    proof {
                        assert(m.wf());
                        assert(crate::lang::enode_wf(*m));
                    }
                    match m {
                        ENode::Var(_) => {
                            let t = copy_subst(s);
                            proof {
                                let kids = Seq::<AppliedId>::empty();
                                assert(with_kids(*n, kids) == *n);
                                assert(eg.congruent(with_kids(*n, kids), *m));
                                assert(eg.holds_congruent(c as int, with_kids(*n, kids)));
                                assert(eg.instantiates(*p, t@, *a)) by {
                                    reveal_with_fuel(EGraph::instantiates, 2);
                                }
                            }
                            let ghost tv = t@;
                            out.push(t);
                            proof {
                                assert(out@[before.len() as int]@ == tv);
                                assert(ch@.len() == 0);
                                assert forall|u: Seq<(String, AppliedId)>|
                                    reaches_from(*eg, s@, u) && #[trigger] node_instance(*eg, *n, ch@, u, *m) implies found_in(
                                    *eg,
                                    *p,
                                    u,
                                    out@,
                                    before.len() as int,
                                ) by {
                                    lemma_reaches_copy(*eg, s@, tv, u);
                                    assert(vars_named(*p, tv));
                                    assert(represents(*eg, *p, out@[before.len() as int]@, u));
                                }
                            }
                        },
                        ENode::Lam(_, x) => {
                            assert(app_ids_spec(*m)[0] == *x);
                            if x.id.0 < len {
                                let f = eg.find_applied_id(x);
                                let mut subs: Vec<Subst> = Vec::new();
                                ematch_class(eg, &ch[0], &f, s, &mut subs);
                                let ghost sv = subs@;
                                append_copies(out, &subs);
                                proof {
                                    crate::extract::lemma_find_again(*eg, *x);
                                    let kids = seq![f];
                                    match *n {
                                        ENode::Lam(sn, _) => {
                                            assert(with_kids(*n, kids) == ENode::Lam(sn, f));
                                            assert(app_ids_spec(ENode::Lam(sn, f))[0] == f);
                                        },
                                        _ => {},
                                    }
                                    assert(eg.congruent(with_kids(*n, kids), *m));
                                    assert(eg.holds_congruent(c as int, with_kids(*n, kids)));
                                    assert forall|q: int| before.len() <= q < out@.len() implies extends_subst((#[trigger] out@[q])@, s@)
                                        && subst_wf(out@[q]@) && eg.instantiates(*p, out@[q]@, *a) by {
                                        let q2 = q - before.len();
                                        assert(out@[before.len() + q2] == out@[q]);
                                        let t = out@[q]@;
                                        lemma_instantiates_subst(*eg, ch@[0], sv[q2]@, t, f);
                                        assert forall|j: int| #![trigger p->ENode_1@[j]] 0 <= j < p->ENode_1@.len() implies eg.instantiates(
                                            p->ENode_1@[j],
                                            t,
                                            kids[j],
                                        ) && kids[j].id.0 < eg.len() by {}
                                        assert(eg.instantiates(*p, t, *a)) by {
                                            reveal_with_fuel(EGraph::instantiates, 2);
                                        }
                                        assert(extends_subst(t, s@)) by {
                                            assert forall|j: int| 0 <= j < s@.len() implies (#[trigger] t[j]).0@ == s@[j].0@ && t[j].1.id
                                                == s@[j].1.id && t[j].1.m@ == s@[j].1.m@ by {
                                                assert(sv[q2]@[j].0@ == s@[j].0@);
                                            }
                                        }
                                    }
                                    assert forall|u: Seq<(String, AppliedId)>|
                                        reaches_from(*eg, s@, u) && #[trigger] node_instance(*eg, *n, ch@, u, *m) implies found_in(
                                        *eg,
                                        *p,
                                        u,
                                        out@,
                                        before.len() as int,
                                    ) by {
                                        let ks = choose|ks: Seq<AppliedId>|
                                            {
                                                &&& ks.len() == ch@.len()
                                                &&& forall|j: int|
                                                    #![trigger ch@[j]]
                                                    0 <= j < ch@.len() ==> eg.instantiates(ch@[j], u, ks[j]) && ks[j].id.0 < eg.len()
                                                &&& eg.congruent(with_kids(*n, ks), *m)
                                            };
                                        assert(eg.instantiates(ch@[0], u, ks[0]));
                                        assert(eg.suf.find_view(ks[0].id.0 as int, ks[0].m@) == (f.id.0 as int, f.m@));
                                        assert(found_in(*eg, ch@[0], u, sv, 0));
                                        let q2 = choose|q2: int| 0 <= q2 < sv.len() && represents(*eg, ch@[0], (#[trigger] sv[q2])@, u);
                                        let t = out@[before.len() + q2]@;
                                        lemma_reaches_copy(*eg, sv[q2]@, t, u);
                                        lemma_vars_named_extends(ch@[0], sv[q2]@, t);
                                        assert(vars_named(*p, t));
                                        assert(represents(*eg, *p, out@[before.len() + q2]@, u));
                                    }
                                }
                            } else {
                                proof {
                                    assert forall|u: Seq<(String, AppliedId)>|
                                        reaches_from(*eg, s@, u) && #[trigger] node_instance(*eg, *n, ch@, u, *m) implies found_in(
                                        *eg,
                                        *p,
                                        u,
                                        out@,
                                        before.len() as int,
                                    ) by {
                                        let ks = choose|ks: Seq<AppliedId>|
                                            {
                                                &&& ks.len() == ch@.len()
                                                &&& forall|j: int|
                                                    #![trigger ch@[j]]
                                                    0 <= j < ch@.len() ==> eg.instantiates(ch@[j], u, ks[j]) && ks[j].id.0 < eg.len()
                                                &&& eg.congruent(with_kids(*n, ks), *m)
                                            };
                                        assert(eg.kids_in(*m));
                                    }
                                }
                            }
                        },
                        ENode::App(x, y) => {
                            assert(app_ids_spec(*m)[0] == *x && app_ids_spec(*m)[1] == *y);
                            if x.id.0 < len && y.id.0 < len {
                                let fx = eg.find_applied_id(x);
                                let fy = eg.find_applied_id(y);
                                assert(ch@.len() == 2);
                                let mut subs1: Vec<Subst> = Vec::new();
                                ematch_class(eg, &ch[0], &fx, s, &mut subs1);
                                proof {
                                    crate::extract::lemma_find_again(*eg, *x);
                                    crate::extract::lemma_find_again(*eg, *y);
                                    let kids = seq![fx, fy];
                                    assert(with_kids(*n, kids) == ENode::App(fx, fy));
                                    assert(app_ids_spec(ENode::App(fx, fy))[0] == fx && app_ids_spec(ENode::App(fx, fy))[1] == fy);
                                    assert(eg.congruent(with_kids(*n, kids), *m));
                                    assert(eg.holds_congruent(c as int, with_kids(*n, kids)));
                                    assert forall|u: Seq<(String, AppliedId)>|
                                        reaches_from(*eg, s@, u) && #[trigger] node_instance(*eg, *n, ch@, u, *m) implies found_in(
                                        *eg,
                                        ch@[0],
                                        u,
                                        subs1@,
                                        0,
                                    ) by {
                                        let ks = choose|ks: Seq<AppliedId>|
                                            {
                                                &&& ks.len() == ch@.len()
                                                &&& forall|j: int|
                                                    #![trigger ch@[j]]
                                                    0 <= j < ch@.len() ==> eg.instantiates(ch@[j], u, ks[j]) && ks[j].id.0 < eg.len()
                                                &&& eg.congruent(with_kids(*n, ks), *m)
                                            };
                                        assert(eg.instantiates(ch@[0], u, ks[0]));
                                        assert(eg.suf.find_view(ks[0].id.0 as int, ks[0].m@) == (fx.id.0 as int, fx.m@));
                                    }
                                }
                                let mut j: usize = 0;
                                while j < subs1.len()
                                    invariant
                                        eg.wf(),
                                        c == a.id.0,
                                        c < eg.len(),
                                        *p == Pattern::ENode(*n, *ch),
                                        pattern_shaped(*p),
                                        ch@.len() == 2,
                                        o == old(out)@,
                                        subst_wf(s@),
                                        0 <= j <= subs1@.len(),
                                        fx.wf(),
                                        fy.wf(),
                                        fx.id.0 < eg.len(),
                                        fy.id.0 < eg.len(),
                                        (fx.id.0 as int, fx.m@) == eg.suf.find_view(x.id.0 as int, x.m@),
                                        (fy.id.0 as int, fy.m@) == eg.suf.find_view(y.id.0 as int, y.m@),
                                        eg.holds_congruent(c as int, with_kids(*n, seq![fx, fy])),
                                        all_match(*eg, ch@[0], fx, s@, subs1@, 0),
                                        out@.len() >= o.len(),
                                        forall|q: int| 0 <= q < o.len() ==> #[trigger] out@[q] == o[q],
                                        all_match(*eg, *p, *a, s@, out@, o.len() as int),
                                        *m == ENode::App(*x, *y),
                                        x.id.0 < eg.len(),
                                        y.id.0 < eg.len(),
                                        before.len() >= o.len(),
                                        out@.len() >= before.len(),
                                        forall|q: int| 0 <= q < before.len() ==> #[trigger] out@[q] == before[q],
                                        forall|u: Seq<(String, AppliedId)>|
                                            reaches_from(*eg, s@, u) && #[trigger] node_instance(*eg, *n, ch@, u, *m) ==> found_in(
                                                *eg,
                                                ch@[0],
                                                u,
                                                subs1@,
                                                0,
                                            ),
                                        forall|u: Seq<(String, AppliedId)>, q1: int|
                                            #![trigger node_instance(*eg, *n, ch@, u, *m), subs1@[q1]]
                                            0 <= q1 < j && node_instance(*eg, *n, ch@, u, *m) && represents(*eg, ch@[0], subs1@[q1]@, u)
                                                ==> found_in(*eg, *p, u, out@, before.len() as int),
                                    decreases subs1@.len() - j,
                                {
                                    let mut subs2: Vec<Subst> = Vec::new();
                                    let t1 = &subs1[j];
                                    assert(subst_wf(t1@));
                                    assert(decreases_to!(*p => ch@[1]));
                                    ematch_class(eg, &ch[1], &fy, t1, &mut subs2);
                                    let ghost sv = subs2@;
                                    let ghost b2 = out@;
                                    append_copies(out, &subs2);
                                    proof {
                                        let kids = seq![fx, fy];
                                        assert forall|q: int| b2.len() <= q < out@.len() implies extends_subst((#[trigger] out@[q])@, s@)
                                            && subst_wf(out@[q]@) && eg.instantiates(*p, out@[q]@, *a) by {
                                            let q2 = q - b2.len();
                                            assert(out@[b2.len() + q2] == out@[q]);
                                            let t = out@[q]@;
                                            assert(extends_subst(t, sv[q2]@));
                                            assert(extends_subst(sv[q2]@, t1@));
                                            assert(extends_subst(t1@, s@));
                                            assert(extends_subst(t, t1@)) by {
                                                assert forall|i2: int| 0 <= i2 < t1@.len() implies (#[trigger] t[i2]).0@ == t1@[i2].0@ && t[i2].1.id
                                                    == t1@[i2].1.id && t[i2].1.m@ == t1@[i2].1.m@ by {
                                                    assert(sv[q2]@[i2].0@ == t1@[i2].0@);
                                                }
                                            }
                                            assert(extends_subst(t, s@)) by {
                                                assert forall|i2: int| 0 <= i2 < s@.len() implies (#[trigger] t[i2]).0@ == s@[i2].0@ && t[i2].1.id
                                                    == s@[i2].1.id && t[i2].1.m@ == s@[i2].1.m@ by {
                                                    assert(t1@[i2].0@ == s@[i2].0@);
                                                }
                                            }
                                            lemma_instantiates_subst(*eg, ch@[0], t1@, t, fx);
                                            lemma_instantiates_subst(*eg, ch@[1], sv[q2]@, t, fy);
                                            assert forall|j2: int| #![trigger p->ENode_1@[j2]] 0 <= j2 < p->ENode_1@.len() implies eg.instantiates(
                                                p->ENode_1@[j2],
                                                t,
                                                kids[j2],
                                            ) && kids[j2].id.0 < eg.len() by {}
                                            assert(eg.instantiates(*p, t, *a)) by {
                                                reveal_with_fuel(EGraph::instantiates, 2);
                                            }
                                        }
                                        assert forall|u: Seq<(String, AppliedId)>, q1: int|
                                            #![trigger node_instance(*eg, *n, ch@, u, *m), subs1@[q1]]
                                            0 <= q1 < j + 1 && node_instance(*eg, *n, ch@, u, *m) && represents(*eg, ch@[0], subs1@[q1]@, u)
                                            implies found_in(*eg, *p, u, out@, before.len() as int) by {
                                            if q1 < j {
                                                lemma_found_grows(*eg, *p, u, b2, out@, before.len() as int);
                                            } else {
                                                let ks = choose|ks: Seq<AppliedId>|
                                                    {
                                                        &&& ks.len() == ch@.len()
                                                        &&& forall|j3: int|
                                                            #![trigger ch@[j3]]
                                                            0 <= j3 < ch@.len() ==> eg.instantiates(ch@[j3], u, ks[j3]) && ks[j3].id.0 < eg.len()
                                                        &&& eg.congruent(with_kids(*n, ks), *m)
                                                    };
                                                assert(eg.instantiates(ch@[1], u, ks[1]));
                                                assert(eg.suf.find_view(ks[1].id.0 as int, ks[1].m@) == (fy.id.0 as int, fy.m@));
                                                assert(found_in(*eg, ch@[1], u, sv, 0));
                                                let q2 = choose|q2: int| 0 <= q2 < sv.len() && represents(*eg, ch@[1], (#[trigger] sv[q2])@, u);
                                                let t = out@[b2.len() + q2]@;
                                                assert(extends_subst(sv[q2]@, t1@));
                                                lemma_vars_named_extends(ch@[0], t1@, sv[q2]@);
                                                lemma_vars_named_extends(ch@[0], sv[q2]@, t);
                                                lemma_vars_named_extends(ch@[1], sv[q2]@, t);
                                                lemma_reaches_copy(*eg, sv[q2]@, t, u);
                                                assert(vars_named(*p, t));
                                                assert(represents(*eg, *p, out@[b2.len() + q2]@, u));
                                            }
                                        }
                                    }
                                    j = j + 1;
                                }
                                proof {
                                    assert forall|u: Seq<(String, AppliedId)>|
                                        reaches_from(*eg, s@, u) && #[trigger] node_instance(*eg, *n, ch@, u, *m) implies found_in(
                                        *eg,
                                        *p,
                                        u,
                                        out@,
                                        before.len() as int,
                                    ) by {
                                        assert(found_in(*eg, ch@[0], u, subs1@, 0));
                                        let q1 = choose|q1: int| 0 <= q1 < subs1@.len() && represents(*eg, ch@[0], (#[trigger] subs1@[q1])@, u);
                                    }
                                }
                            } else {
                                proof {
                                    assert forall|u: Seq<(String, AppliedId)>|
                                        reaches_from(*eg, s@, u) && #[trigger] node_instance(*eg, *n, ch@, u, *m) implies found_in(
                                        *eg,
                                        *p,
                                        u,
                                        out@,
                                        before.len() as int,
                                    ) by {
                                        let ks = choose|ks: Seq<AppliedId>|
                                            {
                                                &&& ks.len() == ch@.len()
                                                &&& forall|j3: int|
                                                    #![trigger ch@[j3]]
                                                    0 <= j3 < ch@.len() ==> eg.instantiates(ch@[j3], u, ks[j3]) && ks[j3].id.0 < eg.len()
                                                &&& eg.congruent(with_kids(*n, ks), *m)
                                            };
                                        assert(eg.kids_in(*m));
                                    }
                                }
                            }
                        },
                    }
                } else {
                    proof {
                        assert forall|u: Seq<(String, AppliedId)>|
                            reaches_from(*eg, s@, u) && #[trigger] node_instance(*eg, *n, ch@, u, *m) implies found_in(
                            *eg,
                            *p,
                            u,
                            out@,
                            before.len() as int,
                        ) by {
                            let ks = choose|ks: Seq<AppliedId>|
                                {
                                    &&& ks.len() == ch@.len()
                                    &&& forall|j3: int|
                                        #![trigger ch@[j3]]
                                        0 <= j3 < ch@.len() ==> eg.instantiates(ch@[j3], u, ks[j3]) && ks[j3].id.0 < eg.len()
                                    &&& eg.congruent(with_kids(*n, ks), *m)
                                };
                            lemma_congruent_head(*eg, *n, ks, *m);
                        }
                    }
                }
                proof {
                    assert forall|u: Seq<(String, AppliedId)>, k0: int|
                        0 <= k0 < k + 1 && reaches_from(*eg, s@, u) && #[trigger] node_instance(*eg, *n, ch@, u, eg.nodes@[c as int]@[k0])
                        implies found_in(*eg, *p, u, out@, o.len() as int) by {
                        if k0 < k {
                            lemma_found_grows(*eg, *p, u, before, out@, o.len() as int);
                        } else {
                            assert(found_in(*eg, *p, u, out@, before.len() as int));
                            let q = choose|q: int| before.len() <= q < out@.len() && represents(*eg, *p, (#[trigger] out@[q])@, u);
                            assert(o.len() <= q);
                        }
                    }
                }
                k = k + 1;
            }
            proof {
                assert forall|u: Seq<(String, AppliedId)>, b: AppliedId|
                    #[trigger] eg.instantiates(*p, u, b) && b.id.0 < eg.len() && eg.suf.find_view(b.id.0 as int, b.m@) == (
                        a.id.0 as int,
                        a.m@,
                    ) && reaches_from(*eg, s@, u) implies found_in(*eg, *p, u, out@, o.len() as int) by {
                    let ks = choose|ks: Seq<AppliedId>|
                        {
                            &&& ks.len() == p->ENode_1@.len()
                            &&& forall|j3: int|
                                #![trigger p->ENode_1@[j3]]
                                0 <= j3 < p->ENode_1@.len() ==> eg.instantiates(p->ENode_1@[j3], u, ks[j3]) && ks[j3].id.0 < eg.len()
                            &&& eg.holds_congruent(b.id.0 as int, with_kids(p->ENode_0, ks))
                        };
                    let bi = b.id.0 as int;
                    let k0 = choose|k0: int| 0 <= k0 < eg.nodes@[bi]@.len() && #[trigger] eg.congruent(with_kids(*n, ks), eg.nodes@[bi]@[k0]);
                    assert(eg.nodes@[bi]@.len() > 0);
                    assert(eg.suf.is_root(bi));
                    assert(eg.suf.class_ok(bi));
                    assert(eg.suf.find_view(bi, b.m@).0 == bi);
                    assert(bi == c);
                    assert(node_instance(*eg, *n, ch@, u, eg.nodes@[c as int]@[k0]));
                }
            }
        },
        Pattern::Subst(..) => {
            proof {
                assert(false);
            }
        },
    }
}


/// Every match of `pattern` against each alive class, invoked by the identity of its slots,
/// starting from the empty substitution; the classes in increasing order. Each match
/// makes such an invocation an instance of the pattern, and every substitution under which
/// one is an instance is represented by a match.
pub fn ematch_all(eg: &EGraph, pattern: &Pattern) -> (r: Vec<Subst>)
    requires
        eg.wf(),
        pattern_shaped(*pattern),
    ensures
        forall|q: int|
            0 <= q < r@.len() ==> subst_wf((#[trigger] r@[q])@) && exists|a: AppliedId|
                {
                    &&& eg.is_alive_spec(a.id)
                    &&& a.m@ == identity_map(eg.suf.classes@[a.id.0 as int].slots@)
                    &&& eg.instantiates(*pattern, r@[q]@, a)
                },
        forall|b: AppliedId, u: Seq<(String, AppliedId)>|
            eg.is_alive_spec(b.id) && b.m@ == identity_map(eg.suf.classes@[b.id.0 as int].slots@) && #[trigger] eg.instantiates(
                *pattern,
                u,
                b,
            ) ==> found_in(*eg, *pattern, u, r@, 0),
{
    let ids = eg.ids();
    proof {
        crate::egraph::lemma_ids(*eg);
    }
    let mut out: Vec<Subst> = Vec::new();
    let mut i: usize = 0;
    while i < ids.len()
        invariant
            eg.wf(),
            pattern_shaped(*pattern),
            ids@ == eg.ids_spec(),
            forall|k: usize| #[trigger] eg.ids_spec().contains(Id(k)) <==> eg.is_alive_spec(Id(k)),
            0 <= i <= ids@.len(),
            forall|q: int|
                0 <= q < out@.len() ==> subst_wf((#[trigger] out@[q])@) && exists|a: AppliedId|
                    {
                        &&& eg.is_alive_spec(a.id)
                        &&& a.m@ == identity_map(eg.suf.classes@[a.id.0 as int].slots@)
                        &&& eg.instantiates(*pattern, out@[q]@, a)
                    },
            forall|b: AppliedId, u: Seq<(String, AppliedId)>, k: int|
                #![trigger ids@[k], eg.instantiates(*pattern, u, b)]
                0 <= k < i && ids@[k] == b.id && eg.is_alive_spec(b.id) && b.m@ == identity_map(eg.suf.classes@[b.id.0 as int].slots@)
                    && eg.instantiates(*pattern, u, b) ==> found_in(*eg, *pattern, u, out@, 0),
        decreases ids@.len() - i,
    {
        let c = ids[i];
        proof {
            assert(eg.ids_spec()[i as int] == c);
            assert(eg.ids_spec().contains(Id(c.0)));
            assert(eg.suf.class_ok(c.0 as int));
        }
        let a = AppliedId::new(c, SlotMap::identity(&eg.suf.classes[c.0].slots));
        let s: Subst = Vec::new();
        let ghost before = out@;
        ematch_class(eg, pattern, &a, &s, &mut out);
        proof {
            assert forall|q: int| 0 <= q < out@.len() implies subst_wf((#[trigger] out@[q])@) && exists|a2: AppliedId|
                {
                    &&& eg.is_alive_spec(a2.id)
                    &&& a2.m@ == identity_map(eg.suf.classes@[a2.id.0 as int].slots@)
                    &&& eg.instantiates(*pattern, out@[q]@, a2)
                } by {
                if q < before.len() {
                    assert(out@[q] == before[q]);
                } else {
                    assert(eg.instantiates(*pattern, out@[q]@, a));
                }
            }
            assert(reaches_from(*eg, s@, Seq::<(String, AppliedId)>::empty()));
            assert forall|b: AppliedId, u: Seq<(String, AppliedId)>, k: int|
                #![trigger ids@[k], eg.instantiates(*pattern, u, b)]
                0 <= k < i + 1 && ids@[k] == b.id && eg.is_alive_spec(b.id) && b.m@ == identity_map(eg.suf.classes@[b.id.0 as int].slots@)
                    && eg.instantiates(*pattern, u, b) implies found_in(*eg, *pattern, u, out@, 0) by {
                if k < i {
                    lemma_found_grows(*eg, *pattern, u, before, out@, 0);
                } else {
                    assert(reaches_from(*eg, s@, u));
                    lemma_find_identity(*eg, b);
                    assert(b.id == a.id);
                    assert(found_in(*eg, *pattern, u, out@, before.len() as int));
                    let q = choose|q: int| before.len() <= q < out@.len() && represents(*eg, *pattern, (#[trigger] out@[q])@, u);
                    assert(0 <= q);
                }
            }
        }
        i = i + 1;
    }
    proof {
        assert forall|b: AppliedId, u: Seq<(String, AppliedId)>|
            eg.is_alive_spec(b.id) && b.m@ == identity_map(eg.suf.classes@[b.id.0 as int].slots@) && #[trigger] eg.instantiates(
                *pattern,
                u,
                b,
            ) implies found_in(*eg, *pattern, u, out@, 0) by {
            assert(eg.ids_spec().contains(Id(b.id.0)));
            let k = choose|k: int| 0 <= k < ids@.len() && ids@[k] == Id(b.id.0);
            assert(ids@[k] == b.id);
        }
    }
    out
}


/// Whether `a` invokes a class of the e-graph, renaming its slots one to one.
pub fn valid_invocation(eg: &EGraph, a: &AppliedId) -> (r: bool)
    requires
        eg.wf(),
        a.wf(),
    ensures
        r == eg.valid(*a),
{
    if a.id.0 >= eg.nodes.len() {
        return false;
    }
    proof {
        assert(eg.suf.class_ok(a.id.0 as int));
    }
    let sl = &eg.suf.classes[a.id.0].slots;
    let ghost set = sl@;
    let mut i: usize = 0;
    while i < sl.v.len()
        invariant
            0 <= i <= sl.v@.len(),
            a.wf(),
            eg.wf(),
            a.id.0 < eg.len(),
            *sl == eg.suf.classes@[a.id.0 as int].slots,
            set == sl@,
            sl.wf(),
            forall|j: int| 0 <= j < i ==> a.m@.contains_key(#[trigger] sl.v@[j]),
        decreases sl.v@.len() - i,
    {
        if !a.m.contains_key(sl.v[i]) {
            proof {
                assert(set.contains(sl.v@[i as int]));
                if eg.suf.valid(*a) {
                    let t = choose|t: vstd::set::Set<crate::slot::Slot>| crate::suf::total_into(a.m@, eg.suf.classes@[a.id.0 as int].slots@, t);
                    assert(a.m@.contains_key(sl.v@[i as int]));
                }
            }
            return false;
        }
        i = i + 1;
    }
    let mut x: usize = 0;
    while x < sl.v.len()
        invariant
            0 <= x <= sl.v@.len(),
            a.wf(),
            eg.wf(),
            a.id.0 < eg.len(),
            *sl == eg.suf.classes@[a.id.0 as int].slots,
            set == sl@,
            sl.wf(),
            forall|j: int| 0 <= j < sl.v@.len() ==> a.m@.contains_key(#[trigger] sl.v@[j]),
            forall|j1: int, j2: int|
                0 <= j1 < x && 0 <= j2 < sl.v@.len() && j1 != j2 ==> a.m@[sl.v@[j1]] != a.m@[sl.v@[j2]],
        decreases sl.v@.len() - x,
    {
        let mut y: usize = 0;
        while y < sl.v.len()
            invariant
                0 <= x < sl.v@.len(),
                0 <= y <= sl.v@.len(),
                a.wf(),
                eg.wf(),
                a.id.0 < eg.len(),
                *sl == eg.suf.classes@[a.id.0 as int].slots,
                set == sl@,
                sl.wf(),
                forall|j: int| 0 <= j < sl.v@.len() ==> a.m@.contains_key(#[trigger] sl.v@[j]),
                forall|j1: int, j2: int|
                    0 <= j1 < x && 0 <= j2 < sl.v@.len() && j1 != j2 ==> a.m@[sl.v@[j1]] != a.m@[sl.v@[j2]],
                forall|j2: int| 0 <= j2 < y && x != j2 ==> a.m@[sl.v@[x as int]] != a.m@[sl.v@[j2]],
            decreases sl.v@.len() - y,
        {
            if x != y {
                let vx = a.m.get(sl.v[x]);
                let vy = a.m.get(sl.v[y]);
                assert(a.m@.contains_key(sl.v@[x as int]) && a.m@.contains_key(sl.v@[y as int]));
                if vx == vy {
                    proof {
                        assert(sl.v@[x as int] != sl.v@[y as int]);
                        assert(set.contains(sl.v@[x as int]) && set.contains(sl.v@[y as int]));
                        if eg.suf.valid(*a) {
                            let t = choose|t: vstd::set::Set<crate::slot::Slot>| crate::suf::total_into(a.m@, eg.suf.classes@[a.id.0 as int].slots@, t);
                            assert(a.m@[sl.v@[x as int]] != a.m@[sl.v@[y as int]]);
                        }
                    }
                    return false;
                }
            }
            y = y + 1;
        }
        x = x + 1;
    }
    proof {
        let t = vstd::set::Set::<crate::slot::Slot>::full();
        assert forall|k: crate::slot::Slot| #[trigger] set.contains(k) implies a.m@.contains_key(k) && t.contains(a.m@[k]) by {
            let j = sl.v@.index_of(k);
            assert(sl.v@[j] == k);
        }
        assert forall|k1: crate::slot::Slot, k2: crate::slot::Slot| #![trigger a.m@[k1], a.m@[k2]] set.contains(k1) && set.contains(k2) && k1 != k2 implies a.m@[k1] != a.m@[k2] by {
            let j1 = sl.v@.index_of(k1);
            let j2 = sl.v@.index_of(k2);
            assert(sl.v@[j1] == k1 && sl.v@[j2] == k2);
        }
        assert(crate::suf::total_into(a.m@, set, t));
    }
    true
}

/// Whether every variable of the pattern is named in `s`.
pub fn vars_named_exec(p: &Pattern, s: &Subst) -> (r: bool)
    requires
        pattern_shaped(*p),
    ensures
        r == crate::egraph::vars_named(*p, s@),
    decreases p,
{
    match p {
        Pattern::PVar(v) => {
            let mut i: usize = 0;
            while i < s.len()
                invariant
                    0 <= i <= s@.len(),
                    *p == Pattern::PVar(*v),
                    forall|j: int| 0 <= j < i ==> #[trigger] s@[j].0@ != v@,
                decreases s@.len() - i,
            {
                if s[i].0 == *v {
                    assert(s@[i as int].0@ == v@);
                    return true;
                }
                i = i + 1;
            }
            false
        },
        Pattern::ENode(n, ch) => {
            match n {
                ENode::Var(_) => {
                    assert(ch@.len() == 0);
                    true
                },
                ENode::Lam(_, _) => {
                    assert(ch@.len() == 1);
                    let r = vars_named_exec(&ch[0], s);
                    proof {
                        assert forall|j: int| #![trigger ch@[j]] 0 <= j < ch@.len() implies crate::egraph::vars_named(ch@[j], s@) == r by {}
                    }
                    r
                },
                ENode::App(_, _) => {
                    assert(ch@.len() == 2);
                    let r0 = vars_named_exec(&ch[0], s);
                    let r1 = vars_named_exec(&ch[1], s);
                    proof {
                        if !r0 {
                            assert(!crate::egraph::vars_named(ch@[0], s@));
                        }
                        if !r1 {
                            assert(!crate::egraph::vars_named(ch@[1], s@));
                        }
                    }
                    r0 && r1
                },
            }
        },
        Pattern::Subst(..) => false,
    }
}

/// An equational rewrite rule: matches of the searcher are equated with the applier.
pub struct Rewrite {
    pub rule: String,
    pub searcher: Pattern,
    pub applier: Pattern,
}

/// On the way from `start` to `fin`, in an e-graph `mid` between the two, the instances of
/// `lhs` and `rhs` under `t` were made one class; or there some invocation of `t` was no
/// longer valid.
pub open spec fn applied(start: EGraph, fin: EGraph, lhs: Pattern, rhs: Pattern, t: Seq<(String, AppliedId)>) -> bool {
    exists|mid: EGraph|
        #![trigger mid.coarser(start)]
        {
            &&& mid.wf()
            &&& start.len() <= mid.len() <= fin.len()
            &&& mid.coarser(start)
            &&& fin.coarser(mid)
            &&& {
                ||| exists|a: AppliedId, c: AppliedId|
                    {
                        &&& #[trigger] mid.instantiates(lhs, t, a)
                        &&& #[trigger] mid.instantiates(rhs, t, c)
                        &&& a.id.0 < mid.len()
                        &&& c.id.0 < mid.len()
                        &&& fin.class_of(a.id.0 as int) == fin.class_of(c.id.0 as int)
                    }
                ||| !(forall|k: int| 0 <= k < t.len() ==> mid.valid(#[trigger] t[k].1))
            }
        }
}

/// What was applied on the way to `e1` stays applied on the way to a coarser `e2`.
proof fn lemma_applied_grows(start: EGraph, e1: EGraph, e2: EGraph, lhs: Pattern, rhs: Pattern, t: Seq<(String, AppliedId)>)
    requires
        applied(start, e1, lhs, rhs, t),
        e2.coarser(e1),
        e2.len() >= e1.len(),
    ensures
        applied(start, e2, lhs, rhs, t),
{
    let mid = choose|mid: EGraph|
        #![trigger mid.coarser(start)]
        {
            &&& mid.wf()
            &&& start.len() <= mid.len() <= e1.len()
            &&& mid.coarser(start)
            &&& e1.coarser(mid)
            &&& {
                ||| exists|a: AppliedId, c: AppliedId|
                    {
                        &&& #[trigger] mid.instantiates(lhs, t, a)
                        &&& #[trigger] mid.instantiates(rhs, t, c)
                        &&& a.id.0 < mid.len()
                        &&& c.id.0 < mid.len()
                        &&& e1.class_of(a.id.0 as int) == e1.class_of(c.id.0 as int)
                    }
                ||| !(forall|k: int| 0 <= k < t.len() ==> mid.valid(#[trigger] t[k].1))
            }
        };
    assert forall|j: int, k: int|
        0 <= j < mid.len() && 0 <= k < mid.len() && #[trigger] mid.class_of(j) == #[trigger] mid.class_of(k) implies e2.class_of(j)
        == e2.class_of(k) by {
        assert(e1.class_of(j) == e1.class_of(k));
    }
    assert(e2.coarser(mid));
    if exists|a: AppliedId, c: AppliedId|
        {
            &&& #[trigger] mid.instantiates(lhs, t, a)
            &&& #[trigger] mid.instantiates(rhs, t, c)
            &&& a.id.0 < mid.len()
            &&& c.id.0 < mid.len()
            &&& e1.class_of(a.id.0 as int) == e1.class_of(c.id.0 as int)
        } {
        let (a, c) = choose|a: AppliedId, c: AppliedId|
            {
                &&& #[trigger] mid.instantiates(lhs, t, a)
                &&& #[trigger] mid.instantiates(rhs, t, c)
                &&& a.id.0 < mid.len()
                &&& c.id.0 < mid.len()
                &&& e1.class_of(a.id.0 as int) == e1.class_of(c.id.0 as int)
            };
        assert(e2.class_of(a.id.0 as int) == e2.class_of(c.id.0 as int));
    }
}

/// Applies each rewrite once: first every searcher is matched against the e-graph as it is,
/// then, rule by rule and match by match, the two sides are instantiated and equated,
/// where the match names every variable of the applier by a valid invocation. Returns
/// whether an equation was new. For every rule and every substitution under which an alive
/// class is an instance of the searcher, a match representing it was applied.
pub fn apply_rewrites(eg: &mut EGraph, rewrites: &Vec<Rewrite>) -> (changed: bool)
    requires
        old(eg).wf(),
        forall|i: int| 0 <= i < rewrites@.len() ==> pattern_shaped((#[trigger] rewrites@[i]).searcher) && pattern_shaped(
            rewrites@[i].applier,
        ),
    ensures
        final(eg).wf(),
        final(eg).coarser(*old(eg)),
        final(eg).kept_dead(*old(eg)),
        final(eg).len() >= old(eg).len(),
        forall|r: int, b: AppliedId, u: Seq<(String, AppliedId)>|
            0 <= r < rewrites@.len() && old(eg).is_alive_spec(b.id) && b.m@ == identity_map(
                old(eg).suf.classes@[b.id.0 as int].slots@,
            ) && #[trigger] old(eg).instantiates(rewrites@[r].searcher, u, b) ==> exists|t: Seq<(String, AppliedId)>|
                represents(*old(eg), rewrites@[r].searcher, t, u) && (vars_named(rewrites@[r].applier, t) ==> applied(
                    *old(eg),
                    *final(eg),
                    rewrites@[r].searcher,
                    rewrites@[r].applier,
                    t,
                )),
{
    let ghost start = *eg;
    let mut found: Vec<Vec<Subst>> = Vec::new();
    let mut i: usize = 0;
    while i < rewrites.len()
        invariant
            0 <= i <= rewrites@.len(),
            found@.len() == i,
            *eg == start,
            start.wf(),
            forall|k: int| 0 <= k < rewrites@.len() ==> pattern_shaped((#[trigger] rewrites@[k]).searcher) && pattern_shaped(
                rewrites@[k].applier,
            ),
            forall|k: int, q: int| 0 <= k < i && 0 <= q < found@[k]@.len() ==> subst_wf((#[trigger] found@[k]@[q])@),
            forall|k: int, b: AppliedId, u: Seq<(String, AppliedId)>|
                #![trigger found@[k], start.instantiates(rewrites@[k].searcher, u, b)]
                0 <= k < i && start.is_alive_spec(b.id) && b.m@ == identity_map(start.suf.classes@[b.id.0 as int].slots@)
                    && start.instantiates(rewrites@[k].searcher, u, b) ==> found_in(start, rewrites@[k].searcher, u, found@[k]@, 0),
        decreases rewrites@.len() - i,
    {
        let ms = ematch_all(eg, &rewrites[i].searcher);
        let ghost f0 = found@;
        found.push(ms);
        proof {
            assert forall|k: int, b: AppliedId, u: Seq<(String, AppliedId)>|
                #![trigger found@[k], start.instantiates(rewrites@[k].searcher, u, b)]
                0 <= k < i + 1 && start.is_alive_spec(b.id) && b.m@ == identity_map(start.suf.classes@[b.id.0 as int].slots@)
                    && start.instantiates(rewrites@[k].searcher, u, b) implies found_in(start, rewrites@[k].searcher, u, found@[k]@, 0) by {
                if k < i {
                    assert(found@[k] == f0[k]);
                }
            }
        }
        i = i + 1;
    }
    let mut changed = false;
    let mut i: usize = 0;
    while i < rewrites.len()
        invariant
            0 <= i <= rewrites@.len(),
            found@.len() == rewrites@.len(),
            eg.wf(),
            eg.coarser(start),
            eg.kept_dead(start),
            eg.len() >= start.len(),
            forall|k: int| 0 <= k < rewrites@.len() ==> pattern_shaped((#[trigger] rewrites@[k]).searcher) && pattern_shaped(
                rewrites@[k].applier,
            ),
            forall|k: int, q: int| 0 <= k < found@.len() && 0 <= q < found@[k]@.len() ==> subst_wf((#[trigger] found@[k]@[q])@),
            forall|k: int, q: int|
                #![trigger found@[k]@[q]]
                0 <= k < i && 0 <= q < found@[k]@.len() && vars_named(rewrites@[k].searcher, found@[k]@[q]@) && vars_named(
                    rewrites@[k].applier,
                    found@[k]@[q]@,
                ) ==> applied(start, *eg, rewrites@[k].searcher, rewrites@[k].applier, found@[k]@[q]@),
        decreases rewrites@.len() - i,
    {
        let rw = &rewrites[i];
        let ms = &found[i];
        let mut j: usize = 0;
        while j < ms.len()
            invariant
                0 <= j <= ms@.len(),
                0 <= i < rewrites@.len(),
                found@.len() == rewrites@.len(),
                *rw == rewrites@[i as int],
                *ms == found@[i as int],
                eg.wf(),
                eg.coarser(start),
                eg.kept_dead(start),
                eg.len() >= start.len(),
                pattern_shaped(rw.searcher),
                pattern_shaped(rw.applier),
                forall|q: int| 0 <= q < ms@.len() ==> subst_wf((#[trigger] ms@[q])@),
                forall|k: int, q: int|
                    #![trigger found@[k]@[q]]
                    0 <= k < i && 0 <= q < found@[k]@.len() && vars_named(rewrites@[k].searcher, found@[k]@[q]@) && vars_named(
                        rewrites@[k].applier,
                        found@[k]@[q]@,
                    ) ==> applied(start, *eg, rewrites@[k].searcher, rewrites@[k].applier, found@[k]@[q]@),
                forall|q: int|
                    #![trigger ms@[q]]
                    0 <= q < j && vars_named(rw.searcher, ms@[q]@) && vars_named(rw.applier, ms@[q]@) ==> applied(
                        start,
                        *eg,
                        rw.searcher,
                        rw.applier,
                        ms@[q]@,
                    ),
            decreases ms@.len() - j,
        {
            let subst = &ms[j];
            assert(subst_wf(subst@));
            if vars_named_exec(&rw.searcher, subst) && vars_named_exec(&rw.applier, subst) {
                if all_valid(eg, subst) {
                    let ghost before = *eg;
                    let b = eg.union_instantiations(&rw.searcher, &rw.applier, subst);
                    proof {
                        assert forall|x: int, y: int|
                            0 <= x < start.len() && 0 <= y < start.len() && #[trigger] start.class_of(x) == #[trigger] start.class_of(y)
                            implies eg.class_of(x) == eg.class_of(y) by {
                            assert(before.class_of(x) == before.class_of(y));
                        }
                        assert forall|x: int| 0 <= x < start.len() && !start.suf.is_root(x) implies !#[trigger] eg.suf.is_root(x) by {
                            assert(!before.suf.is_root(x));
                        }
                        let (a, c, mid) = choose|a: AppliedId, c: AppliedId, mid: EGraph|
                            {
                                &&& mid.wf()
                                &&& mid.extends(before)
                                &&& mid.coarser(before)
                                &&& mid.instantiates(rw.searcher, subst@, a)
                                &&& mid.instantiates(rw.applier, subst@, c)
                                &&& mid.valid(a)
                                &&& mid.valid(c)
                                &&& eg.len() == mid.len()
                                &&& eg.coarser(mid)
                                &&& eg.class_of(a.id.0 as int) == eg.class_of(c.id.0 as int)
                                &&& b == !mid.eq_spec(a, c)
                            };
                        assert forall|x: int, y: int|
                            0 <= x < start.len() && 0 <= y < start.len() && #[trigger] start.class_of(x) == #[trigger] start.class_of(y)
                            implies mid.class_of(x) == mid.class_of(y) by {
                            assert(before.class_of(x) == before.class_of(y));
                        }
                        assert(mid.coarser(start));
                        assert(applied(start, *eg, rw.searcher, rw.applier, subst@));
                        assert forall|k: int, q: int|
                            #![trigger found@[k]@[q]]
                            0 <= k < i && 0 <= q < found@[k]@.len() && vars_named(rewrites@[k].searcher, found@[k]@[q]@) && vars_named(
                                rewrites@[k].applier,
                                found@[k]@[q]@,
                            ) implies applied(start, *eg, rewrites@[k].searcher, rewrites@[k].applier, found@[k]@[q]@) by {
                            lemma_applied_grows(start, before, *eg, rewrites@[k].searcher, rewrites@[k].applier, found@[k]@[q]@);
                        }
                        assert forall|q: int|
                            #![trigger ms@[q]]
                            0 <= q < j + 1 && vars_named(rw.searcher, ms@[q]@) && vars_named(rw.applier, ms@[q]@) implies applied(
                                start,
                                *eg,
                                rw.searcher,
                                rw.applier,
                                ms@[q]@,
                            ) by {
                            if q < j {
                                lemma_applied_grows(start, before, *eg, rw.searcher, rw.applier, ms@[q]@);
                            }
                        }
                    }
                    if b {
                        changed = true;
                    }
                } else {
                    proof {
                        assert(!(forall|k: int| 0 <= k < subst@.len() ==> eg.valid(#[trigger] subst@[k].1)));
                        assert(eg.coarser(*eg));
                        assert(applied(start, *eg, rw.searcher, rw.applier, subst@));
                    }
                }
            }
            j = j + 1;
        }
        proof {
            assert forall|k: int, q: int|
                #![trigger found@[k]@[q]]
                0 <= k < i + 1 && 0 <= q < found@[k]@.len() && vars_named(rewrites@[k].searcher, found@[k]@[q]@) && vars_named(
                    rewrites@[k].applier,
                    found@[k]@[q]@,
                ) implies applied(start, *eg, rewrites@[k].searcher, rewrites@[k].applier, found@[k]@[q]@) by {
                if k == i {
                    assert(ms@[q] == found@[k]@[q]);
                }
            }
        }
        i = i + 1;
    }
    proof {
        assert forall|r: int, b: AppliedId, u: Seq<(String, AppliedId)>|
            0 <= r < rewrites@.len() && start.is_alive_spec(b.id) && b.m@ == identity_map(start.suf.classes@[b.id.0 as int].slots@)
                && #[trigger] start.instantiates(rewrites@[r].searcher, u, b) implies exists|t: Seq<(String, AppliedId)>|
            represents(start, rewrites@[r].searcher, t, u) && (vars_named(rewrites@[r].applier, t) ==> applied(
                start,
                *eg,
                rewrites@[r].searcher,
                rewrites@[r].applier,
                t,
            )) by {
            assert(found_in(start, rewrites@[r].searcher, u, found@[r]@, 0));
            let q = choose|q: int| 0 <= q < found@[r]@.len() && represents(start, rewrites@[r].searcher, (#[trigger] found@[r]@[q])@, u);
            let t = found@[r]@[q]@;
            assert(vars_named(rewrites@[r].searcher, t));
        }
    }
    changed
}

/// Whether every invocation of the substitution is valid in the e-graph.
fn all_valid(eg: &EGraph, s: &Subst) -> (r: bool)
    requires
        eg.wf(),
        subst_wf(s@),
    ensures
        r == forall|i: int| 0 <= i < s@.len() ==> eg.valid(#[trigger] s@[i].1),
{
    let mut i: usize = 0;
    while i < s.len()
        invariant
            0 <= i <= s@.len(),
            eg.wf(),
            subst_wf(s@),
            forall|j: int| 0 <= j < i ==> eg.valid(#[trigger] s@[j].1),
        decreases s@.len() - i,
    {
        assert(s@[i as int].1.wf());
        if !valid_invocation(eg, &s[i].1) {
            return false;
        }
        i = i + 1;
    }
    true
}

} // verus!
