use vstd::prelude::*;
use std::sync::Arc;
use crate::slot::{Slot, SlotTable};
use crate::slotmap::{SlotMap, injective, compose_partial_map, inverse_map, compatible, values_of, lemma_compose_dom};
use crate::applied::{AppliedId, Equation, Id};
use crate::slotset::SlotSet;
use crate::suf::{invert, inverts};

use crate::steps::{Step, FlatteningContext, chained, lemma_chained_concat, check_path, check_alike, check_settled};
use crate::flat::{SynClasses, lemma_syn_nodes_wf};
use crate::lang::{ENode, ENodeView, AppView, app_view, app_ids_spec, all_slots_spec, with_all_slots, alpha_slots, alpha_normalize, enode_eq};

verus! {

/// A step justified from outside, with an optional name for the justification.
pub struct ExplicitProof(pub Option<String>);

/// `a = a`.
pub struct ReflexivityProof;

/// `b = a` from `a = b`.
pub struct SymmetryProof(pub Arc<ProvenEqRaw>);

/// `a = c` from `a = b` and `b = c`.
pub struct TransitivityProof(pub Arc<ProvenEqRaw>, pub Arc<ProvenEqRaw>);

/// `f(a1, ..) = f(b1, ..)` from `a1 = b1`, ..
pub struct CongruenceProof(pub Vec<Arc<ProvenEqRaw>>);

/// How an equation was proven.
pub enum Proof {
    Explicit(ExplicitProof),
    Reflexivity(ReflexivityProof),
    Symmetry(SymmetryProof),
    Transitivity(TransitivityProof),
    Congruence(CongruenceProof),
}

/// An equation together with its proof. Only the checks of this module build one.
pub struct ProvenEqRaw {
    eq: Equation,
    proof: Proof,
}

pub type ProvenEq = Arc<ProvenEqRaw>;

/// An equation taken as the e-classes and renamings of its two sides.
pub type EqView = ((Id, Map<Slot, Slot>), (Id, Map<Slot, Slot>));

pub open spec fn eq_view(e: Equation) -> EqView {
    ((e.l.id, e.l.m@), (e.r.id, e.r.m@))
}

/// The equation with its sides swapped.
pub open spec fn flip(e: EqView) -> EqView {
    (e.1, e.0)
}

impl ProvenEqRaw {
    /// The equation that is proven.
    pub closed spec fn eq_spec(&self) -> EqView {
        eq_view(self.eq)
    }

    /// The last step of the proof.
    pub closed spec fn proof_spec(&self) -> Proof {
        self.proof
    }

    pub closed spec fn wf(&self) -> bool {
        self.eq.wf()
    }

    /// The equation that is proven.
    pub fn equ(&self) -> (r: Equation)
        ensures
            eq_view(r) == self.eq_spec(),
            self.wf() ==> r.wf(),
    {
        self.eq.clone()
    }

    /// The last step of the proof.
    pub fn proof_step(&self) -> (r: &Proof)
        ensures
            *r == self.proof_spec(),
    {
        &self.proof
    }
}

/// The renaming that takes the arguments of `a` to those of `b`: back through `a`, then
/// forth through `b`.
pub open spec fn match_view(a: (Id, Map<Slot, Slot>), b: (Id, Map<Slot, Slot>)) -> Map<Slot, Slot> {
    compose_partial_map(inverse_map(a.1), b.1)
}

/// The renamings that match the two sides of `a` with those of `b` agree.
pub open spec fn eq_matches(a: EqView, b: EqView) -> bool {
    compatible(match_view(a.0, b.0), match_view(a.1, b.1))
}

/// The renaming `theta` with `a` renamed by `theta` equal to `b`: back through `a`, then
/// forth through `b`.
pub fn match_app_id(a: &AppliedId, b: &AppliedId) -> (r: SlotMap)
    requires
        a.wf(),
        b.wf(),
        injective(a.m@),
    ensures
        r.wf(),
        r@ == match_view((a.id, a.m@), (b.id, b.m@)),
{
    let inv = a.m.inverse();
    inv.compose_partial(&b.m)
}

/// The renaming that matches both sides of `a` with those of `b`.
pub fn assert_match_equation(a: &Equation, b: &Equation) -> (r: SlotMap)
    requires
        a.wf(),
        b.wf(),
        injective(a.l.m@),
        injective(a.r.m@),
        eq_matches(eq_view(*a), eq_view(*b)),
    ensures
        r.wf(),
        r@ == match_view(eq_view(*a).0, eq_view(*b).0).union_prefer_right(
            match_view(eq_view(*a).1, eq_view(*b).1),
        ),
{
    let theta_l = match_app_id(&a.l, &b.l);
    let theta_r = match_app_id(&a.r, &b.r);
    theta_l.union(&theta_r)
}

/// `peq`, cut down to the arguments that `eq` has on each side, matches `eq`.
pub open spec fn proves_equation(peq: EqView, eq: EqView) -> bool {
    let l = (peq.0.0, crate::slotmap::restrict_map(peq.0.1, eq.0.1.dom()));
    let r = (peq.1.0, crate::slotmap::restrict_map(peq.1.1, eq.1.1.dom()));
    eq_matches((l, r), eq)
}

/// Checks that the proven equation, with the arguments that `eq` lacks dropped, matches
/// `eq`.
pub fn assert_proves_equation(peq: &ProvenEq, eq: &Equation)
    requires
        peq.wf(),
        eq.wf(),
        injective(peq.eq_spec().0.1),
        injective(peq.eq_spec().1.1),
        proves_equation(peq.eq_spec(), eq_view(*eq)),
{
    let e = peq.equ();
    let l = AppliedId::new(e.l.id, e.l.m.restrict(&eq.l.m.keys()));
    let r = AppliedId::new(e.r.id, e.r.m.restrict(&eq.r.m.keys()));
    proof {
        crate::slotmap::lemma_restrict_injective(e.l.m@, eq.l.m@.dom());
        crate::slotmap::lemma_restrict_injective(e.r.m@, eq.r.m@.dom());
    }
    let cut = Equation { l, r };
    assert_match_equation(&cut, eq);
}

impl ExplicitProof {
    /// Records `eq` as proven by this justification.
    pub fn check(&self, eq: &Equation) -> (r: ProvenEq)
        ensures
            r.eq_spec() == eq_view(*eq),
            eq.wf() ==> r.wf(),
            r.proof_spec() matches Proof::Explicit(_),
    {
        let j = match &self.0 {
            Some(s) => Some(s.clone()),
            None => None,
        };
        Arc::new(ProvenEqRaw { eq: eq.clone(), proof: Proof::Explicit(ExplicitProof(j)) })
    }
}

impl ReflexivityProof {
    /// Records `eq`, whose sides are the same, as proven.
    pub fn check(&self, eq: &Equation) -> (r: ProvenEq)
        requires
            eq_view(*eq).0 == eq_view(*eq).1,
        ensures
            r.eq_spec() == eq_view(*eq),
            eq.wf() ==> r.wf(),
            r.proof_spec() matches Proof::Reflexivity(_),
    {
        Arc::new(ProvenEqRaw { eq: eq.clone(), proof: Proof::Reflexivity(ReflexivityProof) })
    }
}

impl SymmetryProof {
    /// Records `eq` as proven from the flipped equation of the sub-proof, which it matches.
    pub fn check(&self, eq: &Equation) -> (r: ProvenEq)
        requires
            eq.wf(),
            injective(eq.l.m@),
            injective(eq.r.m@),
            self.0.wf(),
            eq_matches(eq_view(*eq), flip(self.0.eq_spec())),
        ensures
            r.eq_spec() == eq_view(*eq),
            r.wf(),
            r.proof_spec() matches Proof::Symmetry(SymmetryProof(x)) && x == self.0,
    {
        let x = &self.0;
        let e = x.equ();
        let flipped = Equation { l: e.r, r: e.l };
        assert_match_equation(eq, &flipped);
        Arc::new(ProvenEqRaw { eq: eq.clone(), proof: Proof::Symmetry(SymmetryProof(self.0.clone())) })
    }
}

/// An invocation renamed by `t`.
pub open spec fn rename(a: (Id, Map<Slot, Slot>), t: Map<Slot, Slot>) -> (Id, Map<Slot, Slot>) {
    (a.0, compose_partial_map(a.1, t))
}

/// Renamings `t1` of `e1` and `t2` of `e2` chain them into `e`: `e1` renamed starts where
/// `e` starts, `e2` renamed ends where `e` ends, and the two meet in the middle.
pub open spec fn chains(e: EqView, e1: EqView, e2: EqView, t1: Map<Slot, Slot>, t2: Map<Slot, Slot>) -> bool {
    &&& rename(e1.0, t1) == e.0
    &&& rename(e2.1, t2) == e.1
    &&& rename(e1.1, t1) == rename(e2.0, t2)
}

/// Gives each slot of `xs` that `theta` does not map a fresh slot.
fn freshen(theta: &mut SlotMap, xs: &SlotSet, tab: &mut SlotTable)
    requires
        old(theta).wf(),
        xs.wf(),
        old(tab).wf(),
        old(tab).fresh_idx + 4 * xs.v@.len() + 4 <= u64::MAX,
    ensures
        final(theta).wf(),
        final(tab).wf(),
        old(tab).fresh_idx <= final(tab).fresh_idx <= old(tab).fresh_idx + 4 * xs.v@.len(),
        final(tab).named_vec@ == old(tab).named_vec@,
        forall|x: Slot| #[trigger] old(theta)@.contains_key(x) ==> final(theta)@.contains_key(x) && final(theta)@[x] == old(theta)@[x],
        forall|x: Slot| xs@.contains(x) ==> #[trigger] final(theta)@.contains_key(x),
{
    let ghost start = tab.fresh_idx;
    let ghost th0 = theta@;
    let mut i: usize = 0;
    while i < xs.v.len()
        invariant
            0 <= i <= xs.v@.len(),
            xs.wf(),
            theta.wf(),
            tab.wf(),
            start <= tab.fresh_idx <= start + 4 * i,
            start + 4 * xs.v@.len() + 4 <= u64::MAX,
            tab.named_vec@ == old(tab).named_vec@,
            forall|x: Slot| #[trigger] th0.contains_key(x) ==> theta@.contains_key(x) && theta@[x] == th0[x],
            forall|j: int| 0 <= j < i ==> #[trigger] theta@.contains_key(xs.v@[j]),
        decreases xs.v@.len() - i,
    {
        let x = xs.v[i];
        if !theta.contains_key(x) {
            let f = Slot::fresh(tab);
            theta.insert(x, f);
        }
        i = i + 1;
    }
}

/// `r` is `theta` widened by `inv`, then `forth`, then `other`: present exactly where the
/// two agree on their common keys, and then their union.
pub open spec fn widened(theta: Map<Slot, Slot>, inv: Map<Slot, Slot>, forth: Map<Slot, Slot>, other: Map<Slot, Slot>, r: Option<SlotMap>) -> bool {
    let u = compose_partial_map(compose_partial_map(inv, forth), other);
    &&& r is Some <==> compatible(theta, u)
    &&& r matches Some(t) ==> t.wf() && t@ == theta.union_prefer_right(u)
}

/// Widens `theta` by what `back` then `forth` then `other` give; fails where they disagree.
fn widen(theta: &SlotMap, back: &SlotMap, forth: &SlotMap, other: &SlotMap) -> (r: Option<SlotMap>)
    requires
        theta.wf(),
        back.wf(),
        forth.wf(),
        other.wf(),
    ensures
        r matches Some(t) ==> t.wf() && forall|x: Slot| #[trigger] theta@.contains_key(x) ==> t@.contains_key(x) && t@[x] == theta@[x],
        exists|inv: Map<Slot, Slot>| #[trigger] widened(theta@, inv, forth@, other@, r) && inverts(inv, back@)
            && (injective(back@) ==> inv == inverse_map(back@)),
{
    let inv = invert(back);
    let u = inv.compose_partial(forth).compose_partial(other);
    let r = theta.try_union(&u);
    assert(widened(theta@, inv@, forth@, other@, r));
    r
}

/// Whether the two invocations are the same: the same e-class and the same renaming.
fn same_invocation(a: &AppliedId, b: &AppliedId) -> (r: bool)
    requires
        a.wf(),
        b.wf(),
    ensures
        r == ((a.id, a.m@) == (b.id, b.m@)),
{
    a.id == b.id && a.m.map_eq(&b.m)
}

/// The two proofs line up end to end with `e`: the left side of the first is that of `e`,
/// its right side is the left side of the second, and the right side of the second is that
/// of `e`.
pub open spec fn straight(e: EqView, e1: EqView, e2: EqView) -> bool {
    &&& e1.0 == e.0
    &&& e1.1 == e2.0
    &&& e2.1 == e.1
}

/// Every key of `m` is sent to itself.
pub open spec fn idy(m: Map<Slot, Slot>) -> bool {
    forall|k: Slot| #[trigger] m.contains_key(k) ==> m[k] == k
}

/// Going back by an inverse of `a` and forth by `a` sends each value of `a` to itself.
proof fn lemma_back_forth(inv: Map<Slot, Slot>, a: Map<Slot, Slot>)
    requires
        inverts(inv, a),
    ensures
        idy(compose_partial_map(inv, a)),
        compose_partial_map(inv, a).dom() == values_of(a),
{
    lemma_compose_dom(inv, a);
    assert(compose_partial_map(inv, a).dom() =~= values_of(a));
}

/// Widening a map that sends its keys to themselves, through a map that does too, agrees
/// and again sends every key to itself.
proof fn lemma_widen_idy(theta: Map<Slot, Slot>, inv: Map<Slot, Slot>, back: Map<Slot, Slot>, other: Map<Slot, Slot>)
    requires
        inverts(inv, back),
        idy(theta),
        idy(other),
    ensures
        compatible(theta, compose_partial_map(compose_partial_map(inv, back), other)),
        idy(theta.union_prefer_right(compose_partial_map(compose_partial_map(inv, back), other))),
        forall|v: Slot| #[trigger] theta.union_prefer_right(compose_partial_map(compose_partial_map(inv, back), other)).contains_key(v)
            <==> theta.contains_key(v) || (values_of(back).contains(v) && other.contains_key(v)),
{
    lemma_back_forth(inv, back);
    let i = compose_partial_map(inv, back);
    lemma_compose_dom(i, other);
}

/// The last widening: where `theta` and `t1` share a value of `m`, `t1` keeps it, and every
/// value of `m` is a key of `t1`; then the widening agrees, keeps the keys of `theta` sent to
/// themselves, and sends each value of `m` where `t1` does.
proof fn lemma_widen_last(theta: Map<Slot, Slot>, inv: Map<Slot, Slot>, m: Map<Slot, Slot>, t1: Map<Slot, Slot>)
    requires
        inverts(inv, m),
        idy(theta),
        values_of(m).subset_of(t1.dom()),
        forall|v: Slot| theta.contains_key(v) && values_of(m).contains(v) ==> #[trigger] t1[v] == v,
    ensures
        compatible(theta, compose_partial_map(compose_partial_map(inv, m), t1)),
        forall|v: Slot| #[trigger] theta.contains_key(v) ==> theta.union_prefer_right(
            compose_partial_map(compose_partial_map(inv, m), t1),
        ).contains_key(v) && theta.union_prefer_right(compose_partial_map(compose_partial_map(inv, m), t1))[v] == v,
        forall|v: Slot| #[trigger] values_of(m).contains(v) ==> theta.union_prefer_right(
            compose_partial_map(compose_partial_map(inv, m), t1),
        ).contains_key(v) && theta.union_prefer_right(compose_partial_map(compose_partial_map(inv, m), t1))[v] == t1[v],
{
    lemma_back_forth(inv, m);
    let i = compose_partial_map(inv, m);
    lemma_compose_dom(i, t1);
}

/// Renaming by a map that keeps each value of `a` leaves `a` as it is.
proof fn lemma_compose_fixed(a: Map<Slot, Slot>, t: Map<Slot, Slot>)
    requires
        forall|v: Slot| #[trigger] values_of(a).contains(v) ==> t.contains_key(v) && t[v] == v,
    ensures
        compose_partial_map(a, t) == a,
{
    lemma_compose_dom(a, t);
    assert forall|k: Slot| a.contains_key(k) implies #[trigger] t.contains_key(a[k]) && t[a[k]] == a[k] by {
        assert(values_of(a).contains(a[k]));
    }
    assert(compose_partial_map(a, t) =~= a);
}

/// Renaming by two maps that agree on the values of `a` gives the same.
proof fn lemma_compose_agree(a: Map<Slot, Slot>, t1: Map<Slot, Slot>, t2: Map<Slot, Slot>)
    requires
        forall|v: Slot| #[trigger] values_of(a).contains(v) ==> t1.contains_key(v) && t2.contains_key(v) && t1[v] == t2[v],
    ensures
        compose_partial_map(a, t1) == compose_partial_map(a, t2),
{
    lemma_compose_dom(a, t1);
    lemma_compose_dom(a, t2);
    assert forall|k: Slot| a.contains_key(k) implies #[trigger] t1.contains_key(a[k]) && t2.contains_key(a[k]) && t1[a[k]] == t2[a[k]] by {
        assert(values_of(a).contains(a[k]));
    }
    assert(compose_partial_map(a, t1) =~= compose_partial_map(a, t2));
}

/// `a` agrees with `t` wherever `a` is defined.
pub open spec fn within_map(a: Map<Slot, Slot>, t: Map<Slot, Slot>) -> bool {
    forall|v: Slot| #[trigger] a.contains_key(v) ==> t.contains_key(v) && a[v] == t[v]
}

/// The renamings `t1` and `t2` chain the proofs of `e1` and `e2` into `e`, and each is
/// defined on every slot of its proof.
pub open spec fn full_chain(e: EqView, e1: EqView, e2: EqView, t1: Map<Slot, Slot>, t2: Map<Slot, Slot>) -> bool {
    &&& chains(e, e1, e2, t1, t2)
    &&& values_of(e1.0.1).subset_of(t1.dom())
    &&& values_of(e1.1.1).subset_of(t1.dom())
    &&& values_of(e2.0.1).subset_of(t2.dom())
    &&& values_of(e2.1.1).subset_of(t2.dom())
}

/// Going back through an inverse of `l` and forth through `a`, where `l` renamed by `t` is
/// `a` and `t` is defined on the values of `l`, agrees with `t` and is defined on the values
/// of `l`.
proof fn lemma_start_within(inv: Map<Slot, Slot>, l: Map<Slot, Slot>, t: Map<Slot, Slot>, a: Map<Slot, Slot>)
    requires
        inverts(inv, l),
        compose_partial_map(l, t) == a,
        values_of(l).subset_of(t.dom()),
    ensures
        within_map(compose_partial_map(inv, a), t),
        forall|v: Slot| #[trigger] values_of(l).contains(v) ==> compose_partial_map(inv, a).contains_key(v),
{
    lemma_compose_dom(inv, a);
    lemma_compose_dom(l, t);
    assert forall|v: Slot| #[trigger] values_of(l).contains(v) implies compose_partial_map(inv, a).contains_key(v) by {
        assert(inv.contains_key(v));
        let k = inv[v];
        assert(l.contains_key(k) && l[k] == v);
        assert(t.contains_key(l[k]));
    }
    assert forall|v: Slot| #[trigger] compose_partial_map(inv, a).contains_key(v) implies t.contains_key(v)
        && compose_partial_map(inv, a)[v] == t[v] by {
        let k = inv[v];
        assert(l.contains_key(k) && l[k] == v);
    }
}

/// A widening step that agrees with the renamings of a chain keeps agreeing with them.
proof fn lemma_widen_within(
    theta: Map<Slot, Slot>,
    inv: Map<Slot, Slot>,
    back: Map<Slot, Slot>,
    forth: Map<Slot, Slot>,
    other: Map<Slot, Slot>,
    t_this: Map<Slot, Slot>,
    t_other: Map<Slot, Slot>,
)
    requires
        inverts(inv, back),
        within_map(theta, t_this),
        within_map(other, t_other),
        compose_partial_map(back, t_this) == compose_partial_map(forth, t_other),
        values_of(back).subset_of(t_this.dom()),
    ensures
        compatible(theta, compose_partial_map(compose_partial_map(inv, forth), other)),
        within_map(theta.union_prefer_right(compose_partial_map(compose_partial_map(inv, forth), other)), t_this),
        forall|x: Slot| #[trigger] compose_partial_map(compose_partial_map(inv, forth), other).contains_key(x) <==> (
            inv.contains_key(x) && forth.contains_key(inv[x]) && other.contains_key(forth[inv[x]])),
{
    let i = compose_partial_map(inv, forth);
    let u = compose_partial_map(i, other);
    lemma_compose_dom(inv, forth);
    lemma_compose_dom(i, other);
    lemma_compose_dom(back, t_this);
    lemma_compose_dom(forth, t_other);
    assert forall|x: Slot| #[trigger] u.contains_key(x) implies t_this.contains_key(x) && u[x] == t_this[x] by {
        let k = inv[x];
        assert(back.contains_key(k) && back[k] == x);
        assert(values_of(back).contains(x));
        assert(compose_partial_map(forth, t_other).contains_key(k));
        assert(compose_partial_map(back, t_this)[k] == t_this[back[k]]);
    }
}

/// The last widening agrees where every shared key of `theta` and the new part comes from a
/// slot that `t1` already fixed.
proof fn lemma_widen_last_within(
    theta: Map<Slot, Slot>,
    inv: Map<Slot, Slot>,
    m2: Map<Slot, Slot>,
    m1: Map<Slot, Slot>,
    th1: Map<Slot, Slot>,
    th1_old: Map<Slot, Slot>,
    t1: Map<Slot, Slot>,
    t2: Map<Slot, Slot>,
)
    requires
        inverts(inv, m2),
        within_map(theta, t2),
        within_map(th1_old, t1),
        forall|v: Slot| #[trigger] th1_old.contains_key(v) ==> th1.contains_key(v) && th1[v] == th1_old[v],
        compose_partial_map(m1, t1) == compose_partial_map(m2, t2),
        forall|y: Slot| theta.contains_key(y) && #[trigger] inv.contains_key(y) && m1.contains_key(inv[y]) ==> th1_old.contains_key(m1[inv[y]]),
    ensures
        compatible(theta, compose_partial_map(compose_partial_map(inv, m1), th1)),
        forall|v: Slot| #[trigger] theta.contains_key(v) ==> theta.union_prefer_right(
            compose_partial_map(compose_partial_map(inv, m1), th1),
        ).contains_key(v) && theta.union_prefer_right(compose_partial_map(compose_partial_map(inv, m1), th1))[v] == theta[v],
        forall|y: Slot| #[trigger] inv.contains_key(y) && m1.contains_key(inv[y]) && th1.contains_key(m1[inv[y]]) ==> theta.union_prefer_right(
            compose_partial_map(compose_partial_map(inv, m1), th1),
        ).contains_key(y) && theta.union_prefer_right(compose_partial_map(compose_partial_map(inv, m1), th1))[y] == th1[m1[inv[y]]],
{
    let i = compose_partial_map(inv, m1);
    let u = compose_partial_map(i, th1);
    lemma_compose_dom(inv, m1);
    lemma_compose_dom(i, th1);
    lemma_compose_dom(m1, t1);
    lemma_compose_dom(m2, t2);
    assert forall|y: Slot| theta.contains_key(y) && u.contains_key(y) implies theta[y] == u[y] by {
        let k = inv[y];
        assert(m2.contains_key(k) && m2[k] == y);
        let x = m1[k];
        assert(th1_old.contains_key(x));
        assert(t1.contains_key(x));
        assert(compose_partial_map(m1, t1).contains_key(k));
        assert(compose_partial_map(m2, t2)[k] == t2[m2[k]]);
    }
    assert forall|y: Slot| #[trigger] inv.contains_key(y) && m1.contains_key(inv[y]) && th1.contains_key(m1[inv[y]]) implies u.contains_key(y)
        && u[y] == th1[m1[inv[y]]] by {
        assert(i.contains_key(y) && i[y] == m1[inv[y]]);
    }
}

/// Where the second renaming sends each value of `m2` to what the first sends the matching
/// value of `m1` to, the two middle sides agree.
proof fn lemma_middle(
    m1: Map<Slot, Slot>,
    m2: Map<Slot, Slot>,
    inv: Map<Slot, Slot>,
    th1: Map<Slot, Slot>,
    th2: Map<Slot, Slot>,
    t1: Map<Slot, Slot>,
    t2: Map<Slot, Slot>,
)
    requires
        inverts(inv, m2),
        injective(m2),
        compose_partial_map(m1, t1) == compose_partial_map(m2, t2),
        values_of(m1).subset_of(t1.dom()),
        values_of(m2).subset_of(t2.dom()),
        values_of(m1).subset_of(th1.dom()),
        forall|y: Slot| #[trigger] inv.contains_key(y) && m1.contains_key(inv[y]) && th1.contains_key(m1[inv[y]]) ==> th2.contains_key(y)
            && th2[y] == th1[m1[inv[y]]],
    ensures
        compose_partial_map(m1, th1) == compose_partial_map(m2, th2),
{
    lemma_compose_dom(m1, t1);
    lemma_compose_dom(m2, t2);
    lemma_compose_dom(m1, th1);
    lemma_compose_dom(m2, th2);
    assert forall|k: Slot| m1.contains_key(k) <==> m2.contains_key(k) by {
        if m1.contains_key(k) {
            assert(values_of(m1).contains(m1[k]));
            assert(compose_partial_map(m1, t1).contains_key(k));
        }
        if m2.contains_key(k) {
            assert(values_of(m2).contains(m2[k]));
            assert(compose_partial_map(m2, t2).contains_key(k));
        }
    }
    assert forall|k: Slot| #[trigger] m1.contains_key(k) implies th1.contains_key(m1[k]) && th2.contains_key(m2[k])
        && th2[m2[k]] == th1[m1[k]] by {
        assert(values_of(m1).contains(m1[k]));
        let y = m2[k];
        assert(values_of(m2).contains(y));
        assert(inv.contains_key(y));
        assert(m2[inv[y]] == y);
        assert(inv[y] == k);
    }
    assert(compose_partial_map(m1, th1) =~= compose_partial_map(m2, th2));
}

/// Before the last widening, every shared key of the second renaming and the new part comes
/// from a slot that the first renaming already fixed.
proof fn lemma_widen3_pre(
    th1_0: Map<Slot, Slot>,
    th2_0: Map<Slot, Slot>,
    th1_1: Map<Slot, Slot>,
    th2_1: Map<Slot, Slot>,
    inv_a: Map<Slot, Slot>,
    inv_b: Map<Slot, Slot>,
    m1: Map<Slot, Slot>,
    m2: Map<Slot, Slot>,
)
    requires
        th1_1 == th1_0.union_prefer_right(compose_partial_map(compose_partial_map(inv_a, m2), th2_0)),
        th2_1 == th2_0.union_prefer_right(compose_partial_map(compose_partial_map(inv_b, m1), th1_1)),
        inverts(inv_a, m1),
        inverts(inv_b, m2),
        injective(m1),
    ensures
        forall|y: Slot| th2_1.contains_key(y) && #[trigger] inv_b.contains_key(y) && m1.contains_key(inv_b[y]) ==> th1_1.contains_key(m1[inv_b[y]]),
{
    let ia = compose_partial_map(inv_a, m2);
    let ib = compose_partial_map(inv_b, m1);
    lemma_compose_dom(inv_a, m2);
    lemma_compose_dom(ia, th2_0);
    lemma_compose_dom(inv_b, m1);
    lemma_compose_dom(ib, th1_1);
    assert forall|y: Slot| th2_1.contains_key(y) && #[trigger] inv_b.contains_key(y) && m1.contains_key(inv_b[y]) implies th1_1.contains_key(m1[inv_b[y]]) by {
        let k = inv_b[y];
        let x = m1[k];
        if !compose_partial_map(ib, th1_1).contains_key(y) {
            assert(th2_0.contains_key(y));
            assert(values_of(m1).contains(x));
            assert(inv_a.contains_key(x));
            assert(m1[inv_a[x]] == x);
            assert(inv_a[x] == k);
            assert(m2.contains_key(k) && m2[k] == y);
            assert(ia.contains_key(x));
            assert(compose_partial_map(ia, th2_0).contains_key(x));
        } else {
            assert(ib.contains_key(y) && ib[y] == x);
        }
    }
}

/// The end of the check on chained proofs: the renamed sides meet as they must.
proof fn lemma_ch_final(
    eq: Equation,
    e1: Equation,
    e2: Equation,
    t1: Map<Slot, Slot>,
    t2: Map<Slot, Slot>,
    th1_0: Map<Slot, Slot>,
    th1_1: Map<Slot, Slot>,
    th1_2: Map<Slot, Slot>,
    th2_0: Map<Slot, Slot>,
    th2_1: Map<Slot, Slot>,
    th2_2: Map<Slot, Slot>,
    th2_3: Map<Slot, Slot>,
    inv_c: Map<Slot, Slot>,
)
    requires
        full_chain(eq_view(eq), eq_view(e1), eq_view(e2), t1, t2),
        injective(e2.l.m@),
        inverts(inv_c, e2.l.m@),
        forall|v: Slot| #[trigger] values_of(e1.l.m@).contains(v) ==> th1_0.contains_key(v),
        forall|v: Slot| #[trigger] values_of(e2.r.m@).contains(v) ==> th2_0.contains_key(v),
        within_map(th1_1, t1),
        within_map(th2_1, t2),
        forall|v: Slot| #[trigger] th1_0.contains_key(v) ==> th1_1.contains_key(v),
        forall|v: Slot| #[trigger] th2_0.contains_key(v) ==> th2_1.contains_key(v),
        forall|v: Slot| #[trigger] th1_1.contains_key(v) ==> th1_2.contains_key(v) && th1_2[v] == th1_1[v],
        forall|v: Slot| values_of(e1.l.m@).contains(v) || values_of(e1.r.m@).contains(v) ==> #[trigger] th1_2.contains_key(v),
        forall|v: Slot| #[trigger] th2_1.contains_key(v) ==> th2_2.contains_key(v) && th2_2[v] == th2_1[v],
        forall|y: Slot| #[trigger] inv_c.contains_key(y) && e1.r.m@.contains_key(inv_c[y]) && th1_2.contains_key(e1.r.m@[inv_c[y]]) ==> th2_2.contains_key(y)
            && th2_2[y] == th1_2[e1.r.m@[inv_c[y]]],
        forall|v: Slot| #[trigger] th2_2.contains_key(v) ==> th2_3.contains_key(v) && th2_3[v] == th2_2[v],
    ensures
        compose_partial_map(e1.l.m@, th1_2) == eq.l.m@,
        compose_partial_map(e2.r.m@, th2_3) == eq.r.m@,
        compose_partial_map(e1.r.m@, th1_2) == compose_partial_map(e2.l.m@, th2_3),
        e1.l.id == eq.l.id,
        e2.r.id == eq.r.id,
        e1.r.id == e2.l.id,
{
    assert forall|v: Slot| #[trigger] values_of(e1.l.m@).contains(v) implies th1_2.contains_key(v) && t1.contains_key(v) && th1_2[v] == t1[v] by {
        assert(th1_0.contains_key(v));
        assert(th1_1.contains_key(v));
    }
    lemma_compose_agree(e1.l.m@, th1_2, t1);
    assert forall|v: Slot| #[trigger] values_of(e2.r.m@).contains(v) implies th2_3.contains_key(v) && t2.contains_key(v) && th2_3[v] == t2[v] by {
        assert(th2_0.contains_key(v));
        assert(th2_1.contains_key(v));
    }
    lemma_compose_agree(e2.r.m@, th2_3, t2);
    assert forall|y: Slot| #[trigger] inv_c.contains_key(y) && e1.r.m@.contains_key(inv_c[y]) && th1_2.contains_key(e1.r.m@[inv_c[y]]) implies th2_3.contains_key(y)
        && th2_3[y] == th1_2[e1.r.m@[inv_c[y]]] by {
        assert(th2_2.contains_key(y));
    }
    assert forall|v: Slot| values_of(e1.r.m@).contains(v) implies #[trigger] th1_2.dom().contains(v) by {
        assert(th1_2.contains_key(v));
    }
    lemma_middle(e1.r.m@, e2.l.m@, inv_c, th1_2, th2_3, t1, t2);
}

impl TransitivityProof {
    /// Checks that `eq` follows from the two sub-proofs: computes renamings of them that
    /// meet `eq` at its ends and each other in the middle, giving the slots that nothing
    /// fixes fresh names; records `eq` as proven where they do, and gives `None` where
    /// they do not. Where the sub-proofs line up end to end with `eq`, they do; and so they do
    /// wherever renamings defined on all the slots of the sub-proofs chain them into `eq`
    /// and the middle sides rename injectively.
    pub fn check(&self, eq: &Equation, tab: &mut SlotTable) -> (r: Option<ProvenEq>)
        requires
            eq.wf(),
            self.0.wf(),
            self.1.wf(),
            old(tab).wf(),
            old(tab).fresh_idx + 4 * (self.0.eq_spec().0.1.len() + self.0.eq_spec().1.1.len()
                + self.1.eq_spec().0.1.len() + self.1.eq_spec().1.1.len()) + 8 <= u64::MAX,
        ensures
            final(tab).wf(),
            r matches Some(p) ==> {
                &&& p.eq_spec() == eq_view(*eq)
                &&& p.wf()
                &&& p.proof_spec() matches Proof::Transitivity(TransitivityProof(x1, x2)) && x1 == self.0 && x2 == self.1
                &&& exists|t1: Map<Slot, Slot>, t2: Map<Slot, Slot>| #[trigger] chains(eq_view(*eq), self.0.eq_spec(), self.1.eq_spec(), t1, t2)
            },
            straight(eq_view(*eq), self.0.eq_spec(), self.1.eq_spec()) ==> r is Some,
            injective(self.0.eq_spec().1.1) && injective(self.1.eq_spec().0.1) && (exists|t1: Map<Slot, Slot>, t2: Map<Slot, Slot>|
                #[trigger] full_chain(eq_view(*eq), self.0.eq_spec(), self.1.eq_spec(), t1, t2)) ==> r is Some,
    {
        let ghost st = straight(eq_view(*eq), self.0.eq_spec(), self.1.eq_spec());
        let ghost ch = injective(self.0.eq_spec().1.1) && injective(self.1.eq_spec().0.1) && exists|t1: Map<Slot, Slot>, t2: Map<Slot, Slot>|
            #[trigger] full_chain(eq_view(*eq), self.0.eq_spec(), self.1.eq_spec(), t1, t2);
        let ghost (t1, t2) = choose|t1: Map<Slot, Slot>, t2: Map<Slot, Slot>|
            #[trigger] full_chain(eq_view(*eq), self.0.eq_spec(), self.1.eq_spec(), t1, t2);
        let e1 = self.0.equ();
        let e2 = self.1.equ();
        let i1 = invert(&e1.l.m);
        let mut theta1 = i1.compose_partial(&eq.l.m);
        let i2 = invert(&e2.r.m);
        let mut theta2 = i2.compose_partial(&eq.r.m);
        proof {
            if st {
                lemma_back_forth(i1@, e1.l.m@);
                lemma_back_forth(i2@, e2.r.m@);
                assert(eq.l.m@ == e1.l.m@);
                assert(eq.r.m@ == e2.r.m@);
            }
            if ch {
                lemma_start_within(i1@, e1.l.m@, t1, eq.l.m@);
                lemma_start_within(i2@, e2.r.m@, t2, eq.r.m@);
            }
        }
        let ghost th1_0 = theta1@;
        let ghost th2_0 = theta2@;
        let w1 = widen(&theta1, &e1.r.m, &e2.l.m, &theta2);
        let ghost inv_a = choose|inv: Map<Slot, Slot>| #[trigger] widened(th1_0, inv, e2.l.m@, th2_0, w1) && inverts(inv, e1.r.m@)
            && (injective(e1.r.m@) ==> inv == inverse_map(e1.r.m@));
        proof {
            if st {
                let inv = choose|inv: Map<Slot, Slot>| #[trigger] widened(theta1@, inv, e2.l.m@, theta2@, w1) && inverts(inv, e1.r.m@)
                    && (injective(e1.r.m@) ==> inv == inverse_map(e1.r.m@));
                assert(e1.r.m@ == e2.l.m@);
                lemma_widen_idy(theta1@, inv, e1.r.m@, theta2@);
            }
            if ch {
                let inv = choose|inv: Map<Slot, Slot>| #[trigger] widened(theta1@, inv, e2.l.m@, theta2@, w1) && inverts(inv, e1.r.m@)
                    && (injective(e1.r.m@) ==> inv == inverse_map(e1.r.m@));
                lemma_widen_within(theta1@, inv, e1.r.m@, e2.l.m@, theta2@, t1, t2);
            }
        }
        match w1 {
            Some(t) => {
                theta1 = t;
            },
            None => {
                return None;
            },
        }
        let ghost th1_1 = theta1@;
        let w2 = widen(&theta2, &e2.l.m, &e1.r.m, &theta1);
        let ghost inv_b = choose|inv: Map<Slot, Slot>| #[trigger] widened(th2_0, inv, e1.r.m@, th1_1, w2) && inverts(inv, e2.l.m@)
            && (injective(e2.l.m@) ==> inv == inverse_map(e2.l.m@));
        proof {
            if st {
                let inv = choose|inv: Map<Slot, Slot>| #[trigger] widened(theta2@, inv, e1.r.m@, theta1@, w2) && inverts(inv, e2.l.m@)
                    && (injective(e2.l.m@) ==> inv == inverse_map(e2.l.m@));
                lemma_widen_idy(theta2@, inv, e2.l.m@, theta1@);
            }
            if ch {
                lemma_widen_within(th2_0, inv_b, e2.l.m@, e1.r.m@, th1_1, t2, t1);
            }
        }
        match w2 {
            Some(t) => {
                theta2 = t;
            },
            None => {
                return None;
            },
        }
        let ghost th2_1 = theta2@;
        let s1 = e1.slots();
        let s2 = e2.slots();
        proof {
            e1.l.m.lemma_view();
            e1.r.m.lemma_view();
            e2.l.m.lemma_view();
            e2.r.m.lemma_view();
            crate::applied::lemma_values_len(e1.l.m@, e1.l.m@.dom().len());
            crate::applied::lemma_values_len(e1.r.m@, e1.r.m@.dom().len());
            crate::applied::lemma_values_len(e2.l.m@, e2.l.m@.dom().len());
            crate::applied::lemma_values_len(e2.r.m@, e2.r.m@.dom().len());
            vstd::set_lib::lemma_len_union(values_of(e1.l.m@), values_of(e1.r.m@));
            vstd::set_lib::lemma_len_union(values_of(e2.l.m@), values_of(e2.r.m@));
            s1.lemma_len();
            s2.lemma_len();
        }
        freshen(&mut theta1, &s1, tab);
        let ghost th1_2 = theta1@;
        let w3 = widen(&theta2, &e2.l.m, &e1.r.m, &theta1);
        let ghost inv_c = choose|inv: Map<Slot, Slot>| #[trigger] widened(th2_1, inv, e1.r.m@, th1_2, w3) && inverts(inv, e2.l.m@)
            && (injective(e2.l.m@) ==> inv == inverse_map(e2.l.m@));
        proof {
            if ch {
                lemma_widen3_pre(th1_0, th2_0, th1_1, th2_1, inv_a, inv_b, e1.r.m@, e2.l.m@);
                assert(inv_b == inv_c);
                lemma_widen_last_within(th2_1, inv_c, e2.l.m@, e1.r.m@, th1_2, th1_1, t1, t2);
            }
            if st {
                let inv = choose|inv: Map<Slot, Slot>| #[trigger] widened(theta2@, inv, e1.r.m@, theta1@, w3) && inverts(inv, e2.l.m@)
                    && (injective(e2.l.m@) ==> inv == inverse_map(e2.l.m@));
                assert(e1.r.m@ == e2.l.m@);
                assert forall|v: Slot| th2_1.contains_key(v) && values_of(e2.l.m@).contains(v) implies #[trigger] th1_2[v] == v by {
                    if th2_0.contains_key(v) {
                        assert(values_of(e2.r.m@).contains(v));
                        assert(th1_1.contains_key(v));
                    } else {
                        assert(th1_1.contains_key(v));
                    }
                }
                assert forall|v: Slot| values_of(e2.l.m@).contains(v) implies th1_2.contains_key(v) by {
                    assert(s1@.contains(v));
                }
                lemma_widen_last(theta2@, inv, e2.l.m@, theta1@);
            }
        }
        match w3 {
            Some(t) => {
                theta2 = t;
            },
            None => {
                return None;
            },
        }
        let ghost th2_2 = theta2@;
        freshen(&mut theta2, &s2, tab);
        let r1 = e1.apply_slotmap(&theta1);
        let r2 = e2.apply_slotmap(&theta2);
        proof {
            if st {
                assert forall|v: Slot| #[trigger] values_of(e1.l.m@).contains(v) implies th1_2.contains_key(v) && th1_2[v] == v by {
                    assert(th1_0.contains_key(v));
                }
                lemma_compose_fixed(e1.l.m@, th1_2);
                assert forall|v: Slot| #[trigger] values_of(e2.r.m@).contains(v) implies theta2@.contains_key(v) && theta2@[v] == v by {
                    assert(th2_0.contains_key(v));
                    assert(th2_1.contains_key(v));
                }
                lemma_compose_fixed(e2.r.m@, theta2@);
                assert forall|v: Slot| #[trigger] values_of(e1.r.m@).contains(v) implies th1_2.contains_key(v) && theta2@.contains_key(v) && th1_2[v] == theta2@[v] by {
                    assert(values_of(e2.l.m@).contains(v));
                    assert(s1@.contains(v));
                }
                lemma_compose_agree(e1.r.m@, th1_2, theta2@);
                assert(e1.r.m@ == e2.l.m@);
            }
            if ch {
                lemma_ch_final(*eq, e1, e2, t1, t2, th1_0, th1_1, th1_2, th2_0, th2_1, th2_2, theta2@, inv_c);
            }
        }
        if !(same_invocation(&r1.l, &eq.l) && same_invocation(&r2.r, &eq.r) && same_invocation(&r1.r, &r2.l)) {
            return None;
        }
        let p = Arc::new(ProvenEqRaw {
            eq: eq.clone(),
            proof: Proof::Transitivity(TransitivityProof(self.0.clone(), self.1.clone())),
        });
        assert(chains(eq_view(*eq), self.0.eq_spec(), self.1.eq_spec(), theta1@, theta2@));
        Some(p)
    }
}

/// The renaming that matches both sides of `a` with those of `b`, where the two matches
/// agree.
pub fn try_match_equation(a: &Equation, b: &Equation) -> (r: Option<SlotMap>)
    requires
        a.wf(),
        b.wf(),
    ensures
        injective(a.l.m@) && injective(a.r.m@) ==> (r is Some <==> eq_matches(eq_view(*a), eq_view(*b))),
{
    let theta_l = invert(&a.l.m).compose_partial(&b.l.m);
    let theta_r = invert(&a.r.m).compose_partial(&b.r.m);
    theta_l.try_union(&theta_r)
}

/// An invocation, given by its e-class, keys and values, as its e-class and map.
pub open spec fn app_map(a: AppView) -> (Id, Map<Slot, Slot>) {
    (a.0, Map::new(|k: Slot| a.1.contains(k), |k: Slot| a.2[a.1.index_of(k)]))
}

/// The e-node with every child invocation replaced by the placeholder.
pub open spec fn null_view_of(v: ENodeView) -> ENodeView {
    match v {
        ENodeView::Lam(s, _) => ENodeView::Lam(s, (Id(0), seq![], seq![])),
        ENodeView::App(_, _) => ENodeView::App((Id(0), seq![], seq![]), (Id(0), seq![], seq![])),
        ENodeView::Var(s) => ENodeView::Var(s),
    }
}

/// The child invocations of an e-node, in order.
pub open spec fn view_children(v: ENodeView) -> Seq<AppView> {
    match v {
        ENodeView::Lam(_, a) => seq![a],
        ENodeView::App(a, b) => seq![a, b],
        ENodeView::Var(_) => seq![],
    }
}

/// The child renamings of the normal forms of `l` and `r` are all injective.
pub open spec fn children_injective(l: ENode, r: ENode) -> bool {
    let la = with_all_slots(l, alpha_slots(l));
    let ra = with_all_slots(r, alpha_slots(r));
    &&& forall|i: int| 0 <= i < view_children(la).len() ==> injective(#[trigger] app_map(view_children(la)[i]).1)
    &&& forall|i: int| 0 <= i < view_children(ra).len() ==> injective(#[trigger] app_map(view_children(ra)[i]).1)
}

/// `l` and `r` agree up to the names of their bound slots and their children, and the child
/// proofs match their children, one by one.
pub open spec fn congruent(l: ENode, r: ENode, ps: Seq<ProvenEq>) -> bool {
    let la = with_all_slots(l, alpha_slots(l));
    let ra = with_all_slots(r, alpha_slots(r));
    &&& null_view_of(la) == null_view_of(ra)
    &&& view_children(la).len() == ps.len()
    &&& view_children(ra).len() == ps.len()
    &&& forall|i: int| 0 <= i < ps.len() ==> #[trigger] eq_matches(
        (app_map(view_children(la)[i]), app_map(view_children(ra)[i])),
        ps[i].eq_spec(),
    )
}

pub proof fn lemma_children_views(n: ENode)
    requires
        n.wf(),
    ensures
        view_children(n@) == crate::lang::app_views(app_ids_spec(n)),
        forall|i: int| 0 <= i < app_ids_spec(n).len() ==> #[trigger] app_map(view_children(n@)[i]) == (app_ids_spec(n)[i].id, app_ids_spec(n)[i].m@),
{
    assert(view_children(n@) =~= crate::lang::app_views(app_ids_spec(n)));
    assert forall|i: int| 0 <= i < app_ids_spec(n).len() implies #[trigger] app_map(view_children(n@)[i]) == (app_ids_spec(n)[i].id, app_ids_spec(n)[i].m@) by {
        let a = app_ids_spec(n)[i];
        assert(view_children(n@)[i] == app_view(a));
        assert(app_map(app_view(a)).1 =~= a.m@);
    }
}

impl CongruenceProof {
    /// Checks that `eq` follows by congruence: the e-nodes `l` and `r` that its sides stand
    /// for agree up to the names of their bound slots and their children, and each child
    /// proof matches the corresponding children; records `eq` as proven where they do, and
    /// gives `None` where they do not.
    pub fn check(&self, eq: &Equation, l: &ENode, r: &ENode) -> (res: Option<ProvenEq>)
        requires
            eq.wf(),
            l.wf(),
            r.wf(),
            all_slots_spec(*l).len() < u32::MAX,
            all_slots_spec(*r).len() < u32::MAX,
            forall|i: int| 0 <= i < self.0@.len() ==> #[trigger] self.0@[i].wf(),
        ensures
            res matches Some(p) ==> {
                &&& p.eq_spec() == eq_view(*eq)
                &&& p.wf()
                &&& p.proof_spec() matches Proof::Congruence(c) && c.0@ == self.0@
            },
            children_injective(*l, *r) ==> (res is Some <==> congruent(*l, *r, self.0@)),
    {
        let ln = alpha_normalize(l);
        let rn = alpha_normalize(r);
        let ghost la = with_all_slots(*l, alpha_slots(*l));
        let ghost ra = with_all_slots(*r, alpha_slots(*r));
        let null_l = ln.nullify_app_ids();
        let null_r = rn.nullify_app_ids();
        proof {
            if app_ids_spec(null_l).len() > 0 {
                assert(app_view(app_ids_spec(null_l)[0]) == (Id(0), Seq::<Slot>::empty(), Seq::<Slot>::empty()));
            }
            if app_ids_spec(null_l).len() > 1 {
                assert(app_view(app_ids_spec(null_l)[1]) == (Id(0), Seq::<Slot>::empty(), Seq::<Slot>::empty()));
            }
            if app_ids_spec(null_r).len() > 0 {
                assert(app_view(app_ids_spec(null_r)[0]) == (Id(0), Seq::<Slot>::empty(), Seq::<Slot>::empty()));
            }
            if app_ids_spec(null_r).len() > 1 {
                assert(app_view(app_ids_spec(null_r)[1]) == (Id(0), Seq::<Slot>::empty(), Seq::<Slot>::empty()));
            }
            assert(null_view_of(ln@) == null_l@);
            assert(null_view_of(rn@) == null_r@);
            lemma_children_views(ln);
            lemma_children_views(rn);
        }
        if !enode_eq(&null_l, &null_r) {
            return None;
        }
        let l_v = ln.applied_id_occurrences();
        let r_v = rn.applied_id_occurrences();
        let n = self.0.len();
        proof {
            assert(l_v@.len() == crate::lang::app_views(l_v@).len());
            assert(r_v@.len() == crate::lang::app_views(r_v@).len());
        }
        if l_v.len() != n || r_v.len() != n {
            return None;
        }
        let mut i: usize = 0;
        while i < n
            invariant
                0 <= i <= n,
                n == self.0@.len(),
                la == with_all_slots(*l, alpha_slots(*l)),
                ra == with_all_slots(*r, alpha_slots(*r)),
                l_v@.len() == n,
                r_v@.len() == n,
                crate::lang::app_views(l_v@) == view_children(la),
                crate::lang::app_views(r_v@) == view_children(ra),
                forall|k: int| 0 <= k < l_v@.len() ==> #[trigger] l_v@[k].wf(),
                forall|k: int| 0 <= k < r_v@.len() ==> #[trigger] r_v@[k].wf(),
                forall|k: int| 0 <= k < self.0@.len() ==> #[trigger] self.0@[k].wf(),
                forall|k: int| 0 <= k < i ==> (injective(app_map(view_children(la)[k]).1) && injective(app_map(view_children(ra)[k]).1) ==> #[trigger] eq_matches(
                    (app_map(view_children(la)[k]), app_map(view_children(ra)[k])),
                    self.0@[k].eq_spec(),
                )),
            decreases n - i,
        {
            assert(l_v@[i as int].wf() && r_v@[i as int].wf());
            let e1 = Equation { l: l_v[i].clone(), r: r_v[i].clone() };
            let e2 = self.0[i].equ();
            proof {
                assert(crate::lang::app_views(l_v@)[i as int] == app_view(l_v@[i as int]));
                assert(crate::lang::app_views(r_v@)[i as int] == app_view(r_v@[i as int]));
                assert(app_map(view_children(la)[i as int]).1 =~= e1.l.m@);
                assert(app_map(view_children(ra)[i as int]).1 =~= e1.r.m@);
                assert(self.0@[i as int].wf());
            }
            if try_match_equation(&e1, &e2).is_none() {
                proof {
                    if children_injective(*l, *r) {
                        assert(0 <= i < view_children(la).len());
                        assert(0 <= i < view_children(ra).len());
                        assert(injective(app_map(view_children(la)[i as int]).1));
                        assert(injective(app_map(view_children(ra)[i as int]).1));
                        assert(!eq_matches(
                            (app_map(view_children(la)[i as int]), app_map(view_children(ra)[i as int])),
                            self.0@[i as int].eq_spec(),
                        ));
                    }
                }
                return None;
            }
            i = i + 1;
        }
        Some(Arc::new(ProvenEqRaw { eq: eq.clone(), proof: Proof::Congruence(CongruenceProof(copy_proofs(&self.0))) }))
    }
}

/// Copies a list of proofs; the copies share what they point to.
pub fn copy_proofs(v: &Vec<ProvenEq>) -> (r: Vec<ProvenEq>)
    ensures
        r@ == v@,
{
    let mut out: Vec<ProvenEq> = Vec::new();
    let mut i: usize = 0;
    while i < v.len()
        invariant
            0 <= i <= v@.len(),
            out@ == v@.subrange(0, i as int),
        decreases v@.len() - i,
    {
        out.push(v[i].clone());
        assert(out@ =~= v@.subrange(0, i + 1));
        i = i + 1;
    }
    assert(v@.subrange(0, v@.len() as int) =~= v@);
    out
}

/// The text of a justification, where there is one.
pub open spec fn jus_view(j: Option<String>) -> Option<Seq<char>> {
    match j {
        Some(s) => Some(s@),
        None => None,
    }
}

/// A rewrite of a flattened explanation: the position of the rewritten subterm, the
/// justification, and whether it is used from right to left.
pub type Rewrite = (Seq<u8>, Option<Seq<char>>, bool);

impl ProvenEqRaw {
    /// Every equation of the proof tree is well formed.
    pub closed spec fn tree_wf(&self) -> bool
        decreases self,
    {
        &&& self.wf()
        &&& match self.proof {
            Proof::Symmetry(SymmetryProof(e)) => e.tree_wf(),
            Proof::Transitivity(TransitivityProof(a, b)) => a.tree_wf() && b.tree_wf(),
            Proof::Congruence(CongruenceProof(es)) => forall|i: int|
                #![trigger es@[i]]
                0 <= i < es@.len() ==> es@[i].tree_wf(),
            _ => true,
        }
    }

    /// The proof is made of reflexivity, symmetry, transitivity and congruence (of at most 256
    /// parts, each within a child of `t`) alone, and each of its parts, read in its direction,
    /// starts from a side whose class has a syntactic term, every one of which is alike the
    /// subterm of `t` where that part applies.
    #[verifier::opaque]
    pub closed spec fn plain_from(&self, graph: SynClasses, symm: bool, t: crate::expr::RecExpr) -> bool
        decreases self,
    {
        &&& crate::flat::side_of(eq_view(self.eq), !symm).0.0 < graph.syn_enode@.len()
        &&& forall|e: crate::expr::RecExpr|
            crate::flat::is_syn_expr(graph.syn_enode@, crate::flat::side_of(eq_view(self.eq), !symm), e)
                ==> #[trigger] crate::steps::alike(t, e)
        &&& match self.proof {
            Proof::Reflexivity(_) => true,
            Proof::Symmetry(SymmetryProof(e)) => e.plain_from(graph, !symm, t),
            Proof::Transitivity(TransitivityProof(a, b)) => a.plain_from(graph, symm, t) && b.plain_from(graph, symm, t),
            Proof::Congruence(CongruenceProof(es)) => {
                &&& es@.len() <= 256
                &&& es@.len() <= t.children@.len()
                &&& forall|i: int| #![trigger es@[i]] 0 <= i < es@.len() ==> es@[i].plain_from(graph, symm, t.children@[i])
            },
            _ => false,
        }
    }

    /// Every canonical term of the side that the proof starts from, read in its direction,
    /// is the term `t`.
    pub closed spec fn starts_at(&self, graph: SynClasses, symm: bool, t: crate::expr::RecExpr) -> bool {
        &&& crate::flat::side_of(eq_view(self.eq), !symm).0.0 < graph.syn_enode@.len()
        &&& forall|e: crate::expr::RecExpr|
            crate::flat::is_syn_expr(graph.syn_enode@, crate::flat::side_of(eq_view(self.eq), !symm), e)
                ==> #[trigger] crate::expr::same_term(e, t)
    }

    /// The term at which the proof, read in its direction from the term `t`, ends: an explicit
    /// step ends at the canonical term of its destination side.
    pub closed spec fn end_of(&self, graph: SynClasses, symm: bool, t: crate::expr::RecExpr) -> crate::expr::RecExpr
        decreases self,
    {
        match self.proof {
            Proof::Explicit(_) => choose|d: crate::expr::RecExpr|
                crate::flat::is_syn_expr(graph.syn_enode@, crate::flat::side_of(eq_view(self.eq), symm), d),
            Proof::Symmetry(SymmetryProof(e)) => e.end_of(graph, !symm, t),
            Proof::Transitivity(TransitivityProof(a, b)) => if symm {
                a.end_of(graph, symm, b.end_of(graph, symm, t))
            } else {
                b.end_of(graph, symm, a.end_of(graph, symm, t))
            },
            _ => t,
        }
    }

    /// The proof is made of reflexivity, symmetry, transitivity and justified explicit steps,
    /// and each part, read in its direction, starts from the canonical term of its source
    /// side, which is where the part before it ended (the term `t` for the first).
    #[verifier::opaque]
    pub closed spec fn flows(&self, graph: SynClasses, symm: bool, t: crate::expr::RecExpr) -> bool
        decreases self,
    {
        &&& self.starts_at(graph, symm, t)
        &&& match self.proof {
            Proof::Reflexivity(_) => true,
            Proof::Explicit(ExplicitProof(j)) => j is Some && crate::flat::side_of(eq_view(self.eq), symm).0.0
                < graph.syn_enode@.len(),
            Proof::Symmetry(SymmetryProof(e)) => e.flows(graph, !symm, t),
            Proof::Transitivity(TransitivityProof(a, b)) => if symm {
                b.flows(graph, symm, t) && a.flows(graph, symm, b.end_of(graph, symm, t))
            } else {
                a.flows(graph, symm, t) && b.flows(graph, symm, a.end_of(graph, symm, t))
            },
            _ => false,
        }
    }

    /// Flowing from a term carries over to the same term, and ends at the same term.
    pub proof fn lemma_flows_same(&self, graph: SynClasses, symm: bool, t: crate::expr::RecExpr, t2: crate::expr::RecExpr)
        requires
            self.flows(graph, symm, t),
            crate::expr::same_term(t2, t),
        ensures
            self.flows(graph, symm, t2),
            crate::expr::same_term(self.end_of(graph, symm, t2), self.end_of(graph, symm, t)),
        decreases self,
    {
        reveal(ProvenEqRaw::flows);
        crate::steps::lemma_same_term_symm(t2, t);
        assert forall|e: crate::expr::RecExpr|
            crate::flat::is_syn_expr(graph.syn_enode@, crate::flat::side_of(eq_view(self.eq), !symm), e) implies #[trigger] crate::expr::same_term(e, t2) by {
            assert(crate::expr::same_term(e, t));
            crate::steps::lemma_same_term_trans(e, t, t2);
        }
        match &self.proof {
            Proof::Symmetry(SymmetryProof(e)) => {
                e.lemma_flows_same(graph, !symm, t, t2);
            },
            Proof::Transitivity(TransitivityProof(a, b)) => {
                if symm {
                    b.lemma_flows_same(graph, symm, t, t2);
                    a.lemma_flows_same(graph, symm, b.end_of(graph, symm, t), b.end_of(graph, symm, t2));
                } else {
                    a.lemma_flows_same(graph, symm, t, t2);
                    b.lemma_flows_same(graph, symm, a.end_of(graph, symm, t), a.end_of(graph, symm, t2));
                }
            },
            Proof::Explicit(_) => {
                crate::expr::lemma_same_term_refl(self.end_of(graph, symm, t));
            },
            _ => {},
        }
    }

    /// Being plain from a term carries over to the same term.
    pub proof fn lemma_plain_same(&self, graph: SynClasses, symm: bool, t: crate::expr::RecExpr, t2: crate::expr::RecExpr)
        requires
            self.plain_from(graph, symm, t),
            crate::expr::same_term(t2, t),
        ensures
            self.plain_from(graph, symm, t2),
        decreases self,
    {
        reveal(ProvenEqRaw::plain_from);
        assert forall|e: crate::expr::RecExpr|
            crate::flat::is_syn_expr(graph.syn_enode@, crate::flat::side_of(eq_view(self.eq), !symm), e) implies #[trigger] crate::steps::alike(t2, e) by {
            assert(crate::steps::alike(t, e));
            crate::steps::lemma_same_alike(t2, t, e);
        }
        match &self.proof {
            Proof::Symmetry(SymmetryProof(e)) => {
                e.lemma_plain_same(graph, !symm, t, t2);
            },
            Proof::Transitivity(TransitivityProof(a, b)) => {
                a.lemma_plain_same(graph, symm, t, t2);
                b.lemma_plain_same(graph, symm, t, t2);
            },
            Proof::Congruence(CongruenceProof(es)) => {
                assert forall|i: int| #![trigger es@[i]] 0 <= i < es@.len() implies es@[i].plain_from(graph, symm, t2.children@[i]) by {
                    assert(crate::expr::same_term(t2.children@[i], t.children@[i]));
                    es@[i].lemma_plain_same(graph, symm, t.children@[i], t2.children@[i]);
                }
            },
            _ => {},
        }
    }

    /// A part of a plain congruence is plain from the child of the head where it applies.
    proof fn lemma_plain_part(
        &self,
        graph: SynClasses,
        symm: bool,
        es: Vec<ProvenEq>,
        h0: crate::expr::RecExpr,
        hm: crate::expr::RecExpr,
        pos: Seq<u8>,
        i: int,
    )
        requires
            self.proof == Proof::Congruence(CongruenceProof(es)),
            crate::steps::path_ok(h0, pos),
            self.plain_from(graph, symm, crate::steps::subexpr_spec(h0, pos)),
            crate::expr::same_term(hm, h0),
            0 <= i < es@.len(),
        ensures
            es@.len() <= 256,
            crate::steps::path_ok(hm, pos.push(i as u8)),
            es@[i].plain_from(graph, symm, crate::steps::subexpr_spec(hm, pos.push(i as u8))),
    {
        reveal(ProvenEqRaw::plain_from);
        let t = crate::steps::subexpr_spec(h0, pos);
        crate::steps::lemma_same_subexpr(hm, h0, pos);
        let t2 = crate::steps::subexpr_spec(hm, pos);
        assert(es@[i].plain_from(graph, symm, t.children@[i]));
        assert(crate::expr::same_term(t2.children@[i], t.children@[i]));
        es@[i].lemma_plain_same(graph, symm, t.children@[i], t2.children@[i]);
        assert((i as u8) as int == i);
        crate::steps::lemma_subexpr_push(hm, pos, i as u8);
    }

    /// The root of a well-formed proof tree is well formed.
    pub proof fn lemma_tree_wf(&self)
        requires
            self.tree_wf(),
        ensures
            self.wf(),
    {
    }

    /// The explicit steps of the proof, in the order in which the explanation takes them:
    /// a symmetry turns the direction around, a transitivity read backwards takes its second
    /// part first, and the `i`-th part of a congruence rewrites inside the `i`-th child.
    pub closed spec fn rewrites(&self, pos: Seq<u8>, symm: bool) -> Seq<Rewrite>
        decreases self, 1nat, 0int,
    {
        match self.proof {
            Proof::Explicit(ExplicitProof(j)) => seq![(pos, jus_view(j), symm)],
            Proof::Reflexivity(_) => seq![],
            Proof::Symmetry(SymmetryProof(e)) => e.rewrites(pos, !symm),
            Proof::Transitivity(TransitivityProof(a, b)) => if symm {
                b.rewrites(pos, symm) + a.rewrites(pos, symm)
            } else {
                a.rewrites(pos, symm) + b.rewrites(pos, symm)
            },
            Proof::Congruence(CongruenceProof(es)) => self.cong_rewrites(es@.len() as int, pos, symm),
        }
    }

    /// The explicit steps of the first `k` parts of a congruence, one part after the other.
    pub closed spec fn cong_rewrites(&self, k: int, pos: Seq<u8>, symm: bool) -> Seq<Rewrite>
        decreases self, 0nat, k,
    {
        match self.proof {
            Proof::Congruence(CongruenceProof(es)) => if k <= 0 || k > es@.len() {
                seq![]
            } else {
                self.cong_rewrites(k - 1, pos, symm) + es@[k - 1].rewrites(pos.push((k - 1) as u8), symm)
            },
            _ => seq![],
        }
    }
}

/// The steps take the rewrites `rw`, one by one: at the same position, by the same
/// justification, in the same direction.
pub open spec fn takes(steps: Seq<Step>, rw: Seq<Rewrite>) -> bool {
    &&& steps.len() == rw.len()
    &&& forall|i: int| 0 <= i < steps.len() ==> {
        &&& (#[trigger] steps[i]).rw_pos@ == rw[i].0
        &&& rw[i].1 == Some(steps[i].jus@)
        &&& steps[i].back == rw[i].2
    }
}

proof fn lemma_takes_concat(a: Seq<Step>, ra: Seq<Rewrite>, b: Seq<Step>, rb: Seq<Rewrite>)
    requires
        takes(a, ra),
        takes(b, rb),
    ensures
        takes(a + b, ra + rb),
{
    assert forall|i: int| 0 <= i < (a + b).len() implies {
        &&& (#[trigger] (a + b)[i]).rw_pos@ == (ra + rb)[i].0
        &&& (ra + rb)[i].1 == Some((a + b)[i].jus@)
        &&& (a + b)[i].back == (ra + rb)[i].2
    } by {
        if i >= a.len() {
            assert(b[i - a.len()] == (a + b)[i]);
        } else {
            assert(a[i] == (a + b)[i]);
        }
    }
}

/// A proof that starts at `t` finds the head there alike its source term, and records no
/// renaming for it.
proof fn lemma_flow_start(
    graph: SynClasses,
    eq: &ProvenEqRaw,
    symm: bool,
    t: crate::expr::RecExpr,
    subsrc: crate::expr::RecExpr,
    m: Map<Slot, Slot>,
)
    requires
        eq.starts_at(graph, symm, t),
        crate::flat::is_syn_expr(graph.syn_enode@, crate::flat::side_of(eq.eq_spec(), !symm), subsrc),
    ensures
        crate::steps::alike(t, subsrc),
        crate::steps::slot_renaming(m, t, subsrc) == m,
{
    crate::flat::lemma_syn_alike(graph.syn_enode@, crate::flat::side_of(eq.eq_spec(), !symm), subsrc, subsrc);
    assert(crate::expr::same_term(subsrc, t));
    crate::steps::lemma_same_term_symm(subsrc, t);
    crate::steps::lemma_same_alike(t, subsrc, subsrc);
    crate::steps::lemma_renaming_same(m, t, subsrc);
}

/// An explicit step taken with no renaming puts the canonical term of its destination side
/// where it applies.
proof fn lemma_flow_explicit(
    graph: SynClasses,
    eq: &ProvenEqRaw,
    symm: bool,
    t: crate::expr::RecExpr,
    d0: crate::expr::RecExpr,
    x: crate::expr::RecExpr,
    dst: crate::expr::RecExpr,
    h0: crate::expr::RecExpr,
    pos: Seq<u8>,
)
    requires
        eq.proof is Explicit,
        crate::flat::is_syn_expr(graph.syn_enode@, crate::flat::side_of(eq.eq_spec(), symm), d0),
        crate::steps::slots_mapped(x, d0, Map::<Slot, Slot>::empty()),
        crate::steps::replaced(dst, h0, pos, x),
        crate::steps::path_ok(h0, pos),
    ensures
        crate::steps::path_ok(dst, pos),
        crate::expr::same_term(crate::steps::subexpr_spec(dst, pos), eq.end_of(graph, symm, t)),
{
    let d = eq.end_of(graph, symm, t);
    assert(crate::flat::is_syn_expr(graph.syn_enode@, crate::flat::side_of(eq.eq_spec(), symm), d));
    crate::flat::lemma_syn_same(graph.syn_enode@, crate::flat::side_of(eq.eq_spec(), symm), d0, d);
    crate::steps::lemma_mapped_empty(x, d0);
    crate::steps::lemma_replaced_sub(dst, h0, pos, x);
    crate::steps::lemma_same_term_trans(crate::steps::subexpr_spec(dst, pos), x, d0);
    crate::steps::lemma_same_term_trans(crate::steps::subexpr_spec(dst, pos), d0, d);
}

/// A part of a well-formed congruence is well formed and smaller than the proof.
proof fn lemma_cong_child(eq: &ProvenEqRaw, es: Vec<ProvenEq>, i: int)
    requires
        eq.tree_wf(),
        eq.proof == Proof::Congruence(CongruenceProof(es)),
        0 <= i < es@.len(),
    ensures
        es@[i].tree_wf(),
        decreases_to!(*eq => es@[i]),
{
    let p = eq.proof;
    match p {
        Proof::Congruence(CongruenceProof(xs)) => {
            assert(xs == es);
            assert(xs@[i].tree_wf());
        },
        _ => {},
    }
    assert(es@[i].tree_wf());
    assert(decreases_to!(*eq => p));
    assert(decreases_to!(p => es));
    assert(decreases_to!(es => es@));
    assert(decreases_to!(es@ => es@[i]));
}

impl ProvenEqRaw {
    /// The steps of the flattened explanation of `eq`, found at the position `pos` of the
    /// head term of `ctx` and read from right to left where `symm`; the head moves along with
    /// each step.
    ///
    /// `None` where the explanation cannot be flattened: a side whose class has no syntactic
    /// e-node, a position that the head does not have, a head that does not match the source
    /// side, a renaming of slots that runs in a circle, an explicit step without a
    /// justification, or a congruence of more than 256 parts.
    #[verifier::spinoff_prover]
    #[verifier::rlimit(40)]
    pub fn to_steps(
        graph: &SynClasses,
        eq: &ProvenEqRaw,
        pos: Vec<u8>,
        symm: bool,
        ctx: &mut FlatteningContext,
    ) -> (r: Option<Vec<Step>>)
        requires
            graph.wf(),
            eq.tree_wf(),
            old(ctx).slot_map.wf(),
        ensures
            final(ctx).slot_map.wf(),
            r matches Some(steps) ==> {
                &&& takes(steps@, eq.rewrites(pos@, symm))
                &&& chained(old(ctx).head, steps@, final(ctx).head)
            },
            eq.proof_spec() is Reflexivity && crate::flat::side_of(eq.eq_spec(), !symm).0.0 < graph.syn_enode@.len()
                && crate::steps::path_ok(old(ctx).head, pos@) && (forall|e: crate::expr::RecExpr|
                crate::flat::is_syn_expr(graph.syn_enode@, crate::flat::side_of(eq.eq_spec(), !symm), e)
                    ==> #[trigger] crate::steps::alike(crate::steps::subexpr_spec(old(ctx).head, pos@), e)) ==> (r matches Some(
                steps,
            ) && steps@.len() == 0),
            eq.proof_spec() matches Proof::Explicit(ExplicitProof(j)) && j is Some && crate::flat::side_of(eq.eq_spec(), !symm).0.0
                < graph.syn_enode@.len() && crate::flat::side_of(eq.eq_spec(), symm).0.0 < graph.syn_enode@.len()
                && crate::steps::path_ok(old(ctx).head, pos@) && (forall|e: crate::expr::RecExpr|
                crate::flat::is_syn_expr(graph.syn_enode@, crate::flat::side_of(eq.eq_spec(), !symm), e)
                    ==> #[trigger] crate::steps::alike(crate::steps::subexpr_spec(old(ctx).head, pos@), e) && (forall|d: crate::expr::RecExpr|
                    crate::flat::is_syn_expr(graph.syn_enode@, crate::flat::side_of(eq.eq_spec(), symm), d)
                        ==> #[trigger] crate::steps::settled_term(
                        crate::steps::slot_renaming(old(ctx).slot_map@, crate::steps::subexpr_spec(old(ctx).head, pos@), e),
                        d,
                    ))) ==> (r matches Some(steps) && steps@.len() == 1),
            crate::steps::path_ok(old(ctx).head, pos@) && eq.plain_from(*graph, symm, crate::steps::subexpr_spec(old(ctx).head, pos@))
                ==> (r matches Some(steps) && steps@.len() == 0 && crate::expr::same_term(final(ctx).head, old(ctx).head)),
            crate::steps::path_ok(old(ctx).head, pos@) && old(ctx).slot_map@ == Map::<Slot, Slot>::empty() && eq.flows(
                *graph,
                symm,
                crate::steps::subexpr_spec(old(ctx).head, pos@),
            ) ==> {
                &&& r is Some
                &&& final(ctx).slot_map@ == Map::<Slot, Slot>::empty()
                &&& crate::steps::path_ok(final(ctx).head, pos@)
                &&& crate::expr::same_term(
                    crate::steps::subexpr_spec(final(ctx).head, pos@),
                    eq.end_of(*graph, symm, crate::steps::subexpr_spec(old(ctx).head, pos@)),
                )
            },
        decreases eq,
    {
        proof {
            reveal(ProvenEqRaw::plain_from);
            reveal(ProvenEqRaw::flows);
        }
        let ghost t0 = crate::steps::subexpr_spec(ctx.head, pos@);
        let subsrc = match eq.side(true, symm, graph) {
            Some(e) => e,
            None => {
                return None;
            },
        };
        if !check_path(&ctx.head, &pos) {
            return None;
        }
        proof {
            if eq.starts_at(*graph, symm, t0) {
                lemma_flow_start(*graph, eq, symm, t0, subsrc, ctx.slot_map@);
            }
        }
        if !check_alike(ctx.head.subexpr(&pos), &subsrc) {
            return None;
        }
        ctx.update_slot_map(&subsrc, &pos);
        let ghost h0 = ctx.head;
        let how = &eq.proof;
        match how {
            Proof::Reflexivity(_) => {
                let out: Vec<Step> = Vec::new();
                proof {
                    crate::expr::lemma_same_term_refl(h0);
                    crate::expr::lemma_same_term_refl(t0);
                    assert(takes(out@, eq.rewrites(pos@, symm)));
                }
                Some(out)
            },
            Proof::Symmetry(SymmetryProof(e)) => {
                Self::to_steps(graph, e, pos, !symm, ctx)
            },
            Proof::Transitivity(TransitivityProof(e1, e2)) => {
                let (a, b) = if symm {
                    (e2, e1)
                } else {
                    (e1, e2)
                };
                let mut s1 = match Self::to_steps(graph, a, pos.clone(), symm, ctx) {
                    Some(s) => s,
                    None => {
                        return None;
                    },
                };
                let ghost hm = ctx.head;
                let ghost v1 = s1@;
                proof {
                    if crate::steps::path_ok(h0, pos@) && eq.plain_from(*graph, symm, crate::steps::subexpr_spec(h0, pos@)) {
                        crate::steps::lemma_same_subexpr(hm, h0, pos@);
                        b.lemma_plain_same(*graph, symm, crate::steps::subexpr_spec(h0, pos@), crate::steps::subexpr_spec(hm, pos@));
                    }
                    if crate::steps::path_ok(h0, pos@) && old(ctx).slot_map@ == Map::<Slot, Slot>::empty() && eq.flows(*graph, symm, t0) {
                        b.lemma_flows_same(*graph, symm, a.end_of(*graph, symm, t0), crate::steps::subexpr_spec(hm, pos@));
                    }
                }
                let mut s2 = match Self::to_steps(graph, b, pos, symm, ctx) {
                    Some(s) => s,
                    None => {
                        return None;
                    },
                };
                let ghost v2 = s2@;
                s1.append(&mut s2);
                proof {
                    assert(s1@ =~= v1 + v2);
                    lemma_chained_concat(h0, v1, hm, v2, ctx.head);
                    lemma_takes_concat(v1, a.rewrites(pos@, symm), v2, b.rewrites(pos@, symm));
                    if crate::steps::path_ok(h0, pos@) && eq.plain_from(*graph, symm, crate::steps::subexpr_spec(h0, pos@)) {
                        crate::steps::lemma_same_term_trans(ctx.head, hm, h0);
                    }
                    if crate::steps::path_ok(h0, pos@) && old(ctx).slot_map@ == Map::<Slot, Slot>::empty() && eq.flows(*graph, symm, t0) {
                        crate::steps::lemma_same_term_trans(
                            crate::steps::subexpr_spec(ctx.head, pos@),
                            b.end_of(*graph, symm, crate::steps::subexpr_spec(hm, pos@)),
                            b.end_of(*graph, symm, a.end_of(*graph, symm, t0)),
                        );
                    }
                }
                Some(s1)
            },
            Proof::Congruence(CongruenceProof(es)) => {
                let mut result: Vec<Step> = Vec::new();
                let mut idx: usize = 0;
                proof {
                    crate::expr::lemma_same_term_refl(h0);
                }
                while idx < es.len()
                    invariant
                        graph.wf(),
                        eq.tree_wf(),
                        eq.proof == Proof::Congruence(CongruenceProof(*es)),
                        0 <= idx <= es@.len(),
                        ctx.slot_map.wf(),
                        takes(result@, eq.cong_rewrites(idx as int, pos@, symm)),
                        chained(h0, result@, ctx.head),
                        crate::steps::path_ok(old(ctx).head, pos@) && eq.plain_from(*graph, symm, crate::steps::subexpr_spec(old(ctx).head, pos@))
                            ==> result@.len() == 0 && es@.len() <= 256 && crate::expr::same_term(ctx.head, old(ctx).head),
                        !eq.flows(*graph, symm, crate::steps::subexpr_spec(old(ctx).head, pos@)),
                    decreases es@.len() - idx,
                {
                    if idx >= 256 {
                        return None;
                    }
                    let mut subpos = pos.clone();
                    subpos.push(idx as u8);
                    let ghost hm = ctx.head;
                    let ghost v1 = result@;
                    proof {
                        lemma_cong_child(eq, *es, idx as int);
                    }
                    proof {
                        if crate::steps::path_ok(old(ctx).head, pos@) && eq.plain_from(*graph, symm, crate::steps::subexpr_spec(old(ctx).head, pos@)) {
                            eq.lemma_plain_part(*graph, symm, *es, old(ctx).head, hm, pos@, idx as int);
                            assert(subpos@ =~= pos@.push(idx as u8));
                        }
                    }
                    let mut more = match Self::to_steps(graph, &es[idx], subpos, symm, ctx) {
                        Some(s) => s,
                        None => {
                            return None;
                        },
                    };
                    let ghost v2 = more@;
                    result.append(&mut more);
                    proof {
                        assert(result@ =~= v1 + v2);
                        lemma_chained_concat(h0, v1, hm, v2, ctx.head);
                        assert(subpos@ =~= pos@.push(idx as u8));
                        lemma_takes_concat(v1, eq.cong_rewrites(idx as int, pos@, symm), v2, es@[idx as int].rewrites(subpos@, symm));
                        if crate::steps::path_ok(old(ctx).head, pos@) && eq.plain_from(*graph, symm, crate::steps::subexpr_spec(old(ctx).head, pos@)) {
                            crate::steps::lemma_same_term_trans(ctx.head, hm, old(ctx).head);
                        }
                    }
                    idx = idx + 1;
                }
                Some(result)
            },
            Proof::Explicit(ExplicitProof(jus)) => {
                let j = match jus {
                    Some(j) => j.clone(),
                    None => {
                        return None;
                    },
                };
                let mut subdst = match eq.side(false, symm, graph) {
                    Some(e) => e,
                    None => {
                        return None;
                    },
                };
                proof {
                    lemma_syn_nodes_wf(graph.syn_enode@, crate::flat::side_of(eq.eq_spec(), false != symm), subdst);
                }
                proof {
                    if ctx.slot_map@ == Map::<Slot, Slot>::empty() {
                        crate::steps::lemma_settled_empty(subdst);
                    }
                }
                if !check_settled(&ctx.slot_map, &subdst) {
                    return None;
                }
                let ghost d0 = subdst;
                subdst.apply_slot_map(&ctx.slot_map);
                let ghost x = subdst;
                let dst = ctx.head.replace_subexpr(&pos, subdst);
                proof {
                    if crate::steps::path_ok(h0, pos@) && ctx.slot_map@ == Map::<Slot, Slot>::empty() {
                        lemma_flow_explicit(*graph, eq, symm, t0, d0, x, dst, h0, pos@);
                    }
                }
                let ghost dv = dst;
                ctx.head = dst.clone();
                proof {
                    if crate::steps::path_ok(h0, pos@) && ctx.slot_map@ == Map::<Slot, Slot>::empty() {
                        crate::steps::lemma_same_subexpr(ctx.head, dv, pos@);
                        crate::steps::lemma_same_term_trans(
                            crate::steps::subexpr_spec(ctx.head, pos@),
                            crate::steps::subexpr_spec(dv, pos@),
                            eq.end_of(*graph, symm, t0),
                        );
                    }
                }
                let step = Step { dst, rw_pos: pos, jus: j, back: symm };
                let out = vec![step];
                proof {
                    assert(crate::steps::replaced(out@[0].dst, h0, out@[0].rw_pos@, x));
                    assert(crate::steps::step_from(h0, out@[0]));
                    assert(takes(out@, eq.rewrites(pos@, symm)));
                }
                Some(out)
            },
        }
    }
}

/// The sub-proofs that the last step of a proof rests on, in order.
pub open spec fn sub_proofs_of(p: Proof) -> Seq<ProvenEq> {
    match p {
        Proof::Explicit(_) => seq![],
        Proof::Reflexivity(_) => seq![],
        Proof::Symmetry(SymmetryProof(x)) => seq![x],
        Proof::Transitivity(TransitivityProof(x1, x2)) => seq![x1, x2],
        Proof::Congruence(CongruenceProof(xs)) => xs@,
    }
}

impl ProvenEqRaw {
    /// The sub-proofs that the last step rests on, in order; the copies share what they
    /// point to.
    pub fn subproofs(&self) -> (r: Vec<ProvenEq>)
        ensures
            r@ == sub_proofs_of(self.proof_spec()),
    {
        let how = &self.proof;
        match how {
            Proof::Explicit(_) => Vec::new(),
            Proof::Reflexivity(_) => Vec::new(),
            Proof::Symmetry(SymmetryProof(x)) => vec![x.clone()],
            Proof::Transitivity(TransitivityProof(x1, x2)) => vec![x1.clone(), x2.clone()],
            Proof::Congruence(CongruenceProof(xs)) => copy_proofs(xs),
        }
    }
}

} // verus!
