use vstd::prelude::*;
use crate::slot::{Slot, SlotTable};
use crate::slotset::SlotSet;
use crate::slotmap::{SlotMap, injective, identity_map, inverse_map, compose_partial_map, is_perm_map, compatible, values_of};
use crate::applied::{AppliedId, Equation, Id};
use crate::lang::{ENode, app_ids_spec, app_view, all_slots_spec, with_all_slots, number_slots};
use crate::proofs::{full_chain, eq_view, EqView, ProvenEq, copy_proofs, proves_equation, assert_proves_equation, match_view, Proof, ReflexivityProof, SymmetryProof, TransitivityProof};
use crate::suf::{invert, inverts};

verus! {

/// An invocation together with the proof that it equals the invocation it was reached from.
pub struct ProvenAppliedId {
    pub elem: AppliedId,
    pub proof: ProvenEq,
}

/// A bijection for an e-node's shape, with the invocation that the e-node came from.
pub struct ProvenSourceNode {
    pub elem: SlotMap,
    pub src_id: AppliedId,
}

/// An e-node together with, for each child invocation, the proof that leads to it from the
/// child of some base e-node.
pub struct ProvenNode {
    pub elem: ENode,
    pub proofs: Vec<ProvenEq>,
}

/// An e-node that an e-class contains, with the proofs of how it got there.
pub struct ProvenContains {
    pub node: ProvenNode,
    pub pai: ProvenAppliedId,
}

/// The `i`-th child proof leads from the `i`-th child of `base` to the `i`-th child of `n`.
pub open spec fn proves_children(proofs: Seq<ProvenEq>, base: ENode, n: ENode) -> bool {
    &&& proofs.len() == app_ids_spec(base).len()
    &&& proofs.len() == app_ids_spec(n).len()
    &&& forall|i: int|
        0 <= i < proofs.len() ==> {
            &&& #[trigger] proofs[i].wf()
            &&& injective(proofs[i].eq_spec().0.1)
            &&& injective(proofs[i].eq_spec().1.1)
            &&& proves_equation(
                proofs[i].eq_spec(),
                ((app_ids_spec(base)[i].id, app_ids_spec(base)[i].m@), (app_ids_spec(n)[i].id, app_ids_spec(n)[i].m@)),
            )
        }
}

impl ProvenNode {
    /// Checks that the proofs lead from the children of `base` to those of this e-node.
    pub fn check_base(&self, base: &ENode)
        requires
            base.wf(),
            self.elem.wf(),
            proves_children(self.proofs@, *base, self.elem),
    {
        let l = base.applied_id_occurrences();
        let r = self.elem.applied_id_occurrences();
        let n = self.proofs.len();
        let mut i: usize = 0;
        while i < n
            invariant
                0 <= i <= n,
                n == self.proofs@.len(),
                crate::lang::app_views(l@) == crate::lang::app_views(app_ids_spec(*base)),
                crate::lang::app_views(r@) == crate::lang::app_views(app_ids_spec(self.elem)),
                forall|k: int| 0 <= k < l@.len() ==> #[trigger] l@[k].wf(),
                forall|k: int| 0 <= k < r@.len() ==> #[trigger] r@[k].wf(),
                proves_children(self.proofs@, *base, self.elem),
            decreases n - i,
        {
            assert(l@.len() == crate::lang::app_views(l@).len());
            assert(r@.len() == crate::lang::app_views(r@).len());
            assert(crate::lang::app_views(l@)[i as int] == app_view(l@[i as int]));
            assert(crate::lang::app_views(r@)[i as int] == app_view(r@[i as int]));
            assert(crate::lang::app_views(app_ids_spec(*base))[i as int] == app_view(app_ids_spec(*base)[i as int]));
            assert(crate::lang::app_views(app_ids_spec(self.elem))[i as int] == app_view(app_ids_spec(self.elem)[i as int]));
            assert(app_view(l@[i as int]) == app_view(app_ids_spec(*base)[i as int]));
            assert(app_view(r@[i as int]) == app_view(app_ids_spec(self.elem)[i as int]));
            assert(l@[i as int].wf());
            assert(r@[i as int].wf());
            let a = l[i].clone();
            let b = r[i].clone();
            assert(a.wf() && b.wf());
            let eq = Equation { l: a, r: b };
            proof {
                assert(l@[i as int].m@ == app_ids_spec(*base)[i as int].m@);
                assert(r@[i as int].m@ == app_ids_spec(self.elem)[i as int].m@);
                assert(eq.l.m@ =~= l@[i as int].m@);
                assert(eq.r.m@ =~= r@[i as int].m@);
                assert(self.proofs@[i as int].wf());
            }
            assert_proves_equation(&self.proofs[i], &eq);
            i = i + 1;
        }
    }

    /// The weak shape of the e-node, carrying the same proofs, and the bijection from the
    /// shape's public slots back to the e-node's.
    pub fn weak_shape(&self) -> (r: (ProvenNode, SlotMap))
        requires
            self.elem.wf(),
            all_slots_spec(self.elem).len() < u32::MAX,
        ensures
            r.0.elem.wf(),
            r.0.elem@ == with_all_slots(self.elem, number_slots(all_slots_spec(self.elem), Map::empty(), 0).0),
            r.0.proofs@ == self.proofs@,
            r.1.wf(),
            injective(r.1@),
    {
        let (sh, bij) = self.elem.weak_shape();
        (ProvenNode { elem: sh, proofs: copy_proofs(&self.proofs) }, bij)
    }
}

impl ProvenContains {
    /// The e-class that the proof of the invocation starts from.
    pub fn src_id(&self) -> (r: Id)
        ensures
            r == self.pai.proof.eq_spec().0.0,
    {
        self.pai.proof.equ().l.id
    }

    /// The e-class that contains the e-node.
    pub fn target_id(&self) -> (r: Id)
        ensures
            r == self.pai.elem.id,
    {
        self.pai.elem.id
    }
}

/// A symmetry of an e-class together with the proof that the class equals itself renamed by it.
pub struct ProvenPerm {
    pub elem: SlotMap,
    pub proof: ProvenEq,
}

/// Matching an invocation with itself gives the identity on its values.
proof fn lemma_self_match(a: (Id, Map<Slot, Slot>), b: (Id, Map<Slot, Slot>))
    requires
        injective(a.1),
        injective(b.1),
    ensures
        compatible(match_view(a, a), match_view(b, b)),
{
    crate::slotmap::lemma_compose_dom(inverse_map(a.1), a.1);
    crate::slotmap::lemma_compose_dom(inverse_map(b.1), b.1);
    let ma = match_view(a, a);
    let mb = match_view(b, b);
    assert forall|k: Slot| ma.contains_key(k) && mb.contains_key(k) implies #[trigger] ma[k] == mb[k] by {
        let ka = choose|x: Slot| a.1.contains_key(x) && a.1[x] == k;
        let kb = choose|x: Slot| b.1.contains_key(x) && b.1[x] == k;
        assert(crate::slotmap::values_of(a.1).contains(k));
        assert(crate::slotmap::values_of(b.1).contains(k));
        let ia = inverse_map(a.1)[k];
        let ib = inverse_map(b.1)[k];
        assert(a.1.contains_key(ia) && a.1[ia] == k);
        assert(b.1.contains_key(ib) && b.1[ib] == k);
    }
}

/// The equation that chaining a proof of `o` with a proof of `s` proves: the left side of
/// `o`, and the right side of `s` renamed by going back through `inv` to the slots of the
/// left side of `s` and forth through the right side of `o`.
pub open spec fn chained_eq(o: EqView, s: EqView, inv: Map<Slot, Slot>) -> EqView {
    (o.0, (s.1.0, compose_partial_map(s.1.1, compose_partial_map(inv, o.1.1))))
}

/// The proofs `o` and `s` meet in one class, with injective renamings of the same keys where
/// they meet, and the right side of `s` uses only slots of its left side.
pub open spec fn perm_chain(o: EqView, s: EqView) -> bool {
    &&& o.1.0 == s.0.0
    &&& injective(o.1.1)
    &&& injective(s.0.1)
    &&& o.1.1.dom() == s.0.1.dom()
    &&& values_of(s.1.1).subset_of(values_of(s.0.1))
}

/// Proofs that meet as [perm_chain] says chain, by the identity on the slots of `o` and by
/// going back through `s` and forth through `o`, into [chained_eq].
proof fn lemma_perm_chain(o: EqView, s: EqView, inv: Map<Slot, Slot>, t2: Map<Slot, Slot>)
    requires
        perm_chain(o, s),
        inverts(inv, s.0.1),
        t2 == compose_partial_map(inv, o.1.1),
    ensures
        full_chain(chained_eq(o, s, inv), o, s, identity_map(values_of(o.0.1).union(values_of(o.1.1))), t2),
{
    let t1 = identity_map(values_of(o.0.1).union(values_of(o.1.1)));
    crate::slotmap::lemma_compose_dom(inv, o.1.1);
    crate::slotmap::lemma_compose_dom(s.0.1, t2);
    crate::slotmap::lemma_compose_dom(o.0.1, t1);
    crate::slotmap::lemma_compose_dom(o.1.1, t1);
    assert forall|k: Slot| o.0.1.contains_key(k) implies #[trigger] t1.contains_key(o.0.1[k]) by {
        assert(values_of(o.0.1).contains(o.0.1[k]));
    }
    assert(compose_partial_map(o.0.1, t1) =~= o.0.1);
    assert forall|k: Slot| o.1.1.contains_key(k) implies #[trigger] t1.contains_key(o.1.1[k]) by {
        assert(values_of(o.1.1).contains(o.1.1[k]));
    }
    assert(compose_partial_map(o.1.1, t1) =~= o.1.1);
    assert forall|k: Slot| s.0.1.contains_key(k) implies #[trigger] t2.contains_key(s.0.1[k]) && t2[s.0.1[k]] == o.1.1[k] by {
        let v = s.0.1[k];
        assert(values_of(s.0.1).contains(v));
        assert(inv.contains_key(v));
        assert(s.0.1[inv[v]] == v);
        assert(inv[v] == k);
    }
    assert(compose_partial_map(s.0.1, t2) =~= o.1.1);
    assert forall|v: Slot| values_of(s.0.1).contains(v) implies #[trigger] t2.dom().contains(v) by {
        assert(inv.contains_key(v));
        let k = inv[v];
        assert(s.0.1.contains_key(k));
    }
    assert forall|v: Slot| values_of(s.1.1).contains(v) implies #[trigger] t2.dom().contains(v) by {
        assert(values_of(s.0.1).contains(v));
        assert(t2.dom().contains(v));
    }
    assert(values_of(o.0.1).subset_of(t1.dom()));
    assert(values_of(o.1.1).subset_of(t1.dom()));
}

impl ProvenPerm {
    /// The identity of `slots`, proven by reflexivity of `i` invoked by the identity of
    /// `syn_slots`.
    pub fn identity(i: Id, slots: &SlotSet, syn_slots: &SlotSet) -> (r: ProvenPerm)
        requires
            slots.wf(),
            syn_slots.wf(),
        ensures
            r.elem.wf(),
            r.elem@ == identity_map(slots@),
            r.proof.wf(),
            r.proof.eq_spec() == ((i, identity_map(syn_slots@)), (i, identity_map(syn_slots@))),
            r.proof.proof_spec() is Reflexivity,
    {
        let map = SlotMap::identity(slots);
        let app_id = AppliedId::new(i, SlotMap::identity(syn_slots));
        let eq = Equation { l: app_id.clone(), r: app_id };
        proof {
            assert(eq.l.m@ =~= eq.r.m@);
        }
        let prf = ReflexivityProof.check(&eq);
        ProvenPerm { elem: map, proof: prf }
    }

    /// Checks that the map is a permutation and that the proof shows the class, invoked by
    /// the identity of its slots, equal to itself invoked by the permutation.
    pub fn check(&self)
        requires
            self.elem.wf(),
            is_perm_map(self.elem@),
            self.proof.wf(),
            self.proof.eq_spec().0.0 == self.proof.eq_spec().1.0,
            self.proof.eq_spec().0.1.dom() == self.proof.eq_spec().1.1.dom(),
            injective(self.proof.eq_spec().0.1),
            injective(self.proof.eq_spec().1.1),
            proves_equation(
                self.proof.eq_spec(),
                ((self.proof.eq_spec().0.0, identity_map(self.elem@.dom())), (self.proof.eq_spec().0.0, self.elem@)),
            ),
    {
        let e = self.proof.equ();
        let id = e.l.id;
        let slots = self.elem.keys();
        let eq = Equation {
            l: AppliedId::new(id, SlotMap::identity(&slots)),
            r: AppliedId::new(id, self.elem.clone()),
        };
        proof {
            assert(eq.r.m@ =~= self.elem@);
        }
        assert_proves_equation(&self.proof, &eq);
    }

    /// The inverse permutation, proven by symmetry from this one's proof.
    pub fn inverse(&self) -> (r: ProvenPerm)
        requires
            self.elem.wf(),
            injective(self.elem@),
            self.proof.wf(),
            injective(self.proof.eq_spec().0.1),
            injective(self.proof.eq_spec().1.1),
        ensures
            r.elem.wf(),
            r.elem@ == inverse_map(self.elem@),
            r.proof.eq_spec() == crate::proofs::flip(self.proof.eq_spec()),
            r.proof.proof_spec() matches Proof::Symmetry(SymmetryProof(x)) && x == self.proof,
    {
        let map = self.elem.inverse();
        let e = self.proof.equ();
        let flipped = Equation { l: e.r, r: e.l };
        proof {
            lemma_self_match(self.proof.eq_spec().1, self.proof.eq_spec().0);
        }
        let prf = SymmetryProof(self.proof.clone()).check(&flipped);
        ProvenPerm { elem: map, proof: prf }
    }

    /// The permutation that applies `self`, then `other`, proven by chaining the two proofs:
    /// the proof of `other`, then that of `self` renamed so that its left side meets the right
    /// side of `other`; `None` where the chain does not check. It checks wherever the two
    /// proofs are of one class, the renamings where they meet are injective with the same
    /// keys, and the right side of `self` uses only slots of its left side.
    pub fn compose(&self, other: &ProvenPerm, tab: &mut SlotTable) -> (r: Option<ProvenPerm>)
        requires
            self.elem.wf(),
            other.elem.wf(),
            self.proof.wf(),
            other.proof.wf(),
            old(tab).wf(),
            old(tab).fresh_idx + 4 * (other.proof.eq_spec().0.1.len() + other.proof.eq_spec().1.1.len()
                + self.proof.eq_spec().0.1.len() + self.proof.eq_spec().1.1.len()) + 8 <= u64::MAX,
        ensures
            final(tab).wf(),
            r matches Some(p) ==> {
                &&& p.elem.wf()
                &&& p.elem@ == compose_partial_map(self.elem@, other.elem@)
                &&& exists|inv: Map<Slot, Slot>| {
                    &&& inverts(inv, self.proof.eq_spec().0.1)
                    &&& (injective(self.proof.eq_spec().0.1) ==> inv == inverse_map(self.proof.eq_spec().0.1))
                    &&& #[trigger] p.proof.eq_spec() == chained_eq(other.proof.eq_spec(), self.proof.eq_spec(), inv)
                }
            },
            perm_chain(other.proof.eq_spec(), self.proof.eq_spec()) ==> r is Some,
    {
        let map = self.elem.compose_partial(&other.elem);
        let a = other.proof.equ();
        let b = self.proof.equ();
        let back = invert(&b.l.m);
        let t2 = back.compose_partial(&a.r.m);
        let right = b.r.apply_slotmap(&t2);
        let eq = Equation { l: a.l, r: right };
        proof {
            if perm_chain(other.proof.eq_spec(), self.proof.eq_spec()) {
                lemma_perm_chain(other.proof.eq_spec(), self.proof.eq_spec(), back@, t2@);
                assert(eq_view(eq) == chained_eq(other.proof.eq_spec(), self.proof.eq_spec(), back@));
                assert(full_chain(eq_view(eq), other.proof.eq_spec(), self.proof.eq_spec(),
                    identity_map(values_of(other.proof.eq_spec().0.1).union(values_of(other.proof.eq_spec().1.1))), t2@));
            }
        }
        match TransitivityProof(other.proof.clone(), self.proof.clone()).check(&eq, tab) {
            Some(prf) => {
                assert(prf.eq_spec() == chained_eq(other.proof.eq_spec(), self.proof.eq_spec(), back@));
                Some(ProvenPerm { elem: map, proof: prf })
            },
            None => None,
        }
    }
}

} // verus!
