use vstd::prelude::*;
use crate::slot::Slot;
use crate::slotset::SlotSet;
use crate::slotmap::{SlotMap, lemma_identity_image, lemma_compose_dom, perm_of, injective, compose_partial_map, inverse_map, identity_map, lemma_perm_compose, lemma_perm_inverse, lemma_perm_maps_into};

verus! {

// In order to be compatible with the literature on Schreier's lemma,
// "x y" means x.compose(y): first x, then y.

/// A group of permutations of the slot set `omega`, kept as a stabilizer chain.
#[derive(Debug)]
pub struct Group {
    /// The slots that every element of the group permutes.
    pub omega: SlotSet,
    pub next: Option<Box<Next>>,
}

/// One level of the stabilizer chain.
#[derive(Debug)]
pub struct Next {
    /// The slot that the subgroup `g` stabilizes.
    pub stab: Slot,
    /// The orbit tree: for each slot `x` in the orbit of `stab`, one permutation that maps
    /// `stab` to `x`.
    pub ot: Vec<SlotMap>,
    /// The subgroup of the permutations that fix `stab`.
    pub g: Group,
}

/// `gens` are well-formed permutations of `omega`.
pub open spec fn gens_ok(gens: Seq<SlotMap>, omega: Set<Slot>) -> bool {
    forall|i: int| 0 <= i < gens.len() ==> #[trigger] gens[i].wf() && perm_of(gens[i]@, omega)
}

/// Every permutation of `gens` fixes `q`.
pub open spec fn gens_fix(gens: Seq<SlotMap>, q: Slot) -> bool {
    forall|i: int| 0 <= i < gens.len() ==> #[trigger] gens[i]@[q] == q
}

/// The slots of `omega` that some permutation of `gens` moves.
pub open spec fn moved(gens: Seq<SlotMap>, omega: Set<Slot>) -> Set<Slot> {
    omega.filter(|q: Slot| !gens_fix(gens, q))
}

/// `m` fixes every slot of `omega` that all of `gens` fix.
pub open spec fn respects(m: Map<Slot, Slot>, gens: Seq<SlotMap>, omega: Set<Slot>) -> bool {
    forall|q: Slot| omega.contains(q) && #[trigger] gens_fix(gens, q) ==> m[q] == q
}

/// The slot that the map sends `x` to, reading an absent entry as [Slot::missing].
pub open spec fn apply_or_missing(m: Map<Slot, Slot>, x: Slot) -> Slot {
    if m.contains_key(x) {
        m[x]
    } else {
        Slot(u32::MAX as u64)
    }
}

/// The views of a list of slot maps.
pub open spec fn views(v: Seq<SlotMap>) -> Seq<Map<Slot, Slot>> {
    v.map_values(|m: SlotMap| m@)
}

/// `t` holds the image of each of its slots under each map of `gs`.
pub open spec fn closed_under(t: Set<Slot>, gs: Set<Map<Slot, Slot>>) -> bool {
    forall|x: Slot, m: Map<Slot, Slot>|
        #![trigger t.contains(x), gs.contains(m)]
        t.contains(x) && gs.contains(m) ==> t.contains(apply_or_missing(m, x))
}

/// The stabilizer of `p[stab]` in the orbit tree, if there is one.
pub open spec fn ot_has(ot: Seq<SlotMap>, stab: Slot, y: Slot) -> bool {
    exists|k: int| 0 <= k < ot.len() && #[trigger] ot[k]@[stab] == y
}

impl Next {
    /// `p` maps `stab` into the orbit, and dividing it by the orbit tree entry for that slot
    /// gives a member of the subgroup.
    pub open spec fn admits(&self, p: Map<Slot, Slot>) -> bool {
        exists|k: int|
            0 <= k < self.ot@.len() && #[trigger] self.ot@[k]@[self.stab] == p[self.stab] && self.g.member(
                compose_partial_map(p, inverse_map(self.ot@[k]@)),
            )
    }

    pub open spec fn wf_level(&self, omega: Set<Slot>) -> bool {
        &&& omega.contains(self.stab)
        &&& self.g.omega@ == omega
        &&& self.ot@.len() > 0
        &&& self.ot@[0]@ == identity_map(omega)
        &&& gens_ok(self.ot@, omega)
        &&& forall|i: int, j: int|
            #![trigger self.ot@[i], self.ot@[j]]
            0 <= i < self.ot@.len() && 0 <= j < self.ot@.len() && i != j ==> self.ot@[i]@[self.stab]
                != self.ot@[j]@[self.stab]
    }
}

impl Group {
    /// The group is a well-formed stabilizer chain of permutations of `omega`.
    pub open spec fn wf(&self) -> bool
        decreases self,
    {
        &&& self.omega.wf()
        &&& match self.next {
            None => true,
            Some(n) => n.wf_level(self.omega@) && n.g.wf(),
        }
    }

    /// `p` passes the membership test of the stabilizer chain: at each level, `p` maps the
    /// stabilized slot into the orbit, and dividing by the orbit tree entry gives a member
    /// of the next level.
    pub open spec fn member(&self, p: Map<Slot, Slot>) -> bool
        decreases self,
    {
        match self.next {
            None => forall|x: Slot| #[trigger] p.contains_key(x) ==> p[x] == x,
            Some(n) => exists|k: int|
                0 <= k < n.ot@.len() && #[trigger] n.ot@[k]@[n.stab] == p[n.stab] && n.g.member(
                    compose_partial_map(p, inverse_map(n.ot@[k]@)),
                ),
        }
    }

    /// The product of the orbit sizes along the chain.
    pub open spec fn count_spec(&self) -> nat
        decreases self,
    {
        match self.next {
            None => 1,
            Some(n) => n.ot@.len() * n.g.count_spec(),
        }
    }

    /// The permutations that the chain stores: the orbit tree entries of every level.
    pub open spec fn stored(&self) -> Set<Map<Slot, Slot>>
        decreases self,
    {
        match self.next {
            None => Set::empty(),
            Some(n) => views(n.ot@).to_set().union(n.g.stored()),
        }
    }

    pub open spec fn is_trivial_spec(&self) -> bool {
        self.next is None
    }

    pub proof fn lemma_stored_perms(&self)
        requires
            self.wf(),
        ensures
            forall|m: Map<Slot, Slot>| #[trigger]
                self.stored().contains(m) ==> perm_of(m, self.omega@),
        decreases self,
    {
        match &self.next {
            None => {},
            Some(n) => {
                n.g.lemma_stored_perms();
                assert forall|m: Map<Slot, Slot>| #[trigger]
                    self.stored().contains(m) implies perm_of(m, self.omega@) by {
                    if views(n.ot@).to_set().contains(m) {
                        let k = choose|k: int| 0 <= k < views(n.ot@).len() && views(n.ot@)[k] == m;
                        assert(views(n.ot@)[k] == n.ot@[k]@);
                        assert(n.ot@[k].wf());
                    } else {
                        assert(n.g.stored().contains(m));
                    }
                }
            },
        }
    }

    /// The group has at least as many elements as the chain stores distinct permutations,
    /// and at least one.
    pub proof fn lemma_stored_within_count(&self)
        requires
            self.wf(),
        ensures
            self.stored().finite(),
            self.stored().len() <= self.count_spec(),
            self.count_spec() >= 1,
        decreases self,
    {
        broadcast use vstd::seq_lib::seq_to_set_is_finite;
        match self.next {
            None => {
                assert(self.stored() =~= Set::<Map<Slot, Slot>>::empty());
            },
            Some(n) => {
                n.g.lemma_stored_within_count();
                let a = views(n.ot@).to_set();
                let b = n.g.stored();
                let l = n.ot@.len();
                let c = n.g.count_spec();
                views(n.ot@).lemma_cardinality_of_set();
                assert(views(n.ot@).len() == l);
                assert(self.stored() == a.union(b));
                match n.g.next {
                    None => {
                        assert(b =~= Set::<Map<Slot, Slot>>::empty());
                        assert(a.union(b) =~= a);
                        assert(c == 1);
                        assert(l * c == l);
                    },
                    Some(n2) => {
                        let id = identity_map(self.omega@);
                        assert(views(n.ot@)[0] == n.ot@[0]@);
                        assert(a.contains(id));
                        assert(views(n2.ot@)[0] == n2.ot@[0]@);
                        assert(n.g.omega@ == self.omega@);
                        assert(n.g.wf());
                        assert(n2.wf_level(n.g.omega@));
                        assert(n2.ot@[0]@ == identity_map(n.g.omega@));
                        assert(views(n2.ot@).len() == n2.ot@.len());
                        assert(views(n2.ot@).to_set().contains(id));
                        assert(b == views(n2.ot@).to_set().union(n2.g.stored()));
                        assert(b.contains(id));
                        assert(a.union(b) =~= a.union(b.remove(id)));
                        vstd::set_lib::lemma_len_union(a, b.remove(id));
                        assert(b.remove(id).len() == b.len() - 1);
                        assert(a.union(b).len() <= l + c - 1);
                        assert(l + c - 1 <= l * c) by (nonlinear_arith)
                            requires
                                l >= 1,
                                c >= 1,
                        ;
                    },
                }
                assert(l * c >= 1) by (nonlinear_arith)
                    requires
                        l >= 1,
                        c >= 1,
                ;
            },
        }
    }

    /// The permutations of `omega` that pass the membership test.
    pub open spec fn members(&self) -> Set<Map<Slot, Slot>> {
        Set::new(|p: Map<Slot, Slot>| perm_of(p, self.omega@) && self.member(p))
    }

    /// At each level of the chain, every permutation that the subgroup stores fixes the
    /// slot that the level stabilizes.
    pub open spec fn stab_fixed(&self) -> bool
        decreases self,
    {
        match self.next {
            None => true,
            Some(n) => n.g.stab_fixed() && forall|m: Map<Slot, Slot>| #[trigger] n.g.stored().contains(m) ==> m[n.stab] == n.stab,
        }
    }

    /// A slot that every stored permutation fixes is fixed by every member.
    pub proof fn lemma_members_fix(&self, x: Slot)
        requires
            self.wf(),
            self.omega@.contains(x),
            forall|m: Map<Slot, Slot>| #[trigger] self.stored().contains(m) ==> m[x] == x,
        ensures
            forall|p: Map<Slot, Slot>| #[trigger] self.members().contains(p) ==> p[x] == x,
        decreases self,
    {
        let omega = self.omega@;
        match self.next {
            None => {},
            Some(n) => {
                assert(n.g.wf());
                assert(n.g.omega@ == omega);
                assert forall|m: Map<Slot, Slot>| #[trigger] n.g.stored().contains(m) implies m[x] == x by {
                    assert(self.stored().contains(m));
                }
                n.g.lemma_members_fix(x);
                assert forall|p: Map<Slot, Slot>| #[trigger] self.members().contains(p) implies p[x] == x by {
                    let k = choose|k: int|
                        0 <= k < n.ot@.len() && #[trigger] n.ot@[k]@[n.stab] == p[n.stab] && n.g.member(
                            compose_partial_map(p, inverse_map(n.ot@[k]@)),
                        );
                    let o = n.ot@[k]@;
                    assert(n.ot@[k].wf());
                    assert(perm_of(o, omega));
                    assert(views(n.ot@)[k] == o);
                    assert(self.stored().contains(o));
                    lemma_perm_inverse(o, omega);
                    lemma_perm_compose(p, inverse_map(o), omega);
                    let q = compose_partial_map(p, inverse_map(o));
                    assert(n.g.members().contains(q));
                    lemma_then_at(p, inverse_map(o), omega, x);
                    lemma_perm_maps_into(p, omega, x);
                    lemma_inverse_then(o, omega, p[x]);
                }
            },
        }
    }

    /// The group has exactly as many elements as the product of the orbit sizes: where at
    /// each level the subgroup fixes the slot that the level stabilizes, the permutations of
    /// `omega` that pass the membership test number `count_spec()`.
    pub proof fn lemma_count_members(&self)
        requires
            self.wf(),
            self.stab_fixed(),
        ensures
            self.members().finite(),
            self.members().len() == self.count_spec(),
        decreases self,
    {
        let omega = self.omega@;
        match self.next {
            None => {
                let id = identity_map(omega);
                lemma_identity_image(omega);
                assert(id.dom() =~= omega);
                assert(perm_of(id, omega));
                assert forall|p: Map<Slot, Slot>| self.members().contains(p) implies p == id by {
                    assert(p =~= id);
                }
                assert(self.members().contains(id));
                assert(self.members() =~= set![id]);
            },
            Some(n) => {
                assert(n.g.wf());
                assert(n.g.omega@ == omega);
                n.g.lemma_count_members();
                let qs = n.g.members();
                n.g.lemma_members_fix(n.stab);
                assert(forall|q: Map<Slot, Slot>| #[trigger] qs.contains(q) ==> perm_of(q, omega) && q[n.stab] == n.stab);
                lemma_cosets_len(qs, n.ot@, omega, n.stab, n.ot@.len());
                let cs = cosets_upto(qs, n.ot@, n.ot@.len());
                assert forall|p: Map<Slot, Slot>| self.members().contains(p) implies cs.contains(p) by {
                    let k = choose|k: int|
                        0 <= k < n.ot@.len() && #[trigger] n.ot@[k]@[n.stab] == p[n.stab] && n.g.member(
                            compose_partial_map(p, inverse_map(n.ot@[k]@)),
                        );
                    let o = n.ot@[k]@;
                    assert(n.ot@[k].wf());
                    assert(perm_of(o, omega));
                    lemma_perm_inverse(o, omega);
                    lemma_perm_compose(p, inverse_map(o), omega);
                    let q = compose_partial_map(p, inverse_map(o));
                    assert(qs.contains(q));
                    assert forall|x: Slot| omega.contains(x) implies compose_partial_map(q, o)[x] == p[x] by {
                        lemma_then_at(q, o, omega, x);
                        lemma_then_at(p, inverse_map(o), omega, x);
                        lemma_perm_maps_into(p, omega, x);
                        lemma_inverse_then(o, omega, p[x]);
                    }
                    lemma_perm_compose(q, o, omega);
                    assert(compose_partial_map(q, o) =~= p);
                    assert(then_each(qs, o).contains(p));
                    lemma_cosets_contains(qs, n.ot@, n.ot@.len(), k, p);
                }
                assert forall|p: Map<Slot, Slot>| cs.contains(p) implies self.members().contains(p) by {
                    let k = lemma_cosets_member(qs, n.ot@, n.ot@.len(), p);
                    let o = n.ot@[k]@;
                    assert(n.ot@[k].wf());
                    assert(perm_of(o, omega));
                    let q = choose|q: Map<Slot, Slot>| qs.contains(q) && p == compose_partial_map(q, o);
                    lemma_then_stab(qs, o, omega, n.stab, p);
                    lemma_perm_inverse(o, omega);
                    lemma_perm_compose(p, inverse_map(o), omega);
                    assert forall|x: Slot| omega.contains(x) implies compose_partial_map(p, inverse_map(o))[x] == q[x] by {
                        lemma_then_at(p, inverse_map(o), omega, x);
                        lemma_then_at(q, o, omega, x);
                        lemma_perm_maps_into(q, omega, x);
                    }
                    assert(compose_partial_map(p, inverse_map(o)) =~= q);
                    assert(n.g.member(compose_partial_map(p, inverse_map(o))));
                    assert(self.member(p));
                }
                assert(self.members() =~= cs);
            },
        }
    }

    /// Every group holds the identity of its slot set.
    pub proof fn lemma_identity_member(&self)
        requires
            self.wf(),
        ensures
            self.member(identity_map(self.omega@)),
        decreases self,
    {
        let id = identity_map(self.omega@);
        match self.next {
            None => {},
            Some(n) => {
                n.g.lemma_identity_member();
                lemma_identity_divides(self.omega@);
                assert(n.ot@[0]@[n.stab] == id[n.stab]);
            },
        }
    }

    /// The group that contains only the identity of `omega`.
    pub fn trivial(omega: &SlotSet) -> (r: Group)
        requires
            omega.wf(),
        ensures
            r.wf(),
            r.omega@ == omega@,
            r.is_trivial_spec(),
            r.stab_fixed(),
    {
        Group { omega: omega.clone(), next: None }
    }

    /// Whether the group holds only the identity.
    pub fn is_trivial(&self) -> (r: bool)
        ensures
            r == self.is_trivial_spec(),
    {
        self.next.is_none()
    }

    /// The group generated by `generators`, all permutations of `omega`.
    pub fn new(omega: &SlotSet, generators: Vec<SlotMap>) -> (r: Group)
        requires
            omega.wf(),
            gens_ok(generators@, omega@),
        ensures
            r.wf(),
            r.omega@ == omega@,
            r.is_trivial_spec() <==> moved(generators@, omega@) == Set::<Slot>::empty(),
            forall|m: Map<Slot, Slot>| #[trigger] r.stored().contains(m) ==> respects(m, generators@, omega@),
            forall|j: int| 0 <= j < generators@.len() ==> r.member(#[trigger] generators@[j]@),
            r.stab_fixed(),
        decreases moved(generators@, omega@).len(), 1int,
    {
        proof {
            omega.lemma_len();
        }
        match find_lowest_nonstab(omega, &generators) {
            None => {
                assert(moved(generators@, omega@) =~= Set::<Slot>::empty());
                let r = Group { omega: omega.clone(), next: None };
                assert forall|j: int| 0 <= j < generators@.len() implies r.member(#[trigger] generators@[j]@) by {
                    lemma_unmoved_identity(generators@, omega@, j);
                }
                r
            },
            Some(s) => {
                assert(moved(generators@, omega@).contains(s));
                let ghost gens = generators@;
                let n = Next::new(s, omega, generators);
                let r = Group { omega: omega.clone(), next: Some(Box::new(n)) };
                assert(r.stored() == views(n.ot@).to_set().union(n.g.stored()));
                assert forall|j: int| 0 <= j < gens.len() implies r.member(#[trigger] gens[j]@) by {
                    assert(n.admits(gens[j]@));
                }
                r
            },
        }
    }

    /// Whether `p` belongs to the group.
    #[verifier::rlimit(40)]
    #[verifier::spinoff_prover]
    pub fn contains(&self, p: &SlotMap) -> (r: bool)
        requires
            self.wf(),
            p.wf(),
            perm_of(p@, self.omega@),
        ensures
            r == self.member(p@),
        decreases self,
    {
        match &self.next {
            None => p.is_identity(),
            Some(n) => {
                let y = p.index(n.stab);
                proof {
                    p.lemma_view();
                    assert(y == p@[n.stab]);
                }
                match find_entry(&n.ot, n.stab, y) {
                    None => {
                        assert forall|k: int|
                            0 <= k < n.ot@.len() implies #[trigger] n.ot@[k]@[n.stab] != p@[n.stab] by {
                            assert(n.ot@[k].wf());
                        }
                        assert(!self.member(p@));
                        false
                    },
                    Some(k) => {
                        assert(n.ot@[k as int].wf());
                        let part = &n.ot[k];
                        let inv = part.inverse();
                        proof {
                            lemma_perm_inverse(part@, self.omega@);
                            lemma_perm_compose(p@, inv@, self.omega@);
                        }
                        let q = p.compose(&inv);
                        let r = n.g.contains(&q);
                        proof {
                            if r {
                                assert(n.ot@[k as int]@[n.stab] == p@[n.stab]);
                            } else {
                                assert forall|j: int|
                                    0 <= j < n.ot@.len() && #[trigger] n.ot@[j]@[n.stab]
                                        == p@[n.stab] implies !n.g.member(
                                    compose_partial_map(p@, inverse_map(n.ot@[j]@)),
                                ) by {
                                    if j != k {
                                        assert(n.ot@[j]@[n.stab] != n.ot@[k as int]@[n.stab]);
                                    }
                                }
                            }
                        }
                        r
                    },
                }
            },
        }
    }

    /// Every permutation stored in the chain, each once.
    pub fn generators_impl(&self) -> (r: Vec<SlotMap>)
        requires
            self.wf(),
        ensures
            views(r@).to_set() == self.stored(),
            gens_ok(r@, self.omega@),
            distinct_views(r@),
        decreases self,
    {
        match &self.next {
            None => {
                let r: Vec<SlotMap> = Vec::new();
                assert(views(r@).to_set() =~= Set::empty());
                r
            },
            Some(n) => {
                let mut out = n.g.generators_impl();
                let mut i: usize = 0;
                while i < n.ot.len()
                    invariant
                        0 <= i <= n.ot@.len(),
                        n.wf_level(self.omega@),
                        n.g.omega@ == self.omega@,
                        gens_ok(out@, self.omega@),
                        distinct_views(out@),
                        views(out@).to_set() == n.g.stored().union(views(n.ot@.subrange(0, i as int)).to_set()),
                    decreases n.ot@.len() - i,
                {
                    assert(n.ot@[i as int].wf());
                    let m = n.ot[i].clone();
                    let ghost old_out = out@;
                    push_unique(&mut out, m);
                    assert forall|k: int| 0 <= k < out@.len() implies #[trigger] out@[k].wf() && perm_of(out@[k]@, self.omega@) by {
                        if k < old_out.len() {
                            assert(out@[k] == old_out[k]);
                        }
                    }
                    assert(views(out@).to_set() =~= n.g.stored().union(views(n.ot@.subrange(0, i + 1)).to_set())) by {
                        lemma_views_subrange_push(n.ot@, i as int);
                    }
                    i = i + 1;
                }
                assert(n.ot@.subrange(0, n.ot@.len() as int) =~= n.ot@);
                assert(views(out@).to_set() =~= self.stored());
                out
            },
        }
    }

    /// The generators of the group: the stored permutations other than the identity.
    pub fn generators(&self) -> (r: Vec<SlotMap>)
        requires
            self.wf(),
        ensures
            views(r@).to_set() == self.stored().remove(identity_map(self.omega@)),
            gens_ok(r@, self.omega@),
            distinct_views(r@),
    {
        let all = self.generators_impl();
        let id = SlotMap::identity(&self.omega);
        let mut out: Vec<SlotMap> = Vec::new();
        let mut i: usize = 0;
        while i < all.len()
            invariant
                0 <= i <= all@.len(),
                id.wf(),
                id@ == identity_map(self.omega@),
                gens_ok(all@, self.omega@),
                distinct_views(all@),
                gens_ok(out@, self.omega@),
                distinct_views(out@),
                views(out@).to_set() == views(all@.subrange(0, i as int)).to_set().remove(id@),
                forall|k: int| 0 <= k < out@.len() ==> exists|j: int| 0 <= j < i && #[trigger] all@[j]@ == #[trigger] out@[k]@,
            decreases all@.len() - i,
        {
            assert(all@[i as int].wf());
            proof {
                lemma_views_subrange_push(all@, i as int);
            }
            if !all[i].map_eq(&id) {
                let m = all[i].clone();
                let ghost old_out = out@;
                assert(!views(old_out).to_set().contains(m@)) by {
                    if views(old_out).to_set().contains(m@) {
                        let k = choose|k: int| 0 <= k < views(old_out).len() && views(old_out)[k] == m@;
                        assert(old_out[k]@ == m@);
                        let j = choose|j: int| 0 <= j < i && #[trigger] all@[j]@ == #[trigger] old_out[k]@;
                        assert(all@[j]@ == all@[i as int]@);
                    }
                }
                out.push(m);
                proof {
                    lemma_views_push_set(old_out, m);
                    assert forall|a: int, b: int|
                        #![trigger out@[a], out@[b]]
                        0 <= a < out@.len() && 0 <= b < out@.len() && a != b implies out@[a]@ != out@[b]@ by {
                        if a < old_out.len() && b < old_out.len() {
                            assert(out@[a] == old_out[a] && out@[b] == old_out[b]);
                        } else if a < old_out.len() {
                            assert(out@[a] == old_out[a]);
                            assert(views(old_out)[a] == old_out[a]@);
                        } else if b < old_out.len() {
                            assert(out@[b] == old_out[b]);
                            assert(views(old_out)[b] == old_out[b]@);
                        }
                    }
                    assert forall|k: int| 0 <= k < out@.len() implies #[trigger] out@[k].wf() && perm_of(out@[k]@, self.omega@) by {
                        if k < old_out.len() {
                            assert(out@[k] == old_out[k]);
                        }
                    }
                    assert forall|k: int| 0 <= k < out@.len() implies exists|j: int| 0 <= j < i + 1 && #[trigger] all@[j]@ == #[trigger] out@[k]@ by {
                        if k < old_out.len() {
                            assert(out@[k] == old_out[k]);
                            let j = choose|j: int| 0 <= j < i && #[trigger] all@[j]@ == #[trigger] old_out[k]@;
                        } else {
                            assert(all@[i as int]@ == out@[k]@);
                        }
                    }
                }
                assert(views(out@).to_set() =~= views(all@.subrange(0, i + 1)).to_set().remove(id@));
            } else {
                assert(views(out@).to_set() =~= views(all@.subrange(0, i + 1)).to_set().remove(id@));
            }
            i = i + 1;
        }
        assert(all@.subrange(0, all@.len() as int) =~= all@);
        out
    }

    /// The orbit of `s`: the smallest set of slots that holds `s` and the image of each of its
    /// slots under each generator.
    pub fn orbit(&self, s: Slot) -> (r: SlotSet)
        requires
            self.wf(),
        ensures
            r.wf(),
            r@.contains(s),
            closed_under(r@, self.stored().remove(identity_map(self.omega@))),
            forall|t: Set<Slot>|
                #[trigger] closed_under(t, self.stored().remove(identity_map(self.omega@))) && t.contains(s)
                    ==> r@.subset_of(t),
    {
        let gens = self.generators();
        let ghost gs = self.stored().remove(identity_map(self.omega@));
        let ghost u = self.omega@.insert(s).insert(Slot(u32::MAX as u64));
        proof {
            self.omega.lemma_len();
        }
        let mut orbit = SlotSet::new();
        orbit.insert(s);
        loop
            invariant
                self.wf(),
                gens_ok(gens@, self.omega@),
                views(gens@).to_set() == gs,
                gs == self.stored().remove(identity_map(self.omega@)),
                u == self.omega@.insert(s).insert(Slot(u32::MAX as u64)),
                u.finite(),
                orbit.wf(),
                orbit@.contains(s),
                orbit@.subset_of(u),
                forall|t: Set<Slot>| #[trigger] closed_under(t, gs) && t.contains(s) ==> orbit@.subset_of(t),
            decreases u.len() - orbit@.len(),
        {
            proof {
                orbit.lemma_len();
                vstd::set_lib::lemma_len_subset(orbit@, u);
            }
            let n = orbit.len();
            let snapshot = orbit.clone();
            let mut k: usize = 0;
            while k < snapshot.v.len()
                invariant
                    self.wf(),
                    gens_ok(gens@, self.omega@),
                    views(gens@).to_set() == gs,
                    u == self.omega@.insert(s).insert(Slot(u32::MAX as u64)),
                    snapshot.wf(),
                    snapshot.v@.to_set().subset_of(orbit@),
                    orbit.wf(),
                    orbit@.contains(s),
                    orbit@.subset_of(u),
                    0 <= k <= snapshot.v@.len(),
                    n == snapshot@.len(),
                    forall|t: Set<Slot>| #[trigger] closed_under(t, gs) && t.contains(s) ==> orbit@.subset_of(t),
                    orbit@ == snapshot@ ==> forall|kk: int, j: int|
                        0 <= kk < k && 0 <= j < gens@.len() ==> orbit@.contains(
                            apply_or_missing(#[trigger] gens@[j]@, #[trigger] snapshot.v@[kk]),
                        ),
                decreases snapshot.v@.len() - k,
            {
                let x = snapshot.v[k];
                let mut j: usize = 0;
                while j < gens.len()
                    invariant
                        self.wf(),
                        gens_ok(gens@, self.omega@),
                        views(gens@).to_set() == gs,
                        u == self.omega@.insert(s).insert(Slot(u32::MAX as u64)),
                        snapshot.wf(),
                        snapshot.v@.to_set().subset_of(orbit@),
                        orbit.wf(),
                        orbit@.contains(s),
                        orbit@.subset_of(u),
                        0 <= k < snapshot.v@.len(),
                        x == snapshot.v@[k as int],
                        0 <= j <= gens@.len(),
                        n == snapshot@.len(),
                        forall|t: Set<Slot>| #[trigger] closed_under(t, gs) && t.contains(s) ==> orbit@.subset_of(t),
                        orbit@ == snapshot@ ==> forall|kk: int, jj: int|
                            0 <= kk < k && 0 <= jj < gens@.len() ==> orbit@.contains(
                                apply_or_missing(#[trigger] gens@[jj]@, #[trigger] snapshot.v@[kk]),
                            ),
                        orbit@ == snapshot@ ==> forall|jj: int|
                            0 <= jj < j ==> orbit@.contains(apply_or_missing(#[trigger] gens@[jj]@, x)),
                    decreases gens@.len() - j,
                {
                    assert(gens@[j as int].wf());
                    let y = gens[j].index(x);
                    proof {
                        gens@[j as int].lemma_view();
                        assert(y == apply_or_missing(gens@[j as int]@, x));
                        assert(snapshot.v@.to_set().contains(x));
                        if self.omega@.contains(x) {
                            lemma_perm_maps_into(gens@[j as int]@, self.omega@, x);
                        }
                        assert(views(gens@)[j as int] == gens@[j as int]@);
                        assert(gs.contains(gens@[j as int]@));
                        assert forall|t: Set<Slot>| #[trigger] closed_under(t, gs) && t.contains(s) implies orbit@.insert(y).subset_of(t) by {
                            assert(t.contains(x));
                        }
                    }
                    let ghost before = orbit@;
                    orbit.insert(y);
                    proof {
                        if orbit@ == snapshot@ {
                            assert(before == snapshot@) by {
                                assert(before.subset_of(orbit@));
                                assert(snapshot@.subset_of(before));
                                assert(before =~= snapshot@);
                            }
                        }
                    }
                    j = j + 1;
                }
                k = k + 1;
            }
            if orbit.len() == n {
                proof {
                    orbit.lemma_len();
                    snapshot.lemma_len();
                    vstd::set_lib::lemma_len_subset(snapshot@, orbit@);
                    assert(snapshot@ =~= orbit@) by {
                        if !(orbit@.subset_of(snapshot@)) {
                            let z = choose|z: Slot| orbit@.contains(z) && !snapshot@.contains(z);
                            vstd::set_lib::lemma_len_subset(snapshot@.insert(z), orbit@);
                        }
                    }
                    assert forall|x: Slot, m: Map<Slot, Slot>|
                        #![trigger orbit@.contains(x), gs.contains(m)]
                        orbit@.contains(x) && gs.contains(m) implies orbit@.contains(apply_or_missing(m, x)) by {
                        let kk = choose|kk: int| 0 <= kk < snapshot.v@.len() && snapshot.v@[kk] == x;
                        let jj = choose|jj: int| 0 <= jj < views(gens@).len() && views(gens@)[jj] == m;
                        assert(gens@[jj]@ == m);
                    }
                }
                return orbit;
            }
            proof {
                orbit.lemma_len();
                snapshot.lemma_len();
                vstd::set_lib::lemma_len_subset(snapshot@, orbit@);
                vstd::set_lib::lemma_len_subset(orbit@, u);
            }
        }
    }

    /// Adds the permutations `ps` to the group; tells whether the group grew.
    pub fn add_set(&mut self, ps: Vec<SlotMap>) -> (r: bool)
        requires
            old(self).wf(),
            gens_ok(ps@, old(self).omega@),
        ensures
            final(self).wf(),
            final(self).omega@ == old(self).omega@,
            r == !(forall|i: int| 0 <= i < ps@.len() ==> old(self).member(#[trigger] ps@[i]@)),
            !r ==> *final(self) == *old(self),
            forall|i: int| 0 <= i < ps@.len() ==> final(self).member(#[trigger] ps@[i]@),
            old(self).stab_fixed() ==> final(self).stab_fixed(),
    {
        let mut i: usize = 0;
        let mut all_in = true;
        while i < ps.len()
            invariant
                0 <= i <= ps@.len(),
                self.wf(),
                gens_ok(ps@, self.omega@),
                all_in == (forall|k: int| 0 <= k < i ==> self.member(#[trigger] ps@[k]@)),
            decreases ps@.len() - i,
        {
            assert(ps@[i as int].wf());
            if !self.contains(&ps[i]) {
                all_in = false;
            }
            i = i + 1;
        }
        if all_in {
            return false;
        }
        let mut gens = self.generators();
        let ghost base = gens@.len();
        let mut j: usize = 0;
        while j < ps.len()
            invariant
                0 <= j <= ps@.len(),
                gens_ok(ps@, self.omega@),
                gens_ok(gens@, self.omega@),
                gens@.len() == base + j,
                forall|k: int| 0 <= k < j ==> #[trigger] gens@[base + k]@ == ps@[k]@,
            decreases ps@.len() - j,
        {
            assert(ps@[j as int].wf());
            let c = ps[j].clone();
            let ghost old_gens = gens@;
            gens.push(c);
            assert forall|k: int| 0 <= k < gens@.len() implies #[trigger] gens@[k].wf() && perm_of(gens@[k]@, self.omega@) by {
                if k < old_gens.len() {
                    assert(gens@[k] == old_gens[k]);
                } else {
                    assert(gens@[k]@ == ps@[j as int]@);
                }
            }
            assert forall|k: int| 0 <= k < j + 1 implies #[trigger] gens@[base + k]@ == ps@[k]@ by {
                if k < j {
                    assert(gens@[base + k] == old_gens[base + k]);
                }
            }
            j = j + 1;
        }
        let omega = self.omega.clone();
        let ghost all = gens@;
        *self = Group::new(&omega, gens);
        assert forall|i: int| 0 <= i < ps@.len() implies self.member(#[trigger] ps@[i]@) by {
            assert(self.member(all[base + i]@));
        }
        true
    }

    /// The number of elements of the group: the product of the orbit sizes, at least the
    /// number of distinct permutations that the chain stores. Where each level's subgroup
    /// fixes the slot the level stabilizes (as in every group built from generators), it is
    /// the number of permutations of `omega` that are members.
    pub fn count(&self) -> (r: usize)
        requires
            self.wf(),
            self.count_spec() <= usize::MAX,
        ensures
            r == self.count_spec(),
            self.stored().len() <= r,
            self.stab_fixed() ==> self.members().len() == r,
        decreases self,
    {
        proof {
            self.lemma_stored_within_count();
            if self.stab_fixed() {
                self.lemma_count_members();
            }
        }
        match &self.next {
            None => 1,
            Some(n) => {
                let a = n.ot.len();
                assert(n.g.count_spec() <= usize::MAX) by (nonlinear_arith)
                    requires
                        a >= 1,
                        a * n.g.count_spec() <= usize::MAX,
                ;
                let b = n.g.count();
                assert(a * b <= usize::MAX);
                a * b
            },
        }
    }
}

impl Next {
    /// One level of the stabilizer chain of the group generated by `generators`, stabilizing
    /// `stab`.
    pub fn new(stab: Slot, omega: &SlotSet, generators: Vec<SlotMap>) -> (r: Next)
        requires
            omega.wf(),
            gens_ok(generators@, omega@),
            moved(generators@, omega@).contains(stab),
        ensures
            r.wf_level(omega@),
            r.g.wf(),
            r.stab == stab,
            forall|m: Map<Slot, Slot>| #[trigger] views(r.ot@).to_set().contains(m) ==> respects(m, generators@, omega@),
            forall|m: Map<Slot, Slot>| #[trigger] r.g.stored().contains(m) ==> respects(m, generators@, omega@),
            forall|j: int| 0 <= j < generators@.len() ==> r.admits(#[trigger] generators@[j]@),
            r.g.stab_fixed(),
            forall|m: Map<Slot, Slot>| #[trigger] r.g.stored().contains(m) ==> m[stab] == stab,
        decreases moved(generators@, omega@).len(), 0int,
    {
        let ot = build_ot(stab, omega, &generators);
        let gens2 = schreiers_lemma(stab, omega, &ot, &generators);
        let ghost g2 = gens2@;
        proof {
            omega.lemma_len();
            let m1 = moved(generators@, omega@);
            let m2 = moved(gens2@, omega@);
            assert forall|q: Slot| m2.contains(q) implies m1.remove(stab).contains(q) by {
                if gens_fix(generators@, q) {
                    assert forall|i: int| 0 <= i < gens2@.len() implies #[trigger] gens2@[i]@[q] == q by {
                        assert(respects(gens2@[i]@, generators@, omega@));
                    }
                }
                if q == stab {
                    assert forall|i: int| 0 <= i < gens2@.len() implies #[trigger] gens2@[i]@[q] == q by {
                        assert(gens2@[i]@[stab] == stab);
                    }
                }
            }
            assert(m1.finite());
            vstd::set_lib::lemma_len_subset(m2, m1.remove(stab));
        }
        let g = Group::new(omega, gens2);
        proof {
            assert forall|m: Map<Slot, Slot>| #[trigger] g.stored().contains(m) implies respects(m, generators@, omega@) by {
                assert forall|q: Slot| omega@.contains(q) && #[trigger] gens_fix(generators@, q) implies m[q] == q by {
                    assert forall|i: int| 0 <= i < gens2@.len() implies #[trigger] gens2@[i]@[q] == q by {
                        assert(respects(gens2@[i]@, generators@, omega@));
                    }
                    assert(gens_fix(gens2@, q));
                }
            }
            assert(gens_fix(gens2@, stab)) by {
                assert forall|i: int| 0 <= i < gens2@.len() implies #[trigger] gens2@[i]@[stab] == stab by {
                    assert(gens2@[i]@[stab] == stab);
                }
            }
            assert forall|m: Map<Slot, Slot>| #[trigger] g.stored().contains(m) implies m[stab] == stab by {
                assert(respects(m, gens2@, omega@));
            }
            assert forall|m: Map<Slot, Slot>| #[trigger] views(ot@).to_set().contains(m) implies respects(m, generators@, omega@) by {
                let k = choose|k: int| 0 <= k < views(ot@).len() && views(ot@)[k] == m;
                assert(respects(ot@[k]@, generators@, omega@));
            }
        }
        let r = Next { stab, ot, g };
        proof {
            assert forall|j: int| 0 <= j < generators@.len() implies r.admits(#[trigger] generators@[j]@) by {
                let k = lemma_generator_divides(r.ot@, stab, omega@, generators@, g2, r.g, j);
                assert(r.ot@[k]@[r.stab] == generators@[j]@[r.stab]);
            }
        }
        r
    }
}

/// Going on with `o` after a permutation.
pub open spec fn then_by(o: Map<Slot, Slot>) -> spec_fn(Map<Slot, Slot>) -> Map<Slot, Slot> {
    |q: Map<Slot, Slot>| compose_partial_map(q, o)
}

/// The permutations `q` then `o`, for each `q` of `qs`.
pub open spec fn then_each(qs: Set<Map<Slot, Slot>>, o: Map<Slot, Slot>) -> Set<Map<Slot, Slot>> {
    qs.map(then_by(o))
}

/// The union of `then_each(qs, ot[k])` over the first `i` entries `k` of the orbit tree.
pub open spec fn cosets_upto(qs: Set<Map<Slot, Slot>>, ot: Seq<SlotMap>, i: nat) -> Set<Map<Slot, Slot>>
    decreases i,
{
    if i == 0 {
        Set::empty()
    } else {
        cosets_upto(qs, ot, (i - 1) as nat) + then_each(qs, ot[i - 1]@)
    }
}

/// `q` then `o` sends `x` where `o` sends what `q` sends `x` to.
proof fn lemma_then_at(q: Map<Slot, Slot>, o: Map<Slot, Slot>, omega: Set<Slot>, x: Slot)
    requires
        perm_of(q, omega),
        perm_of(o, omega),
        omega.contains(x),
    ensures
        compose_partial_map(q, o).contains_key(x),
        compose_partial_map(q, o)[x] == o[q[x]],
{
    lemma_compose_dom(q, o);
    lemma_perm_maps_into(q, omega, x);
    assert(q.contains_key(x) && o.contains_key(q[x]));
    assert(compose_partial_map(q, o).contains_key(x));
}

/// Going on with a permutation tells the permutations before it apart.
proof fn lemma_then_injective(qs: Set<Map<Slot, Slot>>, o: Map<Slot, Slot>, omega: Set<Slot>)
    requires
        perm_of(o, omega),
        forall|q: Map<Slot, Slot>| #[trigger] qs.contains(q) ==> perm_of(q, omega),
    ensures
        vstd::relations::injective_on(then_by(o), qs),
{
    let f = then_by(o);
    assert forall|q1: Map<Slot, Slot>, q2: Map<Slot, Slot>|
        qs.contains(q1) && qs.contains(q2) && #[trigger] f(q1) == #[trigger] f(q2) implies q1 == q2 by {
        assert forall|x: Slot| omega.contains(x) implies q1[x] == q2[x] by {
            lemma_then_at(q1, o, omega, x);
            lemma_then_at(q2, o, omega, x);
            lemma_perm_maps_into(q1, omega, x);
            lemma_perm_maps_into(q2, omega, x);
            assert(o[q1[x]] == o[q2[x]]);
        }
        assert(q1 =~= q2);
    }
}

/// A member of `then_each(qs, o)` sends `stab` where `o` does, where every `q` fixes it.
proof fn lemma_then_stab(qs: Set<Map<Slot, Slot>>, o: Map<Slot, Slot>, omega: Set<Slot>, stab: Slot, p: Map<Slot, Slot>)
    requires
        perm_of(o, omega),
        omega.contains(stab),
        forall|q: Map<Slot, Slot>| #[trigger] qs.contains(q) ==> perm_of(q, omega) && q[stab] == stab,
        then_each(qs, o).contains(p),
    ensures
        p[stab] == o[stab],
        perm_of(p, omega),
{
    let q = choose|q: Map<Slot, Slot>| qs.contains(q) && p == compose_partial_map(q, o);
    lemma_then_at(q, o, omega, stab);
    lemma_perm_compose(q, o, omega);
}

/// Something in the first `i` cosets is in one of them.
proof fn lemma_cosets_member(qs: Set<Map<Slot, Slot>>, ot: Seq<SlotMap>, i: nat, p: Map<Slot, Slot>) -> (k: int)
    requires
        cosets_upto(qs, ot, i).contains(p),
    ensures
        0 <= k < i,
        then_each(qs, ot[k]@).contains(p),
    decreases i,
{
    if cosets_upto(qs, ot, (i - 1) as nat).contains(p) {
        lemma_cosets_member(qs, ot, (i - 1) as nat, p)
    } else {
        (i - 1) as int
    }
}

/// The first `i` cosets hold `i` times as many permutations as `qs`.
proof fn lemma_cosets_len(qs: Set<Map<Slot, Slot>>, ot: Seq<SlotMap>, omega: Set<Slot>, stab: Slot, i: nat)
    requires
        qs.finite(),
        i <= ot.len(),
        omega.contains(stab),
        gens_ok(ot, omega),
        forall|q: Map<Slot, Slot>| #[trigger] qs.contains(q) ==> perm_of(q, omega) && q[stab] == stab,
        forall|a: int, b: int|
            #![trigger ot[a], ot[b]]
            0 <= a < ot.len() && 0 <= b < ot.len() && a != b ==> ot[a]@[stab] != ot[b]@[stab],
    ensures
        cosets_upto(qs, ot, i).finite(),
        cosets_upto(qs, ot, i).len() == i * qs.len(),
    decreases i,
{
    if i > 0 {
        let prev = cosets_upto(qs, ot, (i - 1) as nat);
        lemma_cosets_len(qs, ot, omega, stab, (i - 1) as nat);
        let o = ot[i - 1]@;
        assert(ot[i - 1].wf());
        assert(perm_of(o, omega));
        let part = then_each(qs, o);
        lemma_then_injective(qs, o, omega);
        vstd::set_lib::lemma_map_size(qs, part, then_by(o));
        assert(prev.disjoint(part)) by {
            assert forall|p: Map<Slot, Slot>| prev.contains(p) implies !part.contains(p) by {
                let k = lemma_cosets_member(qs, ot, (i - 1) as nat, p);
                assert(ot[k].wf());
                assert(perm_of(ot[k]@, omega));
                lemma_then_stab(qs, ot[k]@, omega, stab, p);
                if part.contains(p) {
                    lemma_then_stab(qs, o, omega, stab, p);
                    assert(ot[k]@[stab] != ot[i - 1]@[stab]);
                }
            }
        }
        vstd::set_lib::lemma_set_disjoint_lens(prev, part);
        assert(cosets_upto(qs, ot, i) == prev + part);
        assert((prev + part).len() == prev.len() + part.len());
        assert(part.len() == qs.len());
        let c = qs.len();
        assert((i - 1) * c + c == i * c) by (nonlinear_arith);
    } else {
        assert(cosets_upto(qs, ot, i) =~= Set::<Map<Slot, Slot>>::empty());
        assert(i * qs.len() == 0) by (nonlinear_arith)
            requires
                i == 0,
        ;
    }
}

/// A coset among the first `i` lies in their union.
proof fn lemma_cosets_contains(qs: Set<Map<Slot, Slot>>, ot: Seq<SlotMap>, i: nat, k: int, p: Map<Slot, Slot>)
    requires
        0 <= k < i,
        then_each(qs, ot[k]@).contains(p),
    ensures
        cosets_upto(qs, ot, i).contains(p),
    decreases i,
{
    if k < i - 1 {
        lemma_cosets_contains(qs, ot, (i - 1) as nat, k, p);
    }
}

/// A permutation undoes its inverse.
proof fn lemma_inverse_then(o: Map<Slot, Slot>, omega: Set<Slot>, y: Slot)
    requires
        perm_of(o, omega),
        omega.contains(y),
    ensures
        omega.contains(inverse_map(o)[y]),
        o[inverse_map(o)[y]] == y,
{
    crate::slotmap::lemma_image(o);
    lemma_perm_inverse(o, omega);
    assert(crate::slotmap::values_of(o).contains(y));
    let x0 = choose|x0: Slot| o.contains_key(x0) && #[trigger] o[x0] == y;
    assert(inverse_map(o)[o[x0]] == x0);
}

/// `v` without repetition of equal maps.
pub open spec fn distinct_views(v: Seq<SlotMap>) -> bool {
    forall|i: int, j: int|
        #![trigger v[i], v[j]]
        0 <= i < v.len() && 0 <= j < v.len() && i != j ==> v[i]@ != v[j]@
}

/// Adds `m` to `v` unless an equal map is already there.
pub fn push_unique(v: &mut Vec<SlotMap>, m: SlotMap)
    requires
        m.wf(),
        forall|i: int| 0 <= i < old(v)@.len() ==> #[trigger] old(v)@[i].wf(),
    ensures
        forall|i: int| 0 <= i < final(v)@.len() ==> #[trigger] final(v)@[i].wf(),
        final(v)@ == old(v)@ || final(v)@ == old(v)@.push(m),
        exists|k: int| 0 <= k < final(v)@.len() && #[trigger] final(v)@[k]@ == m@,
        distinct_views(old(v)@) ==> distinct_views(final(v)@),
        views(final(v)@).to_set() == views(old(v)@).to_set().insert(m@),
{
    let mut i: usize = 0;
    while i < v.len()
        invariant
            0 <= i <= v@.len(),
            v@ == old(v)@,
            m.wf(),
            forall|i: int| 0 <= i < v@.len() ==> #[trigger] v@[i].wf(),
            forall|k: int| 0 <= k < i ==> #[trigger] v@[k]@ != m@,
        decreases v@.len() - i,
    {
        if v[i].map_eq(&m) {
            assert(views(v@)[i as int] == m@);
            assert(views(v@).to_set() =~= views(v@).to_set().insert(m@));
            return;
        }
        i = i + 1;
    }
    let ghost old_v = v@;
    let ghost mm = m;
    v.push(m);
    assert(v@[v@.len() - 1]@ == mm@);
    proof {
        lemma_views_push_set(old_v, mm);
    }
    assert forall|a: int, b: int|
        #![trigger v@[a], v@[b]]
        distinct_views(old_v) && 0 <= a < v@.len() && 0 <= b < v@.len() && a != b implies v@[a]@ != v@[b]@ by {
        if a < old_v.len() && b < old_v.len() {
            assert(v@[a] == old_v[a] && v@[b] == old_v[b]);
        } else if a < old_v.len() {
            assert(v@[a] == old_v[a]);
        } else if b < old_v.len() {
            assert(v@[b] == old_v[b]);
        }
    }
}

pub proof fn lemma_views_push_set(s: Seq<SlotMap>, m: SlotMap)
    ensures
        views(s.push(m)).to_set() == views(s).to_set().insert(m@),
{
    assert(views(s.push(m)) =~= views(s).push(m@));
    crate::slotset::lemma_push_contains(views(s), m@);
    assert(views(s.push(m)).to_set() =~= views(s).to_set().insert(m@));
}

pub proof fn lemma_views_subrange_push(s: Seq<SlotMap>, i: int)
    requires
        0 <= i < s.len(),
    ensures
        views(s.subrange(0, i + 1)).to_set() == views(s.subrange(0, i)).to_set().insert(s[i]@),
{
    assert(s.subrange(0, i + 1) =~= s.subrange(0, i).push(s[i]));
    lemma_views_push_set(s.subrange(0, i), s[i]);
}

/// The orbit tree invariant: well-formed permutations of `omega`, the identity first,
/// pairwise different images of `stab`, each fixing what all generators fix.
pub open spec fn ot_inv(ot: Seq<SlotMap>, stab: Slot, omega: Set<Slot>, gens: Seq<SlotMap>) -> bool {
    &&& gens_ok(ot, omega)
    &&& ot.len() > 0
    &&& ot[0]@ == identity_map(omega)
    &&& forall|i: int, j: int|
        #![trigger ot[i], ot[j]]
        0 <= i < ot.len() && 0 <= j < ot.len() && i != j ==> ot[i]@[stab] != ot[j]@[stab]
    &&& forall|i: int| 0 <= i < ot.len() ==> respects(#[trigger] ot[i]@, gens, omega)
}

proof fn lemma_ot_has_prefix(a: Seq<SlotMap>, b: Seq<SlotMap>, stab: Slot, y: Slot)
    requires
        a.len() <= b.len(),
        a == b.subrange(0, a.len() as int),
        ot_has(a, stab, y),
    ensures
        ot_has(b, stab, y),
{
    let k = choose|k: int| 0 <= k < a.len() && #[trigger] a[k]@[stab] == y;
    assert(b[k] == a[k]);
}

/// Makes sure the orbit tree has an entry for the slot that `generators[j]` sends the image
/// of entry `i` to, adding `ot[i] generators[j]` where there is none.
fn extend_ot(ot: &mut Vec<SlotMap>, stab: Slot, omega: &SlotSet, generators: &Vec<SlotMap>, j: usize, i: usize)
    requires
        omega.wf(),
        omega@.contains(stab),
        gens_ok(generators@, omega@),
        ot_inv(old(ot)@, stab, omega@, generators@),
        j < generators@.len(),
        i < old(ot)@.len(),
    ensures
        ot_inv(final(ot)@, stab, omega@, generators@),
        old(ot)@.len() <= final(ot)@.len(),
        old(ot)@ == final(ot)@.subrange(0, old(ot)@.len() as int),
        ot_has(final(ot)@, stab, generators@[j as int]@[final(ot)@[i as int]@[stab]]),
{
    let ghost old_ot = ot@;
    let g = &generators[j];
    let v = &ot[i];
    proof {
        assert(ot@[i as int].wf());
        assert(generators@[j as int].wf());
        lemma_perm_compose(v@, g@, omega@);
        lemma_perm_maps_into(v@, omega@, stab);
    }
    let new = v.compose(g);
    let target = new.index(stab);
    assert(target == g@[ot@[i as int]@[stab]]);
    match find_entry(&ot, stab, target) {
        Some(k) => {
            assert(ot@.subrange(0, ot@.len() as int) =~= ot@);
            assert(ot@[k as int]@[stab] == target);
        },
        None => {
            assert(respects(new@, generators@, omega@)) by {
                assert forall|q: Slot| omega@.contains(q) && #[trigger] gens_fix(generators@, q) implies new@[q] == q by {
                    assert(respects(old_ot[i as int]@, generators@, omega@));
                    assert(g@[q] == q);
                }
            }
            ot.push(new);
            assert(ot@[ot@.len() - 1]@[stab] == target);
            assert forall|a: int, b: int|
                #![trigger ot@[a], ot@[b]]
                0 <= a < ot@.len() && 0 <= b < ot@.len() && a != b implies ot@[a]@[stab]
                    != ot@[b]@[stab] by {
                if a < old_ot.len() && b < old_ot.len() {
                    assert(old_ot[a] == ot@[a] && old_ot[b] == ot@[b]);
                } else if a < old_ot.len() {
                    assert(old_ot[a] == ot@[a]);
                    assert(old_ot[a].wf());
                    assert(old_ot[a]@.contains_key(stab));
                } else if b < old_ot.len() {
                    assert(old_ot[b] == ot@[b]);
                    assert(old_ot[b].wf());
                    assert(old_ot[b]@.contains_key(stab));
                }
            }
            assert(ot@.subrange(0, old_ot.len() as int) =~= old_ot);
            assert(ot_has(ot@, stab, target));
        },
    }
}

/// The orbit tree of `stab`: one permutation for each slot of the orbit, mapping `stab` there.
pub fn build_ot(stab: Slot, omega: &SlotSet, generators: &Vec<SlotMap>) -> (ot: Vec<SlotMap>)
    requires
        omega.wf(),
        omega@.contains(stab),
        gens_ok(generators@, omega@),
    ensures
        ot_inv(ot@, stab, omega@, generators@),
        forall|i: int, j: int|
            0 <= i < ot@.len() && 0 <= j < generators@.len() ==> ot_has(
                ot@,
                stab,
                #[trigger] generators@[j]@[#[trigger] ot@[i]@[stab]],
            ),
{
    let mut ot: Vec<SlotMap> = Vec::new();
    let id = SlotMap::identity(omega);
    proof {
        id.lemma_view();
        assert(perm_of(id@, omega@)) by {
            assert forall|x: Slot, y: Slot|
                #![trigger id@[x], id@[y]]
                id@.contains_key(x) && id@.contains_key(y) && x != y implies id@[x] != id@[y] by {}
            crate::slotmap::lemma_identity_image(omega@);
        }
    }
    ot.push(id);
    let ghost n = omega@.len();
    proof {
        omega.lemma_len();
    }
    loop
        invariant
            omega.wf(),
            omega@.contains(stab),
            n == omega@.len(),
            omega@.finite(),
            gens_ok(generators@, omega@),
            ot_inv(ot@, stab, omega@, generators@),
        decreases n - ot@.len(),
    {
        proof {
            lemma_ot_len(ot@, stab, omega@);
        }
        let before = ot.len();
        let mut j: usize = 0;
        while j < generators.len()
            invariant
                omega.wf(),
                omega@.contains(stab),
                gens_ok(generators@, omega@),
                ot_inv(ot@, stab, omega@, generators@),
                before <= ot@.len(),
                0 <= j <= generators@.len(),
                forall|i: int, jj: int|
                    0 <= i < before && 0 <= jj < j ==> ot_has(
                        ot@,
                        stab,
                        #[trigger] generators@[jj]@[#[trigger] ot@[i]@[stab]],
                    ),
            decreases generators@.len() - j,
        {
            let snap = ot.len();
            let mut i: usize = 0;
            while i < snap
                invariant
                    omega.wf(),
                    omega@.contains(stab),
                    gens_ok(generators@, omega@),
                    ot_inv(ot@, stab, omega@, generators@),
                    0 <= j < generators@.len(),
                    before <= snap <= ot@.len(),
                    0 <= i <= snap,
                    forall|i: int, jj: int|
                        0 <= i < before && 0 <= jj < j ==> ot_has(
                            ot@,
                            stab,
                            #[trigger] generators@[jj]@[#[trigger] ot@[i]@[stab]],
                        ),
                    forall|i2: int|
                        0 <= i2 < i ==> ot_has(ot@, stab, generators@[j as int]@[#[trigger] ot@[i2]@[stab]]),
                decreases snap - i,
            {
                let ghost prev = ot@;
                extend_ot(&mut ot, stab, omega, generators, j, i);
                assert forall|i2: int, jj: int|
                    0 <= i2 < before && 0 <= jj < j implies ot_has(
                        ot@,
                        stab,
                        #[trigger] generators@[jj]@[#[trigger] ot@[i2]@[stab]],
                    ) by {
                    assert(prev[i2] == ot@[i2]);
                    lemma_ot_has_prefix(prev, ot@, stab, generators@[jj]@[prev[i2]@[stab]]);
                }
                assert forall|i2: int|
                    0 <= i2 < i + 1 implies ot_has(ot@, stab, generators@[j as int]@[#[trigger] ot@[i2]@[stab]]) by {
                    if i2 < i {
                        assert(prev[i2] == ot@[i2]);
                        lemma_ot_has_prefix(prev, ot@, stab, generators@[j as int]@[prev[i2]@[stab]]);
                    }
                }
                i = i + 1;
            }
            j = j + 1;
        }
        proof {
            lemma_ot_len(ot@, stab, omega@);
        }
        if ot.len() == before {
            return ot;
        }
    }
}

/// The number of orbit tree entries is at most the number of slots.
proof fn lemma_ot_len(ot: Seq<SlotMap>, stab: Slot, omega: Set<Slot>)
    requires
        omega.finite(),
        omega.contains(stab),
        gens_ok(ot, omega),
        forall|i: int, j: int|
            #![trigger ot[i], ot[j]]
            0 <= i < ot.len() && 0 <= j < ot.len() && i != j ==> ot[i]@[stab] != ot[j]@[stab],
    ensures
        ot.len() <= omega.len(),
{
    let imgs = Seq::new(ot.len(), |i: int| ot[i]@[stab]);
    assert(imgs.no_duplicates()) by {
        assert forall|i: int, j: int| 0 <= i < imgs.len() && 0 <= j < imgs.len() && i != j implies imgs[i] != imgs[j] by {
            assert(ot[i]@[stab] != ot[j]@[stab]);
        }
    }
    assert forall|x: Slot| imgs.to_set().contains(x) implies omega.contains(x) by {
        let i = choose|i: int| 0 <= i < imgs.len() && imgs[i] == x;
        assert(ot[i].wf() && perm_of(ot[i]@, omega));
        lemma_perm_maps_into(ot[i]@, omega, stab);
    }
    imgs.unique_seq_to_set();
    vstd::set_lib::lemma_len_subset(imgs.to_set(), omega);
}

/// The Schreier generator `ot[i] gens[j] (ot[k])^-1`.
pub open spec fn schreier_view(ot: Seq<SlotMap>, gens: Seq<SlotMap>, i: int, j: int, k: int) -> Map<Slot, Slot> {
    compose_partial_map(compose_partial_map(ot[i]@, gens[j]@), inverse_map(ot[k]@))
}

/// For every orbit tree entry `i < ni`, generator `j` and entry `k` for the slot that
/// `ot[i] gens[j]` sends `stab` to (for `i == ni`, only the generators `j < nj`), the Schreier
/// generator is among `out`.
pub open spec fn schreier_covers(out: Seq<SlotMap>, ot: Seq<SlotMap>, gens: Seq<SlotMap>, stab: Slot, ni: int, nj: int) -> bool {
    forall|i: int, j: int, k: int|
        #![trigger schreier_view(ot, gens, i, j, k)]
        0 <= i < ot.len() && 0 <= j < gens.len() && 0 <= k < ot.len() && (i < ni || (i == ni && j < nj))
            && ot[k]@[stab] == compose_partial_map(ot[i]@, gens[j]@)[stab]
            ==> views(out).to_set().contains(schreier_view(ot, gens, i, j, k))
}

/// The invariant of the Schreier generators collected so far.
pub open spec fn schreier_inv(out: Seq<SlotMap>, stab: Slot, omega: Set<Slot>, gens: Seq<SlotMap>) -> bool {
    &&& gens_ok(out, omega)
    &&& distinct_views(out)
    &&& forall|i: int| 0 <= i < out.len() ==> #[trigger] out[i]@[stab] == stab
    &&& forall|i: int| 0 <= i < out.len() ==> respects(#[trigger] out[i]@, gens, omega)
}

/// The Schreier generator `r s (r')^-1` for the orbit tree entry `ot[i]` and the generator
/// `generators[j]`, where `r'` is the entry for the slot that `r s` sends `stab` to, if
/// the orbit tree has one.
fn schreier_generator(stab: Slot, omega: &SlotSet, ot: &Vec<SlotMap>, generators: &Vec<SlotMap>, i: usize, j: usize) -> (r: Option<SlotMap>)
    requires
        omega.wf(),
        omega@.contains(stab),
        gens_ok(ot@, omega@),
        gens_ok(generators@, omega@),
        forall|i: int| 0 <= i < ot@.len() ==> respects(#[trigger] ot@[i]@, generators@, omega@),
        forall|a: int, b: int| #![trigger ot@[a], ot@[b]] 0 <= a < ot@.len() && 0 <= b < ot@.len() && a != b ==> ot@[a]@[stab] != ot@[b]@[stab],
        i < ot@.len(),
        j < generators@.len(),
    ensures
        r matches Some(m) ==> m.wf() && perm_of(m@, omega@) && m@[stab] == stab && respects(m@, generators@, omega@),
        forall|k: int| 0 <= k < ot@.len() && #[trigger] ot@[k]@[stab] == compose_partial_map(ot@[i as int]@, generators@[j as int]@)[stab]
            ==> (r matches Some(m) && m@ == schreier_view(ot@, generators@, i as int, j as int, k)),
{
    let r = &ot[i];
    let s = &generators[j];
    proof {
        assert(ot@[i as int].wf());
        assert(generators@[j as int].wf());
        lemma_perm_compose(r@, s@, omega@);
    }
    let rs = r.compose(s);
    proof {
        lemma_perm_maps_into(rs@, omega@, stab);
    }
    let y = rs.index(stab);
    proof {
        rs.lemma_view();
    }
    match find_entry(ot, stab, y) {
        None => {
            assert forall|k: int| 0 <= k < ot@.len() && #[trigger] ot@[k]@[stab] == compose_partial_map(ot@[i as int]@, generators@[j as int]@)[stab] implies false by {
                assert(ot@[k].wf());
                lemma_perm_maps_into(ot@[k]@, omega@, stab);
            }
            None
        },
        Some(k) => {
            let rs2 = &ot[k];
            proof {
                assert(ot@[k as int].wf());
                lemma_perm_inverse(rs2@, omega@);
            }
            let rs2_inv = rs2.inverse();
            proof {
                lemma_perm_compose(rs@, rs2_inv@, omega@);
            }
            let m = rs.compose(&rs2_inv);
            proof {
                lemma_schreier_respects(r@, s@, rs2@, m@, omega@, generators@);
                assert forall|k2: int| 0 <= k2 < ot@.len() && #[trigger] ot@[k2]@[stab] == compose_partial_map(ot@[i as int]@, generators@[j as int]@)[stab] implies m@ == schreier_view(ot@, generators@, i as int, j as int, k2) by {
                    if k2 != k {
                        assert(ot@[k2]@[stab] != ot@[k as int]@[stab]);
                    }
                }
            }
            Some(m)
        },
    }
}

proof fn lemma_schreier_respects(
    r: Map<Slot, Slot>,
    s: Map<Slot, Slot>,
    r2: Map<Slot, Slot>,
    m: Map<Slot, Slot>,
    omega: Set<Slot>,
    gens: Seq<SlotMap>,
)
    requires
        respects(r, gens, omega),
        respects(r2, gens, omega),
        perm_of(r2, omega),
        forall|q: Slot| omega.contains(q) && gens_fix(gens, q) ==> s[q] == q,
        forall|q: Slot| omega.contains(q) ==> #[trigger] m[q] == inverse_map(r2)[s[r[q]]],
    ensures
        respects(m, gens, omega),
{
    lemma_perm_inverse(r2, omega);
    assert forall|q: Slot| omega.contains(q) && #[trigger] gens_fix(gens, q) implies m[q] == q by {
        assert(r[q] == q);
        assert(r2[q] == q);
        assert(inverse_map(r2)[q] == q);
    }
}

/// Adds the Schreier generator for the orbit tree entry `ot[i]` and the generator
/// `generators[j]`, if there is one.
fn schreier_step(out: &mut Vec<SlotMap>, stab: Slot, omega: &SlotSet, ot: &Vec<SlotMap>, generators: &Vec<SlotMap>, i: usize, j: usize)
    requires
        omega.wf(),
        omega@.contains(stab),
        gens_ok(ot@, omega@),
        gens_ok(generators@, omega@),
        forall|i: int| 0 <= i < ot@.len() ==> respects(#[trigger] ot@[i]@, generators@, omega@),
        forall|a: int, b: int| #![trigger ot@[a], ot@[b]] 0 <= a < ot@.len() && 0 <= b < ot@.len() && a != b ==> ot@[a]@[stab] != ot@[b]@[stab],
        i < ot@.len(),
        j < generators@.len(),
        schreier_inv(old(out)@, stab, omega@, generators@),
    ensures
        schreier_inv(final(out)@, stab, omega@, generators@),
        views(old(out)@).to_set().subset_of(views(final(out)@).to_set()),
        forall|k: int| 0 <= k < ot@.len() && #[trigger] ot@[k]@[stab] == compose_partial_map(ot@[i as int]@, generators@[j as int]@)[stab]
            ==> views(final(out)@).to_set().contains(schreier_view(ot@, generators@, i as int, j as int, k)),
{
    match schreier_generator(stab, omega, ot, generators, i, j) {
        None => {},
        Some(m) => {
            let ghost old_out = out@;
            let ghost mv = m@;
            push_unique(out, m);
            assert(views(out@).to_set() == views(old_out).to_set().insert(mv));
            assert forall|i: int| 0 <= i < out@.len() implies #[trigger] out@[i].wf() && perm_of(out@[i]@, omega@) && out@[i]@[stab] == stab && respects(out@[i]@, generators@, omega@) by {
                if i < old_out.len() {
                    assert(out@[i] == old_out[i]);
                }
            }
        },
    }
}

/// Extends the generators by Schreier's lemma: the permutations `r s (r')^-1`, where `r` is
/// an orbit tree entry, `s` a generator and `r'` the orbit tree entry for the slot that
/// `r s` sends `stab` to. They all fix `stab`.
pub fn schreiers_lemma(stab: Slot, omega: &SlotSet, ot: &Vec<SlotMap>, generators: &Vec<SlotMap>) -> (out: Vec<SlotMap>)
    requires
        omega.wf(),
        omega@.contains(stab),
        gens_ok(ot@, omega@),
        gens_ok(generators@, omega@),
        forall|i: int| 0 <= i < ot@.len() ==> respects(#[trigger] ot@[i]@, generators@, omega@),
        forall|a: int, b: int| #![trigger ot@[a], ot@[b]] 0 <= a < ot@.len() && 0 <= b < ot@.len() && a != b ==> ot@[a]@[stab] != ot@[b]@[stab],
    ensures
        schreier_inv(out@, stab, omega@, generators@),
        schreier_covers(out@, ot@, generators@, stab, ot@.len() as int, 0),
{
    let mut out: Vec<SlotMap> = Vec::new();
    let mut i: usize = 0;
    while i < ot.len()
        invariant
            omega.wf(),
            omega@.contains(stab),
            gens_ok(ot@, omega@),
            gens_ok(generators@, omega@),
            forall|i: int| 0 <= i < ot@.len() ==> respects(#[trigger] ot@[i]@, generators@, omega@),
            forall|a: int, b: int| #![trigger ot@[a], ot@[b]] 0 <= a < ot@.len() && 0 <= b < ot@.len() && a != b ==> ot@[a]@[stab] != ot@[b]@[stab],
            0 <= i <= ot@.len(),
            schreier_inv(out@, stab, omega@, generators@),
            schreier_covers(out@, ot@, generators@, stab, i as int, 0),
        decreases ot@.len() - i,
    {
        let mut j: usize = 0;
        while j < generators.len()
            invariant
                omega.wf(),
                omega@.contains(stab),
                gens_ok(ot@, omega@),
                gens_ok(generators@, omega@),
                forall|i: int| 0 <= i < ot@.len() ==> respects(#[trigger] ot@[i]@, generators@, omega@),
                forall|a: int, b: int| #![trigger ot@[a], ot@[b]] 0 <= a < ot@.len() && 0 <= b < ot@.len() && a != b ==> ot@[a]@[stab] != ot@[b]@[stab],
                0 <= i < ot@.len(),
                0 <= j <= generators@.len(),
                schreier_inv(out@, stab, omega@, generators@),
                schreier_covers(out@, ot@, generators@, stab, i as int, j as int),
            decreases generators@.len() - j,
        {
            let ghost before = out@;
            schreier_step(&mut out, stab, omega, ot, generators, i, j);
            assert forall|a: int, b: int, k: int|
                0 <= a < ot@.len() && 0 <= b < generators@.len() && 0 <= k < ot@.len() && (a < i || (a == i && b < j + 1))
                    && ot@[k]@[stab] == compose_partial_map(ot@[a]@, generators@[b]@)[stab]
                implies views(out@).to_set().contains(#[trigger] schreier_view(ot@, generators@, a, b, k)) by {
                if a < i || b < j {
                    assert(views(before).to_set().contains(schreier_view(ot@, generators@, a, b, k)));
                }
            }
            j = j + 1;
        }
        assert forall|a: int, b: int, k: int|
            0 <= a < ot@.len() && 0 <= b < generators@.len() && 0 <= k < ot@.len() && (a < i + 1 || (a == i + 1 && b < 0))
                && ot@[k]@[stab] == compose_partial_map(ot@[a]@, generators@[b]@)[stab]
            implies views(out@).to_set().contains(#[trigger] schreier_view(ot@, generators@, a, b, k)) by {
        }
        i = i + 1;
    }
    out
}

/// The first position of `ot` whose entry maps `stab` to `y`.
pub fn find_entry(ot: &Vec<SlotMap>, stab: Slot, y: Slot) -> (r: Option<usize>)
    requires
        forall|i: int| 0 <= i < ot@.len() ==> #[trigger] ot@[i].wf(),
    ensures
        r matches Some(k) ==> k < ot@.len() && ot@[k as int]@.contains_key(stab) && ot@[k as int]@[stab]
            == y,
        r is None ==> forall|k: int|
            0 <= k < ot@.len() && ot@[k]@.contains_key(stab) ==> #[trigger] ot@[k]@[stab] != y,
{
    let mut i: usize = 0;
    while i < ot.len()
        invariant
            0 <= i <= ot@.len(),
            forall|i: int| 0 <= i < ot@.len() ==> #[trigger] ot@[i].wf(),
            forall|k: int|
                0 <= k < i && ot@[k]@.contains_key(stab) ==> #[trigger] ot@[k]@[stab] != y,
        decreases ot@.len() - i,
    {
        match ot[i].get(stab) {
            Some(v) => {
                if v == y {
                    return Some(i);
                }
            },
            None => {},
        }
        i = i + 1;
    }
    None
}

/// The lowest slot (by number) that at least one of the generators moves.
pub fn find_lowest_nonstab(omega: &SlotSet, generators: &Vec<SlotMap>) -> (r: Option<Slot>)
    requires
        omega.wf(),
        gens_ok(generators@, omega@),
    ensures
        r is None <==> moved(generators@, omega@) == Set::<Slot>::empty(),
        r matches Some(s) ==> moved(generators@, omega@).contains(s) && forall|t: Slot|
            #[trigger] moved(generators@, omega@).contains(t) ==> s.0 <= t.0,
{
    let mut min: Option<Slot> = None;
    let mut gi: usize = 0;
    while gi < generators.len()
        invariant
            0 <= gi <= generators@.len(),
            gens_ok(generators@, omega@),
            min matches Some(s) ==> omega@.contains(s) && exists|j: int|
                0 <= j < gi && #[trigger] generators@[j]@[s] != s,
            forall|j: int, t: Slot|
                0 <= j < gi && omega@.contains(t) && #[trigger] generators@[j]@[t] != t ==> (min matches Some(
                    s,
                ) && s.0 <= t.0),
        decreases generators@.len() - gi,
    {
        let g = &generators[gi];
        proof {
            g.lemma_view();
            assert(generators@[gi as int].wf());
        }
        let mut xi: usize = 0;
        while xi < g.keys.len()
            invariant
                0 <= xi <= g.keys@.len(),
                0 <= gi < generators@.len(),
                g == generators@[gi as int],
                g.wf(),
                perm_of(g@, omega@),
                min matches Some(s) ==> omega@.contains(s) && exists|j: int|
                    0 <= j <= gi && #[trigger] generators@[j]@[s] != s,
                forall|j: int, t: Slot|
                    0 <= j < gi && omega@.contains(t) && #[trigger] generators@[j]@[t] != t ==> (min matches Some(
                        s,
                    ) && s.0 <= t.0),
                forall|k: int|
                    0 <= k < xi && g@[#[trigger] g.keys@[k]] != g.keys@[k] ==> (min matches Some(s)
                        && s.0 <= g.keys@[k].0),
            decreases g.keys@.len() - xi,
        {
            proof {
                g.lemma_view();
            }
            let x = g.keys[xi];
            let y = g.vals[xi];
            if x != y {
                let better = match min {
                    None => true,
                    Some(m) => x.0 < m.0,
                };
                if better {
                    min = Some(x);
                }
            }
            xi = xi + 1;
        }
        proof {
            g.lemma_view();
            assert forall|j: int, t: Slot|
                0 <= j < gi + 1 && omega@.contains(t) && #[trigger] generators@[j]@[t] != t implies (min matches Some(
                s,
            ) && s.0 <= t.0) by {
                if j == gi {
                    assert(g@.contains_key(t));
                    let k = g.keys@.index_of(t);
                    assert(g.keys@[k] == t);
                }
            }
        }
        gi = gi + 1;
    }
    proof {
        match min {
            None => {
                assert forall|t: Slot| !moved(generators@, omega@).contains(t) by {
                    if moved(generators@, omega@).contains(t) {
                        let j = choose|j: int|
                            0 <= j < generators@.len() && generators@[j]@[t] != t;
                    }
                }
                assert(moved(generators@, omega@) =~= Set::<Slot>::empty());
            },
            Some(s) => {
                let j = choose|j: int| 0 <= j < generators@.len() && #[trigger] generators@[j]@[s] != s;
                assert(!gens_fix(generators@, s));
                assert(moved(generators@, omega@).contains(s));
                assert forall|t: Slot| #[trigger] moved(generators@, omega@).contains(t) implies s.0
                    <= t.0 by {
                    let jj = choose|jj: int| 0 <= jj < generators@.len() && generators@[jj]@[t] != t;
                }
            },
        }
    }
    min
}

/// The generator `gens[j]`, divided by the orbit tree entry for the slot it sends `stab` to,
/// is a member of a group that holds all the Schreier generators.
proof fn lemma_generator_divides(
    ot: Seq<SlotMap>,
    stab: Slot,
    omega: Set<Slot>,
    gens: Seq<SlotMap>,
    out: Seq<SlotMap>,
    g: Group,
    j: int,
) -> (k: int)
    requires
        omega.contains(stab),
        gens_ok(gens, omega),
        ot_inv(ot, stab, omega, gens),
        forall|i: int, j: int|
            0 <= i < ot.len() && 0 <= j < gens.len() ==> ot_has(
                ot,
                stab,
                #[trigger] gens[j]@[#[trigger] ot[i]@[stab]],
            ),
        schreier_covers(out, ot, gens, stab, ot.len() as int, 0),
        forall|m: int| 0 <= m < out.len() ==> g.member(#[trigger] out[m]@),
        0 <= j < gens.len(),
    ensures
        0 <= k < ot.len(),
        ot[k]@[stab] == gens[j]@[stab],
        g.member(compose_partial_map(gens[j]@, inverse_map(ot[k]@))),
{
    assert(ot[0]@[stab] == stab);
    assert(ot_has(ot, stab, gens[j]@[ot[0]@[stab]]));
    let k = choose|k: int| 0 <= k < ot.len() && #[trigger] ot[k]@[stab] == gens[j]@[stab];
    assert(gens[j].wf());
    lemma_identity_then(gens[j]@, omega);
    assert(schreier_view(ot, gens, 0, j, k) == compose_partial_map(gens[j]@, inverse_map(ot[k]@)));
    assert(views(out).to_set().contains(schreier_view(ot, gens, 0, j, k)));
    let m = choose|m: int| 0 <= m < views(out).len() && views(out)[m] == schreier_view(ot, gens, 0, j, k);
    assert(views(out)[m] == out[m]@);
    assert(g.member(out[m]@));
    k
}

/// The generators of a group that moves no slot of `omega` are identities.
proof fn lemma_unmoved_identity(gens: Seq<SlotMap>, omega: Set<Slot>, j: int)
    requires
        gens_ok(gens, omega),
        moved(gens, omega) == Set::<Slot>::empty(),
        0 <= j < gens.len(),
    ensures
        forall|x: Slot| #[trigger] gens[j]@.contains_key(x) ==> gens[j]@[x] == x,
{
    assert(gens[j].wf() && perm_of(gens[j]@, omega));
    assert forall|x: Slot| #[trigger] gens[j]@.contains_key(x) implies gens[j]@[x] == x by {
        assert(!moved(gens, omega).contains(x));
    }
}

/// Applying the identity of `omega` first leaves a permutation of `omega` unchanged.
pub proof fn lemma_identity_then(g: Map<Slot, Slot>, omega: Set<Slot>)
    requires
        perm_of(g, omega),
    ensures
        compose_partial_map(identity_map(omega), g) == g,
{
    let id = identity_map(omega);
    lemma_compose_dom(id, g);
    let c = compose_partial_map(id, g);
    assert forall|x: Slot| #[trigger] c.contains_key(x) <==> g.contains_key(x) by {
        if omega.contains(x) {
            assert(id[x] == x);
        }
    }
    assert forall|x: Slot| #[trigger] g.contains_key(x) implies c[x] == g[x] by {
        assert(id[x] == x);
        assert(c.contains_key(x));
    }
    assert(c =~= g);
}

/// Dividing the identity by itself gives the identity.
pub proof fn lemma_identity_divides(omega: Set<Slot>)
    ensures
        compose_partial_map(identity_map(omega), inverse_map(identity_map(omega))) == identity_map(omega),
{
    let id = identity_map(omega);
    lemma_identity_image(omega);
    assert(id.dom() =~= omega);
    assert(injective(id));
    assert(perm_of(id, omega));
    lemma_perm_inverse(id, omega);
    lemma_compose_dom(id, inverse_map(id));
    let c = compose_partial_map(id, inverse_map(id));
    assert forall|x: Slot| #[trigger] c.contains_key(x) <==> id.contains_key(x) by {
        if id.contains_key(x) {
            assert(id[x] == x);
        }
    }
    assert forall|x: Slot| #[trigger] id.contains_key(x) implies c[x] == id[x] by {
        assert(id[x] == x);
        assert(inverse_map(id)[id[x]] == x);
        assert(c.contains_key(x));
        assert(c[x] == inverse_map(id)[id[x]]);
    }
    assert(c =~= id);
}

} // verus!
