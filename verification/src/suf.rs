use vstd::prelude::*;
use crate::slot::Slot;
use crate::slotset::SlotSet;
use crate::slotmap::{SlotMap, injective, compose_partial_map, inverse_map, identity_map, restrict_map, perm_of, lemma_identity_image, lemma_compose_dom};
use crate::applied::{AppliedId, Id};
use crate::group::{Group, closed_under, apply_or_missing, gens_ok, views};
use vstd::relations::injective_on;

verus! {

/// One class of the union-find with slots.
pub struct SUFClass<C> {
    /// Where the class points: itself with the identity of its slots when it is a root,
    /// otherwise an invocation of another class in terms of this class's slots.
    pub leader: AppliedId,
    /// The slots of the class.
    pub slots: SlotSet,
    /// The symmetries of the class: permutations of its slots.
    pub group: Group,
    /// Data kept with the class.
    pub c: C,
}

/// A union-find whose classes have slots: equating two invocations may rename slots, drop
/// redundant ones, or record a symmetry.
pub struct SUF<C> {
    pub classes: Vec<SUFClass<C>>,
    /// Ranks grow along leader links; they bound the length of a path to its root.
    pub rank: Ghost<Seq<nat>>,
    /// A bound on every rank.
    pub bound: Ghost<nat>,
}

impl<C> SUFClass<C> {
    pub open spec fn wf(&self) -> bool {
        &&& self.leader.m.wf()
        &&& self.slots.wf()
        &&& self.group.wf()
        &&& self.group.omega@ == self.slots@
    }
}

impl<C> SUF<C> {
    pub open spec fn len(&self) -> nat {
        self.classes@.len()
    }

    pub open spec fn is_root(&self, i: int) -> bool {
        self.classes@[i].leader.id.0 == i
    }

    pub open spec fn class_ok(&self, i: int) -> bool {
        let c = self.classes@[i];
        &&& c.wf()
        &&& c.leader.id.0 < self.classes@.len()
        &&& self.rank@[i] < self.bound@
        &&& self.is_root(i) ==> c.leader.m@ == identity_map(c.slots@)
        &&& !self.is_root(i) ==> self.rank@[i] < self.rank@[c.leader.id.0 as int]
    }

    pub open spec fn wf(&self) -> bool {
        &&& self.rank@.len() == self.classes@.len()
        &&& self.bound@ > 0
        &&& forall|i: int| 0 <= i < self.classes@.len() ==> #[trigger] self.class_ok(i)
    }

    /// Follows the leaders from the invocation of class `id` by `m` to a root: the root and
    /// the invocation of the root, composed along the way; slots that the way does not map
    /// are dropped.
    pub open spec fn find_view(&self, id: int, m: Map<Slot, Slot>) -> (int, Map<Slot, Slot>)
        decreases self.bound@ - self.rank@[id],
        when self.wf() && 0 <= id < self.classes@.len()
    {
        let l = self.classes@[id].leader;
        let m2 = compose_partial_map(l.m@, m);
        proof {
            assert(self.class_ok(id));
            assert(self.class_ok(l.id.0 as int));
        }
        if l.id.0 == id {
            (id, m2)
        } else {
            self.find_view(l.id.0 as int, m2)
        }
    }

    /// The root that class `id` reaches by its leaders.
    pub open spec fn root_of(&self, id: int) -> int
        decreases self.bound@ - self.rank@[id],
        when self.wf() && 0 <= id < self.classes@.len()
    {
        let l = self.classes@[id].leader.id.0 as int;
        proof {
            assert(self.class_ok(id));
            assert(self.class_ok(l));
        }
        if l == id {
            id
        } else {
            self.root_of(l)
        }
    }

    /// Finding ends at the root, whatever the invocation.
    pub proof fn lemma_find_root(&self, id: int, m: Map<Slot, Slot>)
        requires
            self.wf(),
            0 <= id < self.classes@.len(),
        ensures
            self.find_view(id, m).0 == self.root_of(id),
            0 <= self.root_of(id) < self.classes@.len(),
            self.is_root(self.root_of(id)),
        decreases self.bound@ - self.rank@[id],
    {
        assert(self.class_ok(id));
        let l = self.classes@[id].leader;
        assert(self.class_ok(l.id.0 as int));
        if l.id.0 != id {
            self.lemma_find_root(l.id.0 as int, compose_partial_map(l.m@, m));
        }
    }

    /// The invocation of the root that class `id`, invoked by `m`, reaches, before the root's
    /// own slots cut it down: the leaders' renamings composed along the way.
    pub open spec fn pre_root(&self, id: int, m: Map<Slot, Slot>) -> Map<Slot, Slot>
        decreases self.bound@ - self.rank@[id],
        when self.wf() && 0 <= id < self.classes@.len()
    {
        let l = self.classes@[id].leader;
        proof {
            assert(self.class_ok(id));
            assert(self.class_ok(l.id.0 as int));
        }
        if l.id.0 == id {
            m
        } else {
            self.pre_root(l.id.0 as int, compose_partial_map(l.m@, m))
        }
    }

    /// The link from class `i` to its leader renames the slots of the leader one to one into
    /// slots of `i`.
    pub open spec fn link_ok(&self, i: int) -> bool {
        let l = self.classes@[i].leader;
        total_into(l.m@, self.classes@[l.id.0 as int].slots@, self.classes@[i].slots@)
    }

    /// Every link between two classes renames the slots of the leader one to one.
    pub open spec fn faithful(&self) -> bool {
        forall|i: int| 0 <= i < self.classes@.len() && !self.is_root(i) ==> #[trigger] self.link_ok(i)
    }

    /// `x` invokes a class, renaming its slots one to one.
    pub open spec fn valid(&self, x: AppliedId) -> bool {
        &&& x.id.0 < self.classes@.len()
        &&& exists|t: Set<Slot>| total_into(x.m@, self.classes@[x.id.0 as int].slots@, t)
    }

    /// Finding cuts the composed renaming down to the root's slots.
    pub proof fn lemma_find_pre_root(&self, id: int, m: Map<Slot, Slot>)
        requires
            self.wf(),
            0 <= id < self.classes@.len(),
        ensures
            self.find_view(id, m) == (self.root_of(id), compose_partial_map(
                identity_map(self.classes@[self.root_of(id)].slots@),
                self.pre_root(id, m),
            )),
        decreases self.bound@ - self.rank@[id],
    {
        assert(self.class_ok(id));
        let l = self.classes@[id].leader;
        assert(self.class_ok(l.id.0 as int));
        if l.id.0 != id {
            self.lemma_find_pre_root(l.id.0 as int, compose_partial_map(l.m@, m));
        }
    }

    /// Along faithful links, a one to one renaming of a class's slots composes into one of
    /// its root's slots.
    pub proof fn lemma_pre_root_total(&self, id: int, m: Map<Slot, Slot>, t: Set<Slot>)
        requires
            self.wf(),
            self.faithful(),
            0 <= id < self.classes@.len(),
            total_into(m, self.classes@[id].slots@, t),
        ensures
            total_into(self.pre_root(id, m), self.classes@[self.root_of(id)].slots@, t),
        decreases self.bound@ - self.rank@[id],
    {
        assert(self.class_ok(id));
        let l = self.classes@[id].leader;
        assert(self.class_ok(l.id.0 as int));
        if l.id.0 != id {
            assert(self.link_ok(id));
            lemma_total_compose(l.m@, m, self.classes@[l.id.0 as int].slots@, self.classes@[id].slots@, t);
            self.lemma_pre_root_total(l.id.0 as int, compose_partial_map(l.m@, m), t);
        }
    }

    /// The symmetry that equates `x` with `y`: from the root into `x`'s slots, then back
    /// out of `y`'s.
    pub open spec fn equal_spec(&self, x: AppliedId, y: AppliedId) -> bool {
        let fx = self.find_view(x.id.0 as int, x.m@);
        let fy = self.find_view(y.id.0 as int, y.m@);
        let perm = compose_partial_map(fx.1, inverse_map(fy.1));
        &&& fx.0 == fy.0
        &&& injective(fy.1)
        &&& perm_of(perm, self.classes@[fx.0].slots@)
        &&& self.classes@[fx.0].group.member(perm)
    }

    /// The empty union-find.
    pub fn new() -> (r: Self)
        ensures
            r.wf(),
            r.faithful(),
            r.classes@.len() == 0,
    {
        SUF { classes: Vec::new(), rank: Ghost(Seq::empty()), bound: Ghost(1) }
    }

    /// Adds a class with the slots `slots`, its own root, without symmetries; returns its
    /// invocation by the identity.
    pub fn add(&mut self, slots: SlotSet, c: C) -> (r: AppliedId)
        requires
            old(self).wf(),
            slots.wf(),
        ensures
            final(self).wf(),
            final(self).classes@.len() == old(self).classes@.len() + 1,
            forall|i: int| 0 <= i < old(self).classes@.len() ==> #[trigger] final(self).classes@[i] == old(self).classes@[i],
            final(self).classes@.last().slots@ == slots@,
            final(self).classes@.last().group.is_trivial_spec(),
            final(self).is_root(old(self).classes@.len() as int),
            r.id.0 == old(self).classes@.len(),
            r.wf(),
            r.m@ == identity_map(slots@),
            old(self).faithful() ==> final(self).faithful(),
            final(self).valid(r),
    {
        let i = Id(self.classes.len());
        let identity = SlotMap::identity(&slots);
        let group = Group::trivial(&slots);
        let out = AppliedId::new(i, identity);
        let leader = out.clone();
        proof {
            assert(leader.m@ =~= out.m@);
        }
        let ghost old_self = *self;
        self.classes.push(SUFClass { leader, slots, group, c });
        proof {
            self.rank@ = self.rank@.push(0);
            assert forall|k: int| 0 <= k < self.classes@.len() implies #[trigger] self.class_ok(k) by {
                if k == old_self.classes@.len() {
                    assert(self.classes@[k].leader.id == i);
                    assert(self.classes@[k].slots@ == slots@);
                } else {
                    assert(old_self.class_ok(k));
                    assert(self.classes@[k] == old_self.classes@[k]);
                    assert(self.rank@[k] == old_self.rank@[k]);
                }
            }
            let id = identity_map(slots@);
            assert(total_into(id, slots@, slots@)) by {
                assert forall|k1: Slot, k2: Slot| #![trigger id[k1], id[k2]] slots@.contains(k1) && slots@.contains(k2) && k1 != k2 implies id[k1] != id[k2] by {}
            }
            assert(self.classes@[i.0 as int].slots@ == slots@);
            if old_self.faithful() {
                assert forall|k: int| 0 <= k < self.classes@.len() && !self.is_root(k) implies #[trigger] self.link_ok(k) by {
                    assert(k != old_self.classes@.len());
                    assert(self.classes@[k] == old_self.classes@[k]);
                    assert(old_self.link_ok(k));
                    assert(old_self.class_ok(k));
                    let l = old_self.classes@[k].leader.id.0 as int;
                    assert(self.classes@[l] == old_self.classes@[l]);
                }
            }
        }
        out
    }

    /// The root invocation that `x` reaches by its leaders.
    pub fn find(&self, x: &AppliedId) -> (r: AppliedId)
        requires
            self.wf(),
            x.id.0 < self.classes@.len(),
            x.wf(),
        ensures
            r.wf(),
            r.id.0 < self.classes@.len(),
            self.is_root(r.id.0 as int),
            (r.id.0 as int, r.m@) == self.find_view(x.id.0 as int, x.m@),
    {
        let mut cur = x.clone();
        proof {
            assert(cur.m@ =~= x.m@);
        }
        loop
            invariant
                self.wf(),
                cur.wf(),
                cur.id.0 < self.classes@.len(),
                self.find_view(cur.id.0 as int, cur.m@) == self.find_view(x.id.0 as int, x.m@),
            decreases self.bound@ - self.rank@[cur.id.0 as int],
        {
            assert(self.class_ok(cur.id.0 as int));
            let l = &self.classes[cur.id.0].leader;
            assert(self.class_ok(l.id.0 as int));
            let next = l.apply_slotmap_partial(&cur.m);
            if l.id.0 == cur.id.0 {
                return next;
            }
            cur = next;
        }
    }

    /// Whether `x` and `y` are equal: they reach the same root, and the renaming between
    /// them is a symmetry of that root.
    pub fn is_equal(&self, x: &AppliedId, y: &AppliedId) -> (r: bool)
        requires
            self.wf(),
            x.id.0 < self.classes@.len(),
            y.id.0 < self.classes@.len(),
            x.wf(),
            y.wf(),
        ensures
            r == self.equal_spec(*x, *y),
    {
        let fx = self.find(x);
        let fy = self.find(y);
        if fx.id.0 != fy.id.0 {
            return false;
        }
        if !fy.m.is_bijection() {
            return false;
        }
        let inv = fy.m.inverse();
        let perm = fx.m.compose_partial(&inv);
        assert(self.class_ok(fx.id.0 as int));
        let class = &self.classes[fx.id.0];
        if !is_perm_of(&perm, &class.slots) {
            return false;
        }
        class.group.contains(&perm)
    }
}

impl<C> SUF<C> {
    /// Drops from class `i` the slots that `keep` lacks, with their whole orbits under the
    /// symmetries; the symmetries are cut down to the remaining slots and the class becomes
    /// its own root. Called when the class is equated to something with the slots `keep`.
    pub fn shrink(&mut self, i: Id, keep: &SlotSet)
        requires
            old(self).wf(),
            i.0 < old(self).classes@.len(),
            keep.wf(),
        ensures
            final(self).wf(),
            final(self).classes@.len() == old(self).classes@.len(),
            final(self).rank@ == old(self).rank@,
            final(self).bound@ == old(self).bound@,
            forall|k: int| 0 <= k < old(self).classes@.len() && k != i.0 ==> #[trigger] final(self).classes@[k] == old(self).classes@[k],
            final(self).classes@[i.0 as int].slots@ == shrunk(
                old(self).classes@[i.0 as int].slots@,
                keep@,
                old(self).classes@[i.0 as int].group,
            ),
            final(self).classes@[i.0 as int].slots@.subset_of(old(self).classes@[i.0 as int].slots@),
            final(self).classes@[i.0 as int].leader.id == i,
            final(self).classes@[i.0 as int].c == old(self).classes@[i.0 as int].c,
            final(self).is_root(i.0 as int),
            old(self).faithful() ==> final(self).faithful(),
    {
        let ghost old_self = *self;
        assert(self.class_ok(i.0 as int));
        let ghost g = self.classes@[i.0 as int].group;
        let ghost big = self.classes@[i.0 as int].slots@;
        let new_slots = shrink_slots(&self.classes[i.0].slots, keep, &self.classes[i.0].group);
        let gens = restricted_generators(&self.classes[i.0].group, &new_slots, keep);
        let group = Group::new(&new_slots, gens);
        let leader = AppliedId::new(i, SlotMap::identity(&new_slots));
        let mut class = self.classes.remove(i.0);
        class.slots = new_slots;
        class.group = group;
        class.leader = leader;
        self.classes.insert(i.0, class);
        proof {
            assert forall|k: int| 0 <= k < self.classes@.len() implies #[trigger] self.class_ok(k) by {
                assert(old_self.class_ok(k));
                if k != i.0 {
                    assert(self.classes@[k] == old_self.classes@[k]);
                }
            }
            if old_self.faithful() {
                lemma_shrunk_kept(big, keep@, g);
                assert forall|k: int| 0 <= k < self.classes@.len() && !self.is_root(k) implies #[trigger] self.link_ok(k) by {
                    assert(k != i.0);
                    assert(self.classes@[k] == old_self.classes@[k]);
                    assert(old_self.link_ok(k));
                    assert(old_self.class_ok(k));
                    let l = old_self.classes@[k].leader.id.0 as int;
                    let lm = old_self.classes@[k].leader.m@;
                    if l != i.0 {
                        assert(self.classes@[l] == old_self.classes@[l]);
                    } else {
                        let sk = self.classes@[k].slots@;
                        assert(self.classes@[l].slots@.subset_of(big));
                        assert forall|x: Slot| #[trigger] self.classes@[l].slots@.contains(x) implies lm.contains_key(x) && sk.contains(lm[x]) by {
                            assert(big.contains(x));
                        }
                    }
                }
            }
        }
    }
}

impl<C> SUF<C> {
    /// Adds the permutations `ps` to the symmetries of class `i`.
    fn add_symmetries(&mut self, i: Id, ps: Vec<SlotMap>)
        requires
            old(self).wf(),
            i.0 < old(self).classes@.len(),
            gens_ok(ps@, old(self).classes@[i.0 as int].slots@),
        ensures
            final(self).wf(),
            final(self).classes@.len() == old(self).classes@.len(),
            final(self).rank@ == old(self).rank@,
            final(self).bound@ == old(self).bound@,
            forall|k: int| 0 <= k < old(self).classes@.len() && k != i.0 ==> #[trigger] final(self).classes@[k] == old(self).classes@[k],
            final(self).classes@[i.0 as int].leader == old(self).classes@[i.0 as int].leader,
            final(self).classes@[i.0 as int].slots == old(self).classes@[i.0 as int].slots,
            final(self).classes@[i.0 as int].c == old(self).classes@[i.0 as int].c,
            forall|j: int| 0 <= j < ps@.len() ==> final(self).classes@[i.0 as int].group.member(#[trigger] ps@[j]@),
            old(self).faithful() ==> final(self).faithful(),
    {
        let ghost old_self = *self;
        assert(self.class_ok(i.0 as int));
        let mut class = self.classes.remove(i.0);
        class.group.add_set(ps);
        self.classes.insert(i.0, class);
        proof {
            assert forall|k: int| 0 <= k < self.classes@.len() implies #[trigger] self.class_ok(k) by {
                assert(old_self.class_ok(k));
                if k != i.0 {
                    assert(self.classes@[k] == old_self.classes@[k]);
                }
            }
            if old_self.faithful() {
                assert forall|k: int| 0 <= k < self.classes@.len() && !self.is_root(k) implies #[trigger] self.link_ok(k) by {
                    assert(old_self.link_ok(k));
                    assert(old_self.class_ok(k));
                    let l = old_self.classes@[k].leader.id.0 as int;
                    assert(self.classes@[k].leader == old_self.classes@[k].leader);
                    assert(self.classes@[k].slots == old_self.classes@[k].slots);
                    assert(self.classes@[l].slots == old_self.classes@[l].slots);
                }
            }
        }
    }

    /// Points the root `y` at the root `x` by `leader`, an invocation of `x`.
    fn link(&mut self, y: Id, leader: AppliedId)
        requires
            old(self).wf(),
            y.0 < old(self).classes@.len(),
            leader.id.0 < old(self).classes@.len(),
            leader.id != y,
            leader.wf(),
            old(self).is_root(leader.id.0 as int),
            old(self).is_root(y.0 as int),
        ensures
            final(self).wf(),
            final(self).classes@.len() == old(self).classes@.len(),
            forall|k: int| 0 <= k < old(self).classes@.len() && k != y.0 ==> #[trigger] final(self).classes@[k] == old(self).classes@[k],
            final(self).classes@[y.0 as int].leader == leader,
            final(self).classes@[y.0 as int].slots == old(self).classes@[y.0 as int].slots,
            final(self).classes@[y.0 as int].c == old(self).classes@[y.0 as int].c,
            old(self).faithful() && total_into(leader.m@, old(self).classes@[leader.id.0 as int].slots@, old(self).classes@[y.0 as int].slots@)
                ==> final(self).faithful(),
    {
        let ghost old_self = *self;
        let ghost x = leader.id.0 as int;
        assert(self.class_ok(y.0 as int));
        assert(self.class_ok(x));
        let mut class = self.classes.remove(y.0);
        class.leader = leader;
        self.classes.insert(y.0, class);
        proof {
            let ry = self.rank@[y.0 as int];
            let rx = if self.rank@[x] > ry { self.rank@[x] } else { ry + 1 };
            self.rank@ = self.rank@.update(x, rx);
            if self.bound@ <= rx {
                self.bound@ = rx + 1;
            }
            assert forall|k: int| 0 <= k < self.classes@.len() implies #[trigger] self.class_ok(k) by {
                assert(old_self.class_ok(k));
                if k != y.0 {
                    assert(self.classes@[k] == old_self.classes@[k]);
                    let l = old_self.classes@[k].leader.id.0 as int;
                    assert(old_self.class_ok(l));
                }
            }
            if old_self.faithful() && total_into(leader.m@, old_self.classes@[x].slots@, old_self.classes@[y.0 as int].slots@) {
                assert forall|k: int| 0 <= k < self.classes@.len() && !self.is_root(k) implies #[trigger] self.link_ok(k) by {
                    if k != y.0 {
                        assert(self.classes@[k] == old_self.classes@[k]);
                        assert(old_self.link_ok(k));
                        assert(old_self.class_ok(k));
                        let l = old_self.classes@[k].leader.id.0 as int;
                        if l == y.0 {
                            assert(old_self.is_root(y.0 as int));
                        }
                        assert(self.classes@[l].slots == old_self.classes@[l].slots);
                    } else {
                        assert(self.classes@[x] == old_self.classes@[x]);
                    }
                }
            }
        }
    }

    /// Lets the roots of `x` and `y` drop the slots that the other side lacks, until neither
    /// drops any; returns the invocations of the two roots that `x` and `y` reach then.
    fn equalize(&mut self, x: &AppliedId, y: &AppliedId, Ghost(tpx): Ghost<Set<Slot>>, Ghost(tpy): Ghost<Set<Slot>>) -> (r: (AppliedId, AppliedId))
        requires
            old(self).wf(),
            x.id.0 < old(self).classes@.len(),
            y.id.0 < old(self).classes@.len(),
            x.wf(),
            y.wf(),
        ensures
            final(self).wf(),
            final(self).classes@.len() == old(self).classes@.len(),
            forall|k: int| 0 <= k < final(self).classes@.len() ==> #[trigger] final(self).classes@[k].leader.id == old(self).classes@[k].leader.id,
            forall|k: int| 0 <= k < final(self).classes@.len() && !old(self).is_root(k) ==> #[trigger] final(self).classes@[k].leader == old(self).classes@[k].leader,
            r.0.wf(),
            r.1.wf(),
            r.0.id.0 == old(self).root_of(x.id.0 as int),
            r.1.id.0 == old(self).root_of(y.id.0 as int),
            r.0.id.0 < final(self).classes@.len(),
            r.1.id.0 < final(self).classes@.len(),
            final(self).is_root(r.0.id.0 as int),
            final(self).is_root(r.1.id.0 as int),
            r.0.m@ == compose_partial_map(identity_map(final(self).classes@[r.0.id.0 as int].slots@), old(self).pre_root(x.id.0 as int, x.m@)),
            r.1.m@ == compose_partial_map(identity_map(final(self).classes@[r.1.id.0 as int].slots@), old(self).pre_root(y.id.0 as int, y.m@)),
            old(self).faithful() && total_into(x.m@, old(self).classes@[x.id.0 as int].slots@, tpx) && total_into(y.m@, old(self).classes@[y.id.0 as int].slots@, tpy) ==> {
                let tx = final(self).classes@[r.0.id.0 as int].slots@;
                let ty = final(self).classes@[r.1.id.0 as int].slots@;
                &&& final(self).faithful()
                &&& total_into(old(self).pre_root(x.id.0 as int, x.m@), tx, tpx)
                &&& total_into(old(self).pre_root(y.id.0 as int, y.m@), ty, tpy)
                &&& tx.subset_of(image_of(compose_partial_map(r.1.m@, inverse_map(r.0.m@)), ty))
                &&& ty.subset_of(image_of(compose_partial_map(r.0.m@, inverse_map(r.1.m@)), tx))
            },
    {
        let ghost start = *self;
        let ghost good = start.faithful() && total_into(x.m@, start.classes@[x.id.0 as int].slots@, tpx) && total_into(y.m@, start.classes@[y.id.0 as int].slots@, tpy);
        let ghost px = start.pre_root(x.id.0 as int, x.m@);
        let ghost py = start.pre_root(y.id.0 as int, y.m@);
        let mut fx = self.find(x);
        let mut fy = self.find(y);
        proof {
            self.lemma_find_root(x.id.0 as int, x.m@);
            self.lemma_find_root(y.id.0 as int, y.m@);
            self.lemma_find_pre_root(x.id.0 as int, x.m@);
            self.lemma_find_pre_root(y.id.0 as int, y.m@);
            if good {
                start.lemma_pre_root_total(x.id.0 as int, x.m@, tpx);
                start.lemma_pre_root_total(y.id.0 as int, y.m@, tpy);
            }
        }
        let ghost mut tx = self.classes@[fx.id.0 as int].slots@;
        let ghost mut ty = self.classes@[fy.id.0 as int].slots@;
        loop
            invariant
                self.wf(),
                start.wf(),
                self.classes@.len() == start.classes@.len(),
                forall|k: int| 0 <= k < self.classes@.len() ==> #[trigger] self.classes@[k].leader.id == start.classes@[k].leader.id,
                forall|k: int| 0 <= k < self.classes@.len() && !start.is_root(k) ==> #[trigger] self.classes@[k].leader == start.classes@[k].leader,
                fx.wf(),
                fy.wf(),
                fx.id.0 < self.classes@.len(),
                fy.id.0 < self.classes@.len(),
                fx.id.0 == start.root_of(x.id.0 as int),
                fy.id.0 == start.root_of(y.id.0 as int),
                self.is_root(fx.id.0 as int),
                self.is_root(fy.id.0 as int),
                px == start.pre_root(x.id.0 as int, x.m@),
                py == start.pre_root(y.id.0 as int, y.m@),
                fx.m@ == compose_partial_map(identity_map(tx), px),
                fy.m@ == compose_partial_map(identity_map(ty), py),
                self.classes@[fx.id.0 as int].slots@.subset_of(tx),
                self.classes@[fy.id.0 as int].slots@.subset_of(ty),
                good == (start.faithful() && total_into(x.m@, start.classes@[x.id.0 as int].slots@, tpx) && total_into(y.m@, start.classes@[y.id.0 as int].slots@, tpy)),
                good ==> self.faithful(),
                good ==> total_into(px, tx, tpx),
                good ==> total_into(py, ty, tpy),
            ensures
                self.wf(),
                self.classes@.len() == start.classes@.len(),
                forall|k: int| 0 <= k < self.classes@.len() ==> #[trigger] self.classes@[k].leader.id == start.classes@[k].leader.id,
                forall|k: int| 0 <= k < self.classes@.len() && !start.is_root(k) ==> #[trigger] self.classes@[k].leader == start.classes@[k].leader,
                fx.wf(),
                fy.wf(),
                fx.id.0 < self.classes@.len(),
                fy.id.0 < self.classes@.len(),
                fx.id.0 == start.root_of(x.id.0 as int),
                fy.id.0 == start.root_of(y.id.0 as int),
                self.is_root(fx.id.0 as int),
                self.is_root(fy.id.0 as int),
                fx.m@ == compose_partial_map(identity_map(tx), px),
                fy.m@ == compose_partial_map(identity_map(ty), py),
                self.classes@[fx.id.0 as int].slots@ == tx,
                self.classes@[fy.id.0 as int].slots@ == ty,
                good ==> self.faithful(),
                good ==> total_into(px, tx, tpx),
                good ==> total_into(py, ty, tpy),
                good ==> tx.subset_of(image_of(compose_partial_map(fy.m@, inverse_map(fx.m@)), ty)),
                good ==> ty.subset_of(image_of(compose_partial_map(fx.m@, inverse_map(fy.m@)), tx)),
            decreases self.classes@[fx.id.0 as int].slots@.len() + self.classes@[fy.id.0 as int].slots@.len(),
        {
            let ghost top = *self;
            let ghost id_x = fx.id;
            let ghost id_y = fy.id;
            let ghost old_fxm = fx.m@;
            let ghost old_fym = fy.m@;
            fx = self.find(&fx);
            fy = self.find(&fy);
            proof {
                self.lemma_find_root(id_x.0 as int, top.classes@[0].leader.m@);
                assert(self.class_ok(id_x.0 as int));
                assert(self.class_ok(id_y.0 as int));
                assert(fx.id == id_x);
                assert(fy.id == id_y);
                let sxt = top.classes@[id_x.0 as int].slots@;
                let syt = top.classes@[id_y.0 as int].slots@;
                assert(fx.m@ == compose_partial_map(identity_map(sxt), old_fxm));
                assert(fy.m@ == compose_partial_map(identity_map(syt), old_fym));
                lemma_cut_twice(sxt, tx, px);
                lemma_cut_twice(syt, ty, py);
                if good {
                    lemma_total_sub(px, tx, sxt, tpx);
                    lemma_total_sub(py, ty, syt, tpy);
                }
                tx = sxt;
                ty = syt;
            }
            let a1 = self.classes[fx.id.0].slots.len();
            let b1 = self.classes[fy.id.0].slots.len();
            let ix = invert(&fx.m);
            let to_x = fy.m.compose_partial(&ix);
            let sx = map_set(&to_x, &self.classes[fy.id.0].slots);
            let ghost sx_keep = sx@;
            let ghost g_x = self.classes@[fx.id.0 as int].group;
            let ghost before_x = *self;
            self.shrink(fx.id, &sx);
            assert(self.class_ok(fy.id.0 as int));
            assert(self.class_ok(fx.id.0 as int));
            let iy = invert(&fy.m);
            let to_y = fx.m.compose_partial(&iy);
            let sy = map_set(&to_y, &self.classes[fx.id.0].slots);
            let ghost sy_keep = sy@;
            let ghost g_y = self.classes@[fy.id.0 as int].group;
            let ghost mid_x = *self;
            self.shrink(fy.id, &sy);
            assert(self.class_ok(fx.id.0 as int));
            assert(self.class_ok(fy.id.0 as int));
            let a2 = self.classes[fx.id.0].slots.len();
            let b2 = self.classes[fy.id.0].slots.len();
            proof {
                let sa0 = top.classes@[fx.id.0 as int].slots@;
                let sb0 = top.classes@[fy.id.0 as int].slots@;
                let sa2 = self.classes@[fx.id.0 as int].slots@;
                let sb2 = self.classes@[fy.id.0 as int].slots@;
                assert(top.class_ok(fx.id.0 as int));
                assert(top.class_ok(fy.id.0 as int));
                top.classes@[fx.id.0 as int].slots.lemma_finite();
                top.classes@[fy.id.0 as int].slots.lemma_finite();
                assert(sa2.subset_of(sa0));
                assert(sb2.subset_of(sb0));
                vstd::set_lib::lemma_len_subset(sa2, sa0);
                vstd::set_lib::lemma_len_subset(sb2, sb0);
                assert forall|k: int| 0 <= k < self.classes@.len() implies #[trigger] self.classes@[k].leader.id == start.classes@[k].leader.id by {
                    assert(top.classes@[k].leader.id == start.classes@[k].leader.id);
                }
                assert forall|k: int| 0 <= k < self.classes@.len() && !start.is_root(k) implies #[trigger] self.classes@[k].leader == start.classes@[k].leader by {
                    assert(top.classes@[k].leader == start.classes@[k].leader);
                    assert(k != fx.id.0 && k != fy.id.0);
                }
                if a1 == a2 && b1 == b2 {
                    let sa1 = mid_x.classes@[fx.id.0 as int].slots@;
                    let sb1 = mid_x.classes@[fy.id.0 as int].slots@;
                    assert(mid_x.class_ok(fx.id.0 as int));
                    assert(mid_x.class_ok(fy.id.0 as int));
                    mid_x.classes@[fx.id.0 as int].slots.lemma_finite();
                    vstd::set_lib::lemma_len_subset(sa2, sa1);
                    vstd::set_lib::lemma_len_subset(sa1, sa0);
                    vstd::set_lib::lemma_subset_equality(sa2, sa0);
                    vstd::set_lib::lemma_subset_equality(sb2, sb0);
                    vstd::set_lib::lemma_subset_equality(sa1, sa0);
                    lemma_shrunk_kept(sa0, sx_keep, g_x);
                    lemma_shrunk_kept(sb1, sy_keep, g_y);
                    if good {
                        lemma_cut_total(px, tx, tpx);
                        lemma_cut_total(py, ty, tpy);
                        assert(ix@ == inverse_map(fx.m@));
                        assert(iy@ == inverse_map(fy.m@));
                        assert(sa0 == tx && sb0 == ty);
                    }
                }
            }
            if a1 == a2 && b1 == b2 {
                break;
            }
        }
        (fx, fy)
    }

    /// What `equalize` leaves for the roots `fx` and `fy` that `x` and `y` reach, compared
    /// with the union-find `start` it began with.
    pub open spec fn equalized(&self, start: SUF<C>, x: AppliedId, y: AppliedId, fx: AppliedId, fy: AppliedId, tpx: Set<Slot>, tpy: Set<Slot>, good: bool) -> bool {
        &&& self.wf()
        &&& start.wf()
        &&& self.classes@.len() == start.classes@.len()
        &&& forall|k: int| 0 <= k < self.classes@.len() ==> #[trigger] self.classes@[k].leader.id == start.classes@[k].leader.id
        &&& forall|k: int| 0 <= k < self.classes@.len() && !start.is_root(k) ==> #[trigger] self.classes@[k].leader == start.classes@[k].leader
        &&& x.id.0 < start.classes@.len()
        &&& y.id.0 < start.classes@.len()
        &&& fx.wf()
        &&& fy.wf()
        &&& fx.id.0 == start.root_of(x.id.0 as int)
        &&& fy.id.0 == start.root_of(y.id.0 as int)
        &&& fx.id.0 < self.classes@.len()
        &&& fy.id.0 < self.classes@.len()
        &&& self.is_root(fx.id.0 as int)
        &&& self.is_root(fy.id.0 as int)
        &&& fx.m@ == compose_partial_map(identity_map(self.classes@[fx.id.0 as int].slots@), start.pre_root(x.id.0 as int, x.m@))
        &&& fy.m@ == compose_partial_map(identity_map(self.classes@[fy.id.0 as int].slots@), start.pre_root(y.id.0 as int, y.m@))
        &&& good ==> {
            let tx = self.classes@[fx.id.0 as int].slots@;
            let ty = self.classes@[fy.id.0 as int].slots@;
            &&& self.faithful()
            &&& total_into(start.pre_root(x.id.0 as int, x.m@), tx, tpx)
            &&& total_into(start.pre_root(y.id.0 as int, y.m@), ty, tpy)
            &&& tx.subset_of(image_of(compose_partial_map(fy.m@, inverse_map(fx.m@)), ty))
            &&& ty.subset_of(image_of(compose_partial_map(fx.m@, inverse_map(fy.m@)), tx))
        }
    }

    /// Equates `x` and `y`, which reach the same root `fx.id`: the renaming between them
    /// becomes a symmetry of it, where it is a permutation of its slots.
    fn union_same(&mut self, fx: &AppliedId, fy: &AppliedId, Ghost(start): Ghost<SUF<C>>, Ghost(x): Ghost<AppliedId>, Ghost(y): Ghost<AppliedId>, Ghost(tpx): Ghost<Set<Slot>>, Ghost(tpy): Ghost<Set<Slot>>, Ghost(good): Ghost<bool>)
        requires
            old(self).equalized(start, x, y, *fx, *fy, tpx, tpy, good),
            fx.id == fy.id,
        ensures
            final(self).wf(),
            final(self).classes@.len() == old(self).classes@.len(),
            forall|k: int| 0 <= k < old(self).classes@.len() ==> #[trigger] final(self).root_of(k) == old(self).root_of(k),
            good ==> final(self).faithful() && final(self).equal_spec(x, y),
    {
        let ghost mid = *self;
        let ghost tx = mid.classes@[fx.id.0 as int].slots@;
        let ghost px = start.pre_root(x.id.0 as int, x.m@);
        let ghost py = start.pre_root(y.id.0 as int, y.m@);
        assert(self.class_ok(fx.id.0 as int));
        let iy = invert(&fy.m);
        let perm = fx.m.compose_partial(&iy);
        proof {
            if good {
                lemma_cut_total(px, tx, tpx);
                lemma_cut_total(py, tx, tpy);
                assert(iy@ == inverse_map(fy.m@));
                lemma_same_root_perm(fx.m@, fy.m@, tx);
            }
        }
        let is_sym = is_perm_of(&perm, &self.classes[fx.id.0].slots);
        proof {
            if good {
                assert(is_sym);
            }
        }
        let ghost r = fx.id.0 as int;
        let ghost pm = perm@;
        if is_sym {
            let mut ps: Vec<SlotMap> = Vec::new();
            ps.push(perm);
            let ghost ps_v = ps@;
            self.add_symmetries(fx.id, ps);
            proof {
                assert(ps_v[0]@ == pm);
                assert(self.classes@[r].group.member(pm));
                assert forall|k: int| 0 <= k < self.classes@.len() implies #[trigger] self.classes@[k].leader == mid.classes@[k].leader by {
                    if k != r {
                        assert(self.classes@[k] == mid.classes@[k]);
                    }
                }
            }
        }
        proof {
            assert forall|k: int| 0 <= k < mid.classes@.len() implies #[trigger] self.root_of(k) == mid.root_of(k) by {
                assert forall|j: int| 0 <= j < self.classes@.len() implies #[trigger] mid.classes@[j].leader.id == self.classes@[j].leader.id by {
                }
                lemma_same_links(mid, *self, k);
            }
            if good {
                lemma_union_same(start, mid, *self, x, y, r, fx.m@, fy.m@, pm, tpx, tpy);
            }
        }
    }

    /// Equates `x` and `y`, which reach the different roots `fx.id` and `fy.id`: the root of
    /// `y` is pointed at the root of `x`, which takes over the symmetries of `y`'s root that
    /// carry over to permutations of its slots.
    fn union_link(&mut self, fx: &AppliedId, fy: &AppliedId, Ghost(start): Ghost<SUF<C>>, Ghost(x): Ghost<AppliedId>, Ghost(y): Ghost<AppliedId>, Ghost(tpx): Ghost<Set<Slot>>, Ghost(tpy): Ghost<Set<Slot>>, Ghost(good): Ghost<bool>)
        requires
            old(self).equalized(start, x, y, *fx, *fy, tpx, tpy, good),
            fx.id != fy.id,
        ensures
            final(self).wf(),
            final(self).classes@.len() == old(self).classes@.len(),
            forall|k: int| 0 <= k < old(self).classes@.len() ==> #[trigger] final(self).root_of(k) == if old(self).root_of(k) == fy.id.0 {
                fx.id.0 as int
            } else {
                old(self).root_of(k)
            },
            good ==> final(self).faithful() && final(self).equal_spec(x, y),
    {
        let ghost mid = *self;
        let ghost tx = mid.classes@[fx.id.0 as int].slots@;
        let ghost ty = mid.classes@[fy.id.0 as int].slots@;
        let ghost px = start.pre_root(x.id.0 as int, x.m@);
        let ghost py = start.pre_root(y.id.0 as int, y.m@);
        assert(self.class_ok(fx.id.0 as int));
        assert(self.class_ok(fy.id.0 as int));
        let iy = invert(&fy.m);
        let n = fx.m.compose_partial(&iy);
        proof {
            if good {
                lemma_cut_total(px, tx, tpx);
                lemma_cut_total(py, ty, tpy);
                assert(iy@ == inverse_map(fy.m@));
                lemma_link_renaming(fx.m@, fy.m@, tx, ty);
            }
        }
        let ninv = invert(&n);
        let gens = self.classes[fy.id.0].group.generators();
        let mut moved: Vec<SlotMap> = Vec::new();
        let mut k: usize = 0;
        while k < gens.len()
            invariant
                0 <= k <= gens@.len(),
                self.wf(),
                fx.id.0 < self.classes@.len(),
                n.wf(),
                ninv.wf(),
                gens_ok(moved@, self.classes@[fx.id.0 as int].slots@),
                gens_ok(gens@, self.classes@[fy.id.0 as int].slots@),
                fy.id.0 < self.classes@.len(),
                *self == mid,
            decreases gens@.len() - k,
        {
            assert(self.class_ok(fx.id.0 as int));
            assert(gens@[k as int].wf());
            let t = n.compose_partial(&gens[k]).compose_partial(&ninv);
            if is_perm_of(&t, &self.classes[fx.id.0].slots) {
                let ghost before = moved@;
                moved.push(t);
                assert forall|j: int| 0 <= j < moved@.len() implies #[trigger] moved@[j].wf() && perm_of(moved@[j]@, self.classes@[fx.id.0 as int].slots@) by {
                    if j < before.len() {
                        assert(moved@[j] == before[j]);
                    }
                }
            }
            k = k + 1;
        }
        let leader = AppliedId::new(fx.id, n);
        self.link(fy.id, leader);
        let ghost linked = *self;
        proof {
            assert forall|j: int| 0 <= j < self.classes@.len() && j != fy.id.0 implies #[trigger] mid.classes@[j].leader.id == self.classes@[j].leader.id by {
                assert(self.classes@[j] == mid.classes@[j]);
            }
            assert forall|j: int| 0 <= j < mid.classes@.len() implies #[trigger] linked.root_of(j) == if mid.root_of(j) == fy.id.0 {
                fx.id.0 as int
            } else {
                mid.root_of(j)
            } by {
                lemma_link(mid, linked, fx.id.0 as int, fy.id.0 as int, j);
            }
            assert(self.classes@[fx.id.0 as int] == mid.classes@[fx.id.0 as int]);
        }
        self.add_symmetries(fx.id, moved);
        proof {
            assert forall|j: int| 0 <= j < mid.classes@.len() implies #[trigger] self.root_of(j) == linked.root_of(j) by {
                assert forall|i: int| 0 <= i < self.classes@.len() implies #[trigger] linked.classes@[i].leader.id == self.classes@[i].leader.id by {
                }
                lemma_same_links(linked, *self, j);
            }
            if good {
                let rx = fx.id.0 as int;
                let ry = fy.id.0 as int;
                assert forall|k: int| 0 <= k < self.classes@.len() implies #[trigger] self.classes@[k].leader == linked.classes@[k].leader by {
                    if k != rx {
                        assert(self.classes@[k] == linked.classes@[k]);
                    }
                }
                assert forall|k: int| 0 <= k < mid.classes@.len() && k != ry implies #[trigger] linked.classes@[k].leader == mid.classes@[k].leader by {
                    assert(linked.classes@[k] == mid.classes@[k]);
                }
                lemma_union_linked(start, mid, linked, *self, x, y, rx, ry, fx.m@, fy.m@, n@, tpx, tpy);
            }
        }
    }

    /// Equates `x` with `y`. First both roots drop the slots that the other side lacks,
    /// until neither drops any; then, if `x` and `y` reach the same root, the renaming
    /// between them becomes a symmetry of it (where it is a permutation of its slots);
    /// otherwise the root of `y` is pointed at the root of `x`, which takes over the
    /// symmetries of `y`'s root that carry over to permutations of its slots.
    pub fn union(&mut self, x: &AppliedId, y: &AppliedId)
        requires
            old(self).wf(),
            x.id.0 < old(self).classes@.len(),
            y.id.0 < old(self).classes@.len(),
            x.wf(),
            y.wf(),
        ensures
            final(self).wf(),
            final(self).classes@.len() == old(self).classes@.len(),
            forall|k: int|
                0 <= k < old(self).classes@.len() ==> #[trigger] final(self).root_of(k) == if old(self).root_of(k)
                    == old(self).root_of(y.id.0 as int) {
                    old(self).root_of(x.id.0 as int)
                } else {
                    old(self).root_of(k)
                },
            final(self).root_of(x.id.0 as int) == final(self).root_of(y.id.0 as int),
            old(self).faithful() && old(self).valid(*x) && old(self).valid(*y) ==> final(self).faithful() && final(self).equal_spec(*x, *y),
    {
        let ghost start = *self;
        let ghost good = start.faithful() && start.valid(*x) && start.valid(*y);
        let ghost tpx = choose|t: Set<Slot>| total_into(x.m@, start.classes@[x.id.0 as int].slots@, t);
        let ghost tpy = choose|t: Set<Slot>| total_into(y.m@, start.classes@[y.id.0 as int].slots@, t);
        let (fx, fy) = self.equalize(x, y, Ghost(tpx), Ghost(tpy));
        let ghost mid = *self;
        proof {
            assert forall|k: int| 0 <= k < start.classes@.len() implies #[trigger] mid.root_of(k) == start.root_of(k) by {
                lemma_same_links(start, mid, k);
            }
            assert(mid.equalized(start, *x, *y, fx, fy, tpx, tpy, good));
            start.lemma_find_root(x.id.0 as int, x.m@);
            start.lemma_find_root(y.id.0 as int, y.m@);
        }
        if fx.id.0 == fy.id.0 {
            self.union_same(&fx, &fy, Ghost(start), Ghost(*x), Ghost(*y), Ghost(tpx), Ghost(tpy), Ghost(good));
        } else {
            self.union_link(&fx, &fy, Ghost(start), Ghost(*x), Ghost(*y), Ghost(tpx), Ghost(tpy), Ghost(good));
        }
    }
}

/// The slots of `slots` outside the orbit of every slot of `slots` that `keep` lacks.
fn shrink_slots(slots: &SlotSet, keep: &SlotSet, g: &Group) -> (r: SlotSet)
    requires
        slots.wf(),
        keep.wf(),
        g.wf(),
        g.omega@ == slots@,
    ensures
        r.wf(),
        r@ == shrunk(slots@, keep@, *g),
{
    let red = slots.difference(keep);
    let mut out = slots.clone();
    let mut k: usize = 0;
    while k < red.v.len()
        invariant
            0 <= k <= red.v@.len(),
            red.wf(),
            red@ == slots@.difference(keep@),
            slots.wf(),
            g.wf(),
            g.omega@ == slots@,
            out.wf(),
            out@ == slots@.filter(|y: Slot| !exists|x: Slot| red.v@.subrange(0, k as int).contains(x) && #[trigger] orbit_spec(*g, x).contains(y)),
        decreases red.v@.len() - k,
    {
        let x = red.v[k];
        let ghost before = out@;
        assert(red@.contains(x));
        proof {
            crate::slotset::lemma_subrange_push_contains(red.v@, k as int);
        }
        if out.contains(x) {
            let o = g.orbit(x);
            proof {
                lemma_orbit_is_least(*g, x, o@);
            }
            let mut j: usize = 0;
            while j < o.v.len()
                invariant
                    0 <= j <= o.v@.len(),
                    o.wf(),
                    out.wf(),
                    out@ == before.difference(o.v@.subrange(0, j as int).to_set()),
                decreases o.v@.len() - j,
            {
                proof {
                    crate::slotset::lemma_subrange_push_to_set(o.v@, j as int);
                }
                out.remove(o.v[j]);
                assert(out@ =~= before.difference(o.v@.subrange(0, j + 1).to_set()));
                j = j + 1;
            }
            assert(o.v@.subrange(0, o.v@.len() as int) =~= o.v@);
            assert(out@ =~= slots@.filter(|y: Slot| !exists|x2: Slot| red.v@.subrange(0, k + 1).contains(x2) && #[trigger] orbit_spec(*g, x2).contains(y)));
        } else {
            assert forall|y: Slot| orbit_spec(*g, x).contains(y) implies !before.contains(y) by {
                let x1 = choose|x1: Slot| red.v@.subrange(0, k as int).contains(x1) && #[trigger] orbit_spec(*g, x1).contains(x);
                lemma_orbit_inside(*g, x1, x);
            }
            assert(out@ =~= slots@.filter(|y: Slot| !exists|x2: Slot| red.v@.subrange(0, k + 1).contains(x2) && #[trigger] orbit_spec(*g, x2).contains(y)));
        }
        k = k + 1;
    }
    assert(red.v@.subrange(0, red.v@.len() as int) =~= red.v@);
    assert forall|y: Slot| out@.contains(y) <==> shrunk(slots@, keep@, *g).contains(y) by {
        if exists|x: Slot| red.v@.contains(x) && #[trigger] orbit_spec(*g, x).contains(y) {
            let x = choose|x: Slot| red.v@.contains(x) && #[trigger] orbit_spec(*g, x).contains(y);
            assert(red@.contains(x));
        }
        if exists|x: Slot| slots@.contains(x) && !keep@.contains(x) && #[trigger] orbit_spec(*g, x).contains(y) {
            let x = choose|x: Slot| slots@.contains(x) && !keep@.contains(x) && #[trigger] orbit_spec(*g, x).contains(y);
            assert(red@.contains(x));
            assert(red.v@.contains(x));
        }
    }
    assert(out@ =~= shrunk(slots@, keep@, *g));
    out
}

/// `a` is `m` restricted to `t`.
pub open spec fn restricts(a: Map<Slot, Slot>, m: Map<Slot, Slot>, t: Set<Slot>) -> bool {
    a == restrict_map(m, t)
}

/// `a` is one of the maps of `gs`, restricted to `t`.
pub open spec fn restricted_from(gs: Set<Map<Slot, Slot>>, a: Map<Slot, Slot>, t: Set<Slot>) -> bool {
    exists|m: Map<Slot, Slot>| #[trigger] gs.contains(m) && restricts(a, m, t)
}

/// The restriction of `m` to `t` is among `out`.
pub open spec fn restriction_listed(out: Seq<SlotMap>, m: Map<Slot, Slot>, t: Set<Slot>) -> bool {
    exists|k: int| 0 <= k < out.len() && restricts(#[trigger] out[k]@, m, t)
}

/// Restricting each of a list of maps, in order, restricts each map of the set they list.
proof fn lemma_restricted_all(gens: Seq<SlotMap>, out: Seq<SlotMap>, gs: Set<Map<Slot, Slot>>, t: Set<Slot>)
    requires
        views(gens).to_set() == gs,
        out.len() == gens.len(),
        forall|j: int| 0 <= j < out.len() ==> (#[trigger] out[j])@ == restrict_map(gens[j]@, t),
    ensures
        forall|k: int| 0 <= k < out.len() ==> restricted_from(gs, #[trigger] out[k]@, t),
        forall|m: Map<Slot, Slot>| #[trigger] gs.contains(m) ==> restriction_listed(out, m, t),
{
    assert forall|k: int| 0 <= k < out.len() implies restricted_from(gs, #[trigger] out[k]@, t) by {
        let m = gens[k]@;
        assert(views(gens)[k] == m);
        assert(gs.contains(m));
        assert(restricts(out[k]@, m, t));
    }
    assert forall|m: Map<Slot, Slot>| #[trigger] gs.contains(m) implies restriction_listed(out, m, t) by {
        assert(views(gens).to_set().contains(m));
        let j = choose|j: int| 0 <= j < views(gens).len() && views(gens)[j] == m;
        assert(out[j]@ == restrict_map(gens[j]@, t));
        assert(restricts(out[j]@, m, t));
    }
}

/// The generators of `g`, each restricted to `t`, the slots that shrinking leaves.
fn restricted_generators(g: &Group, t: &SlotSet, keep: &SlotSet) -> (r: Vec<SlotMap>)
    requires
        g.wf(),
        t.wf(),
        t@ == shrunk(g.omega@, keep@, *g),
    ensures
        gens_ok(r@, t@),
        forall|k: int| 0 <= k < r@.len() ==> restricted_from(gens_of(*g), #[trigger] r@[k]@, t@),
        forall|m: Map<Slot, Slot>| #[trigger] gens_of(*g).contains(m) ==> restriction_listed(r@, m, t@),
{
    let gens = g.generators();
    let mut out: Vec<SlotMap> = Vec::new();
    let mut k: usize = 0;
    while k < gens.len()
        invariant
            0 <= k <= gens@.len(),
            g.wf(),
            t.wf(),
            t@ == shrunk(g.omega@, keep@, *g),
            gens_ok(gens@, g.omega@),
            views(gens@).to_set() == gens_of(*g),
            gens_ok(out@, t@),
            out@.len() == k,
            forall|j: int| 0 <= j < k ==> (#[trigger] out@[j])@ == restrict_map(gens@[j]@, t@),
        decreases gens@.len() - k,
    {
        assert(gens@[k as int].wf() && perm_of(gens@[k as int]@, g.omega@));
        let m = gens[k].restrict(t);
        proof {
            let mm = gens@[k as int]@;
            let s = g.omega@;
            assert(views(gens@)[k as int] == mm);
            assert(gens_of(*g).contains(mm));
            g.omega.lemma_finite();
            assert forall|y: Slot| s.contains(y) && !t@.contains(y) implies #[trigger] s.contains(mm[y]) && !t@.contains(mm[y]) by {
                let x = choose|x: Slot| s.contains(x) && !keep@.contains(x) && #[trigger] orbit_spec(*g, x).contains(y);
                lemma_orbit_closed(*g, x);
                crate::slotmap::lemma_perm_maps_into(mm, s, y);
                assert(apply_or_missing(mm, y) == mm[y]);
                assert(orbit_spec(*g, x).contains(mm[y]));
            }
            lemma_restrict_perm(mm, s, t@);
        }
        let ghost before = out@;
        out.push(m);
        assert forall|j: int| 0 <= j < out@.len() implies #[trigger] out@[j].wf() && perm_of(out@[j]@, t@) by {
            if j < before.len() {
                assert(out@[j] == before[j]);
            }
        }
        assert forall|j: int| 0 <= j < k + 1 implies (#[trigger] out@[j])@ == restrict_map(gens@[j]@, t@) by {
            if j < before.len() {
                assert(out@[j] == before[j]);
            }
        }
        k = k + 1;
    }
    proof {
        lemma_restricted_all(gens@, out@, gens_of(*g), t@);
    }
    out
}

/// The union-find with slots, its classes numbered by `usize` and carrying no data.
pub struct Suf {
    pub inner: SUF<()>,
}

impl Suf {
    pub open spec fn wf(&self) -> bool {
        self.inner.wf()
    }

    /// The empty union-find.
    pub fn new() -> (r: Suf)
        ensures
            r.wf(),
            r.inner.classes@.len() == 0,
    {
        Suf { inner: SUF::new() }
    }

    /// Adds a class with the slots `slots`; returns its number.
    pub fn add(&mut self, slots: SlotSet) -> (r: usize)
        requires
            old(self).wf(),
            slots.wf(),
        ensures
            final(self).wf(),
            r == old(self).inner.classes@.len(),
            final(self).inner.classes@.len() == old(self).inner.classes@.len() + 1,
            final(self).inner.classes@.last().slots@ == slots@,
            final(self).inner.is_root(r as int),
    {
        let a = self.inner.add(slots, ());
        a.id.0
    }

    /// The root that class `id`, invoked by `m`, reaches, with the invocation of that root.
    pub fn find(&self, m: SlotMap, id: usize) -> (r: (SlotMap, usize))
        requires
            self.wf(),
            m.wf(),
            id < self.inner.classes@.len(),
        ensures
            r.0.wf(),
            (r.1 as int, r.0@) == self.inner.find_view(id as int, m@),
    {
        let a = self.inner.find(&AppliedId::new(Id(id), m));
        (a.m, a.id.0)
    }

    /// Whether class `x`, invoked by `x_to_y`, equals class `y` invoked by the identity of
    /// its slots.
    pub fn is_equal(&self, x: usize, y: usize, x_to_y: SlotMap) -> (r: bool)
        requires
            self.wf(),
            x_to_y.wf(),
            x < self.inner.classes@.len(),
            y < self.inner.classes@.len(),
        ensures
            r == self.inner.equal_spec(
                AppliedId { id: Id(x), m: x_to_y },
                AppliedId { id: Id(y), m: SlotMap { keys: self.inner.classes@[y as int].slots.v, vals: self.inner.classes@[y as int].slots.v } },
            ),
    {
        assert(self.inner.class_ok(y as int));
        let ax = AppliedId::new(Id(x), x_to_y);
        let ay = AppliedId::new(Id(y), SlotMap::identity(&self.inner.classes[y].slots));
        let r = self.inner.is_equal(&ax, &ay);
        proof {
            assert(ay.m@ == SlotMap { keys: self.inner.classes@[y as int].slots.v, vals: self.inner.classes@[y as int].slots.v }@);
        }
        r
    }

    /// Drops from class `i` the slots that `keep` lacks, with their orbits.
    pub fn shrink(&mut self, i: usize, keep: &SlotSet)
        requires
            old(self).wf(),
            i < old(self).inner.classes@.len(),
            keep.wf(),
        ensures
            final(self).wf(),
            final(self).inner.classes@.len() == old(self).inner.classes@.len(),
            final(self).inner.classes@[i as int].slots@ == shrunk(
                old(self).inner.classes@[i as int].slots@,
                keep@,
                old(self).inner.classes@[i as int].group,
            ),
    {
        self.inner.shrink(Id(i), keep);
    }
}

/// Whether `m` is a permutation of the slots of `s`.
pub fn is_perm_of(m: &SlotMap, s: &SlotSet) -> (r: bool)
    requires
        m.wf(),
        s.wf(),
    ensures
        r == perm_of(m@, s@),
{
    proof {
        crate::slotmap::lemma_image(m@);
    }
    let p = m.is_perm();
    let k = m.keys();
    let e = k.set_eq(s);
    p && e
}

/// The permutations that generate the group: the stored ones other than the identity.
pub open spec fn gens_of(g: Group) -> Set<Map<Slot, Slot>> {
    g.stored().remove(identity_map(g.omega@))
}

/// The orbit of `x`: the slots in every set that holds `x` and is closed under the
/// generators of `g`.
pub open spec fn orbit_spec(g: Group, x: Slot) -> Set<Slot> {
    Set::new(|y: Slot| forall|t: Set<Slot>| #[trigger] closed_under(t, gens_of(g)) && t.contains(x) ==> t.contains(y))
}

/// The slots of `slots` outside the orbit of every slot of `slots` that `keep` lacks.
pub open spec fn shrunk(slots: Set<Slot>, keep: Set<Slot>, g: Group) -> Set<Slot> {
    slots.filter(|y: Slot| !exists|x: Slot| slots.contains(x) && !keep.contains(x) && #[trigger] orbit_spec(g, x).contains(y))
}

/// The least closed set is the orbit.
proof fn lemma_orbit_is_least(g: Group, x: Slot, r: Set<Slot>)
    requires
        r.contains(x),
        closed_under(r, gens_of(g)),
        forall|t: Set<Slot>| #[trigger] closed_under(t, gens_of(g)) && t.contains(x) ==> r.subset_of(t),
    ensures
        r == orbit_spec(g, x),
{
    assert forall|y: Slot| r.contains(y) implies orbit_spec(g, x).contains(y) by {
        assert forall|t: Set<Slot>| #[trigger] closed_under(t, gens_of(g)) && t.contains(x) implies t.contains(y) by {
            assert(r.subset_of(t));
        }
    }
    assert(r =~= orbit_spec(g, x));
}

/// An orbit is closed under the generators.
proof fn lemma_orbit_closed(g: Group, x: Slot)
    ensures
        closed_under(orbit_spec(g, x), gens_of(g)),
        orbit_spec(g, x).contains(x),
{
    let o = orbit_spec(g, x);
    assert forall|y: Slot, m: Map<Slot, Slot>| o.contains(y) && gens_of(g).contains(m) implies o.contains(
        apply_or_missing(m, y),
    ) by {
        assert forall|t: Set<Slot>| #[trigger] closed_under(t, gens_of(g)) && t.contains(x) implies t.contains(
            apply_or_missing(m, y),
        ) by {
            assert(t.contains(y));
        }
    }
}

/// The orbit of a slot of another orbit lies inside it.
proof fn lemma_orbit_inside(g: Group, x: Slot, z: Slot)
    requires
        orbit_spec(g, x).contains(z),
    ensures
        orbit_spec(g, z).subset_of(orbit_spec(g, x)),
{
    lemma_orbit_closed(g, x);
    assert forall|y: Slot| orbit_spec(g, z).contains(y) implies orbit_spec(g, x).contains(y) by {
        let o = orbit_spec(g, x);
        assert(closed_under(o, gens_of(g)) && o.contains(z));
    }
}

/// An injective map that sends a finite set into itself sends it onto itself.
proof fn lemma_onto(m: Map<Slot, Slot>, d: Set<Slot>, v: Slot)
    requires
        d.finite(),
        injective(m),
        forall|y: Slot| d.contains(y) ==> #[trigger] m.contains_key(y) && d.contains(m[y]),
        d.contains(v),
    ensures
        exists|z: Slot| d.contains(z) && #[trigger] m[z] == v,
{
    let f = |a: Slot| m[a];
    let img = d.map(f);
    assert(injective_on(f, d)) by {
        assert forall|x1: Slot, x2: Slot| d.contains(x1) && d.contains(x2) && #[trigger] f(x1) == #[trigger] f(x2) implies x1 == x2 by {
            assert(m.contains_key(x1) && m.contains_key(x2));
        }
    }
    vstd::set_lib::lemma_map_size(d, img, f);
    assert forall|w: Slot| img.contains(w) implies d.contains(w) by {
        let z = choose|z: Slot| d.contains(z) && w == f(z);
        assert(m.contains_key(z));
    }
    vstd::set_lib::lemma_subset_equality(img, d);
    assert(img.contains(v));
    let z = choose|z: Slot| d.contains(z) && v == f(z);
    assert(m[z] == v);
}

/// Restricting a permutation of `s` to a part `t` whose complement in `s` the permutation
/// keeps to itself gives a permutation of `t`.
proof fn lemma_restrict_perm(m: Map<Slot, Slot>, s: Set<Slot>, t: Set<Slot>)
    requires
        perm_of(m, s),
        s.finite(),
        t.subset_of(s),
        forall|y: Slot| s.contains(y) && !t.contains(y) ==> #[trigger] s.contains(m[y]) && !t.contains(m[y]),
    ensures
        perm_of(restrict_map(m, t), t),
{
    let r = restrict_map(m, t);
    let d = s.difference(t);
    assert(d.finite()) by {
        vstd::set_lib::lemma_len_subset(d, s);
    }
    assert(r.dom() =~= t);
    assert(injective(r)) by {
        assert forall|a: Slot, b: Slot| #![trigger r[a], r[b]] r.contains_key(a) && r.contains_key(b) && a != b implies r[a] != r[b] by {
            assert(m[a] != m[b]);
        }
    }
    assert forall|x: Slot| t.contains(x) implies #[trigger] t.contains(m[x]) by {
        crate::slotmap::lemma_perm_maps_into(m, s, x);
        if !t.contains(m[x]) {
            assert(d.contains(m[x]));
            lemma_onto(m, d, m[x]);
            let z = choose|z: Slot| d.contains(z) && #[trigger] m[z] == m[x];
            assert(z == x);
        }
    }
    assert forall|v: Slot| crate::slotmap::image(r).contains(v) <==> t.contains(v) by {
        if crate::slotmap::image(r).contains(v) {
            let k = crate::slotmap::image_witness(r, v);
            assert(t.contains(m[k]));
        }
        if t.contains(v) {
            let k = crate::slotmap::preimage(m, s, v);
            if !t.contains(k) {
                assert(s.contains(m[k]) && !t.contains(m[k]));
            }
            assert(r.contains_key(k) && r[k] == v);
            crate::slotmap::lemma_in_image(r, k);
        }
    }
    assert(crate::slotmap::image(r) =~= t);
}

/// Two union-finds whose classes point at the same classes reach the same roots.
pub proof fn lemma_same_links<C>(a: SUF<C>, b: SUF<C>, id: int)
    requires
        a.wf(),
        b.wf(),
        a.classes@.len() == b.classes@.len(),
        forall|k: int| 0 <= k < a.classes@.len() ==> #[trigger] a.classes@[k].leader.id == b.classes@[k].leader.id,
        0 <= id < a.classes@.len(),
    ensures
        a.root_of(id) == b.root_of(id),
    decreases a.bound@ - a.rank@[id],
{
    assert(a.class_ok(id));
    assert(b.class_ok(id));
    let l = a.classes@[id].leader.id.0 as int;
    assert(a.class_ok(l));
    assert(b.classes@[id].leader.id.0 == l);
    if l != id {
        lemma_same_links(a, b, l);
    }
}

/// Pointing the root `y` at the root `x` sends to `x` exactly the classes that reached `y`.
pub proof fn lemma_link<C>(a: SUF<C>, b: SUF<C>, x: int, y: int, id: int)
    requires
        a.wf(),
        b.wf(),
        a.classes@.len() == b.classes@.len(),
        0 <= x < a.classes@.len(),
        0 <= y < a.classes@.len(),
        x != y,
        a.is_root(x),
        a.is_root(y),
        b.classes@[y].leader.id.0 == x,
        forall|k: int| 0 <= k < a.classes@.len() && k != y ==> #[trigger] a.classes@[k].leader.id == b.classes@[k].leader.id,
        0 <= id < a.classes@.len(),
    ensures
        b.root_of(id) == if a.root_of(id) == y { x } else { a.root_of(id) },
    decreases a.bound@ - a.rank@[id],
{
    assert(a.class_ok(id));
    assert(b.class_ok(id));
    assert(b.class_ok(x));
    assert(b.class_ok(y));
    assert(b.root_of(x) == x);
    let l = a.classes@[id].leader.id.0 as int;
    assert(a.class_ok(l));
    if id == y {
        assert(b.root_of(y) == b.root_of(x));
    } else if l == id {
        assert(b.classes@[id].leader.id == a.classes@[id].leader.id);
    } else {
        assert(b.classes@[id].leader.id == a.classes@[id].leader.id);
        lemma_link(a, b, x, y, l);
    }
}

/// The slots that `m` sends the slots of `s` to; slots that `m` does not map are dropped.
pub open spec fn image_of(m: Map<Slot, Slot>, s: Set<Slot>) -> Set<Slot> {
    Set::new(|v: Slot| exists|x: Slot| s.contains(x) && m.contains_key(x) && #[trigger] m[x] == v)
}

/// `r` sends each value of `m` back to a key that `m` sends there.
pub open spec fn inverts(r: Map<Slot, Slot>, m: Map<Slot, Slot>) -> bool {
    &&& r.dom() == crate::slotmap::values_of(m)
    &&& forall|v: Slot| #[trigger] r.contains_key(v) ==> m.contains_key(r[v]) && m[r[v]] == v
}

/// A map back from each value of `m` to a key that `m` sends there; the inverse where `m`
/// is injective.
pub fn invert(m: &SlotMap) -> (r: SlotMap)
    requires
        m.wf(),
    ensures
        r.wf(),
        inverts(r@, m@),
        injective(m@) ==> r@ == inverse_map(m@),
{
    if m.is_bijection() {
        return m.inverse();
    }
    proof {
        m.lemma_view();
    }
    let mut out = SlotMap::new();
    let mut i: usize = 0;
    while i < m.keys.len()
        invariant
            0 <= i <= m.keys@.len(),
            m.wf(),
            out.wf(),
            out@.dom() == m.vals@.subrange(0, i as int).to_set(),
            forall|v: Slot| #[trigger] out@.contains_key(v) ==> m@.contains_key(out@[v]) && m@[out@[v]] == v,
        decreases m.keys@.len() - i,
    {
        proof {
            m.lemma_view();
            crate::slotset::lemma_subrange_push_to_set(m.vals@, i as int);
        }
        let v = m.vals[i];
        if !out.contains_key(v) {
            out.insert(v, m.keys[i]);
        }
        assert(out@.dom() =~= m.vals@.subrange(0, i + 1).to_set());
        i = i + 1;
    }
    proof {
        m.lemma_view();
        assert(m.vals@.subrange(0, m.vals@.len() as int) =~= m.vals@);
        assert forall|v: Slot| m.vals@.to_set().contains(v) <==> crate::slotmap::values_of(m@).contains(v) by {
            if m.vals@.to_set().contains(v) {
                let j = m.vals@.index_of(v);
                assert(m@[m.keys@[j]] == v);
            }
            if crate::slotmap::values_of(m@).contains(v) {
                let k = choose|k: Slot| m@.contains_key(k) && #[trigger] m@[k] == v;
                let j = m.keys@.index_of(k);
                assert(m.vals@[j] == v);
            }
        }
        assert(out@.dom() =~= crate::slotmap::values_of(m@));
    }
    out
}

/// The slots that `m` sends the slots of `s` to, dropping those that `m` does not map.
fn map_set(m: &SlotMap, s: &SlotSet) -> (r: SlotSet)
    requires
        m.wf(),
        s.wf(),
    ensures
        r.wf(),
        r@ == image_of(m@, s@),
{
    let mut out = SlotSet::new();
    let mut i: usize = 0;
    while i < s.v.len()
        invariant
            0 <= i <= s.v@.len(),
            m.wf(),
            s.wf(),
            out.wf(),
            out@ == image_of(m@, s.v@.subrange(0, i as int).to_set()),
        decreases s.v@.len() - i,
    {
        proof {
            crate::slotset::lemma_subrange_push_to_set(s.v@, i as int);
        }
        let x = s.v[i];
        match m.get(x) {
            Some(y) => {
                out.insert(y);
            },
            None => {},
        }
        assert(out@ =~= image_of(m@, s.v@.subrange(0, i + 1).to_set()));
        i = i + 1;
    }
    assert(s.v@.subrange(0, s.v@.len() as int) =~= s.v@);
    out
}

/// A root invoked by the identity of its slots equals itself: the class that [SUF::add]
/// gives back is equal to itself.
pub proof fn lemma_root_equals_itself<C>(s: SUF<C>, a: AppliedId)
    requires
        s.wf(),
        a.id.0 < s.classes@.len(),
        s.is_root(a.id.0 as int),
        a.m@ == identity_map(s.classes@[a.id.0 as int].slots@),
    ensures
        s.equal_spec(a, a),
{
    let i = a.id.0 as int;
    assert(s.class_ok(i));
    let c = s.classes@[i];
    let id = identity_map(c.slots@);
    lemma_compose_dom(id, id);
    assert(compose_partial_map(id, id) =~= id);
    assert(s.find_view(i, a.m@) == (i, id));
    crate::group::lemma_identity_divides(c.slots@);
    lemma_identity_image(c.slots@);
    assert(id.dom() =~= c.slots@);
    assert(injective(id));
    c.group.lemma_identity_member();
}


/// `m` renames each slot of `a`, one to one, into a slot of `b`.
pub open spec fn total_into(m: Map<Slot, Slot>, a: Set<Slot>, b: Set<Slot>) -> bool {
    &&& forall|k: Slot| #[trigger] a.contains(k) ==> m.contains_key(k) && b.contains(m[k])
    &&& forall|k1: Slot, k2: Slot| #![trigger m[k1], m[k2]] a.contains(k1) && a.contains(k2) && k1 != k2 ==> m[k1] != m[k2]
}

/// One to one renamings compose.
pub proof fn lemma_total_compose(a: Map<Slot, Slot>, b: Map<Slot, Slot>, s: Set<Slot>, t: Set<Slot>, u: Set<Slot>)
    requires
        total_into(a, s, t),
        total_into(b, t, u),
    ensures
        total_into(compose_partial_map(a, b), s, u),
{
    lemma_compose_dom(a, b);
    let c = compose_partial_map(a, b);
    assert forall|k: Slot| #[trigger] s.contains(k) implies c.contains_key(k) && u.contains(c[k]) by {
        assert(a.contains_key(k) && t.contains(a[k]));
        assert(b.contains_key(a[k]));
    }
    assert forall|k1: Slot, k2: Slot| #![trigger c[k1], c[k2]] s.contains(k1) && s.contains(k2) && k1 != k2 implies c[k1] != c[k2] by {
        assert(a.contains_key(k1) && a.contains_key(k2));
        assert(a[k1] != a[k2]);
        assert(c.contains_key(k1) && c.contains_key(k2));
    }
}

/// Cutting a one to one renaming of `s` down to `s` gives a map with exactly the keys of
/// `s`, injective.
pub proof fn lemma_cut_total(m: Map<Slot, Slot>, s: Set<Slot>, t: Set<Slot>)
    requires
        total_into(m, s, t),
    ensures
        compose_partial_map(identity_map(s), m).dom() == s,
        injective(compose_partial_map(identity_map(s), m)),
        total_into(compose_partial_map(identity_map(s), m), s, t),
        forall|k: Slot| s.contains(k) ==> #[trigger] compose_partial_map(identity_map(s), m)[k] == m[k],
{
    let id = identity_map(s);
    lemma_compose_dom(id, m);
    let c = compose_partial_map(id, m);
    assert forall|k: Slot| #[trigger] c.contains_key(k) <==> s.contains(k) by {
        if s.contains(k) {
            assert(id[k] == k);
        }
    }
    assert(c.dom() =~= s);
    assert forall|k: Slot| s.contains(k) implies #[trigger] c[k] == m[k] by {
        assert(id[k] == k);
    }
    assert forall|k1: Slot, k2: Slot| #![trigger c[k1], c[k2]] c.contains_key(k1) && c.contains_key(k2) && k1 != k2 implies c[k1] != c[k2] by {
        assert(c[k1] == m[k1] && c[k2] == m[k2]);
        assert(m[k1] != m[k2]);
    }
    assert forall|k1: Slot, k2: Slot| #![trigger c[k1], c[k2]] s.contains(k1) && s.contains(k2) && k1 != k2 implies c[k1] != c[k2] by {
        assert(c.contains_key(k1) && c.contains_key(k2));
    }
}

/// Shrinking keeps only slots of `keep`.
pub proof fn lemma_shrunk_kept(slots: Set<Slot>, keep: Set<Slot>, g: Group)
    ensures
        shrunk(slots, keep, g).subset_of(slots.intersect(keep)),
{
    assert forall|y: Slot| shrunk(slots, keep, g).contains(y) implies slots.intersect(keep).contains(y) by {
        if !keep.contains(y) {
            lemma_orbit_closed(g, y);
            assert(slots.contains(y) && !keep.contains(y) && orbit_spec(g, y).contains(y));
        }
    }
}


/// Two union-finds with the same roots, whose other classes have the same leaders, compose
/// the same renamings on the way to the same roots.
pub proof fn lemma_same_pre_root<C>(a: SUF<C>, b: SUF<C>, id: int, m: Map<Slot, Slot>)
    requires
        a.wf(),
        b.wf(),
        a.classes@.len() == b.classes@.len(),
        forall|k: int| 0 <= k < a.classes@.len() ==> #[trigger] a.is_root(k) == b.is_root(k),
        forall|k: int| 0 <= k < a.classes@.len() && !a.is_root(k) ==> #[trigger] a.classes@[k].leader == b.classes@[k].leader,
        0 <= id < a.classes@.len(),
    ensures
        a.pre_root(id, m) == b.pre_root(id, m),
        a.root_of(id) == b.root_of(id),
    decreases a.bound@ - a.rank@[id],
{
    assert(a.class_ok(id));
    assert(b.class_ok(id));
    let l = a.classes@[id].leader;
    assert(a.class_ok(l.id.0 as int));
    if !a.is_root(id) {
        assert(b.classes@[id].leader == l);
        lemma_same_pre_root(a, b, l.id.0 as int, compose_partial_map(l.m@, m));
    } else {
        assert(b.is_root(id));
    }
}

/// Pointing the root `y` at the root `x` by the renaming `n` puts `n` in front of the
/// renamings of the classes that reached `y`.
pub proof fn lemma_link_pre_root<C>(a: SUF<C>, b: SUF<C>, x: int, y: int, n: Map<Slot, Slot>, id: int, m: Map<Slot, Slot>)
    requires
        a.wf(),
        b.wf(),
        a.classes@.len() == b.classes@.len(),
        0 <= x < a.classes@.len(),
        0 <= y < a.classes@.len(),
        x != y,
        a.is_root(x),
        a.is_root(y),
        b.classes@[y].leader.id.0 == x,
        b.classes@[y].leader.m@ == n,
        forall|k: int| 0 <= k < a.classes@.len() && k != y ==> #[trigger] a.classes@[k].leader == b.classes@[k].leader,
        0 <= id < a.classes@.len(),
    ensures
        b.pre_root(id, m) == if a.root_of(id) == y {
            compose_partial_map(n, a.pre_root(id, m))
        } else {
            a.pre_root(id, m)
        },
    decreases a.bound@ - a.rank@[id],
{
    assert(a.class_ok(id));
    assert(b.class_ok(id));
    assert(b.class_ok(x));
    assert(b.class_ok(y));
    assert(b.classes@[x].leader == a.classes@[x].leader);
    let l = a.classes@[id].leader;
    assert(a.class_ok(l.id.0 as int));
    if id == y {
        assert(b.pre_root(x, compose_partial_map(n, m)) == compose_partial_map(n, m));
    } else if l.id.0 == id {
        assert(b.classes@[id].leader == l);
    } else {
        assert(b.classes@[id].leader == l);
        lemma_link_pre_root(a, b, x, y, n, l.id.0 as int, compose_partial_map(l.m@, m));
    }
}


/// Cutting down to `s` after cutting down to a larger `t` is cutting down to `s`.
pub proof fn lemma_cut_twice(s: Set<Slot>, t: Set<Slot>, p: Map<Slot, Slot>)
    requires
        s.subset_of(t),
    ensures
        compose_partial_map(identity_map(s), compose_partial_map(identity_map(t), p)) == compose_partial_map(identity_map(s), p),
{
    let is = identity_map(s);
    let it = identity_map(t);
    let inner = compose_partial_map(it, p);
    lemma_compose_dom(it, p);
    lemma_compose_dom(is, inner);
    lemma_compose_dom(is, p);
    let a = compose_partial_map(is, inner);
    let b = compose_partial_map(is, p);
    assert forall|k: Slot| #[trigger] a.contains_key(k) <==> b.contains_key(k) by {
        if s.contains(k) {
            assert(is[k] == k && it[k] == k);
        }
    }
    assert forall|k: Slot| #[trigger] a.contains_key(k) implies a[k] == b[k] by {
        assert(is[k] == k && it[k] == k);
        assert(inner.contains_key(k));
    }
    assert(a =~= b);
}

/// A one to one renaming of a set is one of each of its parts.
pub proof fn lemma_total_sub(m: Map<Slot, Slot>, a: Set<Slot>, b: Set<Slot>, t: Set<Slot>)
    requires
        total_into(m, a, t),
        b.subset_of(a),
    ensures
        total_into(m, b, t),
{
    assert forall|k: Slot| #[trigger] b.contains(k) implies m.contains_key(k) && t.contains(m[k]) by {
        assert(a.contains(k));
    }
    assert forall|k1: Slot, k2: Slot| #![trigger m[k1], m[k2]] b.contains(k1) && b.contains(k2) && k1 != k2 implies m[k1] != m[k2] by {
        assert(a.contains(k1) && a.contains(k2));
    }
}

/// The inverse of an injective map sends each value back to its key.
pub proof fn lemma_inverse_facts(m: Map<Slot, Slot>)
    requires
        injective(m),
    ensures
        inverse_map(m).dom() == crate::slotmap::values_of(m),
        forall|v: Slot| #[trigger] inverse_map(m).contains_key(v) ==> m.contains_key(inverse_map(m)[v]) && m[inverse_map(m)[v]] == v,
        forall|k: Slot| #[trigger] m.contains_key(k) ==> inverse_map(m).contains_key(m[k]) && inverse_map(m)[m[k]] == k,
{
    let inv = inverse_map(m);
    assert(inv.dom() =~= crate::slotmap::values_of(m));
    assert forall|v: Slot| #[trigger] inv.contains_key(v) implies m.contains_key(inv[v]) && m[inv[v]] == v by {
        assert(crate::slotmap::values_of(m).contains(v));
    }
    assert forall|k: Slot| #[trigger] m.contains_key(k) implies inv.contains_key(m[k]) && inv[m[k]] == k by {
        assert(crate::slotmap::values_of(m).contains(m[k]));
        let k2 = inv[m[k]];
        assert(m.contains_key(k2) && m[k2] == m[k]);
    }
}

/// Where each of two injective renamings of `s` reaches what the other does through the
/// inverse of the first, renaming by one and back by the other permutes `s`.
pub proof fn lemma_same_root_perm(fxm: Map<Slot, Slot>, fym: Map<Slot, Slot>, s: Set<Slot>)
    requires
        fxm.dom() == s,
        fym.dom() == s,
        injective(fxm),
        injective(fym),
        s.subset_of(image_of(compose_partial_map(fym, inverse_map(fxm)), s)),
        s.subset_of(image_of(compose_partial_map(fxm, inverse_map(fym)), s)),
    ensures
        perm_of(compose_partial_map(fxm, inverse_map(fym)), s),
{
    lemma_inverse_facts(fxm);
    lemma_inverse_facts(fym);
    let ix = inverse_map(fxm);
    let iy = inverse_map(fym);
    let tx = compose_partial_map(fym, ix);
    let ty = compose_partial_map(fxm, iy);
    lemma_compose_dom(fym, ix);
    lemma_compose_dom(fxm, iy);
    // every image under fxm is an image under fym, and back
    assert forall|k: Slot| s.contains(k) implies exists|k2: Slot| s.contains(k2) && fym[k2] == #[trigger] fxm[k] by {
        assert(image_of(tx, s).contains(k));
        let k1 = choose|k1: Slot| s.contains(k1) && tx.contains_key(k1) && #[trigger] tx[k1] == k;
        assert(ix.contains_key(fym[k1]) && ix[fym[k1]] == k);
        assert(fxm[k] == fym[k1]);
    }
    assert forall|k: Slot| s.contains(k) implies exists|k2: Slot| s.contains(k2) && fxm[k2] == #[trigger] fym[k] by {
        assert(image_of(ty, s).contains(k));
        let k1 = choose|k1: Slot| s.contains(k1) && ty.contains_key(k1) && #[trigger] ty[k1] == k;
        assert(iy.contains_key(fxm[k1]) && iy[fxm[k1]] == k);
        assert(fym[k] == fxm[k1]);
    }
    assert forall|k: Slot| #[trigger] ty.contains_key(k) <==> s.contains(k) by {
        if s.contains(k) {
            let k2 = choose|k2: Slot| s.contains(k2) && fym[k2] == fxm[k];
            assert(iy.contains_key(fym[k2]));
        }
    }
    assert(ty.dom() =~= s);
    assert(injective(ty)) by {
        assert forall|a: Slot, b: Slot| #![trigger ty[a], ty[b]] ty.contains_key(a) && ty.contains_key(b) && a != b implies ty[a] != ty[b] by {
            assert(fym[iy[fxm[a]]] == fxm[a]);
            assert(fym[iy[fxm[b]]] == fxm[b]);
            assert(fxm[a] != fxm[b]);
        }
    }
    assert forall|v: Slot| crate::slotmap::image(ty).contains(v) <==> s.contains(v) by {
        crate::slotmap::lemma_image(ty);
        if s.contains(v) {
            let k = choose|k: Slot| s.contains(k) && fxm[k] == fym[v];
            assert(iy[fym[v]] == v);
            assert(ty.contains_key(k) && ty[k] == v);
        }
        if crate::slotmap::values_of(ty).contains(v) {
            let k = choose|k: Slot| ty.contains_key(k) && #[trigger] ty[k] == v;
            assert(iy.contains_key(fxm[k]));
        }
    }
    assert(crate::slotmap::image(ty) =~= s);
}

/// When each image under `fxm` of the slots `sx` is one under `fym` of `sy`, renaming by
/// `fxm` and back by `fym` renames `sx` one to one into `sy`, and then `fym` gives `fxm`.
pub proof fn lemma_link_renaming(fxm: Map<Slot, Slot>, fym: Map<Slot, Slot>, sx: Set<Slot>, sy: Set<Slot>)
    requires
        fxm.dom() == sx,
        fym.dom() == sy,
        injective(fxm),
        injective(fym),
        sx.subset_of(image_of(compose_partial_map(fym, inverse_map(fxm)), sy)),
    ensures
        total_into(compose_partial_map(fxm, inverse_map(fym)), sx, sy),
        forall|k: Slot| #[trigger] sx.contains(k) ==> fym[compose_partial_map(fxm, inverse_map(fym))[k]] == fxm[k],
{
    lemma_inverse_facts(fxm);
    lemma_inverse_facts(fym);
    let ix = inverse_map(fxm);
    let iy = inverse_map(fym);
    let tx = compose_partial_map(fym, ix);
    let n = compose_partial_map(fxm, iy);
    lemma_compose_dom(fym, ix);
    lemma_compose_dom(fxm, iy);
    assert forall|k: Slot| #[trigger] sx.contains(k) implies n.contains_key(k) && sy.contains(n[k]) && fym[n[k]] == fxm[k] by {
        assert(image_of(tx, sy).contains(k));
        let k1 = choose|k1: Slot| sy.contains(k1) && tx.contains_key(k1) && #[trigger] tx[k1] == k;
        assert(ix.contains_key(fym[k1]) && ix[fym[k1]] == k);
        assert(fxm[k] == fym[k1]);
        assert(iy.contains_key(fxm[k]));
    }
    assert forall|k1: Slot, k2: Slot| #![trigger n[k1], n[k2]] sx.contains(k1) && sx.contains(k2) && k1 != k2 implies n[k1] != n[k2] by {
        assert(fxm[k1] != fxm[k2]);
        assert(fym[n[k1]] == fxm[k1] && fym[n[k2]] == fxm[k2]);
    }
}

/// Pointing `y`'s root at `x`'s root by `n` makes `y` reach `x`'s root with the renaming of `x`.
pub proof fn lemma_linked_cut(
    fxm: Map<Slot, Slot>,
    fym: Map<Slot, Slot>,
    n: Map<Slot, Slot>,
    py: Map<Slot, Slot>,
    tx: Set<Slot>,
    ty: Set<Slot>,
    tpy: Set<Slot>,
)
    requires
        fxm.dom() == tx,
        fym == compose_partial_map(identity_map(ty), py),
        total_into(py, ty, tpy),
        total_into(n, tx, ty),
        forall|k: Slot| #[trigger] tx.contains(k) ==> fym[n[k]] == fxm[k],
    ensures
        compose_partial_map(identity_map(tx), compose_partial_map(n, py)) == fxm,
{
    lemma_cut_total(py, ty, tpy);
    let inner = compose_partial_map(n, py);
    let id = identity_map(tx);
    lemma_compose_dom(n, py);
    lemma_compose_dom(id, inner);
    let c = compose_partial_map(id, inner);
    assert forall|k: Slot| #[trigger] c.contains_key(k) <==> fxm.contains_key(k) by {
        if tx.contains(k) {
            assert(id[k] == k);
            assert(n.contains_key(k) && ty.contains(n[k]));
            assert(py.contains_key(n[k]));
        }
    }
    assert forall|k: Slot| #[trigger] c.contains_key(k) implies c[k] == fxm[k] by {
        assert(id[k] == k);
        assert(ty.contains(n[k]));
        assert(fym[n[k]] == py[n[k]]);
    }
    assert(c =~= fxm);
}

/// Renaming by an injective map and back is the identity of its keys, a permutation of them.
pub proof fn lemma_self_divide(m: Map<Slot, Slot>, s: Set<Slot>)
    requires
        m.dom() == s,
        injective(m),
    ensures
        compose_partial_map(m, inverse_map(m)) == identity_map(s),
        perm_of(identity_map(s), s),
{
    lemma_inverse_facts(m);
    let inv = inverse_map(m);
    lemma_compose_dom(m, inv);
    let c = compose_partial_map(m, inv);
    assert forall|k: Slot| #[trigger] c.contains_key(k) <==> s.contains(k) by {}
    assert forall|k: Slot| #[trigger] c.contains_key(k) implies c[k] == k by {}
    assert(c =~= identity_map(s));
    lemma_identity_image(s);
    assert(identity_map(s).dom() =~= s);
}


/// After equalizing, when `x` and `y` reach the same root and the renaming between them
/// is a permutation of its slots among its symmetries, they are equal.
pub proof fn lemma_union_same<C>(
    start: SUF<C>,
    mid: SUF<C>,
    fin: SUF<C>,
    x: AppliedId,
    y: AppliedId,
    r: int,
    fxm: Map<Slot, Slot>,
    fym: Map<Slot, Slot>,
    pm: Map<Slot, Slot>,
    tpx: Set<Slot>,
    tpy: Set<Slot>,
)
    requires
        start.wf(),
        mid.wf(),
        fin.wf(),
        mid.classes@.len() == start.classes@.len(),
        fin.classes@.len() == start.classes@.len(),
        forall|k: int| 0 <= k < mid.classes@.len() ==> #[trigger] mid.classes@[k].leader.id == start.classes@[k].leader.id,
        forall|k: int| 0 <= k < mid.classes@.len() && !start.is_root(k) ==> #[trigger] mid.classes@[k].leader == start.classes@[k].leader,
        forall|k: int| 0 <= k < fin.classes@.len() ==> #[trigger] fin.classes@[k].leader == mid.classes@[k].leader,
        0 <= r < start.classes@.len(),
        fin.classes@[r].slots@ == mid.classes@[r].slots@,
        x.id.0 < start.classes@.len(),
        y.id.0 < start.classes@.len(),
        start.root_of(x.id.0 as int) == r,
        start.root_of(y.id.0 as int) == r,
        fxm == compose_partial_map(identity_map(mid.classes@[r].slots@), start.pre_root(x.id.0 as int, x.m@)),
        fym == compose_partial_map(identity_map(mid.classes@[r].slots@), start.pre_root(y.id.0 as int, y.m@)),
        total_into(start.pre_root(y.id.0 as int, y.m@), mid.classes@[r].slots@, tpy),
        pm == compose_partial_map(fxm, inverse_map(fym)),
        perm_of(pm, mid.classes@[r].slots@),
        fin.classes@[r].group.member(pm),
    ensures
        fin.equal_spec(x, y),
{
    assert forall|k: int| 0 <= k < fin.classes@.len() implies #[trigger] start.is_root(k) == fin.is_root(k) by {
        assert(fin.classes@[k].leader == mid.classes@[k].leader);
    }
    assert forall|k: int| 0 <= k < start.classes@.len() && !start.is_root(k) implies #[trigger] start.classes@[k].leader == fin.classes@[k].leader by {
        assert(fin.classes@[k].leader == mid.classes@[k].leader);
    }
    lemma_same_pre_root(start, fin, x.id.0 as int, x.m@);
    lemma_same_pre_root(start, fin, y.id.0 as int, y.m@);
    fin.lemma_find_pre_root(x.id.0 as int, x.m@);
    fin.lemma_find_pre_root(y.id.0 as int, y.m@);
    lemma_cut_total(start.pre_root(y.id.0 as int, y.m@), mid.classes@[r].slots@, tpy);
}

/// After equalizing, when the root `ry` of `y` is pointed at the root `rx` of `x` by the
/// renaming that takes `x`'s invocation back through `y`'s, they are equal.
pub proof fn lemma_union_linked<C>(
    start: SUF<C>,
    mid: SUF<C>,
    linked: SUF<C>,
    fin: SUF<C>,
    x: AppliedId,
    y: AppliedId,
    rx: int,
    ry: int,
    fxm: Map<Slot, Slot>,
    fym: Map<Slot, Slot>,
    n: Map<Slot, Slot>,
    tpx: Set<Slot>,
    tpy: Set<Slot>,
)
    requires
        start.wf(),
        mid.wf(),
        linked.wf(),
        fin.wf(),
        mid.classes@.len() == start.classes@.len(),
        linked.classes@.len() == start.classes@.len(),
        fin.classes@.len() == start.classes@.len(),
        forall|k: int| 0 <= k < mid.classes@.len() ==> #[trigger] mid.classes@[k].leader.id == start.classes@[k].leader.id,
        forall|k: int| 0 <= k < mid.classes@.len() && !start.is_root(k) ==> #[trigger] mid.classes@[k].leader == start.classes@[k].leader,
        0 <= rx < start.classes@.len(),
        0 <= ry < start.classes@.len(),
        rx != ry,
        mid.is_root(rx),
        mid.is_root(ry),
        forall|k: int| 0 <= k < mid.classes@.len() && k != ry ==> #[trigger] linked.classes@[k].leader == mid.classes@[k].leader,
        linked.classes@[ry].leader.id.0 == rx,
        linked.classes@[ry].leader.m@ == n,
        forall|k: int| 0 <= k < fin.classes@.len() ==> #[trigger] fin.classes@[k].leader == linked.classes@[k].leader,
        fin.classes@[rx].slots@ == mid.classes@[rx].slots@,
        x.id.0 < start.classes@.len(),
        y.id.0 < start.classes@.len(),
        start.root_of(x.id.0 as int) == rx,
        start.root_of(y.id.0 as int) == ry,
        fxm == compose_partial_map(identity_map(mid.classes@[rx].slots@), start.pre_root(x.id.0 as int, x.m@)),
        fym == compose_partial_map(identity_map(mid.classes@[ry].slots@), start.pre_root(y.id.0 as int, y.m@)),
        total_into(start.pre_root(x.id.0 as int, x.m@), mid.classes@[rx].slots@, tpx),
        total_into(start.pre_root(y.id.0 as int, y.m@), mid.classes@[ry].slots@, tpy),
        total_into(n, mid.classes@[rx].slots@, mid.classes@[ry].slots@),
        forall|k: Slot| #[trigger] mid.classes@[rx].slots@.contains(k) ==> fym[n[k]] == fxm[k],
    ensures
        fin.equal_spec(x, y),
{
    let tx = mid.classes@[rx].slots@;
    let ty = mid.classes@[ry].slots@;
    let px = start.pre_root(x.id.0 as int, x.m@);
    let py = start.pre_root(y.id.0 as int, y.m@);
    assert forall|k: int| 0 <= k < mid.classes@.len() implies #[trigger] start.is_root(k) == mid.is_root(k) by {}
    lemma_same_pre_root(start, mid, x.id.0 as int, x.m@);
    lemma_same_pre_root(start, mid, y.id.0 as int, y.m@);
    assert forall|k: int| 0 <= k < mid.classes@.len() && k != ry implies #[trigger] mid.classes@[k].leader.id == linked.classes@[k].leader.id by {
        assert(linked.classes@[k].leader == mid.classes@[k].leader);
    }
    lemma_link_pre_root(mid, linked, rx, ry, n, x.id.0 as int, x.m@);
    lemma_link_pre_root(mid, linked, rx, ry, n, y.id.0 as int, y.m@);
    lemma_link(mid, linked, rx, ry, x.id.0 as int);
    lemma_link(mid, linked, rx, ry, y.id.0 as int);
    assert forall|k: int| 0 <= k < fin.classes@.len() implies #[trigger] linked.is_root(k) == fin.is_root(k) by {
        assert(fin.classes@[k].leader == linked.classes@[k].leader);
    }
    assert forall|k: int| 0 <= k < linked.classes@.len() && !linked.is_root(k) implies #[trigger] linked.classes@[k].leader == fin.classes@[k].leader by {
        assert(fin.classes@[k].leader == linked.classes@[k].leader);
    }
    lemma_same_pre_root(linked, fin, x.id.0 as int, x.m@);
    lemma_same_pre_root(linked, fin, y.id.0 as int, y.m@);
    fin.lemma_find_pre_root(x.id.0 as int, x.m@);
    fin.lemma_find_pre_root(y.id.0 as int, y.m@);
    lemma_cut_total(px, tx, tpx);
    lemma_cut_total(py, ty, tpy);
    lemma_linked_cut(fxm, fym, n, py, tx, ty, tpy);
    assert(fin.find_view(x.id.0 as int, x.m@) == (rx, fxm));
    assert(fin.find_view(y.id.0 as int, y.m@) == (rx, fxm));
    lemma_self_divide(fxm, tx);
    assert(fin.class_ok(rx));
    fin.classes@[rx].group.lemma_identity_member();
}

} // verus!
