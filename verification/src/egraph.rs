use vstd::prelude::*;
use crate::slot::{Slot, SlotTable};
use crate::slotmap::{SlotMap, identity_map};
use crate::applied::{AppliedId, Id};
use crate::lang::{ENode, app_ids_spec, public_slots_spec, with_all_slots, rename_public, all_slots_spec, is_public_pos};
use crate::expr::{RecExpr, Pattern};
use crate::suf::{SUF, invert, inverts, lemma_same_links};

verus! {

/// A datastructure to efficiently represent congruence relations on terms with binders.
///
/// The classes live in a union-find with slots: each class has slots, symmetries, and a
/// leader that it was merged into. The e-nodes of a class are kept with it, written over
/// its slots; a class that was merged into another holds none, its e-nodes having moved
/// to the class it joined and been queued as pending.
pub struct EGraph {
    /// The classes: their slots, symmetries and leaders.
    pub suf: SUF<()>,
    /// The e-nodes of each class.
    pub nodes: Vec<Vec<ENode>>,
    /// E-nodes that moved between classes and wait to be processed again.
    pub pending: Vec<ENode>,
    /// The counter from which fresh slots are drawn.
    pub tab: SlotTable,
}

/// `new_n` is `old_n` with its public slots renamed by `m`; a public occurrence of a slot
/// that `m` does not map may be written over any slot, private occurrences stay.
pub open spec fn moved_over(old_n: ENode, new_n: ENode, m: Map<Slot, Slot>) -> bool {
    exists|ys: Seq<Slot>| {
        &&& new_n@ == with_all_slots(old_n, ys)
        &&& ys.len() == all_slots_spec(old_n).len()
        &&& forall|i: int|
            0 <= i < ys.len() ==> #[trigger] ys[i] == if !is_public_pos(old_n, i) {
                all_slots_spec(old_n)[i]
            } else if m.contains_key(all_slots_spec(old_n)[i]) {
                m[all_slots_spec(old_n)[i]]
            } else {
                ys[i]
            }
    }
}

impl EGraph {
    /// Well-formed except that class `x` may still hold e-nodes after it was merged.
    pub open spec fn wf_except(&self, x: int) -> bool {
        &&& self.suf.wf()
        &&& self.suf.faithful()
        &&& self.nodes@.len() == self.suf.classes@.len()
        &&& forall|i: int|
            0 <= i < self.nodes@.len() && i != x && !self.suf.is_root(i) ==> #[trigger] self.nodes@[i]@.len() == 0
        &&& forall|i: int, k: int|
            0 <= i < self.nodes@.len() && 0 <= k < self.nodes@[i]@.len() ==> #[trigger] self.nodes@[i]@[k].wf()
        &&& self.tab.wf()
    }

    pub open spec fn wf(&self) -> bool {
        self.wf_except(-1)
    }

    /// The number of classes ever made, alive or merged.
    pub open spec fn len(&self) -> nat {
        self.suf.classes@.len()
    }

    /// `a` invokes a class of the e-graph, renaming its slots one to one.
    pub open spec fn valid(&self, a: AppliedId) -> bool {
        a.wf() && self.suf.valid(a)
    }

    /// `a` and `b` are equal: they reach the same class, and the renaming between them is
    /// one of its symmetries.
    pub open spec fn eq_spec(&self, a: AppliedId, b: AppliedId) -> bool {
        self.suf.equal_spec(a, b)
    }

    /// Class `i` was not merged into another.
    pub open spec fn is_alive_spec(&self, i: Id) -> bool {
        i.0 < self.len() && self.suf.is_root(i.0 as int)
    }

    /// The class that class `i` was merged into, in the end.
    pub open spec fn class_of(&self, i: int) -> int {
        self.suf.root_of(i)
    }

    /// The alive classes among the first `n`, in order.
    pub open spec fn ids_upto(&self, n: nat) -> Seq<Id>
        decreases n,
    {
        if n == 0 {
            Seq::empty()
        } else {
            let s = self.ids_upto((n - 1) as nat);
            if self.suf.is_root(n - 1) {
                s.push(Id((n - 1) as usize))
            } else {
                s
            }
        }
    }

    /// The alive classes, in order.
    pub open spec fn ids_spec(&self) -> Seq<Id> {
        self.ids_upto(self.len())
    }

    /// Class `c` holds an e-node congruent to `n`.
    pub open spec fn holds_congruent(&self, c: int, n: ENode) -> bool {
        &&& 0 <= c < self.nodes@.len()
        &&& exists|k: int| 0 <= k < self.nodes@[c]@.len() && #[trigger] self.congruent(n, self.nodes@[c]@[k])
    }

    /// The e-graph is `old` with classes added after its own, which stay as they were.
    pub open spec fn extends(&self, old: EGraph) -> bool {
        &&& old.len() <= self.len()
        &&& forall|i: int| 0 <= i < old.len() ==> #[trigger] self.suf.classes@[i] == old.suf.classes@[i]
        &&& forall|i: int| 0 <= i < old.nodes@.len() ==> #[trigger] self.nodes@[i] == old.nodes@[i]
    }

    /// The e-graph without classes.
    pub fn new() -> (r: EGraph)
        ensures
            r.wf(),
            r.ids_spec() == Seq::<Id>::empty(),
            r.len() == 0,
            r.pending@.len() == 0,
    {
        EGraph { suf: SUF::new(), nodes: Vec::new(), pending: Vec::new(), tab: SlotTable::new() }
    }
}


impl EGraph {
    /// The alive classes, in order.
    pub fn ids(&self) -> (r: Vec<Id>)
        requires
            self.wf(),
        ensures
            r@ == self.ids_spec(),
    {
        let mut out: Vec<Id> = Vec::new();
        let mut i: usize = 0;
        while i < self.suf.classes.len()
            invariant
                0 <= i <= self.suf.classes@.len(),
                out@ == self.ids_upto(i as nat),
            decreases self.suf.classes@.len() - i,
        {
            if self.suf.classes[i].leader.id.0 == i {
                out.push(Id(i));
            }
            i = i + 1;
        }
        out
    }

    /// Whether class `i` is still alive, or was merged into another class.
    pub fn is_alive(&self, i: Id) -> (r: bool)
        requires
            self.wf(),
            i.0 < self.len(),
        ensures
            r == self.is_alive_spec(i),
    {
        self.suf.classes[i.0].leader.id.0 == i.0
    }

    /// The invocation of the alive class that `a` reaches, with the renamings composed along
    /// the way.
    pub fn find_applied_id(&self, a: &AppliedId) -> (r: AppliedId)
        requires
            self.wf(),
            a.wf(),
            a.id.0 < self.len(),
        ensures
            r.wf(),
            self.is_alive_spec(r.id),
            (r.id.0 as int, r.m@) == self.suf.find_view(a.id.0 as int, a.m@),
            r.id.0 == self.class_of(a.id.0 as int),
    {
        proof {
            self.suf.lemma_find_root(a.id.0 as int, a.m@);
        }
        self.suf.find(a)
    }

    /// Checks that two invocations are semantically equal.
    pub fn eq(&self, a: &AppliedId, b: &AppliedId) -> (r: bool)
        requires
            self.wf(),
            a.wf(),
            b.wf(),
            a.id.0 < self.len(),
            b.id.0 < self.len(),
        ensures
            r == self.eq_spec(*a, *b),
    {
        self.suf.is_equal(a, b)
    }

    /// The alive class that holds an e-node congruent to `n`, invoked by the identity of its
    /// slots; `None` where no e-node of the e-graph is congruent to `n`.
    pub fn lookup(&self, n: &ENode) -> (r: Option<AppliedId>)
        requires
            self.wf(),
            n.wf(),
        ensures
            match r {
                Some(a) => {
                    &&& self.holds_congruent(a.id.0 as int, *n)
                    &&& self.is_alive_spec(a.id)
                    &&& a.wf()
                    &&& a.m@ == identity_map(self.suf.classes@[a.id.0 as int].slots@)
                    &&& self.valid(a)
                },
                None => forall|c: int, k: int|
                    0 <= c < self.nodes@.len() && 0 <= k < self.nodes@[c]@.len() ==> !#[trigger] self.congruent(*n, self.nodes@[c]@[k]),
            },
    {
        let total = self.nodes.len();
        match self.find_partner(n, usize::MAX) {
            Some((c, k)) => {
                assert(self.suf.class_ok(c as int));
                assert(self.suf.is_root(c as int));
                let a = AppliedId::new(Id(c), SlotMap::identity(&self.suf.classes[c].slots));
                proof {
                    lemma_identity_valid(*self, c as int, a);
                    assert(self.congruent(*n, self.nodes@[c as int]@[k as int]));
                    assert(self.holds_congruent(a.id.0 as int, *n));
                }
                Some(a)
            },
            None => {
                assert(total == self.nodes@.len());
                None
            },
        }
    }

    /// Adds the e-node `n`. Where an e-node congruent to `n` is already in the e-graph, its
    /// class is given back, invoked by the identity of its slots, and nothing changes;
    /// otherwise `n` gets a class of its own, with the public slots of `n` as its slots.
    pub fn add(&mut self, n: ENode) -> (r: AppliedId)
        requires
            old(self).wf(),
            n.wf(),
        ensures
            final(self).wf(),
            r.wf(),
            final(self).valid(r),
            final(self).is_alive_spec(r.id),
            final(self).pending@ == old(self).pending@,
            final(self).extends(*old(self)),
            final(self).kids_in(n) ==> final(self).holds_congruent(r.id.0 as int, n),
            (exists|c: int, k: int|
                0 <= c < old(self).nodes@.len() && 0 <= k < old(self).nodes@[c]@.len()
                    && #[trigger] old(self).congruent(n, old(self).nodes@[c]@[k])) ==> {
                &&& *final(self) == *old(self)
                &&& r.m@ == identity_map(final(self).suf.classes@[r.id.0 as int].slots@)
            },
            !(exists|c: int, k: int|
                0 <= c < old(self).nodes@.len() && 0 <= k < old(self).nodes@[c]@.len()
                    && #[trigger] old(self).congruent(n, old(self).nodes@[c]@[k])) ==> {
                &&& final(self).len() == old(self).len() + 1
                &&& r.id.0 == old(self).len()
                &&& r.m@ == identity_map(public_slots_spec(n).to_set())
                &&& final(self).eq_spec(r, r)
                &&& final(self).nodes@[r.id.0 as int]@ == seq![n]
            },
            forall|a: AppliedId, b: AppliedId|
                a.id.0 < old(self).len() && b.id.0 < old(self).len() ==> (#[trigger] final(self).eq_spec(a, b)
                    == old(self).eq_spec(a, b)),
            forall|k: int| 0 <= k < old(self).len() ==> #[trigger] final(self).class_of(k) == old(self).class_of(k),
    {
        match self.lookup(&n) {
            Some(a) => {
                return a;
            },
            None => {},
        }
        let s = n.slots();
        let ghost before = self.suf;
        let r = self.suf.add(s, ());
        let mut v: Vec<ENode> = Vec::new();
        v.push(n);
        self.nodes.push(v);
        proof {
            let after = self.suf;
            assert(self.nodes@[r.id.0 as int]@ =~= seq![n]);
            crate::suf::lemma_root_equals_itself(after, r);
            assert forall|a: AppliedId, b: AppliedId|
                a.id.0 < before.classes@.len() && b.id.0 < before.classes@.len() implies (#[trigger] after.equal_spec(a, b)
                    == before.equal_spec(a, b)) by {
                lemma_prefix_find(before, after, a.id.0 as int, a.m@);
                lemma_prefix_find(before, after, b.id.0 as int, b.m@);
                before.lemma_find_root(a.id.0 as int, a.m@);
            }
            assert forall|k: int| 0 <= k < before.classes@.len() implies #[trigger] after.root_of(k) == before.root_of(k) by {
                lemma_prefix_find(before, after, k, Map::empty());
                before.lemma_find_root(k, Map::empty());
                after.lemma_find_root(k, Map::empty());
            }
            assert forall|i2: int| 0 <= i2 < self.nodes@.len() && i2 != -1 && !self.suf.is_root(i2) implies #[trigger] self.nodes@[i2]@.len() == 0 by {
                assert(i2 < before.classes@.len());
                assert(self.suf.classes@[i2] == before.classes@[i2]);
                assert(self.nodes@[i2] == old(self).nodes@[i2]);
            }
            if self.kids_in(n) {
                assert(self.congruent(n, self.nodes@[r.id.0 as int]@[0]));
            }
        }
        r
    }

    /// Moves the e-nodes of class `from`, which was merged into the alive class `to`, over
    /// to `to`, renamed from the slots of `from` to those of `to`, and queues them as
    /// pending.
    fn move_to(&mut self, from: usize, to: usize)
        requires
            old(self).wf_except(from as int),
            from < old(self).len(),
            to < old(self).len(),
            from != to,
            old(self).suf.is_root(to as int),
            old(self).suf.root_of(from as int) == to,
        ensures
            final(self).wf(),
            final(self).suf == old(self).suf,
            !final(self).is_alive_spec(Id(from)),
            final(self).class_of(from as int) == to,
            final(self).is_alive_spec(Id(to)),
            final(self).nodes@.len() == old(self).nodes@.len(),
            final(self).nodes@[from as int]@.len() == 0,
            forall|i: int|
                0 <= i < old(self).nodes@.len() && i != from && i != to ==> #[trigger] final(self).nodes@[i] == old(self).nodes@[i],
            final(self).nodes@[to as int]@.len() == old(self).nodes@[to as int]@.len() + old(self).nodes@[from as int]@.len(),
            forall|j: int|
                0 <= j < old(self).nodes@[to as int]@.len() ==> #[trigger] final(self).nodes@[to as int]@[j] == old(self).nodes@[to as int]@[j],
            exists|m: Map<Slot, Slot>| {
                &&& inverts(m, old(self).suf.find_view(from as int, identity_map(old(self).suf.classes@[from as int].slots@)).1)
                &&& forall|j: int|
                    0 <= j < old(self).nodes@[from as int]@.len() ==> moved_over(
                        old(self).nodes@[from as int]@[j],
                        #[trigger] final(self).nodes@[to as int]@[old(self).nodes@[to as int]@.len() + j],
                        m,
                    )
            },
            final(self).pending@.len() == old(self).pending@.len() + old(self).nodes@[from as int]@.len(),
            forall|j: int| 0 <= j < old(self).pending@.len() ==> #[trigger] final(self).pending@[j] == old(self).pending@[j],
            forall|j: int|
                0 <= j < old(self).nodes@[from as int]@.len() ==> #[trigger] final(self).pending@[old(self).pending@.len() + j]@
                    == old(self).nodes@[from as int]@[j]@,
    {
        let ghost start = *self;
        proof {
            assert(start.suf.class_ok(from as int));
            start.suf.lemma_find_root(from as int, identity_map(start.suf.classes@[from as int].slots@));
        }
        let slots_from = self.suf.classes[from].slots.clone();
        assert(slots_from@ == start.suf.classes@[from as int].slots@);
        let idm = SlotMap::identity(&slots_from);
        let f = self.suf.find(&AppliedId::new(Id(from), idm));
        let inv = invert(&f.m);
        let mut ns: Vec<ENode> = Vec::new();
        std::mem::swap(&mut ns, &mut self.nodes[from]);
        let mut dst: Vec<ENode> = Vec::new();
        std::mem::swap(&mut dst, &mut self.nodes[to]);
        let ghost base = dst@.len();
        let mut k: usize = 0;
        while k < ns.len()
            invariant
                0 <= k <= ns@.len(),
                ns@ == start.nodes@[from as int]@,
                base == start.nodes@[to as int]@.len(),
                self.suf == start.suf,
                self.tab.wf(),
                inv.wf(),
                self.nodes@.len() == start.nodes@.len(),
                self.nodes@[from as int]@.len() == 0,
                self.nodes@[to as int]@.len() == 0,
                forall|i: int| 0 <= i < self.nodes@.len() && i != from && i != to ==> #[trigger] self.nodes@[i] == start.nodes@[i],
                dst@.len() == base + k,
                forall|j: int| 0 <= j < base ==> #[trigger] dst@[j] == start.nodes@[to as int]@[j],
                forall|j: int| 0 <= j < k ==> moved_over(ns@[j], #[trigger] dst@[base + j], inv@),
                forall|j: int| 0 <= j < dst@.len() ==> #[trigger] dst@[j].wf(),
                forall|j: int| 0 <= j < ns@.len() ==> #[trigger] ns@[j].wf(),
                self.pending@.len() == start.pending@.len() + k,
                forall|j: int| 0 <= j < start.pending@.len() ==> #[trigger] self.pending@[j] == start.pending@[j],
                forall|j: int| 0 <= j < k ==> #[trigger] self.pending@[start.pending@.len() + j]@ == ns@[j]@,
                start.wf_except(from as int),
            decreases ns@.len() - k,
        {
            let x = &ns[k];
            let cnt = x.all_slot_occurrences().len();
            let roomy = cnt < 0x1000_0000 && self.tab.fresh_idx <= u64::MAX - 4 * (cnt as u64) - 4;
            let moved = if roomy {
                x.apply_slotmap_fresh(&inv, &mut self.tab)
            } else {
                x.apply_slotmap_partial(&inv)
            };
            proof {
                if !roomy {
                    let ys = rename_public(*x, inv@);
                    assert(ys[0] == ys[0]);
                    assert(moved_over(*x, moved, inv@)) by {
                        assert forall|i: int| 0 <= i < ys.len() implies #[trigger] ys[i] == if !is_public_pos(*x, i) {
                            all_slots_spec(*x)[i]
                        } else if inv@.contains_key(all_slots_spec(*x)[i]) {
                            inv@[all_slots_spec(*x)[i]]
                        } else {
                            ys[i]
                        } by {}
                    }
                }
            }
            dst.push(moved);
            self.pending.push(x.clone());
            k = k + 1;
        }
        let ghost full = dst@;
        proof {
            assert forall|j: int| 0 <= j < ns@.len() implies moved_over(ns@[j], #[trigger] full[base + j], inv@) by {}
        }
        std::mem::swap(&mut dst, &mut self.nodes[to]);
        proof {
            assert(self.nodes@[to as int]@ == full);
            assert(inverts(inv@, start.suf.find_view(from as int, identity_map(start.suf.classes@[from as int].slots@)).1));
            assert forall|j: int| 0 <= j < start.nodes@[from as int]@.len() implies moved_over(
                start.nodes@[from as int]@[j],
                #[trigger] self.nodes@[to as int]@[start.nodes@[to as int]@.len() + j],
                inv@,
            ) by {
                assert(moved_over(ns@[j], full[base + j], inv@));
            }
            assert(!start.suf.is_root(from as int));
            assert(f.id.0 == to);
            assert forall|i: int| 0 <= i < self.nodes@.len() && i != -1 && !self.suf.is_root(i) implies #[trigger] self.nodes@[i]@.len() == 0 by {
                if i != from && i != to {
                    assert(self.nodes@[i] == start.nodes@[i]);
                }
            }
            assert forall|i: int, j: int| 0 <= i < self.nodes@.len() && 0 <= j < self.nodes@[i]@.len() implies #[trigger] self.nodes@[i]@[j].wf() by {
                if i != from && i != to {
                    assert(self.nodes@[i] == start.nodes@[i]);
                }
            }
        }
    }

    /// Equates `l` and `r` in the union-find, without restoring congruence. Returns false
    /// where they were equal already, and then changes nothing. Otherwise both roots drop
    /// the slots the other side lacks, a renaming within one class becomes a symmetry of it,
    /// and of two classes the root of `r` is merged into the root of `l`, whose e-nodes it
    /// receives.
    fn union_internal(&mut self, l: &AppliedId, r: &AppliedId) -> (b: bool)
        requires
            old(self).wf(),
            old(self).valid(*l),
            old(self).valid(*r),
        ensures
            final(self).wf(),
            final(self).eq_spec(*l, *r),
            b == !old(self).eq_spec(*l, *r),
            !b ==> *final(self) == *old(self),
            final(self).len() == old(self).len(),
            forall|k: int|
                0 <= k < old(self).len() ==> #[trigger] final(self).class_of(k) == if old(self).class_of(k)
                    == old(self).class_of(r.id.0 as int) {
                    old(self).class_of(l.id.0 as int)
                } else {
                    old(self).class_of(k)
                },
            b && old(self).class_of(l.id.0 as int) != old(self).class_of(r.id.0 as int) ==> {
                let from = old(self).class_of(r.id.0 as int);
                let to = old(self).class_of(l.id.0 as int);
                &&& !final(self).is_alive_spec(Id(from as usize))
                &&& final(self).nodes@[from]@.len() == 0
                &&& final(self).nodes@[to]@.len() == old(self).nodes@[to]@.len() + old(self).nodes@[from]@.len()
                &&& final(self).pending@.len() == old(self).pending@.len() + old(self).nodes@[from]@.len()
            },
    {
        if self.suf.is_equal(l, r) {
            proof {
                self.suf.lemma_find_root(l.id.0 as int, l.m@);
                self.suf.lemma_find_root(r.id.0 as int, r.m@);
            }
            return false;
        }
        let ghost start = *self;
        proof {
            start.suf.lemma_find_root(l.id.0 as int, l.m@);
            start.suf.lemma_find_root(r.id.0 as int, r.m@);
        }
        let fl = self.suf.find(l);
        let fr = self.suf.find(r);
        self.suf.union(l, r);
        let ghost mid = *self;
        proof {
            let rl = fl.id.0 as int;
            let rr = fr.id.0 as int;
            assert(mid.suf.root_of(rr) == rl || rl == rr);
            mid.suf.lemma_find_root(rl, Map::empty());
            assert forall|i: int| 0 <= i < mid.nodes@.len() && i != rr && !mid.suf.is_root(i) implies #[trigger] mid.nodes@[i]@.len() == 0 by {
                mid.suf.lemma_find_root(i, Map::empty());
                start.suf.lemma_find_root(i, Map::empty());
                if start.suf.is_root(i) {
                    assert(start.suf.class_ok(i));
                    assert(start.suf.root_of(i) == i);
                    assert(mid.suf.root_of(i) == i);
                }
            }
        }
        if fl.id.0 != fr.id.0 {
            proof {
                assert(start.suf.class_ok(fr.id.0 as int));
                assert(start.suf.root_of(fr.id.0 as int) == fr.id.0);
            }
            self.move_to(fr.id.0, fl.id.0);
            proof {
                assert(self.suf.class_ok(fr.id.0 as int));
            }
        } else {
            proof {
                assert forall|i: int| 0 <= i < mid.nodes@.len() && i != -1 && !mid.suf.is_root(i) implies #[trigger] mid.nodes@[i]@.len() == 0 by {
                    mid.suf.lemma_find_root(i, Map::empty());
                    start.suf.lemma_find_root(i, Map::empty());
                    if start.suf.is_root(i) {
                        assert(start.suf.class_ok(i));
                        assert(start.suf.root_of(i) == i);
                        assert(mid.suf.root_of(i) == i);
                    }
                }
            }
        }
        true
    }
}

impl EGraph {
    /// Makes the slots of class `i` that `keep` lacks redundant, with their whole orbits
    /// under the symmetries of the class; its symmetries are cut down to the slots that
    /// remain, and the class becomes its own root. The e-nodes stay where they are.
    pub fn shrink_slots(&mut self, i: Id, keep: &crate::slotset::SlotSet)
        requires
            old(self).wf(),
            old(self).is_alive_spec(i),
            keep.wf(),
        ensures
            final(self).wf(),
            final(self).len() == old(self).len(),
            final(self).nodes == old(self).nodes,
            final(self).pending == old(self).pending,
            final(self).is_alive_spec(i),
            final(self).suf.classes@[i.0 as int].slots@ == crate::suf::shrunk(
                old(self).suf.classes@[i.0 as int].slots@,
                keep@,
                old(self).suf.classes@[i.0 as int].group,
            ),
            final(self).suf.classes@[i.0 as int].slots@.subset_of(old(self).suf.classes@[i.0 as int].slots@),
            forall|k: int| 0 <= k < old(self).len() && k != i.0 ==> #[trigger] final(self).suf.classes@[k] == old(self).suf.classes@[k],
            forall|k: int| 0 <= k < old(self).len() ==> #[trigger] final(self).class_of(k) == old(self).class_of(k),
            forall|k: int| 0 <= k < old(self).len() ==> #[trigger] final(self).suf.is_root(k) == old(self).suf.is_root(k),
            final(self).ids_spec() == old(self).ids_spec(),
    {
        let ghost start = *self;
        self.suf.shrink(i, keep);
        proof {
            assert forall|k: int| 0 <= k < start.len() implies #[trigger] self.class_of(k) == start.class_of(k) by {
                lemma_same_links(start.suf, self.suf, k);
            }
            assert forall|k: int| 0 <= k < start.len() implies #[trigger] self.suf.is_root(k) == start.suf.is_root(k) by {
                if k != i.0 {
                    assert(self.suf.classes@[k] == start.suf.classes@[k]);
                }
            }
            lemma_same_roots_ids(start, *self, start.len());
            assert forall|k: int| 0 <= k < self.nodes@.len() && k != -1 && !self.suf.is_root(k) implies #[trigger] self.nodes@[k]@.len() == 0 by {
                if k != i.0 {
                    assert(self.suf.classes@[k] == start.suf.classes@[k]);
                }
            }
        }
    }
}

/// Every invocation of a class of the e-graph that renames its slots one to one is equal to
/// itself.
pub proof fn lemma_eq_reflexive(eg: EGraph, a: AppliedId)
    requires
        eg.wf(),
        eg.valid(a),
    ensures
        eg.eq_spec(a, a),
{
    let s = eg.suf;
    let id = a.id.0 as int;
    let t = choose|t: Set<Slot>| crate::suf::total_into(a.m@, s.classes@[id].slots@, t);
    s.lemma_pre_root_total(id, a.m@, t);
    s.lemma_find_pre_root(id, a.m@);
    s.lemma_find_root(id, a.m@);
    let r = s.root_of(id);
    let sl = s.classes@[r].slots@;
    let pre = s.pre_root(id, a.m@);
    let fm = crate::slotmap::compose_partial_map(identity_map(sl), pre);
    crate::slotmap::lemma_compose_dom(identity_map(sl), pre);
    assert(fm.dom() =~= sl);
    assert(crate::slotmap::injective(fm)) by {
        assert forall|x: Slot, y: Slot| #![trigger fm[x], fm[y]] fm.contains_key(x) && fm.contains_key(y) && x != y implies fm[x] != fm[y] by {
            assert(fm[x] == pre[x]);
            assert(fm[y] == pre[y]);
        }
    }
    crate::suf::lemma_inverse_facts(fm);
    let inv = crate::slotmap::inverse_map(fm);
    let perm = crate::slotmap::compose_partial_map(fm, inv);
    crate::slotmap::lemma_compose_dom(fm, inv);
    assert(perm =~= identity_map(sl));
    assert(s.class_ok(r));
    s.classes@[r].group.lemma_identity_member();
    crate::slotmap::lemma_identity_image(sl);
    let idm = identity_map(sl);
    assert(idm.dom() =~= sl);
    assert(crate::slotmap::injective(idm));
    assert(crate::slotmap::perm_of(perm, sl));
}

impl EGraph {
    /// The children of `n` invoke classes of the e-graph.
    pub open spec fn kids_in(&self, n: ENode) -> bool {
        forall|j: int| 0 <= j < app_ids_spec(n).len() ==> (#[trigger] app_ids_spec(n)[j]).id.0 < self.len()
    }

    /// The invocations `a1` and `a2` reach the same alive class with the same renaming.
    pub open spec fn kid_eq(&self, a1: AppliedId, a2: AppliedId) -> bool {
        self.suf.find_view(a1.id.0 as int, a1.m@) == self.suf.find_view(a2.id.0 as int, a2.m@)
    }

    /// `n1` and `n2` are the same e-node once each child is replaced by the alive class it
    /// reaches, invoked by the renamings composed on the way.
    pub open spec fn congruent(&self, n1: ENode, n2: ENode) -> bool {
        &&& self.kids_in(n1)
        &&& self.kids_in(n2)
        &&& match (n1, n2) {
            (ENode::Lam(s1, a1), ENode::Lam(s2, a2)) => s1 == s2 && self.kid_eq(a1, a2),
            (ENode::App(a1, b1), ENode::App(a2, b2)) => self.kid_eq(a1, a2) && self.kid_eq(b1, b2),
            (ENode::Var(s1), ENode::Var(s2)) => s1 == s2,
            _ => false,
        }
    }

    /// Congruence is closed: two congruent e-nodes of the e-graph lie in one class.
    pub open spec fn congruence_closed(&self) -> bool {
        forall|c1: int, k1: int, c2: int, k2: int|
            0 <= c1 < self.nodes@.len() && 0 <= c2 < self.nodes@.len() && 0 <= k1 < self.nodes@[c1]@.len() && 0 <= k2
                < self.nodes@[c2]@.len() && #[trigger] self.congruent(self.nodes@[c1]@[k1], self.nodes@[c2]@[k2])
                ==> c1 == c2
    }

    /// Classes that were merged into another in `old` are still merged here.
    pub open spec fn kept_dead(&self, old: EGraph) -> bool {
        forall|i: int| 0 <= i < old.len() && !old.suf.is_root(i) ==> !#[trigger] self.suf.is_root(i)
    }

    /// Classes that were one in `old` are one here.
    pub open spec fn coarser(&self, old: EGraph) -> bool {
        forall|j: int, k: int|
            0 <= j < old.len() && 0 <= k < old.len() && #[trigger] old.class_of(j) == #[trigger] old.class_of(k)
                ==> self.class_of(j) == self.class_of(k)
    }

    /// Whether `a1` and `a2` reach the same alive class with the same renaming.
    fn kid_same(&self, a1: &AppliedId, a2: &AppliedId) -> (r: bool)
        requires
            self.wf(),
            a1.wf(),
            a2.wf(),
            a1.id.0 < self.len(),
            a2.id.0 < self.len(),
        ensures
            r == self.kid_eq(*a1, *a2),
    {
        let f1 = self.suf.find(a1);
        let f2 = self.suf.find(a2);
        f1.id.0 == f2.id.0 && f1.m.map_eq(&f2.m)
    }

    /// Whether `n1` and `n2` are congruent.
    pub fn is_congruent(&self, n1: &ENode, n2: &ENode) -> (r: bool)
        requires
            self.wf(),
            n1.wf(),
            n2.wf(),
        ensures
            r == self.congruent(*n1, *n2),
    {
        let len = self.suf.classes.len();
        match (n1, n2) {
            (ENode::Lam(s1, a1), ENode::Lam(s2, a2)) => {
                assert(app_ids_spec(*n1)[0] == *a1 && app_ids_spec(*n2)[0] == *a2);
                a1.id.0 < len && a2.id.0 < len && *s1 == *s2 && self.kid_same(a1, a2)
            },
            (ENode::App(a1, b1), ENode::App(a2, b2)) => {
                assert(app_ids_spec(*n1)[0] == *a1 && app_ids_spec(*n2)[0] == *a2);
                assert(app_ids_spec(*n1)[1] == *b1 && app_ids_spec(*n2)[1] == *b2);
                a1.id.0 < len && b1.id.0 < len && a2.id.0 < len && b2.id.0 < len && self.kid_same(a1, a2)
                    && self.kid_same(b1, b2)
            },
            (ENode::Var(s1), ENode::Var(s2)) => *s1 == *s2,
            _ => {
                assert(!self.congruent(*n1, *n2));
                false
            },
        }
    }

    /// An e-node of a class other than `c1` that is congruent to `n`, if there is one.
    fn find_partner(&self, n: &ENode, c1: usize) -> (r: Option<(usize, usize)>)
        requires
            self.wf(),
            n.wf(),
        ensures
            match r {
                Some((c2, k2)) => {
                    &&& c2 < self.nodes@.len()
                    &&& c2 != c1
                    &&& k2 < self.nodes@[c2 as int]@.len()
                    &&& self.congruent(*n, self.nodes@[c2 as int]@[k2 as int])
                },
                None => forall|c2: int, k2: int|
                    0 <= c2 < self.nodes@.len() && c2 != c1 && 0 <= k2 < self.nodes@[c2]@.len() ==> !#[trigger] self.congruent(
                        *n,
                        self.nodes@[c2]@[k2],
                    ),
            },
    {
        let mut c2: usize = 0;
        while c2 < self.nodes.len()
            invariant
                self.wf(),
                n.wf(),
                0 <= c2 <= self.nodes@.len(),
                forall|c: int, k: int|
                    0 <= c < c2 && c != c1 && 0 <= k < self.nodes@[c]@.len() ==> !#[trigger] self.congruent(*n, self.nodes@[c]@[k]),
            decreases self.nodes@.len() - c2,
        {
            if c2 != c1 {
                let mut k2: usize = 0;
                while k2 < self.nodes[c2].len()
                    invariant
                        self.wf(),
                        n.wf(),
                        0 <= c2 < self.nodes@.len(),
                        c2 != c1,
                        0 <= k2 <= self.nodes@[c2 as int]@.len(),
                        forall|c: int, k: int|
                            0 <= c < c2 && c != c1 && 0 <= k < self.nodes@[c]@.len() ==> !#[trigger] self.congruent(*n, self.nodes@[c]@[k]),
                        forall|k: int| 0 <= k < k2 ==> !#[trigger] self.congruent(*n, self.nodes@[c2 as int]@[k]),
                    decreases self.nodes@[c2 as int]@.len() - k2,
                {
                    if self.is_congruent(n, &self.nodes[c2][k2]) {
                        return Some((c2, k2));
                    }
                    k2 = k2 + 1;
                }
            }
            c2 = c2 + 1;
        }
        None
    }

    /// Two congruent e-nodes in different classes, if there are any.
    fn find_pair(&self) -> (r: Option<(usize, usize, usize, usize)>)
        requires
            self.wf(),
        ensures
            match r {
                Some((c1, k1, c2, k2)) => {
                    &&& c1 < self.nodes@.len()
                    &&& c2 < self.nodes@.len()
                    &&& c1 != c2
                    &&& k1 < self.nodes@[c1 as int]@.len()
                    &&& k2 < self.nodes@[c2 as int]@.len()
                    &&& self.congruent(self.nodes@[c1 as int]@[k1 as int], self.nodes@[c2 as int]@[k2 as int])
                },
                None => self.congruence_closed(),
            },
    {
        let mut c1: usize = 0;
        while c1 < self.nodes.len()
            invariant
                self.wf(),
                0 <= c1 <= self.nodes@.len(),
                forall|a: int, ka: int, b: int, kb: int|
                    0 <= a < c1 && 0 <= b < self.nodes@.len() && 0 <= ka < self.nodes@[a]@.len() && 0 <= kb
                        < self.nodes@[b]@.len() && #[trigger] self.congruent(self.nodes@[a]@[ka], self.nodes@[b]@[kb]) ==> a == b,
            decreases self.nodes@.len() - c1,
        {
            let mut k1: usize = 0;
            while k1 < self.nodes[c1].len()
                invariant
                    self.wf(),
                    0 <= c1 < self.nodes@.len(),
                    0 <= k1 <= self.nodes@[c1 as int]@.len(),
                    forall|a: int, ka: int, b: int, kb: int|
                        0 <= a < c1 && 0 <= b < self.nodes@.len() && 0 <= ka < self.nodes@[a]@.len() && 0 <= kb
                            < self.nodes@[b]@.len() && #[trigger] self.congruent(self.nodes@[a]@[ka], self.nodes@[b]@[kb]) ==> a == b,
                    forall|ka: int, b: int, kb: int|
                        0 <= ka < k1 && 0 <= b < self.nodes@.len() && 0 <= kb < self.nodes@[b]@.len()
                            && #[trigger] self.congruent(self.nodes@[c1 as int]@[ka], self.nodes@[b]@[kb]) ==> c1 == b,
                decreases self.nodes@[c1 as int]@.len() - k1,
            {
                match self.find_partner(&self.nodes[c1][k1], c1) {
                    Some((c2, k2)) => {
                        return Some((c1, k1, c2, k2));
                    },
                    None => {},
                }
                k1 = k1 + 1;
            }
            c1 = c1 + 1;
        }
        None
    }

    /// Merges the classes `c1` and `c2` of two congruent e-nodes: both drop the slots that
    /// their shared e-node (with its children found) lacks, and then they are equated.
    fn merge_congruent(&mut self, c1: usize, k1: usize, c2: usize, k2: usize)
        requires
            old(self).wf(),
            c1 < old(self).nodes@.len(),
            c2 < old(self).nodes@.len(),
            c1 != c2,
            k1 < old(self).nodes@[c1 as int]@.len(),
            k2 < old(self).nodes@[c2 as int]@.len(),
            old(self).congruent(old(self).nodes@[c1 as int]@[k1 as int], old(self).nodes@[c2 as int]@[k2 as int]),
        ensures
            final(self).wf(),
            final(self).len() == old(self).len(),
            final(self).ids_spec().len() < old(self).ids_spec().len(),
            final(self).coarser(*old(self)),
            final(self).kept_dead(*old(self)),
            final(self).class_of(c1 as int) == final(self).class_of(c2 as int),
    {
        let ghost start = *self;
        proof {
            assert(self.suf.is_root(c1 as int));
            assert(self.suf.is_root(c2 as int));
        }
        let fnode = self.found_node(&self.nodes[c1][k1]);
        let keep = fnode.slots();
        self.shrink_slots(Id(c1), &keep);
        self.shrink_slots(Id(c2), &keep);
        let ghost mid = *self;
        proof {
            assert(mid.suf.class_ok(c1 as int));
            assert(mid.suf.class_ok(c2 as int));
        }
        let l = AppliedId::new(Id(c1), SlotMap::identity(&self.suf.classes[c1].slots));
        let r = AppliedId::new(Id(c2), SlotMap::identity(&self.suf.classes[c2].slots));
        proof {
            lemma_identity_valid(mid, c1 as int, l);
            lemma_identity_valid(mid, c2 as int, r);
            lemma_root_iff(mid.suf, c1 as int);
            lemma_root_iff(mid.suf, c2 as int);
        }
        self.union_internal(&l, &r);
        proof {
            assert forall|k: int| 0 <= k < mid.len() && #[trigger] self.suf.is_root(k) implies mid.suf.is_root(k) by {
                lemma_root_iff(self.suf, k);
                lemma_root_iff(mid.suf, k);
                mid.suf.lemma_find_root(k, Map::empty());
                assert(self.class_of(k) == if mid.class_of(k) == mid.class_of(c2 as int) {
                    mid.class_of(c1 as int)
                } else {
                    mid.class_of(k)
                });
            }
            assert(self.class_of(c2 as int) == if mid.class_of(c2 as int) == mid.class_of(c2 as int) {
                mid.class_of(c1 as int)
            } else {
                mid.class_of(c2 as int)
            });
            lemma_root_iff(self.suf, c2 as int);
            lemma_fewer_roots(mid, *self, mid.len(), c2 as int);
            assert(self.kept_dead(start));
            assert forall|j: int, k: int|
                0 <= j < start.len() && 0 <= k < start.len() && #[trigger] start.class_of(j) == #[trigger] start.class_of(k)
                implies self.class_of(j) == self.class_of(k) by {
                assert(mid.class_of(j) == start.class_of(j));
                assert(mid.class_of(k) == start.class_of(k));
            }
        }
    }

    /// `n` with each child replaced by the alive class it reaches.
    fn found_node(&self, n: &ENode) -> (r: ENode)
        requires
            self.wf(),
            n.wf(),
            self.kids_in(*n),
        ensures
            r.wf(),
    {
        match n {
            ENode::Lam(s, a) => {
                assert(app_ids_spec(*n)[0] == *a);
                ENode::Lam(*s, self.suf.find(a))
            },
            ENode::App(a, b) => {
                assert(app_ids_spec(*n)[0] == *a);
                assert(app_ids_spec(*n)[1] == *b);
                ENode::App(self.suf.find(a), self.suf.find(b))
            },
            ENode::Var(s) => ENode::Var(*s),
        }
    }

    /// Restores congruence: as long as two congruent e-nodes lie in different classes,
    /// those classes are merged. The pending e-nodes are then processed: none is left.
    pub fn rebuild(&mut self)
        requires
            old(self).wf(),
        ensures
            final(self).wf(),
            final(self).pending@.len() == 0,
            final(self).congruence_closed(),
            final(self).len() == old(self).len(),
            final(self).coarser(*old(self)),
            final(self).kept_dead(*old(self)),
    {
        let ghost start = *self;
        loop
            invariant
                self.wf(),
                self.len() == start.len(),
                self.coarser(start),
                self.kept_dead(start),
            ensures
                self.wf(),
                self.len() == start.len(),
                self.coarser(start),
                self.kept_dead(start),
                self.congruence_closed(),
            decreases self.ids_spec().len(),
        {
            match self.find_pair() {
                None => {
                    break;
                },
                Some((c1, k1, c2, k2)) => {
                    let ghost before = *self;
                    self.merge_congruent(c1, k1, c2, k2);
                    proof {
                        assert forall|i: int| 0 <= i < start.len() && !start.suf.is_root(i) implies !#[trigger] self.suf.is_root(i) by {
                            assert(!before.suf.is_root(i));
                        }
                        assert forall|j: int, k: int|
                            0 <= j < start.len() && 0 <= k < start.len() && #[trigger] start.class_of(j) == #[trigger] start.class_of(k)
                            implies self.class_of(j) == self.class_of(k) by {
                            assert(before.class_of(j) == before.class_of(k));
                        }
                    }
                },
            }
        }
        let ghost closed = *self;
        self.pending = Vec::new();
        proof {
            assert forall|c1: int, k1: int, c2: int, k2: int|
                0 <= c1 < self.nodes@.len() && 0 <= c2 < self.nodes@.len() && 0 <= k1 < self.nodes@[c1]@.len() && 0 <= k2
                    < self.nodes@[c2]@.len() && #[trigger] self.congruent(self.nodes@[c1]@[k1], self.nodes@[c2]@[k2])
                implies c1 == c2 by {
                assert(closed.congruent(closed.nodes@[c1]@[k1], closed.nodes@[c2]@[k2]));
            }
            assert(self.kept_dead(start)) by {
                assert forall|i: int| 0 <= i < start.len() && !start.suf.is_root(i) implies !#[trigger] self.suf.is_root(i) by {
                    assert(!closed.suf.is_root(i));
                }
            }
            assert(self.coarser(start)) by {
                assert forall|j: int, k: int|
                    0 <= j < start.len() && 0 <= k < start.len() && #[trigger] start.class_of(j) == #[trigger] start.class_of(k)
                    implies self.class_of(j) == self.class_of(k) by {
                    assert(closed.class_of(j) == closed.class_of(k));
                }
            }
        }
    }

    /// Equates `l` and `r`, then restores congruence. Returns false where they were equal
    /// already.
    pub fn union(&mut self, l: &AppliedId, r: &AppliedId) -> (b: bool)
        requires
            old(self).wf(),
            old(self).valid(*l),
            old(self).valid(*r),
        ensures
            final(self).wf(),
            final(self).pending@.len() == 0,
            final(self).congruence_closed(),
            b == !old(self).eq_spec(*l, *r),
            final(self).len() == old(self).len(),
            final(self).class_of(l.id.0 as int) == final(self).class_of(r.id.0 as int),
            final(self).coarser(*old(self)),
            final(self).kept_dead(*old(self)),
    {
        let ghost start = *self;
        let b = self.union_internal(l, r);
        proof {
            lemma_mapping_keeps_dead(start, *self, l.id.0 as int, r.id.0 as int);
        }
        let ghost mid = *self;
        proof {
            assert forall|j: int, k: int|
                0 <= j < start.len() && 0 <= k < start.len() && #[trigger] start.class_of(j) == #[trigger] start.class_of(k)
                implies mid.class_of(j) == mid.class_of(k) by {
                assert(mid.class_of(j) == if start.class_of(j) == start.class_of(r.id.0 as int) {
                    start.class_of(l.id.0 as int)
                } else {
                    start.class_of(j)
                });
                assert(mid.class_of(k) == if start.class_of(k) == start.class_of(r.id.0 as int) {
                    start.class_of(l.id.0 as int)
                } else {
                    start.class_of(k)
                });
            }
            assert(mid.class_of(l.id.0 as int) == mid.class_of(r.id.0 as int));
        }
        self.rebuild();
        proof {
            assert forall|i: int| 0 <= i < start.len() && !start.suf.is_root(i) implies !#[trigger] self.suf.is_root(i) by {
                assert(!mid.suf.is_root(i));
            }
            assert(mid.class_of(l.id.0 as int) == mid.class_of(r.id.0 as int));
            assert forall|j: int, k: int|
                0 <= j < start.len() && 0 <= k < start.len() && #[trigger] start.class_of(j) == #[trigger] start.class_of(k)
                implies self.class_of(j) == self.class_of(k) by {
                assert(mid.class_of(j) == mid.class_of(k));
            }
        }
        b
    }
}

/// `n` with its child invocations replaced by `kids`, in order.
pub open spec fn with_kids(n: ENode, kids: Seq<AppliedId>) -> ENode {
    match n {
        ENode::Lam(s, _) => ENode::Lam(s, kids[0]),
        ENode::App(_, _) => ENode::App(kids[0], kids[1]),
        ENode::Var(s) => ENode::Var(s),
    }
}

/// Each e-node of the term has as many children as it has child invocations.
pub open spec fn term_shaped(re: RecExpr) -> bool
    decreases re,
{
    &&& app_ids_spec(re.node).len() == re.children@.len()
    &&& forall|j: int| #![trigger re.children@[j]] 0 <= j < re.children@.len() ==> term_shaped(re.children@[j])
}

impl EGraph {
    /// Class `c` holds the term `re`: an e-node congruent to the root e-node of `re` with its
    /// children replaced by invocations of classes that hold the child terms.
    pub open spec fn holds_term(&self, re: RecExpr, c: int) -> bool
        decreases re,
    {
        exists|kids: Seq<AppliedId>| {
            &&& kids.len() == re.children@.len()
            &&& kids.len() == app_ids_spec(re.node).len()
            &&& forall|j: int|
                #![trigger re.children@[j]]
                0 <= j < kids.len() ==> self.holds_term(re.children@[j], kids[j].id.0 as int)
            &&& self.holds_congruent(c, with_kids(re.node, kids))
        }
    }

    /// Class `c` holds the term `re` with each child invoked by the identity of the slots of
    /// the class that holds the child's term.
    pub open spec fn holds_term_id(&self, re: RecExpr, c: int) -> bool
        decreases re,
    {
        exists|kids: Seq<AppliedId>| {
            &&& kids.len() == re.children@.len()
            &&& kids.len() == app_ids_spec(re.node).len()
            &&& forall|j: int|
                #![trigger re.children@[j]]
                0 <= j < kids.len() ==> self.holds_term_id(re.children@[j], kids[j].id.0 as int) && kids[j].m@
                    == identity_map(self.suf.classes@[kids[j].id.0 as int].slots@)
            &&& self.holds_congruent(c, with_kids(re.node, kids))
        }
    }

    /// The alive class that holds the term `re`, found bottom-up: each child term is looked
    /// up, then an e-node congruent to the root with those children. `None` where one of the
    /// lookups finds nothing.
    pub fn lookup_rec_expr(&self, re: &RecExpr) -> (r: Option<AppliedId>)
        requires
            self.wf(),
            term_shaped(*re),
        ensures
            r matches Some(a) ==> {
                &&& self.holds_term(*re, a.id.0 as int)
                &&& self.holds_term_id(*re, a.id.0 as int)
                &&& self.is_alive_spec(a.id)
                &&& a.wf()
                &&& self.valid(a)
                &&& a.m@ == identity_map(self.suf.classes@[a.id.0 as int].slots@)
            },
            self.congruence_closed() && r is None ==> forall|c: int| !#[trigger] self.holds_term_id(*re, c),
        decreases re,
    {
        match &re.node {
            ENode::Var(s) => {
                let n = ENode::Var(*s);
                let r = self.lookup(&n);
                proof {
                    let kids = Seq::<AppliedId>::empty();
                    assert(with_kids(re.node, kids) == n);
                    assert(kids.len() == re.children@.len());
                    if r is None {
                        assert forall|c: int| !#[trigger] self.holds_term_id(*re, c) by {
                            if self.holds_term_id(*re, c) {
                                let ks = choose|ks: Seq<AppliedId>| {
                                    &&& ks.len() == re.children@.len()
                                    &&& ks.len() == app_ids_spec(re.node).len()
                                    &&& forall|j: int|
                                        #![trigger re.children@[j]]
                                        0 <= j < ks.len() ==> self.holds_term_id(re.children@[j], ks[j].id.0 as int) && ks[j].m@
                                            == identity_map(self.suf.classes@[ks[j].id.0 as int].slots@)
                                    &&& self.holds_congruent(c, with_kids(re.node, ks))
                                };
                                assert(with_kids(re.node, ks) == n);
                                let k = choose|k: int| 0 <= k < self.nodes@[c]@.len() && #[trigger] self.congruent(n, self.nodes@[c]@[k]);
                            }
                        }
                    }
                }
                r
            },
            ENode::Lam(s, _) => {
                assert(re.children@.len() == 1);
                let c = match self.lookup_rec_expr(&re.children[0]) {
                    Some(c) => c,
                    None => {
                        proof {
                            assert forall|cc: int| self.congruence_closed() implies !#[trigger] self.holds_term_id(*re, cc) by {
                                if self.holds_term_id(*re, cc) {
                                    let ks = self.choose_kids_id(*re, cc);
                                    assert(self.holds_term_id(re.children@[0], ks[0].id.0 as int));
                                }
                            }
                        }
                        return None;
                    },
                };
                let n = ENode::Lam(*s, c);
                assert(app_ids_spec(n)[0] == c);
                let r = self.lookup(&n);
                proof {
                    let kids = seq![c];
                    assert(with_kids(re.node, kids) == n);
                    if r is Some {
                        assert forall|j: int| #![trigger re.children@[j]] 0 <= j < kids.len() implies self.holds_term(
                            re.children@[j],
                            kids[j].id.0 as int,
                        ) by {}
                        assert forall|j: int| #![trigger re.children@[j]] 0 <= j < kids.len() implies self.holds_term_id(
                            re.children@[j],
                            kids[j].id.0 as int,
                        ) && kids[j].m@ == identity_map(self.suf.classes@[kids[j].id.0 as int].slots@) by {}
                    } else {
                        assert forall|cc: int| self.congruence_closed() implies !#[trigger] self.holds_term_id(*re, cc) by {
                            if self.holds_term_id(*re, cc) {
                                let ks = self.choose_kids_id(*re, cc);
                                lemma_held_once(*self, re.children@[0], ks[0].id.0 as int, c.id.0 as int);
                                assert(ks[0].m@ == c.m@);
                                let k = choose|k: int| 0 <= k < self.nodes@[cc]@.len() && #[trigger] self.congruent(with_kids(re.node, ks), self.nodes@[cc]@[k]);
                                assert(app_ids_spec(with_kids(re.node, ks))[0] == ks[0]);
                                assert(self.congruent(n, self.nodes@[cc]@[k]));
                            }
                        }
                    }
                }
                r
            },
            ENode::App(_, _) => {
                assert(re.children@.len() == 2);
                let c0 = match self.lookup_rec_expr(&re.children[0]) {
                    Some(c) => c,
                    None => {
                        proof {
                            assert forall|cc: int| self.congruence_closed() implies !#[trigger] self.holds_term_id(*re, cc) by {
                                if self.holds_term_id(*re, cc) {
                                    let ks = self.choose_kids_id(*re, cc);
                                    assert(self.holds_term_id(re.children@[0], ks[0].id.0 as int));
                                }
                            }
                        }
                        return None;
                    },
                };
                let c1 = match self.lookup_rec_expr(&re.children[1]) {
                    Some(c) => c,
                    None => {
                        proof {
                            assert forall|cc: int| self.congruence_closed() implies !#[trigger] self.holds_term_id(*re, cc) by {
                                if self.holds_term_id(*re, cc) {
                                    let ks = self.choose_kids_id(*re, cc);
                                    assert(self.holds_term_id(re.children@[1], ks[1].id.0 as int));
                                }
                            }
                        }
                        return None;
                    },
                };
                let n = ENode::App(c0, c1);
                assert(app_ids_spec(n)[0] == c0 && app_ids_spec(n)[1] == c1);
                let r = self.lookup(&n);
                proof {
                    let kids = seq![c0, c1];
                    assert(with_kids(re.node, kids) == n);
                    if r is Some {
                        assert forall|j: int| #![trigger re.children@[j]] 0 <= j < kids.len() implies self.holds_term(
                            re.children@[j],
                            kids[j].id.0 as int,
                        ) by {}
                        assert forall|j: int| #![trigger re.children@[j]] 0 <= j < kids.len() implies self.holds_term_id(
                            re.children@[j],
                            kids[j].id.0 as int,
                        ) && kids[j].m@ == identity_map(self.suf.classes@[kids[j].id.0 as int].slots@) by {}
                    } else {
                        assert forall|cc: int| self.congruence_closed() implies !#[trigger] self.holds_term_id(*re, cc) by {
                            if self.holds_term_id(*re, cc) {
                                let ks = self.choose_kids_id(*re, cc);
                                lemma_held_once(*self, re.children@[0], ks[0].id.0 as int, c0.id.0 as int);
                                lemma_held_once(*self, re.children@[1], ks[1].id.0 as int, c1.id.0 as int);
                                let k = choose|k: int| 0 <= k < self.nodes@[cc]@.len() && #[trigger] self.congruent(with_kids(re.node, ks), self.nodes@[cc]@[k]);
                                assert(app_ids_spec(with_kids(re.node, ks))[0] == ks[0]);
                                assert(app_ids_spec(with_kids(re.node, ks))[1] == ks[1]);
                                assert(self.congruent(n, self.nodes@[cc]@[k]));
                            }
                        }
                    }
                }
                r
            },
        }
    }

    /// Witnesses for `holds_term_id`.
    pub proof fn choose_kids_id(&self, re: RecExpr, c: int) -> (ks: Seq<AppliedId>)
        requires
            self.holds_term_id(re, c),
        ensures
            ks.len() == re.children@.len(),
            ks.len() == app_ids_spec(re.node).len(),
            forall|j: int|
                #![trigger re.children@[j]]
                0 <= j < ks.len() ==> self.holds_term_id(re.children@[j], ks[j].id.0 as int) && ks[j].m@
                    == identity_map(self.suf.classes@[ks[j].id.0 as int].slots@),
            self.holds_congruent(c, with_kids(re.node, ks)),
    {
        choose|ks: Seq<AppliedId>| {
            &&& ks.len() == re.children@.len()
            &&& ks.len() == app_ids_spec(re.node).len()
            &&& forall|j: int|
                #![trigger re.children@[j]]
                0 <= j < ks.len() ==> self.holds_term_id(re.children@[j], ks[j].id.0 as int) && ks[j].m@
                    == identity_map(self.suf.classes@[ks[j].id.0 as int].slots@)
            &&& self.holds_congruent(c, with_kids(re.node, ks))
        }
    }
}

/// In an e-graph whose congruence is closed, at most one class holds a term.
pub proof fn lemma_held_once(eg: EGraph, t: RecExpr, c1: int, c2: int)
    requires
        eg.wf(),
        eg.congruence_closed(),
        eg.holds_term_id(t, c1),
        eg.holds_term_id(t, c2),
    ensures
        c1 == c2,
    decreases t,
{
    let k1s = eg.choose_kids_id(t, c1);
    let k2s = eg.choose_kids_id(t, c2);
    assert forall|j: int| 0 <= j < k1s.len() implies #[trigger] k1s[j].id == k2s[j].id && k1s[j].m@ == k2s[j].m@ by {
        assert(eg.holds_term_id(t.children@[j], k1s[j].id.0 as int));
        assert(eg.holds_term_id(t.children@[j], k2s[j].id.0 as int));
        lemma_held_once(eg, t.children@[j], k1s[j].id.0 as int, k2s[j].id.0 as int);
    }
    let x1 = choose|k: int| 0 <= k < eg.nodes@[c1]@.len() && #[trigger] eg.congruent(with_kids(t.node, k1s), eg.nodes@[c1]@[k]);
    let x2 = choose|k: int| 0 <= k < eg.nodes@[c2]@.len() && #[trigger] eg.congruent(with_kids(t.node, k2s), eg.nodes@[c2]@[k]);
    let m1 = eg.nodes@[c1]@[x1];
    let m2 = eg.nodes@[c2]@[x2];
    match t.node {
        ENode::Var(_) => {},
        ENode::Lam(_, _) => {
            assert(app_ids_spec(with_kids(t.node, k1s))[0] == k1s[0]);
            assert(app_ids_spec(with_kids(t.node, k2s))[0] == k2s[0]);
            match (m1, m2) {
                (ENode::Lam(_, a1), ENode::Lam(_, a2)) => {
                    assert(app_ids_spec(m1)[0] == a1);
                    assert(app_ids_spec(m2)[0] == a2);
                },
                _ => {},
            }
        },
        ENode::App(_, _) => {
            assert(app_ids_spec(with_kids(t.node, k1s))[0] == k1s[0]);
            assert(app_ids_spec(with_kids(t.node, k2s))[0] == k2s[0]);
            assert(app_ids_spec(with_kids(t.node, k1s))[1] == k1s[1]);
            assert(app_ids_spec(with_kids(t.node, k2s))[1] == k2s[1]);
            match (m1, m2) {
                (ENode::App(a1, b1), ENode::App(a2, b2)) => {
                    assert(app_ids_spec(m1)[0] == a1 && app_ids_spec(m1)[1] == b1);
                    assert(app_ids_spec(m2)[0] == a2 && app_ids_spec(m2)[1] == b2);
                },
                _ => {},
            }
        },
    }
    assert(eg.congruent(m1, m2));
}

/// The alive classes are listed in increasing order, and exactly the classes that were not
/// merged into another are listed.
pub proof fn lemma_ids(eg: EGraph)
    ensures
        forall|i: int, j: int| 0 <= i < j < eg.ids_spec().len() ==> (#[trigger] eg.ids_spec()[i]).0 < (#[trigger] eg.ids_spec()[j]).0,
        forall|k: usize| #[trigger] eg.ids_spec().contains(Id(k)) <==> eg.is_alive_spec(Id(k)),
{
    lemma_ids_upto(eg, eg.len());
}

proof fn lemma_ids_upto(eg: EGraph, n: nat)
    ensures
        forall|i: int, j: int| 0 <= i < j < eg.ids_upto(n).len() ==> (#[trigger] eg.ids_upto(n)[i]).0 < (#[trigger] eg.ids_upto(n)[j]).0,
        forall|i: int| 0 <= i < eg.ids_upto(n).len() ==> (#[trigger] eg.ids_upto(n)[i]).0 < n,
        forall|k: usize| #[trigger] eg.ids_upto(n).contains(Id(k)) <==> (k < n && eg.suf.is_root(k as int)),
    decreases n,
{
    if n > 0 {
        lemma_ids_upto(eg, (n - 1) as nat);
        let s = eg.ids_upto((n - 1) as nat);
        if eg.suf.is_root(n - 1) {
            let t = s.push(Id((n - 1) as usize));
            assert(eg.ids_upto(n) == t);
            assert forall|k: usize| #[trigger] t.contains(Id(k)) <==> (k < n && eg.suf.is_root(k as int)) by {
                if k == n - 1 {
                    assert(t[s.len() as int] == Id(k));
                }
                if t.contains(Id(k)) {
                    let i = choose|i: int| 0 <= i < t.len() && t[i] == Id(k);
                    if i < s.len() {
                        assert(s[i] == Id(k));
                        assert(s.contains(Id(k)));
                    }
                }
                if k < n - 1 && eg.suf.is_root(k as int) {
                    assert(s.contains(Id(k)));
                    let i = choose|i: int| 0 <= i < s.len() && s[i] == Id(k);
                    assert(t[i] == Id(k));
                }
            }
        } else {
            assert forall|k: usize| #[trigger] s.contains(Id(k)) <==> (k < n && eg.suf.is_root(k as int)) by {
                if k == n - 1 && s.contains(Id(k)) {
                    let i = choose|i: int| 0 <= i < s.len() && s[i] == Id(k);
                    assert(s[i].0 < n - 1);
                }
            }
        }
    }
}

/// Each e-node of the pattern has as many children as child invocations, and the pattern
/// holds no substitution.
pub open spec fn pattern_shaped(p: Pattern) -> bool
    decreases p,
{
    match p {
        Pattern::ENode(n, ch) => {
            &&& app_ids_spec(n).len() == ch@.len()
            &&& forall|j: int| #![trigger ch@[j]] 0 <= j < ch@.len() ==> pattern_shaped(ch@[j])
        },
        Pattern::PVar(_) => true,
        Pattern::Subst(..) => false,
    }
}

/// Every variable of the pattern is named in `s`.
pub open spec fn vars_named(p: Pattern, s: Seq<(String, AppliedId)>) -> bool
    decreases p,
{
    match p {
        Pattern::ENode(_, ch) => forall|j: int| #![trigger ch@[j]] 0 <= j < ch@.len() ==> vars_named(ch@[j], s),
        Pattern::PVar(v) => exists|i: int| 0 <= i < s.len() && #[trigger] s[i].0@ == v@,
        Pattern::Subst(..) => false,
    }
}

/// Entry `i` is the first of `s` named `v`.
pub open spec fn first_named(s: Seq<(String, AppliedId)>, v: Seq<char>, i: int) -> bool {
    &&& 0 <= i < s.len()
    &&& s[i].0@ == v
    &&& forall|j: int| 0 <= j < i ==> #[trigger] s[j].0@ != v
}

impl EGraph {
    /// `a` invokes an instance of the pattern `p` under the substitution `s`: a variable
    /// stands for the invocation its first entry in `s` names, and for an e-node the class of
    /// `a` holds an e-node congruent to it with its children replaced by instances of the
    /// child patterns.
    pub open spec fn instantiates(&self, p: Pattern, s: Seq<(String, AppliedId)>, a: AppliedId) -> bool
        decreases p,
    {
        &&& !(p is Subst)
        &&& p is PVar ==> exists|i: int| #[trigger] first_named(s, p->PVar_0@, i) && a.id == s[i].1.id && a.m@ == s[i].1.m@
        &&& p is ENode ==> exists|kids: Seq<AppliedId>| {
            &&& kids.len() == p->ENode_1@.len()
            &&& forall|j: int|
                #![trigger p->ENode_1@[j]]
                0 <= j < p->ENode_1@.len() ==> self.instantiates(p->ENode_1@[j], s, kids[j]) && kids[j].id.0 < self.len()
            &&& self.holds_congruent(a.id.0 as int, with_kids(p->ENode_0, kids))
        }
    }

    /// Equates the instances of `from_pat` and `to_pat` under `subst`, then restores
    /// congruence. Returns false where they were equal already.
    pub fn union_instantiations(
        &mut self,
        from_pat: &Pattern,
        to_pat: &Pattern,
        subst: &Vec<(String, AppliedId)>,
    ) -> (b: bool)
        requires
            old(self).wf(),
            pattern_shaped(*from_pat),
            pattern_shaped(*to_pat),
            vars_named(*from_pat, subst@),
            vars_named(*to_pat, subst@),
            forall|i: int| 0 <= i < subst@.len() ==> old(self).valid(#[trigger] subst@[i].1),
        ensures
            final(self).wf(),
            final(self).pending@.len() == 0,
            final(self).congruence_closed(),
            final(self).coarser(*old(self)),
            final(self).kept_dead(*old(self)),
            final(self).len() >= old(self).len(),
            exists|a: AppliedId, c: AppliedId, mid: EGraph| {
                &&& mid.wf()
                &&& mid.extends(*old(self))
                &&& mid.coarser(*old(self))
                &&& mid.instantiates(*from_pat, subst@, a)
                &&& mid.instantiates(*to_pat, subst@, c)
                &&& mid.valid(a)
                &&& mid.valid(c)
                &&& final(self).len() == mid.len()
                &&& final(self).coarser(mid)
                &&& final(self).class_of(a.id.0 as int) == final(self).class_of(c.id.0 as int)
                &&& b == !mid.eq_spec(a, c)
            },
    {
        let ghost start = *self;
        let a = pattern_subst(self, from_pat, subst);
        let ghost mid1 = *self;
        proof {
            assert forall|i: int| 0 <= i < subst@.len() implies mid1.valid(#[trigger] subst@[i].1) by {
                lemma_valid_extends(start, mid1, subst@[i].1);
            }
        }
        let c = pattern_subst(self, to_pat, subst);
        let ghost mid = *self;
        proof {
            lemma_instantiates_extends(mid1, mid, *from_pat, subst@, a);
            lemma_valid_extends(mid1, mid, a);
        }
        let b = self.union(&a, &c);
        proof {
            assert forall|i: int| 0 <= i < start.len() && !start.suf.is_root(i) implies !#[trigger] self.suf.is_root(i) by {
                assert(mid1.suf.classes@[i] == start.suf.classes@[i]);
                assert(mid.suf.classes@[i] == mid1.suf.classes@[i]);
                assert(!mid.suf.is_root(i));
            }
            assert forall|j: int, k: int|
                0 <= j < start.len() && 0 <= k < start.len() && #[trigger] start.class_of(j) == #[trigger] start.class_of(k)
                implies self.class_of(j) == self.class_of(k) by {
                assert(mid.class_of(j) == mid1.class_of(j));
                assert(mid.class_of(k) == mid1.class_of(k));
                assert(mid.class_of(j) == mid.class_of(k));
            }
            assert forall|j: int, k: int|
                0 <= j < start.len() && 0 <= k < start.len() && #[trigger] start.class_of(j) == #[trigger] start.class_of(k)
                implies mid.class_of(j) == mid.class_of(k) by {
                assert(mid.class_of(j) == mid1.class_of(j));
                assert(mid.class_of(k) == mid1.class_of(k));
            }
            assert(mid.coarser(start));
        }
        b
    }
}

/// The instance of `pattern` under `subst`: a variable gives the invocation its first entry
/// in `subst` names; an e-node has its child patterns instantiated first, in order, and is
/// then added with them as children.
pub fn pattern_subst(eg: &mut EGraph, pattern: &Pattern, subst: &Vec<(String, AppliedId)>) -> (r: AppliedId)
    requires
        old(eg).wf(),
        pattern_shaped(*pattern),
        vars_named(*pattern, subst@),
        forall|i: int| 0 <= i < subst@.len() ==> old(eg).valid(#[trigger] subst@[i].1),
    ensures
        final(eg).wf(),
        final(eg).extends(*old(eg)),
        final(eg).valid(r),
        final(eg).instantiates(*pattern, subst@, r),
        final(eg).pending@ == old(eg).pending@,
        forall|k: int| 0 <= k < old(eg).len() ==> #[trigger] final(eg).class_of(k) == old(eg).class_of(k),
    decreases pattern,
{
    let ghost start = *eg;
    match pattern {
        Pattern::PVar(v) => {
            let mut i: usize = 0;
            while i < subst.len()
                invariant
                    0 <= i <= subst@.len(),
                    forall|j: int| 0 <= j < i ==> #[trigger] subst@[j].0@ != v@,
                    *eg == start,
                    *pattern == Pattern::PVar(*v),
                    start.wf(),
                    forall|j: int| 0 <= j < subst@.len() ==> start.valid(#[trigger] subst@[j].1),
                decreases subst@.len() - i,
            {
                if subst[i].0 == *v {
                    let r = subst[i].1.clone();
                    proof {
                        assert(first_named(subst@, v@, i as int));
                        assert(r.m@ =~= subst@[i as int].1.m@);
                        assert(first_named(subst@, v@, i as int) && r.id == subst@[i as int].1.id && r.m@ == subst@[i as int].1.m@);
                        assert(*pattern == Pattern::PVar(*v));
                        assert(pattern->PVar_0 == *v);
                        assert(first_named(subst@, pattern->PVar_0@, i as int));
                        assert(eg.instantiates(*pattern, subst@, r));
                        assert(eg.valid(subst@[i as int].1));
                        assert(eg.suf.valid(r));
                    }
                    return r;
                }
                i = i + 1;
            }
            proof {
                let j = choose|j: int| 0 <= j < subst@.len() && #[trigger] subst@[j].0@ == v@;
                assert(subst@[j].0@ != v@);
            }
            AppliedId::null()
        },
        Pattern::ENode(n, ch) => {
            match n {
                ENode::Var(s) => {
                    let node = ENode::Var(*s);
                    let r = eg.add(node);
                    proof {
                        let kids = Seq::<AppliedId>::empty();
                        assert(with_kids(*n, kids) == node);
                        assert(eg.kids_in(node));
                    }
                    r
                },
                ENode::Lam(s, _) => {
                    assert(ch@.len() == 1);
                    let k0 = pattern_subst(eg, &ch[0], subst);
                    let node = ENode::Lam(*s, k0);
                    assert(app_ids_spec(node)[0] == k0);
                    let ghost mid = *eg;
                    let r = eg.add(node);
                    proof {
                        let kids = seq![k0];
                        assert(with_kids(*n, kids) == node);
                        assert(eg.kids_in(node));
                        lemma_instantiates_extends(mid, *eg, ch@[0], subst@, k0);
                        assert forall|j: int| #![trigger ch@[j]] 0 <= j < ch@.len() implies eg.instantiates(ch@[j], subst@, kids[j])
                            && kids[j].id.0 < eg.len() by {}
                    }
                    r
                },
                ENode::App(_, _) => {
                    assert(ch@.len() == 2);
                    let k0 = pattern_subst(eg, &ch[0], subst);
                    let ghost mid1 = *eg;
                    proof {
                        assert forall|i: int| 0 <= i < subst@.len() implies mid1.valid(#[trigger] subst@[i].1) by {
                            lemma_valid_extends(start, mid1, subst@[i].1);
                        }
                    }
                    let k1 = pattern_subst(eg, &ch[1], subst);
                    let ghost mid2 = *eg;
                    proof {
                        lemma_valid_extends(mid1, mid2, k0);
                        lemma_instantiates_extends(mid1, mid2, ch@[0], subst@, k0);
                    }
                    let node = ENode::App(k0, k1);
                    assert(app_ids_spec(node)[0] == k0 && app_ids_spec(node)[1] == k1);
                    let r = eg.add(node);
                    proof {
                        let kids = seq![k0, k1];
                        assert(with_kids(*n, kids) == node);
                        assert(eg.kids_in(node));
                        lemma_instantiates_extends(mid2, *eg, ch@[0], subst@, k0);
                        lemma_instantiates_extends(mid2, *eg, ch@[1], subst@, k1);
                        assert forall|j: int| #![trigger ch@[j]] 0 <= j < ch@.len() implies eg.instantiates(ch@[j], subst@, kids[j])
                            && kids[j].id.0 < eg.len() by {}
                        assert forall|k: int| 0 <= k < start.len() implies #[trigger] eg.class_of(k) == start.class_of(k) by {
                            assert(mid1.class_of(k) == start.class_of(k));
                            assert(mid2.class_of(k) == mid1.class_of(k));
                        }
                    }
                    r
                },
            }
        },
        Pattern::Subst(..) => {
            proof {
                assert(false);
            }
            AppliedId::null()
        },
    }
}

/// Validity of an invocation survives classes added after the others.
proof fn lemma_valid_extends(old: EGraph, new: EGraph, a: AppliedId)
    requires
        new.extends(old),
        old.valid(a),
    ensures
        new.valid(a),
{
    assert(new.suf.classes@[a.id.0 as int] == old.suf.classes@[a.id.0 as int]);
}

/// Congruence survives classes added after the others.
proof fn lemma_congruent_extends(old: EGraph, new: EGraph, n1: ENode, n2: ENode)
    requires
        old.wf(),
        new.wf(),
        new.extends(old),
        old.congruent(n1, n2),
    ensures
        new.congruent(n1, n2),
{
    assert forall|j: int| 0 <= j < app_ids_spec(n1).len() implies #[trigger] new.suf.find_view(app_ids_spec(n1)[j].id.0 as int, app_ids_spec(n1)[j].m@)
        == old.suf.find_view(app_ids_spec(n1)[j].id.0 as int, app_ids_spec(n1)[j].m@) by {
        lemma_prefix_find(old.suf, new.suf, app_ids_spec(n1)[j].id.0 as int, app_ids_spec(n1)[j].m@);
    }
    assert forall|j: int| 0 <= j < app_ids_spec(n2).len() implies #[trigger] new.suf.find_view(app_ids_spec(n2)[j].id.0 as int, app_ids_spec(n2)[j].m@)
        == old.suf.find_view(app_ids_spec(n2)[j].id.0 as int, app_ids_spec(n2)[j].m@) by {
        lemma_prefix_find(old.suf, new.suf, app_ids_spec(n2)[j].id.0 as int, app_ids_spec(n2)[j].m@);
    }
    match (n1, n2) {
        (ENode::Lam(_, a1), ENode::Lam(_, a2)) => {
            assert(app_ids_spec(n1)[0] == a1 && app_ids_spec(n2)[0] == a2);
        },
        (ENode::App(a1, b1), ENode::App(a2, b2)) => {
            assert(app_ids_spec(n1)[0] == a1 && app_ids_spec(n2)[0] == a2);
            assert(app_ids_spec(n1)[1] == b1 && app_ids_spec(n2)[1] == b2);
        },
        _ => {},
    }
}

/// Instances survive classes added after the others.
proof fn lemma_instantiates_extends(old: EGraph, new: EGraph, p: Pattern, s: Seq<(String, AppliedId)>, a: AppliedId)
    requires
        old.wf(),
        new.wf(),
        new.extends(old),
        old.instantiates(p, s, a),
    ensures
        new.instantiates(p, s, a),
    decreases p,
{
    if p is PVar {
        let v = p->PVar_0;
        let i = choose|i: int| #[trigger] first_named(s, v@, i) && a.id == s[i].1.id && a.m@ == s[i].1.m@;
        assert(first_named(s, p->PVar_0@, i) && a.id == s[i].1.id && a.m@ == s[i].1.m@);
        assert(new.instantiates(p, s, a));
    } else if p is ENode {
        let n = p->ENode_0;
        let ch = p->ENode_1;
        let kids = choose|kids: Seq<AppliedId>| {
            &&& kids.len() == ch@.len()
            &&& forall|j: int|
                #![trigger ch@[j]]
                0 <= j < ch@.len() ==> old.instantiates(ch@[j], s, kids[j]) && kids[j].id.0 < old.len()
            &&& old.holds_congruent(a.id.0 as int, with_kids(n, kids))
        };
        assert forall|j: int| #![trigger ch@[j]] 0 <= j < ch@.len() implies new.instantiates(ch@[j], s, kids[j])
            && kids[j].id.0 < new.len() by {
            assert(decreases_to!(p => ch));
            lemma_instantiates_extends(old, new, ch@[j], s, kids[j]);
        }
        let c = a.id.0 as int;
        let k = choose|k: int| 0 <= k < old.nodes@[c]@.len() && #[trigger] old.congruent(with_kids(n, kids), old.nodes@[c]@[k]);
        lemma_congruent_extends(old, new, with_kids(n, kids), old.nodes@[c]@[k]);
        assert(new.nodes@[c] == old.nodes@[c]);
        assert(new.congruent(with_kids(n, kids), new.nodes@[c]@[k]));
        assert(new.instantiates(p, s, a));
    } else {
        assert(old.instantiates(p, s, a));
        assert(p is Subst);
    }
}

/// Where every class goes where its root went, with the root of `y` sent to the root of
/// `x`, no merged class comes back to life.
proof fn lemma_mapping_keeps_dead(old: EGraph, new: EGraph, x: int, y: int)
    requires
        old.wf(),
        new.wf(),
        new.len() == old.len(),
        0 <= x < old.len(),
        0 <= y < old.len(),
        forall|k: int|
            0 <= k < old.len() ==> #[trigger] new.class_of(k) == if old.class_of(k) == old.class_of(y) {
                old.class_of(x)
            } else {
                old.class_of(k)
            },
    ensures
        new.kept_dead(old),
{
    assert forall|i: int| 0 <= i < old.len() && !old.suf.is_root(i) implies !#[trigger] new.suf.is_root(i) by {
        lemma_root_iff(old.suf, i);
        lemma_root_iff(new.suf, i);
        old.suf.lemma_find_root(x, Map::empty());
        old.suf.lemma_find_root(i, Map::empty());
        assert(new.class_of(i) == if old.class_of(i) == old.class_of(y) {
            old.class_of(x)
        } else {
            old.class_of(i)
        });
    }
}

/// The identity of the slots of a class is a valid invocation of it.
proof fn lemma_identity_valid(eg: EGraph, c: int, a: AppliedId)
    requires
        eg.wf(),
        0 <= c < eg.len(),
        a.id.0 == c,
        a.m.wf(),
        a.m@ == identity_map(eg.suf.classes@[c].slots@),
    ensures
        eg.valid(a),
{
    let sl = eg.suf.classes@[c].slots@;
    let id = identity_map(sl);
    assert(crate::suf::total_into(id, sl, sl)) by {
        assert forall|k1: Slot, k2: Slot| #![trigger id[k1], id[k2]] sl.contains(k1) && sl.contains(k2) && k1 != k2 implies id[k1] != id[k2] by {}
    }
}

/// A class is a root exactly when it is its own root.
pub proof fn lemma_root_iff(s: SUF<()>, k: int)
    requires
        s.wf(),
        0 <= k < s.classes@.len(),
    ensures
        s.is_root(k) <==> s.root_of(k) == k,
{
    assert(s.class_ok(k));
    s.lemma_find_root(k, Map::empty());
}

/// The same roots give the same list of alive classes.
proof fn lemma_same_roots_ids(a: EGraph, b: EGraph, n: nat)
    requires
        forall|k: int| 0 <= k < n ==> #[trigger] b.suf.is_root(k) == a.suf.is_root(k),
    ensures
        b.ids_upto(n) == a.ids_upto(n),
    decreases n,
{
    if n > 0 {
        lemma_same_roots_ids(a, b, (n - 1) as nat);
    }
}

/// Fewer roots give fewer alive classes.
proof fn lemma_fewer_roots(a: EGraph, b: EGraph, n: nat, gone: int)
    requires
        forall|k: int| 0 <= k < n && #[trigger] b.suf.is_root(k) ==> a.suf.is_root(k),
        0 <= gone < n,
        a.suf.is_root(gone),
        !b.suf.is_root(gone),
    ensures
        b.ids_upto(n).len() < a.ids_upto(n).len(),
    decreases n,
{
    if gone == n - 1 {
        lemma_fewer_roots_le(a, b, (n - 1) as nat);
    } else {
        lemma_fewer_roots(a, b, (n - 1) as nat, gone);
    }
}

proof fn lemma_fewer_roots_le(a: EGraph, b: EGraph, n: nat)
    requires
        forall|k: int| 0 <= k < n && #[trigger] b.suf.is_root(k) ==> a.suf.is_root(k),
    ensures
        b.ids_upto(n).len() <= a.ids_upto(n).len(),
    decreases n,
{
    if n > 0 {
        lemma_fewer_roots_le(a, b, (n - 1) as nat);
    }
}

/// Classes added after the others change nothing that the others reach.
proof fn lemma_prefix_find(a: SUF<()>, b: SUF<()>, id: int, m: Map<Slot, Slot>)
    requires
        a.wf(),
        b.wf(),
        a.classes@.len() <= b.classes@.len(),
        forall|k: int| 0 <= k < a.classes@.len() ==> #[trigger] b.classes@[k] == a.classes@[k],
        0 <= id < a.classes@.len(),
    ensures
        b.find_view(id, m) == a.find_view(id, m),
        b.root_of(id) == a.root_of(id),
    decreases a.bound@ - a.rank@[id],
{
    assert(a.class_ok(id));
    assert(b.class_ok(id));
    let l = a.classes@[id].leader;
    assert(a.class_ok(l.id.0 as int));
    if l.id.0 != id {
        lemma_prefix_find(a, b, l.id.0 as int, crate::slotmap::compose_partial_map(l.m@, m));
    }
}

} // verus!
