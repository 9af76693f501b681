use vstd::prelude::*;
use crate::slot::{Slot, SlotTable};
use crate::slotset::SlotSet;
use crate::slotmap::{SlotMap, values_of, compose_partial_map};

verus! {

/// Ids identify e-classes.
#[derive(Clone, Copy, PartialEq, Eq, Structural, Hash, Debug)]
pub struct Id(pub usize);

/// An invocation of an e-class: the e-class `id`, with `m` mapping the argument slots of the
/// e-class to the slots that are put into them.
#[derive(Debug)]
pub struct AppliedId {
    pub id: Id,
    pub m: SlotMap,
}

/// `m` applied to `t`.
#[derive(Debug)]
pub struct AppliedBy<M, T>(pub M, pub T);

/// A value together with the renaming that is applied to it.
pub type Applied<T> = AppliedBy<SlotMap, T>;

impl Clone for AppliedId {
    fn clone(&self) -> (r: Self)
        ensures
            r.id == self.id,
            r.m.keys@ == self.m.keys@,
            r.m.vals@ == self.m.vals@,
    {
        AppliedId { id: self.id, m: self.m.clone() }
    }
}

impl AppliedId {
    pub open spec fn wf(&self) -> bool {
        self.m.wf()
    }

    /// The invocation of `id` with the renaming `m`.
    pub fn new(id: Id, m: SlotMap) -> (r: AppliedId)
        ensures
            r.id == id,
            r.m == m,
    {
        AppliedId { id, m }
    }

    /// Checks that the renaming is a bijection.
    pub fn check(&self) -> (r: bool)
        requires
            self.wf(),
        ensures
            r == crate::slotmap::injective(self.m@),
    {
        self.m.is_bijection()
    }

    /// Renames the argument slots by `m`. Slots that `m` does not map are dropped.
    pub fn apply_slotmap(&self, m: &SlotMap) -> (r: AppliedId)
        requires
            self.wf(),
            m.wf(),
        ensures
            r.wf(),
            r.id == self.id,
            r.m@ == compose_partial_map(self.m@, m@),
    {
        self.apply_slotmap_partial(m)
    }

    /// Renames the argument slots by `m`; slots that `m` does not map are dropped.
    pub fn apply_slotmap_partial(&self, m: &SlotMap) -> (r: AppliedId)
        requires
            self.wf(),
            m.wf(),
        ensures
            r.wf(),
            r.id == self.id,
            r.m@ == compose_partial_map(self.m@, m@),
    {
        AppliedId::new(self.id, self.m.compose_partial(m))
    }

    /// Renames the argument slots by `m`; slots that `m` does not map get fresh names: each
    /// its own, taken from the table's counter upwards, so that they differ from each other
    /// and from every slot below the counter.
    pub fn apply_slotmap_fresh(&self, m: &SlotMap, tab: &mut SlotTable) -> (r: AppliedId)
        requires
            self.wf(),
            m.wf(),
            old(tab).wf(),
            old(tab).fresh_idx + 4 * self.m.keys@.len() + 4 <= u64::MAX,
        ensures
            r.wf(),
            final(tab).wf(),
            r.id == self.id,
            r.m@.dom() == self.m@.dom(),
            forall|x: Slot|
                #[trigger] r.m@.contains_key(x) ==> (if m@.contains_key(self.m@[x]) {
                    r.m@[x] == m@[self.m@[x]]
                } else {
                    old(tab).fresh_idx <= r.m@[x].0 < final(tab).fresh_idx && r.m@[x].0 % 4 == 1
                }),
            forall|x: Slot, y: Slot|
                #![trigger r.m@[x], r.m@[y]]
                r.m@.contains_key(x) && r.m@.contains_key(y) && x != y && !m@.contains_key(self.m@[x])
                    && !m@.contains_key(self.m@[y]) ==> r.m@[x] != r.m@[y],
    {
        AppliedId::new(self.id, self.m.compose_fresh(m, tab))
    }

    /// The slots that are put into the e-class.
    pub fn slots(&self) -> (r: SlotSet)
        requires
            self.wf(),
        ensures
            r.wf(),
            r@ == values_of(self.m@),
    {
        self.m.values()
    }

    /// The slots that are put into the e-class, in the order of the renaming, for updating.
    pub fn slots_mut(&mut self) -> (r: &mut Vec<Slot>)
        ensures
            *r == old(self).m.vals,
            final(self).id == old(self).id,
            final(self).m.keys == old(self).m.keys,
            final(self).m.vals == *final(r),
    {
        &mut self.m.vals
    }

    /// An invocation of the e-class 0 without arguments, used as a placeholder.
    pub fn null() -> (r: AppliedId)
        ensures
            r.wf(),
            r.id == Id(0),
            r.m@ == Map::<Slot, Slot>::empty(),
            r.m.keys@.len() == 0,
            r.m.vals@.len() == 0,
    {
        AppliedId { id: Id(0), m: SlotMap::new() }
    }

    /// The renaming.
    pub fn m(&self) -> (r: &SlotMap)
        ensures
            *r == self.m,
    {
        &self.m
    }

    /// The e-class.
    pub fn id(&self) -> (r: Id)
        ensures
            r == self.id,
    {
        self.id
    }

    /// The invocation with every argument slot renamed by `f`.
    pub fn map_slots<F: Fn(Slot) -> Slot>(&self, f: &F) -> (r: AppliedId)
        requires
            self.wf(),
            forall|s: Slot| #[trigger] f.requires((s,)),
        ensures
            r.wf(),
            r.id == self.id,
            r.m.keys@ == self.m.keys@,
            r.m.vals@.len() == self.m.vals@.len(),
            forall|i: int|
                0 <= i < r.m.vals@.len() ==> f.ensures((self.m.vals@[i],), #[trigger] r.m.vals@[i]),
    {
        let mut vals: Vec<Slot> = Vec::new();
        let mut i: usize = 0;
        while i < self.m.vals.len()
            invariant
                0 <= i <= self.m.vals@.len(),
                forall|s: Slot| #[trigger] f.requires((s,)),
                vals@.len() == i,
                forall|j: int| 0 <= j < i ==> f.ensures((self.m.vals@[j],), #[trigger] vals@[j]),
            decreases self.m.vals@.len() - i,
        {
            let y = f(self.m.vals[i]);
            vals.push(y);
            i = i + 1;
        }
        AppliedId { id: self.id, m: SlotMap { keys: self.m.keys.clone(), vals } }
    }
}

/// An equation between two e-class invocations.
#[derive(Debug)]
pub struct Equation {
    pub l: AppliedId,
    pub r: AppliedId,
}

impl Clone for Equation {
    fn clone(&self) -> (r: Self)
        ensures
            r.l.id == self.l.id,
            r.l.m@ == self.l.m@,
            r.r.id == self.r.id,
            r.r.m@ == self.r.m@,
            self.l.wf() ==> r.l.wf(),
            self.r.wf() ==> r.r.wf(),
    {
        Equation { l: self.l.clone(), r: self.r.clone() }
    }
}

impl Equation {
    pub open spec fn wf(&self) -> bool {
        self.l.wf() && self.r.wf()
    }

    /// The slots of both sides.
    pub fn slots(&self) -> (r: SlotSet)
        requires
            self.wf(),
        ensures
            r.wf(),
            r@ == values_of(self.l.m@).union(values_of(self.r.m@)),
    {
        self.l.slots().union(&self.r.slots())
    }

    /// Renames the slots of both sides by `m`.
    pub fn apply_slotmap(&self, m: &SlotMap) -> (r: Equation)
        requires
            self.wf(),
            m.wf(),
        ensures
            r.wf(),
            r.l.id == self.l.id,
            r.r.id == self.r.id,
            r.l.m@ == compose_partial_map(self.l.m@, m@),
            r.r.m@ == compose_partial_map(self.r.m@, m@),
    {
        Equation { l: self.l.apply_slotmap(m), r: self.r.apply_slotmap(m) }
    }

    /// Renames the slots of both sides by `m`, where the slots that `m` does not map first
    /// get fresh names.
    pub fn apply_slotmap_fresh(&self, m: &SlotMap, tab: &mut SlotTable) -> (r: Equation)
        requires
            self.wf(),
            m.wf(),
            old(tab).wf(),
            old(tab).fresh_idx + 4 * (self.l.m.keys@.len() + self.r.m.keys@.len()) + 4 <= u64::MAX,
        ensures
            r.wf(),
            final(tab).wf(),
            r.l.id == self.l.id,
            r.r.id == self.r.id,
            r.l.m@.dom() == self.l.m@.dom(),
            r.r.m@.dom() == self.r.m@.dom(),
            forall|x: Slot|
                #[trigger] self.l.m@.contains_key(x) && m@.contains_key(self.l.m@[x]) ==> r.l.m@[x]
                    == m@[self.l.m@[x]],
            forall|x: Slot|
                #[trigger] self.r.m@.contains_key(x) && m@.contains_key(self.r.m@[x]) ==> r.r.m@[x]
                    == m@[self.r.m@[x]],
    {
        let mut m2 = m.clone();
        let all = self.slots();
        let mut i: usize = 0;
        proof {
            self.l.m.lemma_view();
            self.r.m.lemma_view();
            all.lemma_len();
            self.l.m.keys@.unique_seq_to_set();
            self.r.m.keys@.unique_seq_to_set();
            lemma_values_len(self.l.m@, self.l.m.keys@.len());
            lemma_values_len(self.r.m@, self.r.m.keys@.len());
            vstd::set_lib::lemma_len_union(values_of(self.l.m@), values_of(self.r.m@));
        }
        let ghost start = tab.fresh_idx;
        while i < all.v.len()
            invariant
                0 <= i <= all.v@.len(),
                all.wf(),
                m2.wf(),
                tab.wf(),
                start <= tab.fresh_idx <= start + 4 * i,
                start == old(tab).fresh_idx,
                all.v@.len() <= self.l.m.keys@.len() + self.r.m.keys@.len(),
                old(tab).fresh_idx + 4 * (self.l.m.keys@.len() + self.r.m.keys@.len()) + 4 <= u64::MAX,
                forall|s: Slot| #[trigger] m@.contains_key(s) ==> m2@.contains_key(s) && m2@[s] == m@[s],
                forall|j: int| 0 <= j < i ==> m2@.contains_key(#[trigger] all.v@[j]),
            decreases all.v@.len() - i,
        {
            let s = all.v[i];
            if !m2.contains_key(s) {
                let f = Slot::fresh(tab);
                m2.insert(s, f);
            }
            i = i + 1;
        }
        let l = self.l.apply_slotmap(&m2);
        let r = self.r.apply_slotmap(&m2);
        proof {
            crate::slotmap::lemma_compose_dom(self.l.m@, m2@);
            crate::slotmap::lemma_compose_dom(self.r.m@, m2@);
            assert forall|x: Slot| self.l.m@.contains_key(x) implies m2@.contains_key(#[trigger] self.l.m@[x]) by {
                assert(values_of(self.l.m@).contains(self.l.m@[x]));
                assert(all@.contains(self.l.m@[x]));
            }
            assert forall|x: Slot| self.r.m@.contains_key(x) implies m2@.contains_key(#[trigger] self.r.m@[x]) by {
                assert(values_of(self.r.m@).contains(self.r.m@[x]));
                assert(all@.contains(self.r.m@[x]));
            }
            assert(l.m@.dom() =~= self.l.m@.dom());
            assert(r.m@.dom() =~= self.r.m@.dom());
        }
        Equation { l, r }
    }
}

/// A map has no more values than keys.
pub proof fn lemma_values_len(m: Map<Slot, Slot>, n: nat)
    requires
        m.dom().finite(),
        m.dom().len() == n,
    ensures
        values_of(m).finite(),
        values_of(m).len() <= n,
{
    let f = |k: Slot| m[k];
    assert(values_of(m) =~= m.dom().map(f));
    vstd::set_lib::lemma_map_size_bound(m.dom(), m.dom().map(f), f);
}

} // verus!
