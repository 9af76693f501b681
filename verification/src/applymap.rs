use vstd::prelude::*;
use crate::slot::Slot;
use crate::slotmap::{SlotMap, compose_partial_map};
use crate::applied::{AppliedId, AppliedBy, Id};
use crate::lang::{ENode, ENodeView, enode_eq};
use crate::suf::{SUF, invert, inverts};

verus! {

/// A map from e-node shapes to invocations, where both sides come with a renaming: a
/// shape `mk * k` maps to `mk * v` when `k` maps to `v`.
pub struct ApplyMap {
    pub entries: Vec<(ENode, AppliedId)>,
}

/// An invocation taken as its e-class and its renaming.
pub open spec fn inv_view(a: AppliedId) -> (Id, Map<Slot, Slot>) {
    (a.id, a.m@)
}

impl ApplyMap {
    /// No shape occurs twice, and every renaming is well-formed.
    pub open spec fn wf(&self) -> bool {
        &&& forall|i: int, j: int|
            #![trigger self.entries@[i], self.entries@[j]]
            0 <= i < self.entries@.len() && 0 <= j < self.entries@.len() && i != j
                ==> self.entries@[i].0@ != self.entries@[j].0@
        &&& forall|i: int| 0 <= i < self.entries@.len() ==> #[trigger] self.entries@[i].1.wf()
    }

    /// The stored entries, by shape.
    pub open spec fn view(&self) -> Map<ENodeView, (Id, Map<Slot, Slot>)> {
        Map::new(
            |k: ENodeView| exists|i: int| 0 <= i < self.entries@.len() && #[trigger] self.entries@[i].0@ == k,
            |k: ENodeView| {
                let i = choose|i: int| 0 <= i < self.entries@.len() && #[trigger] self.entries@[i].0@ == k;
                inv_view(self.entries@[i].1)
            },
        )
    }

    /// The empty map.
    pub fn new() -> (r: ApplyMap)
        ensures
            r.wf(),
            r.view() == Map::<ENodeView, (Id, Map<Slot, Slot>)>::empty(),
    {
        let r = ApplyMap { entries: Vec::new() };
        assert(r.view() =~= Map::<ENodeView, (Id, Map<Slot, Slot>)>::empty());
        r
    }

    /// The position of the entry for `k`.
    fn position(&self, k: &ENode) -> (r: Option<usize>)
        requires
            self.wf(),
        ensures
            r matches Some(i) ==> i < self.entries@.len() && self.entries@[i as int].0@ == k@,
            r is None ==> !self.view().contains_key(k@),
    {
        let mut i: usize = 0;
        while i < self.entries.len()
            invariant
                0 <= i <= self.entries@.len(),
                forall|j: int| 0 <= j < i ==> #[trigger] self.entries@[j].0@ != k@,
            decreases self.entries@.len() - i,
        {
            if enode_eq(&self.entries[i].0, k) {
                return Some(i);
            }
            i = i + 1;
        }
        None
    }

    proof fn lemma_at(&self, i: int)
        requires
            self.wf(),
            0 <= i < self.entries@.len(),
        ensures
            self.view().contains_key(self.entries@[i].0@),
            self.view()[self.entries@[i].0@] == inv_view(self.entries@[i].1),
    {
        let k = self.entries@[i].0@;
        assert(self.entries@[i].0@ == k);
        let j = choose|j: int| 0 <= j < self.entries@.len() && #[trigger] self.entries@[j].0@ == k;
        if j != i {
            assert(self.entries@[i].0@ != self.entries@[j].0@);
        }
    }

    /// Stores `a_v` for the shape `k` unless `k` has an entry; gives back that entry.
    pub fn insert_raw(&mut self, k: ENode, a_v: AppliedId) -> (r: Option<AppliedId>)
        requires
            old(self).wf(),
            a_v.wf(),
        ensures
            final(self).wf(),
            old(self).view().contains_key(k@) ==> {
                &&& r matches Some(v) && inv_view(v) == old(self).view()[k@]
                &&& final(self).view() == old(self).view()
            },
            !old(self).view().contains_key(k@) ==> {
                &&& r is None
                &&& final(self).view() == old(self).view().insert(k@, inv_view(a_v))
            },
    {
        match self.position(&k) {
            Some(i) => {
                proof {
                    self.lemma_at(i as int);
                }
                let v = self.entries[i].1.clone();
                assert(v.m@ =~= self.entries@[i as int].1.m@);
                Some(v)
            },
            None => {
                let ghost old_self = *self;
                let ghost kv = k@;
                let ghost vv = inv_view(a_v);
                self.entries.push((k, a_v));
                proof {
                    let n = old_self.entries@.len() as int;
                    assert(self.entries@[n].0@ == kv);
                    assert forall|i: int, j: int|
                        #![trigger self.entries@[i], self.entries@[j]]
                        0 <= i < self.entries@.len() && 0 <= j < self.entries@.len() && i != j
                            implies self.entries@[i].0@ != self.entries@[j].0@ by {
                        if i < n && j < n {
                            assert(self.entries@[i] == old_self.entries@[i]);
                            assert(self.entries@[j] == old_self.entries@[j]);
                        } else if i < n {
                            assert(self.entries@[i] == old_self.entries@[i]);
                            assert(old_self.view().contains_key(old_self.entries@[i].0@)) by {
                                old_self.lemma_at(i);
                            }
                        } else if j < n {
                            assert(self.entries@[j] == old_self.entries@[j]);
                            assert(old_self.view().contains_key(old_self.entries@[j].0@)) by {
                                old_self.lemma_at(j);
                            }
                        }
                    }
                    assert forall|i: int| 0 <= i < self.entries@.len() implies #[trigger] self.entries@[i].1.wf() by {
                        if i < n {
                            assert(self.entries@[i] == old_self.entries@[i]);
                        }
                    }
                    assert forall|key: ENodeView| self.view().contains_key(key) <==> old_self.view().insert(kv, vv).contains_key(key) by {
                        if self.view().contains_key(key) {
                            let i = choose|i: int| 0 <= i < self.entries@.len() && #[trigger] self.entries@[i].0@ == key;
                            if i < n {
                                assert(self.entries@[i] == old_self.entries@[i]);
                                old_self.lemma_at(i);
                            }
                        }
                        if old_self.view().contains_key(key) {
                            let i = choose|i: int| 0 <= i < old_self.entries@.len() && #[trigger] old_self.entries@[i].0@ == key;
                            assert(self.entries@[i] == old_self.entries@[i]);
                            self.lemma_at(i);
                        }
                        if key == kv {
                            self.lemma_at(n);
                        }
                    }
                    assert forall|key: ENodeView| #[trigger] self.view().contains_key(key) implies self.view()[key] == old_self.view().insert(kv, vv)[key] by {
                        let i = choose|i: int| 0 <= i < self.entries@.len() && #[trigger] self.entries@[i].0@ == key;
                        self.lemma_at(i);
                        if i < n {
                            assert(self.entries@[i] == old_self.entries@[i]);
                            old_self.lemma_at(i);
                        }
                    }
                    assert(self.view() =~= old_self.view().insert(kv, vv));
                }
                None
            },
        }
    }

    /// Stores `k` with the renaming `mk` as mapping to `v` with the renaming `mv`: the
    /// stored value takes `mv` followed by the inverse of `mk`. Where `k` has an entry,
    /// nothing is stored and the entry comes back renamed by `mk`.
    pub fn insert(&mut self, k: AppliedBy<SlotMap, ENode>, v: AppliedBy<SlotMap, Id>) -> (r: Option<AppliedId>)
        requires
            old(self).wf(),
            k.0.wf(),
            v.0.wf(),
        ensures
            final(self).wf(),
            old(self).view().contains_key(k.1@) ==> {
                &&& r matches Some(a) && a.id == old(self).view()[k.1@].0 && a.m@ == compose_partial_map(
                    old(self).view()[k.1@].1,
                    k.0@,
                )
                &&& final(self).view() == old(self).view()
            },
            !old(self).view().contains_key(k.1@) ==> {
                &&& r is None
                &&& final(self).view().dom() == old(self).view().dom().insert(k.1@)
                &&& final(self).view()[k.1@].0 == v.1
                &&& exists|inv: Map<Slot, Slot>| inverts(inv, k.0@) && #[trigger] final(self).view()[k.1@].1 == compose_partial_map(v.0@, inv)
                &&& forall|key: ENodeView| #[trigger] old(self).view().contains_key(key) ==> final(self).view()[key] == old(self).view()[key]
            },
    {
        let AppliedBy(mk, key) = k;
        let AppliedBy(mv, id) = v;
        match self.position(&key) {
            Some(i) => {
                proof {
                    self.lemma_at(i as int);
                }
                let stored = &self.entries[i].1;
                Some(stored.apply_slotmap_partial(&mk))
            },
            None => {
                let inv = invert(&mk);
                let value = AppliedId::new(id, mv.compose_partial(&inv));
                let r = self.insert_raw(key, value);
                r
            },
        }
    }

    /// The entry for the shape `k`, renamed by `m`.
    pub fn get(&self, k: &AppliedBy<SlotMap, ENode>) -> (r: Option<AppliedId>)
        requires
            self.wf(),
            k.0.wf(),
        ensures
            self.view().contains_key(k.1@) ==> (r matches Some(a) && a.wf() && a.id == self.view()[k.1@].0 && a.m@ == compose_partial_map(self.view()[k.1@].1, k.0@)),
            !self.view().contains_key(k.1@) ==> r is None,
    {
        match self.position(&k.1) {
            Some(i) => {
                proof {
                    self.lemma_at(i as int);
                }
                Some(self.entries[i].1.apply_slotmap_partial(&k.0))
            },
            None => None,
        }
    }

    /// Drops the entry for the shape `k`.
    pub fn remove(&mut self, k: &AppliedBy<SlotMap, ENode>)
        requires
            old(self).wf(),
        ensures
            final(self).wf(),
            final(self).view() == old(self).view().remove(k.1@),
    {
        match self.position(&k.1) {
            Some(i) => {
                let ghost old_self = *self;
                let ghost kv = k.1@;
                self.entries.remove(i);
                proof {
                    let n = old_self.entries@.len() as int;
                    let ii = i as int;
                    assert forall|a: int| 0 <= a < self.entries@.len() implies #[trigger] self.entries@[a] == old_self.entries@[if a < ii { a } else { a + 1 }] by {}
                    assert forall|a: int, b: int|
                        #![trigger self.entries@[a], self.entries@[b]]
                        0 <= a < self.entries@.len() && 0 <= b < self.entries@.len() && a != b
                            implies self.entries@[a].0@ != self.entries@[b].0@ by {
                        let a2 = if a < ii { a } else { a + 1 };
                        let b2 = if b < ii { b } else { b + 1 };
                        assert(old_self.entries@[a2].0@ != old_self.entries@[b2].0@);
                    }
                    assert forall|a: int| 0 <= a < self.entries@.len() implies #[trigger] self.entries@[a].1.wf() by {
                        let a2 = if a < ii { a } else { a + 1 };
                        assert(old_self.entries@[a2].1.wf());
                    }
                    assert forall|key: ENodeView| self.view().contains_key(key) <==> old_self.view().remove(kv).contains_key(key) by {
                        if self.view().contains_key(key) {
                            let a = choose|a: int| 0 <= a < self.entries@.len() && #[trigger] self.entries@[a].0@ == key;
                            let a2 = if a < ii { a } else { a + 1 };
                            old_self.lemma_at(a2);
                            assert(old_self.entries@[a2].0@ != old_self.entries@[ii].0@);
                        }
                        if old_self.view().remove(kv).contains_key(key) {
                            let a2 = choose|a: int| 0 <= a < old_self.entries@.len() && #[trigger] old_self.entries@[a].0@ == key;
                            assert(a2 != ii);
                            let a = if a2 < ii { a2 } else { a2 - 1 };
                            assert(self.entries@[a] == old_self.entries@[a2]);
                            self.lemma_at(a);
                        }
                    }
                    assert forall|key: ENodeView| #[trigger] self.view().contains_key(key) implies self.view()[key] == old_self.view().remove(kv)[key] by {
                        let a = choose|a: int| 0 <= a < self.entries@.len() && #[trigger] self.entries@[a].0@ == key;
                        let a2 = if a < ii { a } else { a + 1 };
                        self.lemma_at(a);
                        old_self.lemma_at(a2);
                        assert(old_self.entries@[a2].0@ != old_self.entries@[ii].0@);
                    }
                    assert(self.view() =~= old_self.view().remove(kv));
                }
            },
            None => {
                assert(self.view() =~= self.view().remove(k.1@));
            },
        }
    }
}

/// The class data that the shape e-graph keeps: nothing beyond the union-find's.
pub struct SEClass {
    pub usages: Vec<Id>,
}

/// An e-graph over shapes: a union-find of e-classes and the table from each shape to the
/// invocation that holds it.
pub struct SEGraph {
    pub suf: SUF<SEClass>,
    pub hashcons: ApplyMap,
}

impl SEGraph {
    pub open spec fn wf(&self) -> bool {
        self.suf.wf() && self.hashcons.wf()
    }

    /// The empty e-graph.
    pub fn new() -> (r: SEGraph)
        ensures
            r.wf(),
            r.suf.classes@.len() == 0,
            r.hashcons.view() == Map::<ENodeView, (Id, Map<Slot, Slot>)>::empty(),
    {
        SEGraph { suf: SUF::new(), hashcons: ApplyMap::new() }
    }

    /// Records that the shape `sh` lives in `x`, unless it is already recorded; gives back
    /// the invocation that already holds it.
    pub fn add_shape(&mut self, sh: ENode, x: AppliedId) -> (r: Option<AppliedId>)
        requires
            old(self).wf(),
            x.wf(),
        ensures
            final(self).wf(),
            final(self).suf == old(self).suf,
            old(self).hashcons.view().contains_key(sh@) ==> (r matches Some(v) && inv_view(v) == old(self).hashcons.view()[sh@]
                && final(self).hashcons.view() == old(self).hashcons.view()),
            !old(self).hashcons.view().contains_key(sh@) ==> (r is None && final(self).hashcons.view()
                == old(self).hashcons.view().insert(sh@, inv_view(x))),
    {
        self.hashcons.insert_raw(sh, x)
    }
}

/// The e-nodes of a class of the core e-graph, each with the renaming into the class.
pub struct CoreEClass {
    pub nodes: Vec<(ENode, SlotMap)>,
}

/// An e-graph core: a union-find of e-classes, the table from each e-node to the class
/// that holds it, and for each class the e-nodes that use it.
pub struct CoreEGraph {
    pub suf: SUF<CoreEClass>,
    pub hashcons: ApplyMap,
    pub usages: Vec<(Id, Vec<ENode>)>,
}

impl CoreEGraph {
    pub open spec fn wf(&self) -> bool {
        self.suf.wf() && self.hashcons.wf()
    }

    /// The empty e-graph core.
    pub fn new() -> (r: CoreEGraph)
        ensures
            r.wf(),
            r.suf.classes@.len() == 0,
            r.hashcons.view() == Map::<ENodeView, (Id, Map<Slot, Slot>)>::empty(),
            r.usages@.len() == 0,
    {
        CoreEGraph { suf: SUF::new(), hashcons: ApplyMap::new(), usages: Vec::new() }
    }
}


/// Reading a key back with the renaming it was stored with gives the stored value's own
/// renaming: storing takes the value's renaming followed by the inverse of the key's, and
/// reading composes the key's renaming again. This holds where every slot the value names is
/// one that the key's renaming reaches.
pub proof fn lemma_get_after_insert(mv: Map<Slot, Slot>, mk: Map<Slot, Slot>, inv: Map<Slot, Slot>)
    requires
        inverts(inv, mk),
        crate::slotmap::values_of(mv).subset_of(crate::slotmap::values_of(mk)),
    ensures
        compose_partial_map(compose_partial_map(mv, inv), mk) == mv,
{
    crate::slotmap::lemma_compose_dom(mv, inv);
    crate::slotmap::lemma_compose_dom(compose_partial_map(mv, inv), mk);
    assert forall|x: Slot| #[trigger] mv.contains_key(x) implies inv.contains_key(mv[x]) by {
        assert(crate::slotmap::values_of(mv).contains(mv[x]));
    }
    assert(compose_partial_map(compose_partial_map(mv, inv), mk) =~= mv);
}
} // verus!
