use vstd::prelude::*;
use crate::slot::Slot;
use crate::slotmap::{SlotMap, compose_partial_map};

verus! {

/// The entries `s` hold no key twice.
pub open spec fn distinct_keys(s: Seq<(Slot, Slot)>) -> bool {
    forall|i: int, j: int|
        #![trigger s[i], s[j]]
        0 <= i < s.len() && 0 <= j < s.len() && i != j ==> s[i].0 != s[j].0
}

/// The entries `s` list exactly the partial map `m`.
pub open spec fn lists_map(s: Seq<(Slot, Slot)>, m: Map<Slot, Slot>) -> bool {
    &&& distinct_keys(s)
    &&& forall|i: int|
        0 <= i < s.len() ==> #[trigger] m.contains_key(s[i].0) && m[s[i].0] == s[i].1
    &&& forall|k: Slot|
        #[trigger] m.contains_key(k) ==> exists|i: int| 0 <= i < s.len() && #[trigger] s[i].0 == k
}

/// Something that renames slots like a `SlotMap` does.
pub trait SlotMapLike: Sized {
    /// The partial map from slots to slots that this value stands for.
    spec fn as_map(&self) -> Map<Slot, Slot>;

    /// The value is well formed.
    spec fn like_wf(&self) -> bool;

    /// The slot that `x` is renamed to, if any.
    fn map(&self, x: Slot) -> (r: Option<Slot>)
        requires
            self.like_wf(),
        ensures
            r == (if self.as_map().contains_key(x) {
                Some(self.as_map()[x])
            } else {
                None
            }),
    ;

    /// All entries, each key once.
    fn iter(&self) -> (r: Vec<(Slot, Slot)>)
        requires
            self.like_wf(),
        ensures
            lists_map(r@, self.as_map()),
    ;

    /// The same renaming as a `SlotMap`.
    fn into(self) -> (r: SlotMap)
        requires
            self.like_wf(),
        ensures
            r.wf(),
            r@ == self.as_map(),
    {
        let entries = self.iter();
        let mut out = SlotMap::new();
        let mut i: usize = 0;
        while i < entries.len()
            invariant
                0 <= i <= entries@.len(),
                lists_map(entries@, self.as_map()),
                out.wf(),
                forall|j: int|
                    0 <= j < i ==> #[trigger] out@.contains_key(entries@[j].0) && out@[entries@[j].0]
                        == entries@[j].1,
                forall|k: Slot|
                    #[trigger] out@.contains_key(k) ==> exists|j: int|
                        0 <= j < i && #[trigger] entries@[j].0 == k,
            decreases entries@.len() - i,
        {
            let (k, v) = entries[i];
            out.insert(k, v);
            assert forall|k2: Slot| #[trigger] out@.contains_key(k2) implies exists|j: int|
                0 <= j < i + 1 && #[trigger] entries@[j].0 == k2 by {
                if k2 == k {
                    assert(entries@[i as int].0 == k2);
                }
            }
            i = i + 1;
        }
        assert(out@ =~= self.as_map()) by {
            assert forall|k: Slot| #[trigger] out@.contains_key(k) implies self.as_map().contains_key(k)
                && out@[k] == self.as_map()[k] by {
                let j = choose|j: int| 0 <= j < entries@.len() && #[trigger] entries@[j].0 == k;
                assert(self.as_map().contains_key(entries@[j].0));
            }
            assert forall|k: Slot| #[trigger] self.as_map().contains_key(k) implies out@.contains_key(k) by {
                let j = choose|j: int| 0 <= j < entries@.len() && #[trigger] entries@[j].0 == k;
                assert(out@.contains_key(entries@[j].0));
            }
        }
        out
    }
}

impl SlotMapLike for SlotMap {
    open spec fn as_map(&self) -> Map<Slot, Slot> {
        self@
    }

    open spec fn like_wf(&self) -> bool {
        self.wf()
    }

    fn map(&self, x: Slot) -> (r: Option<Slot>) {
        self.get(x)
    }

    fn iter(&self) -> (r: Vec<(Slot, Slot)>) {
        proof {
            self.lemma_view();
        }
        let r = SlotMap::iter(self);
        assert forall|k: Slot| #[trigger] self@.contains_key(k) implies exists|i: int|
            0 <= i < r@.len() && #[trigger] r@[i].0 == k by {
            let i = self.keys@.index_of(k);
            assert(r@[i].0 == k);
        }
        r
    }

    fn into(self) -> (r: SlotMap) {
        self
    }
}

/// Renaming by `self.1` first and then by `self.0`.
pub struct Compose<L: SlotMapLike, R: SlotMapLike>(pub L, pub R);

impl<L: SlotMapLike, R: SlotMapLike> SlotMapLike for Compose<L, R> {
    open spec fn as_map(&self) -> Map<Slot, Slot> {
        compose_partial_map(self.1.as_map(), self.0.as_map())
    }

    open spec fn like_wf(&self) -> bool {
        self.0.like_wf() && self.1.like_wf()
    }

    fn map(&self, x: Slot) -> (r: Option<Slot>) {
        reveal(compose_partial_map);
        match self.1.map(x) {
            Some(y) => self.0.map(y),
            None => None,
        }
    }

    fn iter(&self) -> (r: Vec<(Slot, Slot)>) {
        reveal(compose_partial_map);
        let inner = self.1.iter();
        let ghost m = self.as_map();
        let mut out: Vec<(Slot, Slot)> = Vec::new();
        let ghost mut from: Seq<int> = Seq::empty();
        let mut i: usize = 0;
        while i < inner.len()
            invariant
                0 <= i <= inner@.len(),
                self.like_wf(),
                m == self.as_map(),
                lists_map(inner@, self.1.as_map()),
                from.len() == out@.len(),
                forall|j: int|
                    0 <= j < from.len() ==> 0 <= #[trigger] from[j] < i && out@[j].0 == inner@[from[j]].0,
                forall|j1: int, j2: int|
                    #![trigger from[j1], from[j2]]
                    0 <= j1 < j2 < from.len() ==> from[j1] < from[j2],
                forall|j: int|
                    0 <= j < out@.len() ==> #[trigger] m.contains_key(out@[j].0) && m[out@[j].0]
                        == out@[j].1,
                forall|k: Slot|
                    #[trigger] m.contains_key(k) && (exists|t: int| 0 <= t < i && #[trigger] inner@[t].0 == k)
                        ==> exists|j: int| 0 <= j < out@.len() && #[trigger] out@[j].0 == k,
            decreases inner@.len() - i,
        {
            reveal(compose_partial_map);
            let (x, y) = inner[i];
            let ghost old_out = out@;
            let ghost old_from = from;
            proof {
                assert(inner@[i as int] == (x, y));
                assert(self.1.as_map().contains_key(inner@[i as int].0));
            }
            match self.0.map(y) {
                Some(z) => {
                    out.push((x, z));
                    proof {
                        from = from.push(i as int);
                        assert(out@[out@.len() - 1].0 == x);
                    }
                },
                None => {},
            }
            assert forall|k: Slot|
                #[trigger] m.contains_key(k) && (exists|t: int| 0 <= t < i + 1 && #[trigger] inner@[t].0 == k)
                implies exists|j: int| 0 <= j < out@.len() && #[trigger] out@[j].0 == k by {
                let t = choose|t: int| 0 <= t < i + 1 && #[trigger] inner@[t].0 == k;
                if t == i {
                    assert(self.0.as_map().contains_key(y));
                    assert(out@[out@.len() - 1].0 == k);
                } else {
                    let j = choose|j: int| 0 <= j < old_out.len() && #[trigger] old_out[j].0 == k;
                    assert(out@[j] == old_out[j]);
                }
            }
            assert forall|j: int| 0 <= j < out@.len() implies #[trigger] m.contains_key(out@[j].0)
                && m[out@[j].0] == out@[j].1 by {
                if j < old_out.len() {
                    assert(out@[j] == old_out[j]);
                }
            }
            i = i + 1;
        }
        assert forall|j1: int, j2: int|
            #![trigger out@[j1], out@[j2]]
            0 <= j1 < out@.len() && 0 <= j2 < out@.len() && j1 != j2 implies out@[j1].0 != out@[j2].0 by {
            if j1 < j2 {
                assert(from[j1] < from[j2]);
            } else {
                assert(from[j2] < from[j1]);
            }
            assert(inner@[from[j1]].0 != inner@[from[j2]].0);
        }
        assert forall|k: Slot| #[trigger] m.contains_key(k) implies exists|j: int|
            0 <= j < out@.len() && #[trigger] out@[j].0 == k by {
            assert(self.1.as_map().contains_key(k));
            let t = choose|t: int| 0 <= t < inner@.len() && #[trigger] inner@[t].0 == k;
            assert(inner@[t].0 == k);
        }
        out
    }
}

} // verus!
