use vstd::prelude::*;
use crate::slot::Slot;

verus! {

/// A finite set of slots, kept as a list without repetitions.
#[derive(Debug)]
pub struct SlotSet {
    pub v: Vec<Slot>,
}

impl Clone for SlotSet {
    fn clone(&self) -> (r: Self)
        ensures
            r.v@ == self.v@,
    {
        let v = self.v.clone();
        assert(v@ =~= self.v@);
        SlotSet { v }
    }
}

impl View for SlotSet {
    type V = Set<Slot>;

    open spec fn view(&self) -> Set<Slot> {
        self.v@.to_set()
    }
}

impl SlotSet {
    pub open spec fn wf(&self) -> bool {
        self.v@.no_duplicates()
    }

    pub proof fn lemma_finite(&self)
        ensures
            self@.finite(),
    {
        vstd::seq_lib::seq_to_set_is_finite(self.v@);
    }

    pub proof fn lemma_len(&self)
        requires
            self.wf(),
        ensures
            self@.finite(),
            self@.len() == self.v@.len(),
    {
        vstd::seq_lib::seq_to_set_is_finite(self.v@);
        self.v@.unique_seq_to_set();
    }

    /// The empty set.
    pub fn new() -> (r: SlotSet)
        ensures
            r.wf(),
            r@ == Set::<Slot>::empty(),
    {
        let r = SlotSet { v: Vec::new() };
        assert(r@ =~= Set::<Slot>::empty());
        r
    }

    /// The number of slots in the set.
    pub fn len(&self) -> (n: usize)
        requires
            self.wf(),
        ensures
            n == self@.len(),
    {
        proof {
            self.lemma_len();
        }
        self.v.len()
    }

    /// Whether `s` is in the set.
    pub fn contains(&self, s: Slot) -> (r: bool)
        ensures
            r == self@.contains(s),
    {
        let mut i: usize = 0;
        while i < self.v.len()
            invariant
                0 <= i <= self.v@.len(),
                forall|j: int| 0 <= j < i ==> self.v@[j] != s,
            decreases self.v@.len() - i,
        {
            if self.v[i] == s {
                assert(self.v@[i as int] == s);
                return true;
            }
            i = i + 1;
        }
        false
    }

    /// Adds `s`; tells whether it was new.
    pub fn insert(&mut self, s: Slot) -> (r: bool)
        requires
            old(self).wf(),
        ensures
            final(self).wf(),
            final(self)@ == old(self)@.insert(s),
            r == !old(self)@.contains(s),
    {
        if self.contains(s) {
            assert(self@.insert(s) =~= self@);
            false
        } else {
            self.v.push(s);
            assert(final(self)@ =~= old(self)@.insert(s)) by {
                assert(self.v@ == old(self).v@.push(s));
                assert forall|x: Slot| #[trigger] self.v@.contains(x) <==> old(self).v@.contains(x)
                    || x == s by {
                    if self.v@.contains(x) {
                        let j = choose|j: int| 0 <= j < self.v@.len() && self.v@[j] == x;
                        if j < old(self).v@.len() {
                            assert(old(self).v@[j] == x);
                        }
                    }
                    if old(self).v@.contains(x) {
                        let j = choose|j: int| 0 <= j < old(self).v@.len() && old(self).v@[j] == x;
                        assert(self.v@[j] == x);
                    }
                    if x == s {
                        assert(self.v@[old(self).v@.len() as int] == s);
                    }
                }
            }
            true
        }
    }

    /// Removes `s`.
    pub fn remove(&mut self, s: Slot)
        requires
            old(self).wf(),
        ensures
            final(self).wf(),
            final(self)@ == old(self)@.remove(s),
    {
        let mut out: Vec<Slot> = Vec::new();
        let mut i: usize = 0;
        while i < self.v.len()
            invariant
                0 <= i <= self.v@.len(),
                self.v@.no_duplicates(),
                out@.no_duplicates(),
                forall|x: Slot|
                    #[trigger] out@.contains(x) <==> (x != s && self.v@.subrange(0, i as int).contains(
                        x,
                    )),
            decreases self.v@.len() - i,
        {
            let x = self.v[i];
            proof {
                lemma_subrange_push_contains(self.v@, i as int);
            }
            if x != s {
                proof {
                    assert(!self.v@.subrange(0, i as int).contains(x)) by {
                        if self.v@.subrange(0, i as int).contains(x) {
                            let j = choose|j: int|
                                0 <= j < i && self.v@.subrange(0, i as int)[j] == x;
                            assert(self.v@[j] == self.v@[i as int]);
                        }
                    }
                    lemma_push_contains(out@, x);
                    lemma_push_no_dup(out@, x);
                }
                out.push(x);
            }
            i = i + 1;
        }
        assert(self.v@.subrange(0, self.v@.len() as int) =~= self.v@);
        self.v = out;
        assert(final(self)@ =~= old(self)@.remove(s));
    }

    /// The slots that are in `self` or in `other`.
    pub fn union(&self, other: &SlotSet) -> (r: SlotSet)
        requires
            self.wf(),
            other.wf(),
        ensures
            r.wf(),
            r@ == self@.union(other@),
    {
        let mut r = self.clone();
        assert(r.v@ == self.v@);
        let mut i: usize = 0;
        while i < other.v.len()
            invariant
                0 <= i <= other.v@.len(),
                r.wf(),
                r@ == self@.union(other.v@.subrange(0, i as int).to_set()),
            decreases other.v@.len() - i,
        {
            r.insert(other.v[i]);
            assert(other.v@.subrange(0, i + 1).to_set() =~= other.v@.subrange(
                0,
                i as int,
            ).to_set().insert(other.v@[i as int])) by {
                lemma_subrange_push_to_set(other.v@, i as int);
            }
            i = i + 1;
        }
        assert(other.v@.subrange(0, other.v@.len() as int) =~= other.v@);
        r
    }

    /// The slots that are in both `self` and `other`.
    pub fn intersection(&self, other: &SlotSet) -> (r: SlotSet)
        requires
            self.wf(),
        ensures
            r.wf(),
            r@ == self@.intersect(other@),
    {
        self.filter_by(other, true)
    }

    /// The slots of `self` that are not in `other`.
    pub fn difference(&self, other: &SlotSet) -> (r: SlotSet)
        requires
            self.wf(),
        ensures
            r.wf(),
            r@ == self@.difference(other@),
    {
        self.filter_by(other, false)
    }

    fn filter_by(&self, other: &SlotSet, keep_common: bool) -> (r: SlotSet)
        requires
            self.wf(),
        ensures
            r.wf(),
            keep_common ==> r@ == self@.intersect(other@),
            !keep_common ==> r@ == self@.difference(other@),
    {
        let mut out: Vec<Slot> = Vec::new();
        let mut i: usize = 0;
        while i < self.v.len()
            invariant
                0 <= i <= self.v@.len(),
                self.v@.no_duplicates(),
                out@.no_duplicates(),
                forall|x: Slot|
                    #[trigger] out@.contains(x) <==> (self.v@.subrange(0, i as int).contains(x) && (
                    other@.contains(x) == keep_common)),
            decreases self.v@.len() - i,
        {
            let x = self.v[i];
            proof {
                lemma_subrange_push_contains(self.v@, i as int);
            }
            if other.contains(x) == keep_common {
                proof {
                    assert(!self.v@.subrange(0, i as int).contains(x)) by {
                        if self.v@.subrange(0, i as int).contains(x) {
                            let j = choose|j: int|
                                0 <= j < i && self.v@.subrange(0, i as int)[j] == x;
                            assert(self.v@[j] == self.v@[i as int]);
                        }
                    }
                    lemma_push_contains(out@, x);
                    lemma_push_no_dup(out@, x);
                }
                out.push(x);
            }
            i = i + 1;
        }
        assert(self.v@.subrange(0, self.v@.len() as int) =~= self.v@);
        let r = SlotSet { v: out };
        if keep_common {
            assert(r@ =~= self@.intersect(other@));
        } else {
            assert(r@ =~= self@.difference(other@));
        }
        r
    }

    /// Whether every slot of `self` is in `other`.
    pub fn is_subset(&self, other: &SlotSet) -> (r: bool)
        ensures
            r == self@.subset_of(other@),
    {
        let mut i: usize = 0;
        while i < self.v.len()
            invariant
                0 <= i <= self.v@.len(),
                forall|j: int| 0 <= j < i ==> other@.contains(#[trigger] self.v@[j]),
            decreases self.v@.len() - i,
        {
            if !other.contains(self.v[i]) {
                assert(self@.contains(self.v@[i as int]));
                return false;
            }
            i = i + 1;
        }
        assert forall|x: Slot| self@.contains(x) implies other@.contains(x) by {
            let j = choose|j: int| 0 <= j < self.v@.len() && self.v@[j] == x;
        }
        true
    }

    /// Whether the two sets hold the same slots.
    pub fn set_eq(&self, other: &SlotSet) -> (r: bool)
        ensures
            r == (self@ == other@),
    {
        let a = self.is_subset(other);
        let b = other.is_subset(self);
        if a && b {
            assert(self@ =~= other@);
        }
        a && b
    }

    /// Whether the two sets have no slot in common.
    pub fn is_disjoint(&self, other: &SlotSet) -> (r: bool)
        ensures
            r == self@.disjoint(other@),
    {
        let mut i: usize = 0;
        while i < self.v.len()
            invariant
                0 <= i <= self.v@.len(),
                forall|j: int| 0 <= j < i ==> !other@.contains(#[trigger] self.v@[j]),
            decreases self.v@.len() - i,
        {
            if other.contains(self.v[i]) {
                assert(self@.contains(self.v@[i as int]));
                return false;
            }
            i = i + 1;
        }
        assert forall|x: Slot| self@.contains(x) implies !other@.contains(x) by {
            let j = choose|j: int| 0 <= j < self.v@.len() && self.v@[j] == x;
        }
        true
    }

    /// The set of the slots in `v`.
    pub fn from_vec(v: &Vec<Slot>) -> (r: SlotSet)
        ensures
            r.wf(),
            r@ == v@.to_set(),
    {
        let mut r = SlotSet::new();
        let mut i: usize = 0;
        while i < v.len()
            invariant
                0 <= i <= v@.len(),
                r.wf(),
                r@ == v@.subrange(0, i as int).to_set(),
            decreases v@.len() - i,
        {
            r.insert(v[i]);
            proof {
                lemma_subrange_push_to_set(v@, i as int);
            }
            i = i + 1;
        }
        assert(v@.subrange(0, v@.len() as int) =~= v@);
        r
    }

    /// The slots of the set, each once.
    pub fn to_vec(&self) -> (r: Vec<Slot>)
        requires
            self.wf(),
        ensures
            r@.no_duplicates(),
            r@.to_set() == self@,
            r@.len() == self@.len(),
    {
        proof {
            self.lemma_len();
        }
        self.v.clone()
    }
}

pub proof fn lemma_push_contains<A>(s: Seq<A>, x: A)
    ensures
        forall|y: A| #[trigger] s.push(x).contains(y) <==> s.contains(y) || y == x,
{
    assert forall|y: A| #[trigger] s.push(x).contains(y) <==> s.contains(y) || y == x by {
        if s.push(x).contains(y) {
            let j = choose|j: int| 0 <= j < s.len() + 1 && s.push(x)[j] == y;
            if j < s.len() {
                assert(s[j] == y);
            }
        }
        if s.contains(y) {
            let j = choose|j: int| 0 <= j < s.len() && s[j] == y;
            assert(s.push(x)[j] == y);
        }
        if y == x {
            assert(s.push(x)[s.len() as int] == y);
        }
    }
}

pub proof fn lemma_push_no_dup<A>(s: Seq<A>, x: A)
    requires
        s.no_duplicates(),
        !s.contains(x),
    ensures
        s.push(x).no_duplicates(),
{
    assert forall|i: int, j: int|
        0 <= i < s.push(x).len() && 0 <= j < s.push(x).len() && i != j implies s.push(x)[i]
        != s.push(x)[j] by {
        if i < s.len() && j == s.len() {
            assert(s[i] == s.push(x)[i]);
        }
        if j < s.len() && i == s.len() {
            assert(s[j] == s.push(x)[j]);
        }
    }
}

pub proof fn lemma_subrange_push_contains<A>(s: Seq<A>, i: int)
    requires
        0 <= i < s.len(),
    ensures
        forall|y: A| #[trigger]
            s.subrange(0, i + 1).contains(y) <==> s.subrange(0, i).contains(y) || y == s[i],
{
    assert(s.subrange(0, i + 1) =~= s.subrange(0, i).push(s[i]));
    lemma_push_contains(s.subrange(0, i), s[i]);
}

pub proof fn lemma_subrange_push_to_set<A>(s: Seq<A>, i: int)
    requires
        0 <= i < s.len(),
    ensures
        s.subrange(0, i + 1).to_set() == s.subrange(0, i).to_set().insert(s[i]),
{
    lemma_subrange_push_contains(s, i);
    assert(s.subrange(0, i + 1).to_set() =~= s.subrange(0, i).to_set().insert(s[i]));
}

} // verus!
