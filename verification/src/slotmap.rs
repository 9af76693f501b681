use vstd::prelude::*;
use crate::slot::{Slot, SlotTable};
use crate::slotset::{SlotSet, lemma_push_no_dup, lemma_push_contains, lemma_subrange_push_contains};

verus! {

/// A finite partial map from slots to slots.
///
/// `keys[i]` maps to `vals[i]`; no key occurs twice.
#[derive(Debug)]
pub struct SlotMap {
    pub keys: Vec<Slot>,
    pub vals: Vec<Slot>,
}

impl View for SlotMap {
    type V = Map<Slot, Slot>;

    open spec fn view(&self) -> Map<Slot, Slot> {
        Map::new(
            |k: Slot| self.keys@.contains(k),
            |k: Slot| self.vals@[self.keys@.index_of(k)],
        )
    }
}

impl Clone for SlotMap {
    fn clone(&self) -> (r: Self)
        ensures
            r.keys@ == self.keys@,
            r.vals@ == self.vals@,
    {
        let keys = self.keys.clone();
        let vals = self.vals.clone();
        assert(keys@ =~= self.keys@);
        assert(vals@ =~= self.vals@);
        SlotMap { keys, vals }
    }
}

/// `m` is injective: no two keys share a value.
pub open spec fn injective(m: Map<Slot, Slot>) -> bool {
    forall|a: Slot, b: Slot|
        #![trigger m[a], m[b]]
        m.contains_key(a) && m.contains_key(b) && a != b ==> m[a] != m[b]
}

/// The set of values of `m`.
pub open spec fn values_of(m: Map<Slot, Slot>) -> Set<Slot> {
    Set::new(|v: Slot| exists|k: Slot| m.contains_key(k) && #[trigger] m[k] == v)
}

/// `m` is a permutation: a bijection of its key set onto itself.
pub open spec fn is_perm_map(m: Map<Slot, Slot>) -> bool {
    injective(m) && values_of(m) == m.dom()
}

/// The inverse relation of `m`.
pub open spec fn inverse_map(m: Map<Slot, Slot>) -> Map<Slot, Slot> {
    Map::new(
        |v: Slot| values_of(m).contains(v),
        |v: Slot| choose|k: Slot| m.contains_key(k) && m[k] == v,
    )
}

/// First `a`, then `b`, where `b` is defined; other keys of `a` are dropped.
#[verifier::opaque]
pub open spec fn compose_partial_map(a: Map<Slot, Slot>, b: Map<Slot, Slot>) -> Map<Slot, Slot> {
    Map::new(|k: Slot| a.contains_key(k) && b.contains_key(a[k]), |k: Slot| b[a[k]])
}

/// The identity map on `s`.
pub open spec fn identity_map(s: Set<Slot>) -> Map<Slot, Slot> {
    Map::new(|k: Slot| s.contains(k), |k: Slot| k)
}

/// `m` restricted to the keys in `s`.
pub open spec fn restrict_map(m: Map<Slot, Slot>, s: Set<Slot>) -> Map<Slot, Slot> {
    Map::new(|k: Slot| m.contains_key(k) && s.contains(k), |k: Slot| m[k])
}

/// The two maps agree where both are defined.
pub open spec fn compatible(a: Map<Slot, Slot>, b: Map<Slot, Slot>) -> bool {
    forall|k: Slot| a.contains_key(k) && b.contains_key(k) ==> #[trigger] a[k] == b[k]
}

/// The set of values of `m`, kept folded so that facts about it do not unfold by themselves.
#[verifier::opaque]
pub open spec fn image(m: Map<Slot, Slot>) -> Set<Slot> {
    values_of(m)
}

pub proof fn lemma_image(m: Map<Slot, Slot>)
    ensures
        image(m) == values_of(m),
{
    reveal(image);
}

/// `m` is a permutation of the slot set `omega`.
pub open spec fn perm_of(m: Map<Slot, Slot>, omega: Set<Slot>) -> bool {
    m.dom() == omega && injective(m) && image(m) == omega
}

pub proof fn lemma_in_image(m: Map<Slot, Slot>, k: Slot)
    requires
        m.contains_key(k),
    ensures
        image(m).contains(m[k]),
{
    reveal(image);
    assert(values_of(m).contains(m[k]));
}

pub proof fn image_witness(m: Map<Slot, Slot>, v: Slot) -> (k: Slot)
    requires
        image(m).contains(v),
    ensures
        m.contains_key(k),
        m[k] == v,
{
    reveal(image);
    choose|k: Slot| m.contains_key(k) && m[k] == v
}

pub proof fn lemma_perm_maps_into(m: Map<Slot, Slot>, omega: Set<Slot>, y: Slot)
    requires
        perm_of(m, omega),
        omega.contains(y),
    ensures
        omega.contains(m[y]),
{
    reveal(image);
    assert(values_of(m).contains(m[y]));
}

pub proof fn lemma_identity_image(s: Set<Slot>)
    ensures
        image(identity_map(s)) == s,
{
    reveal(image);
    let m = identity_map(s);
    assert forall|v: Slot| s.contains(v) implies values_of(m).contains(v) by {
        assert(m.contains_key(v) && m[v] == v);
    }
    assert(values_of(m) =~= s);
}

pub proof fn lemma_compose_dom(a: Map<Slot, Slot>, b: Map<Slot, Slot>)
    ensures
        forall|x: Slot| #[trigger]
            compose_partial_map(a, b).contains_key(x) <==> a.contains_key(x) && b.contains_key(a[x]),
        forall|x: Slot|
            #[trigger] compose_partial_map(a, b).contains_key(x) ==> compose_partial_map(a, b)[x]
                == b[a[x]],
{
    reveal(compose_partial_map);
}

/// Some key that `m` sends to `v`.
pub proof fn preimage(m: Map<Slot, Slot>, omega: Set<Slot>, v: Slot) -> (k: Slot)
    requires
        perm_of(m, omega),
        omega.contains(v),
    ensures
        omega.contains(k),
        m[k] == v,
{
    reveal(image);
    assert(values_of(m).contains(v));
    choose|k: Slot| m.contains_key(k) && m[k] == v
}

proof fn lemma_compose_pointwise(a: Map<Slot, Slot>, b: Map<Slot, Slot>, omega: Set<Slot>)
    requires
        perm_of(a, omega),
        perm_of(b, omega),
    ensures
        compose_partial_map(a, b).dom() == omega,
        forall|x: Slot|
            omega.contains(x) ==> #[trigger] compose_partial_map(a, b)[x] == b[a[x]] && omega.contains(
                a[x],
            ),
{
    reveal(compose_partial_map);
    let c = compose_partial_map(a, b);
    assert forall|x: Slot| omega.contains(x) implies c.contains_key(x) by {
        lemma_perm_maps_into(a, omega, x);
    }
    assert(c.dom() =~= omega);
    assert forall|x: Slot| omega.contains(x) implies #[trigger] c[x] == b[a[x]] && omega.contains(a[x])
        by {
        lemma_perm_maps_into(a, omega, x);
    }
}

proof fn lemma_compose_injective(a: Map<Slot, Slot>, b: Map<Slot, Slot>, omega: Set<Slot>)
    requires
        perm_of(a, omega),
        perm_of(b, omega),
    ensures
        injective(compose_partial_map(a, b)),
{
    reveal(compose_partial_map);
    let c = compose_partial_map(a, b);
    lemma_compose_pointwise(a, b, omega);
    assert forall|x: Slot, y: Slot|
        #![trigger c[x], c[y]]
        c.contains_key(x) && c.contains_key(y) && x != y implies c[x] != c[y] by {
        assert(omega.contains(x) && omega.contains(y));
        assert(a[x] != a[y]);
    }
}

proof fn lemma_compose_values(a: Map<Slot, Slot>, b: Map<Slot, Slot>, omega: Set<Slot>)
    requires
        perm_of(a, omega),
        perm_of(b, omega),
    ensures
        image(compose_partial_map(a, b)) == omega,
{
    reveal(compose_partial_map);
    let c = compose_partial_map(a, b);
    assert forall|v: Slot| omega.contains(v) implies #[trigger] image(c).contains(v) by {
        let y = preimage(b, omega, v);
        let x = preimage(a, omega, y);
        assert(c.contains_key(x));
        assert(c[x] == v);
        lemma_in_image(c, x);
    }
    assert forall|v: Slot| #[trigger] image(c).contains(v) implies omega.contains(v) by {
        let k = image_witness(c, v);
        lemma_perm_maps_into(a, omega, k);
        lemma_perm_maps_into(b, omega, a[k]);
    }
    assert(image(c) =~= omega);
}

pub proof fn lemma_perm_compose(a: Map<Slot, Slot>, b: Map<Slot, Slot>, omega: Set<Slot>)
    requires
        perm_of(a, omega),
        perm_of(b, omega),
    ensures
        perm_of(compose_partial_map(a, b), omega),
{
    lemma_compose_pointwise(a, b, omega);
    lemma_compose_injective(a, b, omega);
    lemma_compose_values(a, b, omega);
}

pub proof fn lemma_perm_inverse(a: Map<Slot, Slot>, omega: Set<Slot>)
    requires
        perm_of(a, omega),
    ensures
        perm_of(inverse_map(a), omega),
        forall|x: Slot| #[trigger] a.contains_key(x) ==> inverse_map(a)[a[x]] == x,
        forall|x: Slot| omega.contains(x) && a[x] == x ==> #[trigger] inverse_map(a)[x] == x,
{
    let c = inverse_map(a);
    lemma_image(a);
    assert forall|x: Slot| #[trigger] a.contains_key(x) implies c[a[x]] == x by {
        assert(values_of(a).contains(a[x]));
        let k = choose|k: Slot| a.contains_key(k) && a[k] == a[x];
    }
    assert(c.dom() =~= omega);
    assert forall|x: Slot, y: Slot|
        #![trigger c[x], c[y]]
        c.contains_key(x) && c.contains_key(y) && x != y implies c[x] != c[y] by {
        let kx = preimage(a, omega, x);
        let ky = preimage(a, omega, y);
        assert(c[a[kx]] == kx);
        assert(c[a[ky]] == ky);
    }
    assert forall|v: Slot| values_of(c).contains(v) implies omega.contains(v) by {
        let k = choose|k: Slot| c.contains_key(k) && c[k] == v;
        let kx = preimage(a, omega, k);
        assert(c[a[kx]] == kx);
    }
    assert forall|v: Slot| omega.contains(v) implies values_of(c).contains(v) by {
        assert(values_of(a).contains(a[v]));
        assert(c[a[v]] == v);
    }
    lemma_image(c);
    assert(values_of(c) =~= omega);
    assert forall|x: Slot| omega.contains(x) && a[x] == x implies #[trigger] c[x] == x by {
        assert(c[a[x]] == x);
    }
}

/// Restricting an injective map keeps it injective.
pub proof fn lemma_restrict_injective(m: Map<Slot, Slot>, s: Set<Slot>)
    requires
        injective(m),
    ensures
        injective(restrict_map(m, s)),
{
    let r = restrict_map(m, s);
    assert forall|a: Slot, b: Slot| #![trigger r[a], r[b]] r.contains_key(a) && r.contains_key(b) && a != b implies r[a] != r[b] by {
        assert(m[a] != m[b]);
    }
}

impl SlotMap {
    pub open spec fn wf(&self) -> bool {
        &&& self.keys@.no_duplicates()
        &&& self.keys@.len() == self.vals@.len()
    }

    pub proof fn lemma_view(&self)
        requires
            self.wf(),
        ensures
            forall|i: int|
                0 <= i < self.keys@.len() ==> #[trigger] self@.contains_key(self.keys@[i])
                    && self@[self.keys@[i]] == self.vals@[i],
            forall|k: Slot| #[trigger]
                self@.contains_key(k) <==> self.keys@.contains(k),
            self@.dom() == self.keys@.to_set(),
            self@.dom().finite(),
    {
        assert forall|i: int| 0 <= i < self.keys@.len() implies #[trigger] self@.contains_key(
            self.keys@[i],
        ) && self@[self.keys@[i]] == self.vals@[i] by {
            assert(self.keys@.contains(self.keys@[i]));
            let j = self.keys@.index_of(self.keys@[i]);
            assert(self.keys@[j] == self.keys@[i]);
        }
        assert(self@.dom() =~= self.keys@.to_set());
        vstd::seq_lib::seq_to_set_is_finite(self.keys@);
    }

    /// The empty map.
    pub fn new() -> (r: SlotMap)
        ensures
            r.wf(),
            r@ == Map::<Slot, Slot>::empty(),
            r.keys@.len() == 0,
            r.vals@.len() == 0,
    {
        let r = SlotMap { keys: Vec::new(), vals: Vec::new() };
        assert(r@ =~= Map::<Slot, Slot>::empty());
        r
    }

    /// The number of entries.
    pub fn len(&self) -> (n: usize)
        requires
            self.wf(),
        ensures
            n == self@.len(),
    {
        proof {
            self.lemma_view();
            self.keys@.unique_seq_to_set();
        }
        self.keys.len()
    }

    fn find(&self, k: Slot) -> (r: Option<usize>)
        requires
            self.wf(),
        ensures
            r matches Some(i) ==> i < self.keys@.len() && self.keys@[i as int] == k,
            r is None ==> !self.keys@.contains(k),
    {
        let mut i: usize = 0;
        while i < self.keys.len()
            invariant
                0 <= i <= self.keys@.len(),
                forall|j: int| 0 <= j < i ==> self.keys@[j] != k,
            decreases self.keys@.len() - i,
        {
            if self.keys[i] == k {
                return Some(i);
            }
            i = i + 1;
        }
        None
    }

    /// The value of `k`, if it has one.
    pub fn get(&self, k: Slot) -> (r: Option<Slot>)
        requires
            self.wf(),
        ensures
            r == (if self@.contains_key(k) {
                Some(self@[k])
            } else {
                None
            }),
    {
        proof {
            self.lemma_view();
        }
        match self.find(k) {
            Some(i) => Some(self.vals[i]),
            None => None,
        }
    }

    /// Whether `k` has a value.
    pub fn contains_key(&self, k: Slot) -> (r: bool)
        requires
            self.wf(),
        ensures
            r == self@.contains_key(k),
    {
        proof {
            self.lemma_view();
        }
        self.find(k).is_some()
    }

    /// The value of `k`, or [Slot::missing] where it has none.
    pub fn index(&self, k: Slot) -> (r: Slot)
        requires
            self.wf(),
        ensures
            self@.contains_key(k) ==> r == self@[k],
            !self@.contains_key(k) ==> r.0 == u32::MAX,
    {
        match self.get(k) {
            Some(v) => v,
            None => Slot::missing(),
        }
    }

    /// Maps `k` to `v`, replacing an earlier value of `k`.
    pub fn insert(&mut self, k: Slot, v: Slot)
        requires
            old(self).wf(),
        ensures
            final(self).wf(),
            final(self)@ == old(self)@.insert(k, v),
    {
        proof {
            old(self).lemma_view();
        }
        match self.find(k) {
            Some(i) => {
                self.vals.set(i, v);
                proof {
                    self.lemma_view();
                }
                assert(final(self)@ =~= old(self)@.insert(k, v));
            },
            None => {
                proof {
                    lemma_push_no_dup(self.keys@, k);
                    lemma_push_contains(self.keys@, k);
                }
                self.keys.push(k);
                self.vals.push(v);
                proof {
                    self.lemma_view();
                    assert forall|x: Slot| #[trigger] final(self)@.contains_key(x) implies final(self)@[x] == old(self)@.insert(k, v)[x] by {
                        if x != k {
                            let j = old(self).keys@.index_of(x);
                            assert(self.keys@[j] == x);
                        } else {
                            assert(self.keys@[self.keys@.len() - 1] == k);
                        }
                    }
                }
                assert(final(self)@ =~= old(self)@.insert(k, v));
            },
        }
    }

    /// Removes the entry of `k`.
    pub fn remove(&mut self, k: Slot)
        requires
            old(self).wf(),
        ensures
            final(self).wf(),
            final(self)@ == old(self)@.remove(k),
    {
        let mut out = SlotMap::new();
        let mut i: usize = 0;
        proof {
            self.lemma_view();
        }
        while i < self.keys.len()
            invariant
                0 <= i <= self.keys@.len(),
                self.wf(),
                out.wf(),
                out@ == restrict_map(self@, self.keys@.subrange(0, i as int).to_set().remove(k)),
            decreases self.keys@.len() - i,
        {
            proof {
                self.lemma_view();
                lemma_subrange_push_contains(self.keys@, i as int);
            }
            let x = self.keys[i];
            if x != k {
                out.insert(x, self.vals[i]);
            }
            assert(out@ =~= restrict_map(
                self@,
                self.keys@.subrange(0, i + 1).to_set().remove(k),
            ));
            i = i + 1;
        }
        proof {
            self.lemma_view();
        }
        assert(self.keys@.subrange(0, self.keys@.len() as int) =~= self.keys@);
        assert(out@ =~= self@.remove(k));
        *self = out;
    }

    /// The set of keys.
    pub fn keys(&self) -> (r: SlotSet)
        requires
            self.wf(),
        ensures
            r.wf(),
            r@ == self@.dom(),
    {
        proof {
            self.lemma_view();
        }
        SlotSet { v: self.keys.clone() }
    }

    /// The set of values.
    pub fn values(&self) -> (r: SlotSet)
        requires
            self.wf(),
        ensures
            r.wf(),
            r@ == values_of(self@),
    {
        proof {
            self.lemma_view();
        }
        let r = SlotSet::from_vec(&self.vals);
        assert forall|v: Slot| r@.contains(v) <==> values_of(self@).contains(v) by {
            if r@.contains(v) {
                let j = choose|j: int| 0 <= j < self.vals@.len() && self.vals@[j] == v;
                assert(self@[self.keys@[j]] == v);
            }
            if values_of(self@).contains(v) {
                let k = choose|k: Slot| self@.contains_key(k) && self@[k] == v;
                let j = self.keys@.index_of(k);
                assert(self.vals@[j] == v);
            }
        }
        assert(r@ =~= values_of(self@));
        r
    }

    /// The entries, as pairs of key and value.
    pub fn iter(&self) -> (r: Vec<(Slot, Slot)>)
        requires
            self.wf(),
        ensures
            r@.len() == self.keys@.len(),
            forall|i: int|
                0 <= i < r@.len() ==> #[trigger] r@[i] == (self.keys@[i], self.vals@[i]),
            forall|i: int|
                0 <= i < r@.len() ==> #[trigger] self@.contains_key(r@[i].0) && self@[r@[i].0]
                    == r@[i].1,
    {
        proof {
            self.lemma_view();
        }
        let mut r: Vec<(Slot, Slot)> = Vec::new();
        let mut i: usize = 0;
        while i < self.keys.len()
            invariant
                0 <= i <= self.keys@.len(),
                self.wf(),
                r@.len() == i,
                forall|j: int| 0 <= j < i ==> #[trigger] r@[j] == (self.keys@[j], self.vals@[j]),
            decreases self.keys@.len() - i,
        {
            r.push((self.keys[i], self.vals[i]));
            i = i + 1;
        }
        r
    }

    /// The identity map on the slots of `s`.
    pub fn identity(s: &SlotSet) -> (r: SlotMap)
        requires
            s.wf(),
        ensures
            r.wf(),
            r@ == identity_map(s@),
            r.keys@ == s.v@,
    {
        let r = SlotMap { keys: s.v.clone(), vals: s.v.clone() };
        proof {
            r.lemma_view();
        }
        assert(r@ =~= identity_map(s@));
        r
    }

    /// `self` restricted to the keys in `s`.
    pub fn restrict(&self, s: &SlotSet) -> (r: SlotMap)
        requires
            self.wf(),
        ensures
            r.wf(),
            r@ == restrict_map(self@, s@),
    {
        let mut out = SlotMap::new();
        let mut i: usize = 0;
        proof {
            self.lemma_view();
        }
        while i < self.keys.len()
            invariant
                0 <= i <= self.keys@.len(),
                self.wf(),
                out.wf(),
                out@ == restrict_map(self@, self.keys@.subrange(0, i as int).to_set().intersect(s@)),
            decreases self.keys@.len() - i,
        {
            proof {
                self.lemma_view();
                lemma_subrange_push_contains(self.keys@, i as int);
            }
            let x = self.keys[i];
            if s.contains(x) {
                out.insert(x, self.vals[i]);
            }
            assert(out@ =~= restrict_map(
                self@,
                self.keys@.subrange(0, i + 1).to_set().intersect(s@),
            ));
            i = i + 1;
        }
        proof {
            self.lemma_view();
        }
        assert(self.keys@.subrange(0, self.keys@.len() as int) =~= self.keys@);
        assert(out@ =~= restrict_map(self@, s@));
        out
    }

    /// First `self`, then `other`: maps `x` to `other[self[x]]`, dropping the keys whose
    /// value `other` does not map.
    pub fn compose_partial(&self, other: &SlotMap) -> (r: SlotMap)
        requires
            self.wf(),
            other.wf(),
        ensures
            r.wf(),
            r@ == compose_partial_map(self@, other@),
    {
        reveal(compose_partial_map);
        let mut out = SlotMap::new();
        let mut i: usize = 0;
        proof {
            self.lemma_view();
        }
        while i < self.keys.len()
            invariant
                0 <= i <= self.keys@.len(),
                self.wf(),
                other.wf(),
                out.wf(),
                out@ == restrict_map(
                    compose_partial_map(self@, other@),
                    self.keys@.subrange(0, i as int).to_set(),
                ),
            decreases self.keys@.len() - i,
        {
            reveal(compose_partial_map);
            proof {
                self.lemma_view();
                lemma_subrange_push_contains(self.keys@, i as int);
            }
            let x = self.keys[i];
            match other.get(self.vals[i]) {
                Some(y) => {
                    out.insert(x, y);
                },
                None => {},
            }
            assert(out@ =~= restrict_map(
                compose_partial_map(self@, other@),
                self.keys@.subrange(0, i + 1).to_set(),
            ));
            i = i + 1;
        }
        proof {
            self.lemma_view();
        }
        assert(self.keys@.subrange(0, self.keys@.len() as int) =~= self.keys@);
        assert(out@ =~= compose_partial_map(self@, other@));
        out
    }

    /// First `self`, then `other`: maps `x` to `other[self[x]]`.
    pub fn compose(&self, other: &SlotMap) -> (r: SlotMap)
        requires
            self.wf(),
            other.wf(),
            image(self@).subset_of(other@.dom()),
        ensures
            r.wf(),
            r@ == compose_partial_map(self@, other@),
            r@.dom() == self@.dom(),
            forall|x: Slot| #[trigger] r@.contains_key(x) ==> r@[x] == other@[self@[x]],
    {
        reveal(compose_partial_map);
        let r = self.compose_partial(other);
        assert forall|x: Slot| self@.contains_key(x) implies #[trigger] r@.contains_key(x) by {
            lemma_in_image(self@, x);
        }
        assert(r@.dom() =~= self@.dom());
        r
    }

    /// First `self`, then `other`; keys whose value `other` does not map are sent to fresh
    /// slots, distinct from each other.
    pub fn compose_fresh(&self, other: &SlotMap, tab: &mut SlotTable) -> (r: SlotMap)
        requires
            self.wf(),
            other.wf(),
            old(tab).wf(),
            old(tab).fresh_idx + 4 * self.keys@.len() + 4 <= u64::MAX,
        ensures
            r.wf(),
            final(tab).wf(),
            final(tab).named_vec@ == old(tab).named_vec@,
            old(tab).fresh_idx <= final(tab).fresh_idx,
            r@.dom() == self@.dom(),
            forall|x: Slot|
                #[trigger] r@.contains_key(x) ==> (if other@.contains_key(self@[x]) {
                    r@[x] == other@[self@[x]]
                } else {
                    old(tab).fresh_idx <= r@[x].0 < final(tab).fresh_idx && r@[x].0 % 4 == 1
                }),
            forall|x: Slot, y: Slot|
                #![trigger r@[x], r@[y]]
                r@.contains_key(x) && r@.contains_key(y) && x != y && !other@.contains_key(self@[x])
                    && !other@.contains_key(self@[y]) ==> r@[x] != r@[y],
    {
        let mut out = SlotMap::new();
        let mut i: usize = 0;
        let ghost start = tab.fresh_idx;
        proof {
            self.lemma_view();
        }
        while i < self.keys.len()
            invariant
                0 <= i <= self.keys@.len(),
                self.wf(),
                other.wf(),
                out.wf(),
                tab.wf(),
                tab.named_vec@ == old(tab).named_vec@,
                start == old(tab).fresh_idx,
                start <= tab.fresh_idx <= start + 4 * i,
                old(tab).fresh_idx + 4 * self.keys@.len() + 4 <= u64::MAX,
                out@.dom() == self.keys@.subrange(0, i as int).to_set(),
                forall|x: Slot|
                    #[trigger] out@.contains_key(x) ==> (if other@.contains_key(self@[x]) {
                        out@[x] == other@[self@[x]]
                    } else {
                        start <= out@[x].0 < tab.fresh_idx && out@[x].0 % 4 == 1
                    }),
                forall|x: Slot, y: Slot|
                    #![trigger out@[x], out@[y]]
                    out@.contains_key(x) && out@.contains_key(y) && x != y && !other@.contains_key(
                        self@[x],
                    ) && !other@.contains_key(self@[y]) ==> out@[x] != out@[y],
            decreases self.keys@.len() - i,
        {
            proof {
                self.lemma_view();
                lemma_subrange_push_contains(self.keys@, i as int);
            }
            let x = self.keys[i];
            assert(!out@.contains_key(x)) by {
                if self.keys@.subrange(0, i as int).contains(x) {
                    let j = choose|j: int|
                        0 <= j < i && self.keys@.subrange(0, i as int)[j] == x;
                    assert(self.keys@[j] == self.keys@[i as int]);
                }
            }
            match other.get(self.vals[i]) {
                Some(y) => {
                    out.insert(x, y);
                },
                None => {
                    let y = Slot::fresh(tab);
                    out.insert(x, y);
                },
            }
            assert(out@.dom() =~= self.keys@.subrange(0, i + 1).to_set());
            i = i + 1;
        }
        assert(self.keys@.subrange(0, self.keys@.len() as int) =~= self.keys@);
        proof {
            self.lemma_view();
        }
        assert(out@.dom() =~= self@.dom());
        out
    }

    /// Whether no two keys share a value.
    pub fn is_bijection(&self) -> (r: bool)
        requires
            self.wf(),
        ensures
            r == injective(self@),
    {
        proof {
            self.lemma_view();
        }
        let mut i: usize = 0;
        while i < self.vals.len()
            invariant
                0 <= i <= self.vals@.len(),
                self.wf(),
                forall|a: int, b: int|
                    0 <= a < i && 0 <= b < self.vals@.len() && a != b ==> self.vals@[a]
                        != self.vals@[b],
            decreases self.vals@.len() - i,
        {
            let mut j: usize = 0;
            while j < self.vals.len()
                invariant
                    0 <= i < self.vals@.len(),
                    0 <= j <= self.vals@.len(),
                    self.wf(),
                    forall|b: int| 0 <= b < j && i != b ==> self.vals@[i as int] != self.vals@[b],
                decreases self.vals@.len() - j,
            {
                if i != j && self.vals[i] == self.vals[j] {
                    proof {
                        self.lemma_view();
                        assert(self@[self.keys@[i as int]] == self@[self.keys@[j as int]]);
                    }
                    return false;
                }
                j = j + 1;
            }
            i = i + 1;
        }
        assert forall|a: Slot, b: Slot|
            #![trigger self@[a], self@[b]]
            self@.contains_key(a) && self@.contains_key(b) && a != b implies self@[a]
            != self@[b] by {
            let ia = self.keys@.index_of(a);
            let ib = self.keys@.index_of(b);
            assert(self.vals@[ia] != self.vals@[ib]);
        }
        true
    }

    /// Whether the map is a bijection of its key set onto itself.
    pub fn is_perm(&self) -> (r: bool)
        requires
            self.wf(),
        ensures
            r == is_perm_map(self@),
    {
        let b = self.is_bijection();
        let k = self.keys();
        let v = self.values();
        let e = k.set_eq(&v);
        b && e
    }

    /// The inverse map, sending each value back to its key.
    pub fn inverse(&self) -> (r: SlotMap)
        requires
            self.wf(),
            injective(self@),
        ensures
            r.wf(),
            r@.dom() == values_of(self@),
            forall|x: Slot| #[trigger] self@.contains_key(x) ==> r@[self@[x]] == x,
            injective(r@),
            values_of(r@) == self@.dom(),
            r@ == inverse_map(self@),
    {
        proof {
            self.lemma_view();
        }
        let r = SlotMap { keys: self.vals.clone(), vals: self.keys.clone() };
        assert(r.keys@.no_duplicates()) by {
            assert forall|a: int, b: int|
                0 <= a < r.keys@.len() && 0 <= b < r.keys@.len() && a != b implies r.keys@[a]
                != r.keys@[b] by {
                assert(self@[self.keys@[a]] != self@[self.keys@[b]]);
            }
        }
        proof {
            r.lemma_view();
        }
        assert forall|x: Slot| #[trigger] self@.contains_key(x) implies r@[self@[x]] == x by {
            let i = self.keys@.index_of(x);
            assert(r.keys@[i] == self@[x]);
        }
        assert forall|v: Slot| r@.contains_key(v) <==> values_of(self@).contains(v) by {
            if r@.contains_key(v) {
                let j = r.keys@.index_of(v);
                assert(self@[self.keys@[j]] == v);
            }
            if values_of(self@).contains(v) {
                let k = choose|k: Slot| self@.contains_key(k) && self@[k] == v;
                let j = self.keys@.index_of(k);
                assert(r.keys@[j] == v);
            }
        }
        assert(r@.dom() =~= values_of(self@));
        assert forall|a: Slot, b: Slot|
            #![trigger r@[a], r@[b]]
            r@.contains_key(a) && r@.contains_key(b) && a != b implies r@[a] != r@[b] by {
            let ia = r.keys@.index_of(a);
            let ib = r.keys@.index_of(b);
            assert(r.vals@[ia] != r.vals@[ib]);
        }
        assert forall|k: Slot| values_of(r@).contains(k) <==> self@.dom().contains(k) by {
            if values_of(r@).contains(k) {
                let v = choose|v: Slot| r@.contains_key(v) && r@[v] == k;
                let j = r.keys@.index_of(v);
                assert(self.keys@[j] == k);
            }
            if self@.dom().contains(k) {
                assert(r@[self@[k]] == k);
                assert(values_of(self@).contains(self@[k]));
            }
        }
        assert(values_of(r@) =~= self@.dom());
        assert forall|v: Slot| r@.contains_key(v) implies r@[v] == inverse_map(self@)[v] by {
            let k = choose|k: Slot| self@.contains_key(k) && self@[k] == v;
            assert(r@[self@[k]] == k);
        }
        assert(r@ =~= inverse_map(self@));
        r
    }

    /// Whether every key is mapped to itself.
    pub fn is_identity(&self) -> (r: bool)
        requires
            self.wf(),
        ensures
            r == (forall|x: Slot| #[trigger] self@.contains_key(x) ==> self@[x] == x),
    {
        proof {
            self.lemma_view();
        }
        let mut i: usize = 0;
        while i < self.keys.len()
            invariant
                0 <= i <= self.keys@.len(),
                self.wf(),
                forall|j: int| 0 <= j < i ==> self.vals@[j] == self.keys@[j],
            decreases self.keys@.len() - i,
        {
            proof {
                self.lemma_view();
            }
            if self.keys[i] != self.vals[i] {
                assert(self@.contains_key(self.keys@[i as int]));
                assert(self@[self.keys@[i as int]] != self.keys@[i as int]);
                return false;
            }
            i = i + 1;
        }
        assert forall|x: Slot| #[trigger] self@.contains_key(x) implies self@[x] == x by {
            let j = self.keys@.index_of(x);
        }
        true
    }

    /// Whether the two maps have the same entries.
    pub fn map_eq(&self, other: &SlotMap) -> (r: bool)
        requires
            self.wf(),
            other.wf(),
        ensures
            r == (self@ == other@),
    {
        proof {
            self.lemma_view();
            other.lemma_view();
        }
        if self.keys.len() != other.keys.len() {
            proof {
                self.keys@.unique_seq_to_set();
                other.keys@.unique_seq_to_set();
            }
            return false;
        }
        let mut i: usize = 0;
        while i < self.keys.len()
            invariant
                0 <= i <= self.keys@.len(),
                self.wf(),
                other.wf(),
                self.keys@.len() == other.keys@.len(),
                forall|j: int|
                    #![trigger self.keys@[j]]
                    0 <= j < i ==> other@.contains_key(self.keys@[j]) && other@[self.keys@[j]]
                        == self.vals@[j],
            decreases self.keys@.len() - i,
        {
            proof {
                self.lemma_view();
                other.lemma_view();
            }
            match other.get(self.keys[i]) {
                Some(v) => {
                    if v != self.vals[i] {
                        return false;
                    }
                },
                None => {
                    return false;
                },
            }
            assert(other@.contains_key(self.keys@[i as int]) && other@[self.keys@[i as int]]
                == self.vals@[i as int]);
            i = i + 1;
        }
        proof {
            self.keys@.unique_seq_to_set();
            other.keys@.unique_seq_to_set();
            assert(self@.dom().subset_of(other@.dom()));
            vstd::set_lib::lemma_len_subset(self@.dom(), other@.dom());
            assert(self@.dom().len() == other@.dom().len());
            assert(self@.dom() =~= other@.dom()) by {
                if !(other@.dom().subset_of(self@.dom())) {
                    let z = choose|z: Slot| other@.dom().contains(z) && !self@.dom().contains(z);
                    vstd::set_lib::lemma_len_subset(self@.dom().insert(z), other@.dom());
                }
            }
            assert forall|x: Slot| self@.contains_key(x) implies self@[x] == other@[x] by {
                let j = self.keys@.index_of(x);
            }
        }
        assert(self@ =~= other@);
        true
    }

    /// The union of the two maps, if they agree on their common keys.
    pub fn try_union(&self, other: &SlotMap) -> (r: Option<SlotMap>)
        requires
            self.wf(),
            other.wf(),
        ensures
            r is Some <==> compatible(self@, other@),
            r matches Some(u) ==> u.wf() && u@ == self@.union_prefer_right(other@),
    {
        let mut out = self.clone();
        let mut i: usize = 0;
        proof {
            other.lemma_view();
            self.lemma_view();
        }
        while i < other.keys.len()
            invariant
                0 <= i <= other.keys@.len(),
                self.wf(),
                other.wf(),
                out.wf(),
                out@ == self@.union_prefer_right(
                    restrict_map(other@, other.keys@.subrange(0, i as int).to_set()),
                ),
                compatible(self@, restrict_map(other@, other.keys@.subrange(0, i as int).to_set())),
            decreases other.keys@.len() - i,
        {
            proof {
                other.lemma_view();
                lemma_subrange_push_contains(other.keys@, i as int);
            }
            let k = other.keys[i];
            let v = other.vals[i];
            match self.get(k) {
                Some(w) => {
                    if w != v {
                        return None;
                    }
                },
                None => {},
            }
            out.insert(k, v);
            assert(out@ =~= self@.union_prefer_right(
                restrict_map(other@, other.keys@.subrange(0, i + 1).to_set()),
            ));
            i = i + 1;
        }
        assert(other.keys@.subrange(0, other.keys@.len() as int) =~= other.keys@);
        assert(restrict_map(other@, other.keys@.to_set()) =~= other@);
        Some(out)
    }

    /// The union of two maps that agree on their common keys.
    pub fn union(&self, other: &SlotMap) -> (r: SlotMap)
        requires
            self.wf(),
            other.wf(),
            compatible(self@, other@),
        ensures
            r.wf(),
            r@ == self@.union_prefer_right(other@),
    {
        match self.try_union(other) {
            Some(u) => u,
            None => {
                assert(false);
                SlotMap::new()
            },
        }
    }

    /// A bijection from fresh slots onto the slots of `s`.
    pub fn bijection_from_fresh_to(s: &SlotSet, tab: &mut SlotTable) -> (r: SlotMap)
        requires
            s.wf(),
            old(tab).wf(),
            old(tab).fresh_idx + 4 * s.v@.len() + 4 <= u64::MAX,
        ensures
            r.wf(),
            final(tab).wf(),
            final(tab).named_vec@ == old(tab).named_vec@,
            old(tab).fresh_idx <= final(tab).fresh_idx,
            values_of(r@) == s@,
            injective(r@),
            forall|x: Slot|
                #[trigger] r@.contains_key(x) ==> old(tab).fresh_idx <= x.0 < final(tab).fresh_idx
                    && x.0 % 4 == 1,
    {
        let id = SlotMap::identity(s);
        let fresh = id.compose_fresh(&SlotMap::new(), tab);
        proof {
            id.lemma_view();
            fresh.lemma_view();
        }
        assert(injective(fresh@));
        let r = fresh.inverse();
        assert forall|x: Slot|
            #[trigger] r@.contains_key(x) implies old(tab).fresh_idx <= x.0 < final(tab).fresh_idx
            && x.0 % 4 == 1 by {
            let k = choose|k: Slot| fresh@.contains_key(k) && fresh@[k] == x;
        }
        r
    }
}

} // verus!
