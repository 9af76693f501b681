use vstd::prelude::*;
use crate::slot::{Slot, SlotTable};
use crate::slotset::SlotSet;
use crate::slotmap::{SlotMap, injective, compose_partial_map, values_of};
use crate::applied::AppliedId;
use crate::lang::private_slots_spec;
use crate::expr::Pattern;

verus! {

/// The pattern binds `s`: it is a private slot of one of its e-nodes, reached through the
/// children of e-nodes.
pub open spec fn binds(p: Pattern, s: Slot) -> bool
    decreases p,
{
    match p {
        Pattern::ENode(n, ch) => private_slots_spec(n).contains(s) || exists|i: int|
            #![trigger ch@[i]]
            0 <= i < ch@.len() && binds(ch@[i], s),
        _ => false,
    }
}

/// Every slot the pattern binds, anywhere in it.
///
/// Two occurrences of one bound slot may be matched against different e-graph slots, since
/// a binder can be renamed; the free slots of the pattern may not.
pub fn pattern_bound_slots(pattern: &Pattern) -> (r: SlotSet)
    ensures
        r.wf(),
        forall|s: Slot| r@.contains(s) <==> binds(*pattern, s),
    decreases pattern,
{
    match pattern {
        Pattern::ENode(n, children) => {
            let mut out = n.private_slots();
            let mut i: usize = 0;
            while i < children.len()
                invariant
                    0 <= i <= children@.len(),
                    *pattern == Pattern::ENode(*n, *children),
                    out.wf(),
                    forall|s: Slot|
                        out@.contains(s) <==> (private_slots_spec(*n).contains(s) || exists|j: int|
                            #![trigger children@[j]]
                            0 <= j < i && binds(children@[j], s)),
                decreases children@.len() - i,
            {
                proof {
                    let v = pattern->ENode_1;
                    assert(decreases_to!(*pattern => v));
                    assert(decreases_to!(v => v@));
                    assert(decreases_to!(v@ => v@[i as int]));
                }
                let sub = pattern_bound_slots(&children[i]);
                out = out.union(&sub);
                assert forall|s: Slot|
                    out@.contains(s) <==> (private_slots_spec(*n).contains(s) || exists|j: int|
                        #![trigger children@[j]]
                        0 <= j < i + 1 && binds(children@[j], s)) by {
                    if binds(children@[i as int], s) {
                        assert(0 <= i < i + 1);
                    }
                }
                i = i + 1;
            }
            out
        },
        _ => SlotSet::new(),
    }
}

/// Records `k -> v` in `map`, refusing a key that already maps elsewhere; with `injective`,
/// also refuses a second key for the same `v`. Returns whether the entry was accepted.
///
/// A key that maps elsewhere leaves `map` unchanged; otherwise the entry is recorded, also
/// where `injective` then refuses it.
pub fn try_insert_compatible_slotmap(k: Slot, v: Slot, map: &mut SlotMap, injective: bool) -> (r: bool)
    requires
        old(map).wf(),
    ensures
        final(map).wf(),
        old(map)@.contains_key(k) && old(map)@[k] != v ==> !r && final(map)@ == old(map)@,
        !(old(map)@.contains_key(k) && old(map)@[k] != v) ==> {
            &&& final(map)@ == old(map)@.insert(k, v)
            &&& r == (!injective || crate::slotmap::injective(final(map)@))
        },
{
    match map.get(k) {
        Some(v_old) => {
            if v_old != v {
                return false;
            }
        },
        None => {},
    }
    map.insert(k, v);
    !injective || map.is_bijection()
}

/// The state of a partial match: the substitution found so far, which uses the slots of the
/// e-graph, and the map from the slots of the e-graph to those of the pattern.
pub struct State {
    pub partial_subst: Vec<(String, AppliedId)>,
    pub partial_slotmap: SlotMap,
}

/// How many argument slots the invocations of `s` hold together.
pub open spec fn arg_count(s: Seq<(String, AppliedId)>) -> nat
    decreases s.len(),
{
    if s.len() == 0 {
        0
    } else {
        arg_count(s.drop_last()) + s.last().1.m.keys@.len()
    }
}

proof fn lemma_arg_count_prefix(s: Seq<(String, AppliedId)>, i: int)
    requires
        0 <= i < s.len(),
    ensures
        arg_count(s.subrange(0, i)) + s[i].1.m.keys@.len() == arg_count(s.subrange(0, i + 1)),
        arg_count(s.subrange(0, i + 1)) <= arg_count(s),
    decreases s.len(),
{
    assert(s.subrange(0, i + 1).drop_last() =~= s.subrange(0, i));
    if i + 1 < s.len() {
        lemma_arg_count_prefix(s.drop_last(), i);
        assert(s.drop_last().subrange(0, i + 1) =~= s.subrange(0, i + 1));
    } else {
        assert(s.subrange(0, i + 1) =~= s);
    }
}

/// `m2` extends `m1`; the keys it adds are sent to distinct fresh slots in `[lo, hi)`.
pub open spec fn fresh_extension(m1: Map<Slot, Slot>, m2: Map<Slot, Slot>, lo: u64, hi: u64) -> bool {
    &&& forall|k: Slot| #[trigger] m1.contains_key(k) ==> m2.contains_key(k) && m2[k] == m1[k]
    &&& forall|k: Slot|
        #[trigger] m2.contains_key(k) && !m1.contains_key(k) ==> lo <= m2[k].0 < hi && m2[k].0 % 4 == 1
    &&& forall|a: Slot, b: Slot|
        #![trigger m2[a], m2[b]]
        m2.contains_key(a) && m2.contains_key(b) && !m1.contains_key(a) && !m1.contains_key(b) && a != b
            ==> m2[a] != m2[b]
}

proof fn lemma_compose_extended(a: Map<Slot, Slot>, m1: Map<Slot, Slot>, m2: Map<Slot, Slot>)
    requires
        values_of(a).subset_of(m1.dom()),
        forall|k: Slot| #[trigger] m1.contains_key(k) ==> m2.contains_key(k) && m2[k] == m1[k],
    ensures
        compose_partial_map(a, m1) == compose_partial_map(a, m2),
{
    reveal(compose_partial_map);
    assert forall|x: Slot| a.contains_key(x) implies m1.contains_key(#[trigger] a[x]) by {
        assert(values_of(a).contains(a[x]));
    }
    assert(compose_partial_map(a, m1) =~= compose_partial_map(a, m2));
}

/// Turns the substitution of a finished match to the slots of the pattern: each argument
/// slot that the match did not name gets a fresh slot (the same one wherever it occurs),
/// and every invocation is renamed by the map.
pub fn final_subst(s: State, tab: &mut SlotTable) -> (r: Vec<(String, AppliedId)>)
    requires
        s.partial_slotmap.wf(),
        forall|i: int| 0 <= i < s.partial_subst@.len() ==> (#[trigger] s.partial_subst@[i]).1.wf(),
        old(tab).wf(),
        old(tab).fresh_idx + 4 * arg_count(s.partial_subst@) <= u64::MAX,
    ensures
        final(tab).wf(),
        r@.len() == s.partial_subst@.len(),
        exists|m: Map<Slot, Slot>| {
            &&& fresh_extension(s.partial_slotmap@, m, old(tab).fresh_idx, final(tab).fresh_idx)
            &&& forall|i: int|
                0 <= i < r@.len() ==> {
                    &&& (#[trigger] r@[i]).0@ == s.partial_subst@[i].0@
                    &&& r@[i].1.id == s.partial_subst@[i].1.id
                    &&& values_of(s.partial_subst@[i].1.m@).subset_of(m.dom())
                    &&& r@[i].1.m@ == compose_partial_map(s.partial_subst@[i].1.m@, m)
                }
        },
{
    let State { partial_subst: subst, partial_slotmap: mut slotmap } = s;
    let ghost m0 = slotmap@;
    let ghost lo = tab.fresh_idx;
    let mut out: Vec<(String, AppliedId)> = Vec::new();
    let mut i: usize = 0;
    while i < subst.len()
        invariant
            0 <= i <= subst@.len(),
            forall|j: int| 0 <= j < subst@.len() ==> (#[trigger] subst@[j]).1.wf(),
            slotmap.wf(),
            tab.wf(),
            lo <= tab.fresh_idx,
            tab.fresh_idx + 4 * (arg_count(subst@) - arg_count(subst@.subrange(0, i as int))) <= u64::MAX,
            tab.fresh_idx % 4 == lo % 4,
            fresh_extension(m0, slotmap@, lo, tab.fresh_idx),
            out@.len() == i,
            forall|j: int|
                0 <= j < i ==> {
                    &&& (#[trigger] out@[j]).0@ == subst@[j].0@
                    &&& out@[j].1.id == subst@[j].1.id
                    &&& values_of(subst@[j].1.m@).subset_of(slotmap@.dom())
                    &&& out@[j].1.m@ == compose_partial_map(subst@[j].1.m@, slotmap@)
                },
        decreases subst@.len() - i,
    {
        proof {
            lemma_arg_count_prefix(subst@, i as int);
        }
        let v = &subst[i].1;
        proof {
            v.m.lemma_view();
        }
        let ghost before = slotmap@;
        let ghost idx0 = tab.fresh_idx;
        assert forall|j: int| 0 <= j < i implies values_of(#[trigger] subst@[j].1.m@).subset_of(before.dom()) by {
            assert(out@[j].1.id == subst@[j].1.id);
        }
        assert(forall|j: int| 0 <= j < i ==> (#[trigger] out@[j]).1.m@ == compose_partial_map(subst@[j].1.m@, before));
        let mut t: usize = 0;
        while t < v.m.vals.len()
            invariant
                v.m.wf(),
                v.m.vals@.len() == v.m.keys@.len(),
                0 <= t <= v.m.vals@.len(),
                slotmap.wf(),
                tab.wf(),
                lo <= idx0 <= tab.fresh_idx,
                tab.fresh_idx <= idx0 + 4 * t,
                idx0 + 4 * v.m.keys@.len() <= u64::MAX,
                tab.fresh_idx % 4 == lo % 4,
                fresh_extension(m0, slotmap@, lo, tab.fresh_idx),
                forall|k: Slot| #[trigger] before.contains_key(k) ==> slotmap@.contains_key(k) && slotmap@[k] == before[k],
                forall|u: int| 0 <= u < t ==> slotmap@.contains_key(#[trigger] v.m.vals@[u]),
            decreases v.m.vals@.len() - t,
        {
            let x = v.m.vals[t];
            if !slotmap.contains_key(x) {
                let ghost prev = slotmap@;
                let f = Slot::fresh(tab);
                slotmap.insert(x, f);
                proof {
                    assert forall|a: Slot, b: Slot|
                        #![trigger slotmap@[a], slotmap@[b]]
                        slotmap@.contains_key(a) && slotmap@.contains_key(b) && !m0.contains_key(a) && !m0.contains_key(b) && a != b
                        implies slotmap@[a] != slotmap@[b] by {
                        if a == x {
                            assert(prev.contains_key(b) ==> prev[b].0 < f.0);
                        } else if b == x {
                            assert(prev.contains_key(a) ==> prev[a].0 < f.0);
                        }
                    }
                }
            }
            t = t + 1;
        }
        proof {
            assert forall|y: Slot| values_of(v.m@).contains(y) implies slotmap@.contains_key(y) by {
                let k = choose|k: Slot| v.m@.contains_key(k) && #[trigger] v.m@[k] == y;
                let u = v.m.keys@.index_of(k);
                assert(v.m.vals@[u] == y);
            }
            assert forall|j: int| 0 <= j < i implies (#[trigger] out@[j]).1.m@ == compose_partial_map(subst@[j].1.m@, slotmap@)
                && values_of(subst@[j].1.m@).subset_of(slotmap@.dom()) by {
                lemma_compose_extended(subst@[j].1.m@, before, slotmap@);
            }
        }
        let name = subst[i].0.clone();
        let w = v.apply_slotmap(&slotmap);
        out.push((name, w));
        i = i + 1;
    }
    out
}

} // verus!
