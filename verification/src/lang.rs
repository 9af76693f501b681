use vstd::prelude::*;
use crate::slot::{Slot, SlotTable, string_eq_str};
use crate::slotset::SlotSet;
use crate::slotmap::{SlotMap, injective};
use crate::applied::{AppliedId, Id};

verus! {

/// One element of the textual form of an e-node.
#[derive(Debug)]
pub enum SyntaxElem {
    /// An operator name or a payload.
    String(String),
    AppliedId(AppliedId),
    Slot(Slot),
}

/// The e-nodes of the lambda calculus with slots.
///
/// `Lam(x, b)` binds the slot `x` in `b`; its other slots are public.
#[derive(Debug)]
pub enum ENode {
    Lam(Slot, AppliedId),
    App(AppliedId, AppliedId),
    Var(Slot),
}

impl Clone for ENode {
    fn clone(&self) -> (r: Self)
        ensures
            r@ == self@,
    {
        match self {
            ENode::Lam(s, a) => ENode::Lam(*s, a.clone()),
            ENode::App(a, b) => ENode::App(a.clone(), b.clone()),
            ENode::Var(s) => ENode::Var(*s),
        }
    }
}

/// The mathematical content of an applied id: the e-class and the renaming.
pub type AppView = (Id, Seq<Slot>, Seq<Slot>);

pub open spec fn app_view(a: AppliedId) -> AppView {
    (a.id, a.m.keys@, a.m.vals@)
}

/// The mathematical content of an e-node.
pub enum ENodeView {
    Lam(Slot, AppView),
    App(AppView, AppView),
    Var(Slot),
}

impl View for ENode {
    type V = ENodeView;

    open spec fn view(&self) -> ENodeView {
        match self {
            ENode::Lam(s, a) => ENodeView::Lam(*s, app_view(*a)),
            ENode::App(a, b) => ENodeView::App(app_view(*a), app_view(*b)),
            ENode::Var(s) => ENodeView::Var(*s),
        }
    }
}

/// Every slot occurrence, in order: the binder first.
pub open spec fn all_slots_spec(n: ENode) -> Seq<Slot> {
    match n {
        ENode::Lam(s, a) => seq![s] + a.m.vals@,
        ENode::App(a, b) => a.m.vals@ + b.m.vals@,
        ENode::Var(s) => seq![s],
    }
}

/// The public slot occurrences, in order: those not bound by the e-node.
pub open spec fn public_slots_spec(n: ENode) -> Seq<Slot> {
    match n {
        ENode::Lam(s, a) => a.m.vals@.filter(|x: Slot| x != s),
        ENode::App(a, b) => a.m.vals@ + b.m.vals@,
        ENode::Var(s) => seq![s],
    }
}

/// The private slot occurrences: those that are not public.
pub open spec fn private_slots_spec(n: ENode) -> Seq<Slot> {
    all_slots_spec(n).filter(|x: Slot| !public_slots_spec(n).contains(x))
}

/// The child e-class invocations, in order.
pub open spec fn app_ids_spec(n: ENode) -> Seq<AppliedId> {
    match n {
        ENode::Lam(_, a) => seq![a],
        ENode::App(a, b) => seq![a, b],
        ENode::Var(_) => seq![],
    }
}

pub open spec fn enode_wf(n: ENode) -> bool {
    forall|i: int| 0 <= i < app_ids_spec(n).len() ==> #[trigger] app_ids_spec(n)[i].wf()
}

pub open spec fn app_views(s: Seq<AppliedId>) -> Seq<AppView> {
    s.map_values(|a: AppliedId| app_view(a))
}

/// The slot that the map sends `x` to, or [Slot::missing] where it sends it nowhere.
pub open spec fn index_or_missing(m: Map<Slot, Slot>, x: Slot) -> Slot {
    if m.contains_key(x) {
        m[x]
    } else {
        Slot(u32::MAX as u64)
    }
}

/// Numbering of slots by first occurrence: the state is the map built so far and the next
/// number; returns the renamed occurrences and the final state.
pub open spec fn number_slots(xs: Seq<Slot>, m: Map<Slot, Slot>, c: nat) -> (Seq<Slot>, Map<Slot, Slot>, nat)
    decreases xs.len(),
{
    if xs.len() == 0 {
        (seq![], m, c)
    } else {
        let x = xs[0];
        let (y, m1, c1) = if m.contains_key(x) {
            (m[x], m, c)
        } else {
            (Slot((4 * c) as u64), m.insert(x, Slot((4 * c) as u64)), c + 1)
        };
        let (ys, m2, c2) = number_slots(xs.drop_first(), m1, c1);
        (seq![y] + ys, m2, c2)
    }
}

/// An applied id whose renaming has the same keys and the given values.
pub open spec fn with_vals(a: AppliedId, vals: Seq<Slot>) -> AppView {
    (a.id, a.m.keys@, vals)
}

impl ENode {
    pub open spec fn wf(&self) -> bool {
        enode_wf(*self)
    }

    /// Every slot occurrence, in order.
    pub fn all_slot_occurrences(&self) -> (r: Vec<Slot>)
        ensures
            r@ == all_slots_spec(*self),
    {
        match self {
            ENode::Lam(s, a) => {
                let mut v = Vec::new();
                v.push(*s);
                let mut w = a.m.vals.clone();
                v.append(&mut w);
                v
            },
            ENode::App(a, b) => {
                let mut v = a.m.vals.clone();
                let mut w = b.m.vals.clone();
                v.append(&mut w);
                v
            },
            ENode::Var(s) => {
                let mut v = Vec::new();
                v.push(*s);
                v
            },
        }
    }

    /// The public slot occurrences, in order.
    pub fn public_slot_occurrences(&self) -> (r: Vec<Slot>)
        ensures
            r@ == public_slots_spec(*self),
    {
        match self {
            ENode::Lam(s, a) => {
                let mut v: Vec<Slot> = Vec::new();
                let mut i: usize = 0;
                while i < a.m.vals.len()
                    invariant
                        0 <= i <= a.m.vals@.len(),
                        v@ == a.m.vals@.subrange(0, i as int).filter(|x: Slot| x != *s),
                    decreases a.m.vals@.len() - i,
                {
                    let x = a.m.vals[i];
                    proof {
                        let sub = a.m.vals@.subrange(0, i + 1);
                        assert(sub.drop_last() =~= a.m.vals@.subrange(0, i as int));
                        reveal_with_fuel(Seq::filter, 1);
                    }
                    if x != *s {
                        v.push(x);
                    }
                    i = i + 1;
                }
                assert(a.m.vals@.subrange(0, a.m.vals@.len() as int) =~= a.m.vals@);
                v
            },
            ENode::App(a, b) => {
                let mut v = a.m.vals.clone();
                let mut w = b.m.vals.clone();
                v.append(&mut w);
                v
            },
            ENode::Var(s) => {
                let mut v = Vec::new();
                v.push(*s);
                v
            },
        }
    }

    /// The private slot occurrences, in order: those whose slot is not public.
    pub fn private_slot_occurrences(&self) -> (r: Vec<Slot>)
        ensures
            r@ == private_slots_spec(*self),
    {
        let public = self.public_slot_occurrences();
        let all = self.all_slot_occurrences();
        let public_set = SlotSet::from_vec(&public);
        let mut out: Vec<Slot> = Vec::new();
        let mut i: usize = 0;
        while i < all.len()
            invariant
                0 <= i <= all@.len(),
                public_set@ == public@.to_set(),
                public@ == public_slots_spec(*self),
                all@ == all_slots_spec(*self),
                out@ == all@.subrange(0, i as int).filter(|x: Slot| !public_slots_spec(*self).contains(x)),
            decreases all@.len() - i,
        {
            let x = all[i];
            proof {
                let sub = all@.subrange(0, i + 1);
                assert(sub.drop_last() =~= all@.subrange(0, i as int));
                reveal_with_fuel(Seq::filter, 1);
            }
            if !public_set.contains(x) {
                out.push(x);
            }
            i = i + 1;
        }
        assert(all@.subrange(0, all@.len() as int) =~= all@);
        out
    }

    /// The set of public slots.
    pub fn slots(&self) -> (r: SlotSet)
        ensures
            r.wf(),
            r@ == public_slots_spec(*self).to_set(),
    {
        SlotSet::from_vec(&self.public_slot_occurrences())
    }

    /// The set of private slots.
    pub fn private_slots(&self) -> (r: SlotSet)
        ensures
            r.wf(),
            r@ == private_slots_spec(*self).to_set(),
    {
        SlotSet::from_vec(&self.private_slot_occurrences())
    }

    /// The child e-class invocations, in order.
    pub fn applied_id_occurrences(&self) -> (r: Vec<AppliedId>)
        ensures
            app_views(r@) == app_views(app_ids_spec(*self)),
            self.wf() ==> forall|i: int| 0 <= i < r@.len() ==> #[trigger] r@[i].wf(),
    {
        let mut v: Vec<AppliedId> = Vec::new();
        match self {
            ENode::Lam(_, a) => {
                assert(app_ids_spec(*self)[0] == *a);
                assert(self.wf() ==> app_ids_spec(*self)[0].wf());
                v.push(a.clone());
                assert(app_views(v@) =~= app_views(app_ids_spec(*self)));
            },
            ENode::App(a, b) => {
                assert(app_ids_spec(*self)[0] == *a);
                assert(app_ids_spec(*self)[1] == *b);
                assert(self.wf() ==> app_ids_spec(*self)[0].wf() && app_ids_spec(*self)[1].wf());
                v.push(a.clone());
                v.push(b.clone());
                assert(app_views(v@) =~= app_views(app_ids_spec(*self)));
            },
            ENode::Var(_) => {
                assert(app_views(v@) =~= app_views(app_ids_spec(*self)));
            },
        }
        v
    }

    /// The child e-classes, in order.
    pub fn ids(&self) -> (r: Vec<Id>)
        ensures
            r@ == app_ids_spec(*self).map_values(|a: AppliedId| a.id),
    {
        let mut v: Vec<Id> = Vec::new();
        match self {
            ENode::Lam(_, a) => {
                v.push(a.id);
            },
            ENode::App(a, b) => {
                v.push(a.id);
                v.push(b.id);
            },
            ENode::Var(_) => {},
        }
        assert(v@ =~= app_ids_spec(*self).map_values(|a: AppliedId| a.id));
        v
    }

    /// The e-node with every child invocation replaced by `f` of it.
    pub fn map_applied_ids<F: Fn(AppliedId) -> AppliedId>(&self, f: &F) -> (r: ENode)
        requires
            forall|a: AppliedId| #[trigger] f.requires((a,)),
        ensures
            match (*self, r) {
                (ENode::Lam(s, a), ENode::Lam(s2, a2)) => s2 == s && maps_to(*f, a, a2),
                (ENode::App(a, b), ENode::App(a2, b2)) => maps_to(*f, a, a2) && maps_to(*f, b, b2),
                (ENode::Var(s), ENode::Var(s2)) => s2 == s,
                _ => false,
            },
    {
        match self {
            ENode::Lam(s, a) => {
                let a0 = a.clone();
                let a2 = f(a0);
                assert(maps_to(*f, *a, a2)) by {
                    assert(app_view(a0) == app_view(*a));
                }
                ENode::Lam(*s, a2)
            },
            ENode::App(a, b) => {
                let a0 = a.clone();
                let b0 = b.clone();
                let a2 = f(a0);
                let b2 = f(b0);
                assert(maps_to(*f, *a, a2)) by {
                    assert(app_view(a0) == app_view(*a));
                }
                assert(maps_to(*f, *b, b2)) by {
                    assert(app_view(b0) == app_view(*b));
                }
                ENode::App(a2, b2)
            },
            ENode::Var(s) => ENode::Var(*s),
        }
    }

    /// Same as [ENode::map_applied_ids].
    pub fn map_ids<F: Fn(AppliedId) -> AppliedId>(&self, f: &F) -> (r: ENode)
        requires
            forall|a: AppliedId| #[trigger] f.requires((a,)),
        ensures
            match (*self, r) {
                (ENode::Lam(s, a), ENode::Lam(s2, a2)) => s2 == s && maps_to(*f, a, a2),
                (ENode::App(a, b), ENode::App(a2, b2)) => maps_to(*f, a, a2) && maps_to(*f, b, b2),
                (ENode::Var(s), ENode::Var(s2)) => s2 == s,
                _ => false,
            },
    {
        self.map_applied_ids(f)
    }

    /// The e-node with every slot occurrence, binders included, renamed by `f`.
    pub fn map_slots<F: Fn(Slot) -> Slot>(&self, f: &F) -> (r: ENode)
        requires
            self.wf(),
            forall|s: Slot| #[trigger] f.requires((s,)),
        ensures
            r.wf(),
            slots_mapped_by(*self, r, *f),
    {
        match self {
            ENode::Lam(s, a) => {
                assert(app_ids_spec(*self)[0] == *a);
                let r = ENode::Lam(f(*s), a.map_slots(f));
                assert(app_ids_spec(r)[0] == r->Lam_1);
                r
            },
            ENode::App(a, b) => {
                assert(app_ids_spec(*self)[0] == *a);
                assert(app_ids_spec(*self)[1] == *b);
                let r = ENode::App(a.map_slots(f), b.map_slots(f));
                assert(app_ids_spec(r)[0] == r->App_0);
                assert(app_ids_spec(r)[1] == r->App_1);
                r
            },
            ENode::Var(s) => ENode::Var(f(*s)),
        }
    }

    /// The e-node with its slot occurrences replaced, in order, by `ys`.
    pub fn with_slot_occurrences(&self, ys: &Vec<Slot>) -> (r: ENode)
        requires
            self.wf(),
            ys@.len() == all_slots_spec(*self).len(),
        ensures
            r.wf(),
            r@ == with_all_slots(*self, ys@),
    {
        match self {
            ENode::Lam(_, a) => {
                assert(app_ids_spec(*self)[0] == *a);
                assert(app_ids_spec(*self)[0].wf());
                let mut vals: Vec<Slot> = Vec::new();
                let mut i: usize = 1;
                while i < ys.len()
                    invariant
                        1 <= i <= ys@.len(),
                        vals@ == ys@.subrange(1, i as int),
                    decreases ys@.len() - i,
                {
                    vals.push(ys[i]);
                    assert(vals@ =~= ys@.subrange(1, i + 1));
                    i = i + 1;
                }
                let keys = a.m.keys.clone();
                assert(keys@ =~= a.m.keys@);
                assert(vals@.len() == keys@.len());
                let a2 = AppliedId::new(a.id, SlotMap { keys, vals });
                assert(a2.wf());
                let r = ENode::Lam(ys[0], a2);
                assert(app_ids_spec(r) =~= seq![a2]);
                assert(enode_wf(r));
                r
            },
            ENode::App(a, b) => {
                assert(app_ids_spec(*self)[0] == *a);
                assert(app_ids_spec(*self)[1] == *b);
                let n = a.m.vals.len();
                let mut va: Vec<Slot> = Vec::new();
                let mut vb: Vec<Slot> = Vec::new();
                let mut i: usize = 0;
                while i < ys.len()
                    invariant
                        0 <= i <= ys@.len(),
                        n <= ys@.len(),
                        i <= n ==> va@ == ys@.subrange(0, i as int) && vb@.len() == 0,
                        i > n ==> va@ == ys@.subrange(0, n as int) && vb@ == ys@.subrange(n as int, i as int),
                    decreases ys@.len() - i,
                {
                    if i < n {
                        va.push(ys[i]);
                        assert(va@ =~= ys@.subrange(0, i + 1));
                    } else {
                        vb.push(ys[i]);
                        assert(vb@ =~= ys@.subrange(n as int, i + 1));
                    }
                    i = i + 1;
                }
                if n == ys.len() {
                    assert(vb@ =~= ys@.subrange(n as int, n as int));
                }
                assert(a.wf() && b.wf());
                assert(va@.len() == a.m.vals@.len());
                assert(vb@.len() == b.m.vals@.len());
                let ka = a.m.keys.clone();
                let kb = b.m.keys.clone();
                assert(ka@ =~= a.m.keys@);
                assert(kb@ =~= b.m.keys@);
                let a2 = AppliedId::new(a.id, SlotMap { keys: ka, vals: va });
                let b2 = AppliedId::new(b.id, SlotMap { keys: kb, vals: vb });
                assert(a2.wf());
                assert(b2.wf());
                let r = ENode::App(a2, b2);
                assert(app_ids_spec(r) =~= seq![a2, b2]);
                assert(enode_wf(r));
                r
            },
            ENode::Var(_) => ENode::Var(ys[0]),
        }
    }

    /// Renames the public slots by `m`; a public slot that `m` does not map becomes
    /// [Slot::missing]. Private slots stay.
    pub fn apply_slotmap_partial(&self, m: &SlotMap) -> (r: ENode)
        requires
            self.wf(),
            m.wf(),
        ensures
            r.wf(),
            r@ == with_all_slots(*self, rename_public(*self, m@)),
    {
        let all = self.all_slot_occurrences();
        let mut ys: Vec<Slot> = Vec::new();
        let mut i: usize = 0;
        while i < all.len()
            invariant
                0 <= i <= all@.len(),
                m.wf(),
                all@ == all_slots_spec(*self),
                ys@ == rename_public(*self, m@).subrange(0, i as int),
            decreases all@.len() - i,
        {
            let x = all[i];
            let public = match self {
                ENode::Lam(s, _) => i > 0 && x != *s,
                _ => true,
            };
            let y = if public {
                m.index(x)
            } else {
                x
            };
            ys.push(y);
            assert(ys@ =~= rename_public(*self, m@).subrange(0, i + 1));
            i = i + 1;
        }
        assert(ys@ =~= rename_public(*self, m@));
        self.with_slot_occurrences(&ys)
    }

    /// Renames the public slots by `m`.
    pub fn apply_slotmap(&self, m: &SlotMap) -> (r: ENode)
        requires
            self.wf(),
            m.wf(),
        ensures
            r.wf(),
            r@ == with_all_slots(*self, rename_public(*self, m@)),
    {
        self.apply_slotmap_partial(m)
    }

    /// Renames the public slots by `m`; each public occurrence of a slot that `m` does not map
    /// gets a fresh slot of its own.
    pub fn apply_slotmap_fresh(&self, m: &SlotMap, tab: &mut SlotTable) -> (r: ENode)
        requires
            self.wf(),
            m.wf(),
            old(tab).wf(),
            old(tab).fresh_idx + 4 * all_slots_spec(*self).len() + 4 <= u64::MAX,
        ensures
            r.wf(),
            final(tab).wf(),
            exists|ys: Seq<Slot>| {
                &&& r@ == with_all_slots(*self, ys)
                &&& ys.len() == all_slots_spec(*self).len()
                &&& forall|i: int|
                    0 <= i < ys.len() ==> #[trigger] ys[i] == if !is_public_pos(*self, i) {
                        all_slots_spec(*self)[i]
                    } else if m@.contains_key(all_slots_spec(*self)[i]) {
                        m@[all_slots_spec(*self)[i]]
                    } else {
                        ys[i]
                    }
                &&& forall|i: int|
                    0 <= i < ys.len() && is_public_pos(*self, i) && !m@.contains_key(
                        all_slots_spec(*self)[i],
                    ) ==> old(tab).fresh_idx <= #[trigger] ys[i].0 < final(tab).fresh_idx && ys[i].0 % 4 == 1
                &&& forall|i: int, j: int|
                    0 <= i < j < ys.len() && is_public_pos(*self, i) && is_public_pos(*self, j)
                        && !m@.contains_key(all_slots_spec(*self)[i]) && !m@.contains_key(
                        all_slots_spec(*self)[j],
                    ) ==> #[trigger] ys[i] != #[trigger] ys[j]
            },
    {
        let all = self.all_slot_occurrences();
        let mut ys: Vec<Slot> = Vec::new();
        let mut i: usize = 0;
        let ghost start = tab.fresh_idx;
        while i < all.len()
            invariant
                0 <= i <= all@.len(),
                m.wf(),
                tab.wf(),
                start == old(tab).fresh_idx,
                start <= tab.fresh_idx <= start + 4 * i,
                old(tab).fresh_idx + 4 * all_slots_spec(*self).len() + 4 <= u64::MAX,
                all@ == all_slots_spec(*self),
                ys@.len() == i,
                forall|k: int|
                    0 <= k < i ==> #[trigger] ys@[k] == if !is_public_pos(*self, k) {
                        all_slots_spec(*self)[k]
                    } else if m@.contains_key(all_slots_spec(*self)[k]) {
                        m@[all_slots_spec(*self)[k]]
                    } else {
                        ys@[k]
                    },
                forall|k: int|
                    0 <= k < i && is_public_pos(*self, k) && !m@.contains_key(all_slots_spec(*self)[k])
                        ==> start <= #[trigger] ys@[k].0 < tab.fresh_idx && ys@[k].0 % 4 == 1,
                forall|k: int, l: int|
                    0 <= k < l < i && is_public_pos(*self, k) && is_public_pos(*self, l)
                        && !m@.contains_key(all_slots_spec(*self)[k]) && !m@.contains_key(
                        all_slots_spec(*self)[l],
                    ) ==> #[trigger] ys@[k].0 < #[trigger] ys@[l].0,
            decreases all@.len() - i,
        {
            let x = all[i];
            let public = match self {
                ENode::Lam(s, _) => i > 0 && x != *s,
                _ => true,
            };
            let y = if public {
                match m.get(x) {
                    Some(y) => y,
                    None => Slot::fresh(tab),
                }
            } else {
                x
            };
            ys.push(y);
            i = i + 1;
        }
        let r = self.with_slot_occurrences(&ys);
        assert forall|k: int, l: int|
            0 <= k < l < ys@.len() && is_public_pos(*self, k) && is_public_pos(*self, l)
                && !m@.contains_key(all_slots_spec(*self)[k]) && !m@.contains_key(
                all_slots_spec(*self)[l],
            ) implies #[trigger] ys@[k] != #[trigger] ys@[l] by {
            assert(ys@[k].0 < ys@[l].0);
        }
        r
    }

    /// The e-node with its slots renamed to `$0`, `$1`, ... in the order of their first
    /// occurrence, binders included; returns it with the numbering of the slots.
    pub fn number_occurrences(&self) -> (r: (Vec<Slot>, SlotMap))
        requires
            all_slots_spec(*self).len() < u32::MAX,
        ensures
            r.0@ == number_slots(all_slots_spec(*self), Map::empty(), 0).0,
            r.1.wf(),
            r.1@ == number_slots(all_slots_spec(*self), Map::empty(), 0).1,
            injective(r.1@),
    {
        let all = self.all_slot_occurrences();
        let ghost total = number_slots(all@, Map::empty(), 0);
        let mut m = SlotMap::new();
        let mut c: u32 = 0;
        let mut out: Vec<Slot> = Vec::new();
        let mut i: usize = 0;
        assert(all@.skip(0) =~= all@);
        while i < all.len()
            invariant
                0 <= i <= all@.len(),
                all@.len() < u32::MAX,
                c <= i,
                m.wf(),
                injective(m@),
                forall|x: Slot| #[trigger] m@.contains_key(x) ==> m@[x].0 < 4 * c && m@[x].0 % 4 == 0,
                out@ + number_slots(all@.skip(i as int), m@, c as nat).0 == total.0,
                number_slots(all@.skip(i as int), m@, c as nat).1 == total.1,
            decreases all@.len() - i,
        {
            let x = all[i];
            assert(all@.skip(i as int).drop_first() =~= all@.skip(i + 1));
            assert(all@.skip(i as int)[0] == x);
            let y = match m.get(x) {
                Some(y) => y,
                None => {
                    let y = Slot::numeric(c);
                    m.insert(x, y);
                    c = c + 1;
                    y
                },
            };
            assert((out@.push(y)) + number_slots(all@.skip(i + 1), m@, c as nat).0 =~= total.0);
            out.push(y);
            i = i + 1;
        }
        assert(all@.skip(all@.len() as int) =~= Seq::<Slot>::empty());
        assert(out@ =~= total.0);
        (out, m)
    }

    /// The shape: the e-node with its slots renamed to `$0`, `$1`, ... in the order of
    /// their first occurrence.
    pub fn shape(&self) -> (r: ENode)
        requires
            self.wf(),
            all_slots_spec(*self).len() < u32::MAX,
        ensures
            r.wf(),
            r@ == with_all_slots(*self, number_slots(all_slots_spec(*self), Map::empty(), 0).0),
    {
        let (ys, _) = self.number_occurrences();
        proof {
            lemma_number_slots_len(all_slots_spec(*self), Map::empty(), 0);
        }
        self.with_slot_occurrences(&ys)
    }

    /// The weak shape and the bijection from the shape's public slots back to the public slots
    /// of the e-node: renaming the shape by it gives the e-node back, up to the name of the
    /// bound slot.
    pub fn weak_shape(&self) -> (r: (ENode, SlotMap))
        requires
            self.wf(),
            all_slots_spec(*self).len() < u32::MAX,
        ensures
            r.0.wf(),
            r.0@ == with_all_slots(*self, number_slots(all_slots_spec(*self), Map::empty(), 0).0),
            r.1.wf(),
            injective(r.1@),
            forall|x: Slot|
                #[trigger] number_slots(all_slots_spec(*self), Map::empty(), 0).1.contains_key(x)
                    && public_slots_spec(*self).contains(x) ==> r.1@.contains_key(
                    number_slots(all_slots_spec(*self), Map::empty(), 0).1[x],
                ) && r.1@[number_slots(all_slots_spec(*self), Map::empty(), 0).1[x]] == x,
            r.1@.dom() == Set::new(
                |y: Slot|
                    exists|x: Slot|
                        #![trigger number_slots(all_slots_spec(*self), Map::empty(), 0).1[x]]
                        number_slots(all_slots_spec(*self), Map::empty(), 0).1.contains_key(x)
                            && public_slots_spec(*self).contains(x) && number_slots(
                            all_slots_spec(*self),
                            Map::empty(),
                            0,
                        ).1[x] == y,
            ),
    {
        let (ys, m) = self.number_occurrences();
        proof {
            lemma_number_slots_len(all_slots_spec(*self), Map::empty(), 0);
        }
        let sh = self.with_slot_occurrences(&ys);
        let public = self.slots();
        let pm = m.restrict(&public);
        proof {
            pm.lemma_view();
            assert(injective(pm@)) by {
                assert forall|a: Slot, b: Slot|
                    #![trigger pm@[a], pm@[b]]
                    pm@.contains_key(a) && pm@.contains_key(b) && a != b implies pm@[a] != pm@[b] by {
                    assert(m@[a] != m@[b]);
                }
            }
        }
        let bij = pm.inverse();
        proof {
            let nm = number_slots(all_slots_spec(*self), Map::empty(), 0).1;
            assert forall|x: Slot| #[trigger] nm.contains_key(x) && public_slots_spec(*self).contains(x) implies bij@.contains_key(nm[x]) && bij@[nm[x]] == x by {
                assert(pm@.contains_key(x));
                assert(crate::slotmap::values_of(pm@).contains(pm@[x]));
            }
            assert forall|y: Slot| bij@.contains_key(y) <==> exists|x: Slot|
                #![trigger nm[x]]
                nm.contains_key(x) && public_slots_spec(*self).contains(x) && nm[x] == y by {
                if bij@.contains_key(y) {
                    let x = choose|x: Slot| pm@.contains_key(x) && pm@[x] == y;
                    assert(nm[x] == y);
                }
                if exists|x: Slot|
                    #![trigger nm[x]]
                    nm.contains_key(x) && public_slots_spec(*self).contains(x) && nm[x] == y {
                    let x = choose|x: Slot|
                        #![trigger nm[x]]
                        nm.contains_key(x) && public_slots_spec(*self).contains(x) && nm[x] == y;
                    assert(pm@.contains_key(x));
                    assert(crate::slotmap::values_of(pm@).contains(pm@[x]));
                }
            }
            assert(bij@.dom() =~= Set::new(
                |y: Slot|
                    exists|x: Slot|
                        #![trigger nm[x]]
                        nm.contains_key(x) && public_slots_spec(*self).contains(x) && nm[x] == y,
            ));
        }
        (sh, bij)
    }

    /// Replaces each slot of `set` by a fresh slot, the same one at every occurrence.
    pub fn refresh_slots(&self, set: &SlotSet, tab: &mut SlotTable) -> (r: ENode)
        requires
            self.wf(),
            set.wf(),
            old(tab).wf(),
            old(tab).fresh_idx + 4 * set.v@.len() + 4 <= u64::MAX,
        ensures
            r.wf(),
            final(tab).wf(),
            exists|f: Map<Slot, Slot>| {
                &&& f.dom() == set@
                &&& injective(f)
                &&& forall|x: Slot| #[trigger] f.contains_key(x) ==> old(tab).fresh_idx <= f[x].0 < final(tab).fresh_idx && f[x].0 % 4 == 1
                &&& r@ == with_all_slots(*self, all_slots_spec(*self).map_values(|x: Slot| if f.contains_key(x) { f[x] } else { x }))
            },
    {
        let fresh = SlotMap::bijection_from_fresh_to(set, tab).inverse();
        let all = self.all_slot_occurrences();
        let mut ys: Vec<Slot> = Vec::new();
        let mut i: usize = 0;
        while i < all.len()
            invariant
                0 <= i <= all@.len(),
                fresh.wf(),
                all@ == all_slots_spec(*self),
                ys@ == all@.subrange(0, i as int).map_values(|x: Slot| if fresh@.contains_key(x) { fresh@[x] } else { x }),
            decreases all@.len() - i,
        {
            let x = all[i];
            let y = match fresh.get(x) {
                Some(y) => y,
                None => x,
            };
            ys.push(y);
            assert(ys@ =~= all@.subrange(0, i + 1).map_values(|x: Slot| if fresh@.contains_key(x) { fresh@[x] } else { x }));
            i = i + 1;
        }
        assert(all@.subrange(0, all@.len() as int) =~= all@);
        let r = self.with_slot_occurrences(&ys);
        proof {
            assert forall|x: Slot| #[trigger] fresh@.contains_key(x) implies old(tab).fresh_idx <= fresh@[x].0 < final(tab).fresh_idx && fresh@[x].0 % 4 == 1 by {
                assert(crate::slotmap::values_of(fresh@).contains(fresh@[x]));
            }
        }
        r
    }

    /// Replaces each private slot by a fresh one.
    pub fn refresh_private(&self, tab: &mut SlotTable) -> (r: ENode)
        requires
            self.wf(),
            old(tab).wf(),
            old(tab).fresh_idx + 4 * all_slots_spec(*self).len() + 4 <= u64::MAX,
        ensures
            r.wf(),
            final(tab).wf(),
            exists|f: Map<Slot, Slot>| {
                &&& f.dom() == private_slots_spec(*self).to_set()
                &&& injective(f)
                &&& forall|x: Slot| #[trigger] f.contains_key(x) ==> old(tab).fresh_idx <= f[x].0 < final(tab).fresh_idx && f[x].0 % 4 == 1
                &&& r@ == with_all_slots(*self, all_slots_spec(*self).map_values(|x: Slot| if f.contains_key(x) { f[x] } else { x }))
            },
    {
        let prv = self.private_slots();
        proof {
            prv.lemma_len();
            let p = private_slots_spec(*self);
            p.lemma_cardinality_of_set();
            assert(p.len() <= all_slots_spec(*self).len()) by {
                all_slots_spec(*self).lemma_filter_len(|x: Slot| !public_slots_spec(*self).contains(x));
            }
        }
        self.refresh_slots(&prv, tab)
    }

    /// Replaces each slot that is not in `public` by a fresh one.
    pub fn refresh_internals(&self, public: &SlotSet, tab: &mut SlotTable) -> (r: ENode)
        requires
            self.wf(),
            public.wf(),
            old(tab).wf(),
            old(tab).fresh_idx + 4 * all_slots_spec(*self).len() + 4 <= u64::MAX,
        ensures
            r.wf(),
            final(tab).wf(),
            exists|f: Map<Slot, Slot>| {
                &&& f.dom() == all_slots_spec(*self).to_set().difference(public@)
                &&& injective(f)
                &&& forall|x: Slot| #[trigger] f.contains_key(x) ==> old(tab).fresh_idx <= f[x].0 < final(tab).fresh_idx && f[x].0 % 4 == 1
                &&& r@ == with_all_slots(*self, all_slots_spec(*self).map_values(|x: Slot| if f.contains_key(x) { f[x] } else { x }))
            },
    {
        let all = SlotSet::from_vec(&self.all_slot_occurrences());
        let internals = all.difference(public);
        proof {
            internals.lemma_len();
            let s = all_slots_spec(*self);
            s.lemma_cardinality_of_set();
            vstd::set_lib::lemma_len_subset(internals@, s.to_set());
        }
        self.refresh_slots(&internals, tab)
    }

    /// The e-node with every child invocation replaced by [AppliedId::null].
    pub fn nullify_app_ids(&self) -> (r: ENode)
        ensures
            r.wf(),
            match (*self, r) {
                (ENode::Lam(s, _), ENode::Lam(s2, a2)) => s2 == s && a2.id == Id(0) && a2.m@ == Map::<Slot, Slot>::empty(),
                (ENode::App(_, _), ENode::App(a2, b2)) => a2.id == Id(0) && a2.m@ == Map::<Slot, Slot>::empty() && b2.id == Id(0) && b2.m@ == Map::<Slot, Slot>::empty(),
                (ENode::Var(s), ENode::Var(s2)) => s2 == s,
                _ => false,
            },
            forall|i: int| 0 <= i < app_ids_spec(r).len() ==> #[trigger] app_view(app_ids_spec(r)[i]) == (Id(0), Seq::<Slot>::empty(), Seq::<Slot>::empty()),
    {
        match self {
            ENode::Lam(s, _) => {
                let n = AppliedId::null();
                assert(n.m.keys@ =~= Seq::<Slot>::empty() && n.m.vals@ =~= Seq::<Slot>::empty());
                let r = ENode::Lam(*s, n);
                assert(app_ids_spec(r) =~= seq![n]);
                r
            },
            ENode::App(_, _) => {
                let n1 = AppliedId::null();
                let n2 = AppliedId::null();
                assert(n1.m.keys@ =~= Seq::<Slot>::empty() && n1.m.vals@ =~= Seq::<Slot>::empty());
                assert(n2.m.keys@ =~= Seq::<Slot>::empty() && n2.m.vals@ =~= Seq::<Slot>::empty());
                let r = ENode::App(n1, n2);
                assert(app_ids_spec(r) =~= seq![n1, n2]);
                r
            },
            ENode::Var(s) => ENode::Var(*s),
        }
    }

    /// The textual form: the operator name, then the slots and children.
    pub fn to_syntax(&self) -> (r: Vec<SyntaxElem>)
        ensures
            r@.len() == match *self {
                ENode::Lam(..) => 3int,
                ENode::App(..) => 3int,
                ENode::Var(..) => 2int,
            },
            syntax_ok(r@),
            syntax_node(r@) == self@,
    {
        let mut v: Vec<SyntaxElem> = Vec::new();
        match self {
            ENode::Lam(s, a) => {
                proof {
                    reveal_strlit("lam");
                    assert("lam"@ =~= seq!['l', 'a', 'm']);
                }
                v.push(SyntaxElem::String("lam".to_owned()));
                v.push(SyntaxElem::Slot(*s));
                v.push(SyntaxElem::AppliedId(a.clone()));
            },
            ENode::App(a, b) => {
                proof {
                    reveal_strlit("app");
                    assert("app"@ =~= seq!['a', 'p', 'p']);
                }
                v.push(SyntaxElem::String("app".to_owned()));
                v.push(SyntaxElem::AppliedId(a.clone()));
                v.push(SyntaxElem::AppliedId(b.clone()));
            },
            ENode::Var(s) => {
                proof {
                    reveal_strlit("var");
                    assert("var"@ =~= seq!['v', 'a', 'r']);
                }
                v.push(SyntaxElem::String("var".to_owned()));
                v.push(SyntaxElem::Slot(*s));
            },
        }
        v
    }

    /// Reads an e-node back from its textual form.
    pub fn from_syntax(elems: &[SyntaxElem]) -> (r: Option<ENode>)
        ensures
            r is Some <==> syntax_ok(elems@),
            r matches Some(n) ==> n@ == syntax_node(elems@),
    {
        proof {
            reveal_strlit("lam");
            reveal_strlit("app");
            reveal_strlit("var");
            assert("lam"@ =~= seq!['l', 'a', 'm']);
            assert("app"@ =~= seq!['a', 'p', 'p']);
            assert("var"@ =~= seq!['v', 'a', 'r']);
        }
        if elems.len() == 3 {
            if let SyntaxElem::String(op) = &elems[0] {
                if string_eq_str(op, "lam") {
                    if let SyntaxElem::Slot(s) = &elems[1] {
                        if let SyntaxElem::AppliedId(a) = &elems[2] {
                            return Some(ENode::Lam(*s, a.clone()));
                        }
                    }
                    return None;
                }
                if string_eq_str(op, "app") {
                    if let SyntaxElem::AppliedId(a) = &elems[1] {
                        if let SyntaxElem::AppliedId(b) = &elems[2] {
                            return Some(ENode::App(a.clone(), b.clone()));
                        }
                    }
                    return None;
                }
            }
            return None;
        }
        if elems.len() == 2 {
            if let SyntaxElem::String(op) = &elems[0] {
                if string_eq_str(op, "var") {
                    if let SyntaxElem::Slot(s) = &elems[1] {
                        return Some(ENode::Var(*s));
                    }
                }
            }
        }
        None
    }
}

/// The e-node with the slot occurrences, in the order of [all_slots_spec], replaced by `ys`.
pub open spec fn with_all_slots(n: ENode, ys: Seq<Slot>) -> ENodeView {
    match n {
        ENode::Lam(_, a) => ENodeView::Lam(ys[0], with_vals(a, ys.subrange(1, ys.len() as int))),
        ENode::App(a, b) => ENodeView::App(
            with_vals(a, ys.subrange(0, a.m.vals@.len() as int)),
            with_vals(b, ys.subrange(a.m.vals@.len() as int, ys.len() as int)),
        ),
        ENode::Var(_) => ENodeView::Var(ys[0]),
    }
}

/// The occurrence at position `i` (in the order of [all_slots_spec]) is a public one.
pub open spec fn is_public_pos(n: ENode, i: int) -> bool {
    match n {
        ENode::Lam(s, a) => i > 0 && all_slots_spec(n)[i] != s,
        _ => true,
    }
}

/// The occurrences renamed by the map where they are public, and kept where private.
pub open spec fn rename_public(n: ENode, m: Map<Slot, Slot>) -> Seq<Slot> {
    Seq::new(
        all_slots_spec(n).len(),
        |i: int|
            if is_public_pos(n, i) {
                index_or_missing(m, all_slots_spec(n)[i])
            } else {
                all_slots_spec(n)[i]
            },
    )
}

pub proof fn lemma_number_slots_len(xs: Seq<Slot>, m: Map<Slot, Slot>, c: nat)
    ensures
        number_slots(xs, m, c).0.len() == xs.len(),
    decreases xs.len(),
{
    if xs.len() > 0 {
        let x = xs[0];
        let (y, m1, c1) = if m.contains_key(x) {
            (m[x], m, c)
        } else {
            (Slot((4 * c) as u64), m.insert(x, Slot((4 * c) as u64)), c + 1)
        };
        lemma_number_slots_len(xs.drop_first(), m1, c1);
    }
}

/// `r` is `n` with each slot occurrence `s` replaced by a slot that `f` may give for `s`.
pub open spec fn slots_mapped_by<F: Fn(Slot) -> Slot>(n: ENode, r: ENode, f: F) -> bool {
    match (n, r) {
        (ENode::Lam(s, a), ENode::Lam(s2, a2)) => f.ensures((s,), s2) && renamed_by(a, a2, f),
        (ENode::App(a, b), ENode::App(a2, b2)) => renamed_by(a, a2, f) && renamed_by(b, b2, f),
        (ENode::Var(s), ENode::Var(s2)) => f.ensures((s,), s2),
        _ => false,
    }
}

/// Renaming by a function that gives each slot back unchanged leaves the e-node as it is.
pub proof fn lemma_map_slots_identity<F: Fn(Slot) -> Slot>(n: ENode, r: ENode, f: F)
    requires
        slots_mapped_by(n, r, f),
        forall|s: Slot, y: Slot| #[trigger] f.ensures((s,), y) ==> y == s,
    ensures
        r@ == n@,
{
    match (n, r) {
        (ENode::Lam(_, a), ENode::Lam(_, a2)) => {
            assert(a2.m.vals@ =~= a.m.vals@);
        },
        (ENode::App(a, b), ENode::App(a2, b2)) => {
            assert(a2.m.vals@ =~= a.m.vals@);
            assert(b2.m.vals@ =~= b.m.vals@);
        },
        _ => {},
    }
}

/// Renaming by `f` and then by `g` is renaming by `h`, where `f`, `g` and `h` are the
/// functions `ff`, `gg` and `ff` then `gg`.
pub proof fn lemma_map_slots_compose<F: Fn(Slot) -> Slot, G: Fn(Slot) -> Slot, H: Fn(Slot) -> Slot>(
    n: ENode,
    n1: ENode,
    n2: ENode,
    n3: ENode,
    f: F,
    g: G,
    h: H,
    ff: spec_fn(Slot) -> Slot,
    gg: spec_fn(Slot) -> Slot,
)
    requires
        slots_mapped_by(n, n1, f),
        slots_mapped_by(n1, n2, g),
        slots_mapped_by(n, n3, h),
        forall|s: Slot, y: Slot| #[trigger] f.ensures((s,), y) ==> y == ff(s),
        forall|s: Slot, y: Slot| #[trigger] g.ensures((s,), y) ==> y == gg(s),
        forall|s: Slot, y: Slot| #[trigger] h.ensures((s,), y) ==> y == gg(ff(s)),
    ensures
        n2@ == n3@,
{
    match (n, n1, n2, n3) {
        (ENode::Lam(_, a), ENode::Lam(_, a1), ENode::Lam(_, a2), ENode::Lam(_, a3)) => {
            assert forall|i: int| 0 <= i < a2.m.vals@.len() implies a2.m.vals@[i] == a3.m.vals@[i] by {
                assert(g.ensures((a1.m.vals@[i],), a2.m.vals@[i]));
                assert(f.ensures((a.m.vals@[i],), a1.m.vals@[i]));
                assert(h.ensures((a.m.vals@[i],), a3.m.vals@[i]));
            }
            assert(a2.m.vals@ =~= a3.m.vals@);
        },
        (ENode::App(a, b), ENode::App(a1, b1), ENode::App(a2, b2), ENode::App(a3, b3)) => {
            assert forall|i: int| 0 <= i < a2.m.vals@.len() implies a2.m.vals@[i] == a3.m.vals@[i] by {
                assert(g.ensures((a1.m.vals@[i],), a2.m.vals@[i]));
                assert(f.ensures((a.m.vals@[i],), a1.m.vals@[i]));
                assert(h.ensures((a.m.vals@[i],), a3.m.vals@[i]));
            }
            assert forall|i: int| 0 <= i < b2.m.vals@.len() implies b2.m.vals@[i] == b3.m.vals@[i] by {
                assert(g.ensures((b1.m.vals@[i],), b2.m.vals@[i]));
                assert(f.ensures((b.m.vals@[i],), b1.m.vals@[i]));
                assert(h.ensures((b.m.vals@[i],), b3.m.vals@[i]));
            }
            assert(a2.m.vals@ =~= a3.m.vals@);
            assert(b2.m.vals@ =~= b3.m.vals@);
        },
        _ => {},
    }
}

/// `f` may give `a2` for (a copy of) `a`.
pub open spec fn maps_to<F: Fn(AppliedId) -> AppliedId>(f: F, a: AppliedId, a2: AppliedId) -> bool {
    exists|a0: AppliedId| app_view(a0) == app_view(a) && #[trigger] f.ensures((a0,), a2)
}

/// `a2` is `a` with each value renamed by `f`.
pub open spec fn renamed_by<F: Fn(Slot) -> Slot>(a: AppliedId, a2: AppliedId, f: F) -> bool {
    &&& a2.wf()
    &&& a2.id == a.id
    &&& a2.m.keys@ == a.m.keys@
    &&& a2.m.vals@.len() == a.m.vals@.len()
    &&& forall|i: int| 0 <= i < a2.m.vals@.len() ==> f.ensures((a.m.vals@[i],), #[trigger] a2.m.vals@[i])
}

/// The element is the operator name `name`.
pub open spec fn is_op(e: SyntaxElem, name: Seq<char>) -> bool {
    match e {
        SyntaxElem::String(op) => op@ == name,
        _ => false,
    }
}

/// The invocation that the element holds, if it holds one.
pub open spec fn elem_app(e: SyntaxElem) -> Option<AppView> {
    match e {
        SyntaxElem::AppliedId(a) => Some(app_view(a)),
        _ => None,
    }
}

/// The slot that the element holds, if it holds one.
pub open spec fn elem_slot(e: SyntaxElem) -> Option<Slot> {
    match e {
        SyntaxElem::Slot(s) => Some(s),
        _ => None,
    }
}

/// The textual form is that of a `lam`, `app` or `var` e-node.
pub open spec fn syntax_ok(e: Seq<SyntaxElem>) -> bool {
    ||| (e.len() == 3 && is_op(e[0], seq!['l', 'a', 'm']) && elem_slot(e[1]) is Some && elem_app(e[2]) is Some)
    ||| (e.len() == 3 && is_op(e[0], seq!['a', 'p', 'p']) && elem_app(e[1]) is Some && elem_app(e[2]) is Some)
    ||| (e.len() == 2 && is_op(e[0], seq!['v', 'a', 'r']) && elem_slot(e[1]) is Some)
}

/// The e-node that a well-formed textual form stands for.
pub open spec fn syntax_node(e: Seq<SyntaxElem>) -> ENodeView {
    if e.len() == 3 && is_op(e[0], seq!['l', 'a', 'm']) {
        ENodeView::Lam(elem_slot(e[1]).unwrap(), elem_app(e[2]).unwrap())
    } else if e.len() == 3 {
        ENodeView::App(elem_app(e[1]).unwrap(), elem_app(e[2]).unwrap())
    } else {
        ENodeView::Var(elem_slot(e[1]).unwrap())
    }
}

/// Whether two slot lists are the same.
pub fn slots_eq(a: &Vec<Slot>, b: &Vec<Slot>) -> (r: bool)
    ensures
        r == (a@ == b@),
{
    if a.len() != b.len() {
        return false;
    }
    let mut i: usize = 0;
    while i < a.len()
        invariant
            0 <= i <= a@.len(),
            a@.len() == b@.len(),
            forall|k: int| 0 <= k < i ==> a@[k] == b@[k],
        decreases a@.len() - i,
    {
        if a[i] != b[i] {
            return false;
        }
        i = i + 1;
    }
    assert(a@ =~= b@);
    true
}

/// Whether two invocations are the same: the same e-class and the same renaming, entry by
/// entry.
pub fn app_eq(a: &AppliedId, b: &AppliedId) -> (r: bool)
    ensures
        r == (app_view(*a) == app_view(*b)),
{
    a.id == b.id && slots_eq(&a.m.keys, &b.m.keys) && slots_eq(&a.m.vals, &b.m.vals)
}

/// Whether two e-nodes are the same.
pub fn enode_eq(a: &ENode, b: &ENode) -> (r: bool)
    ensures
        r == (a@ == b@),
{
    match (a, b) {
        (ENode::Lam(s1, a1), ENode::Lam(s2, a2)) => *s1 == *s2 && app_eq(a1, a2),
        (ENode::App(a1, b1), ENode::App(a2, b2)) => app_eq(a1, a2) && app_eq(b1, b2),
        (ENode::Var(s1), ENode::Var(s2)) => *s1 == *s2,
        _ => false,
    }
}

/// Numbering by first occurrence: each occurrence gets the number of its slot, the numbering
/// extends the one it started from, and different slots get different numbers.
pub proof fn lemma_number_slots_map(xs: Seq<Slot>, m: Map<Slot, Slot>, c: nat)
    requires
        injective(m),
        forall|k: Slot| #[trigger] m.contains_key(k) ==> m[k].0 < 4 * c && m[k].0 % 4 == 0,
        4 * (c + xs.len()) <= u64::MAX,
    ensures
        ({
            let (ys, m2, c2) = number_slots(xs, m, c);
            &&& ys.len() == xs.len()
            &&& forall|i: int| 0 <= i < xs.len() ==> #[trigger] m2.contains_key(xs[i]) && ys[i] == m2[xs[i]]
            &&& forall|k: Slot| #[trigger] m.contains_key(k) ==> m2.contains_key(k) && m2[k] == m[k]
            &&& injective(m2)
            &&& forall|k: Slot| #[trigger] m2.contains_key(k) ==> m2[k].0 < 4 * c2 && m2[k].0 % 4 == 0
            &&& c2 <= c + xs.len()
        }),
    decreases xs.len(),
{
    lemma_number_slots_len(xs, m, c);
    if xs.len() > 0 {
        let x = xs[0];
        let (y, m1, c1) = if m.contains_key(x) {
            (m[x], m, c)
        } else {
            (Slot((4 * c) as u64), m.insert(x, Slot((4 * c) as u64)), c + 1)
        };
        assert(injective(m1)) by {
            assert forall|a: Slot, b: Slot| #![trigger m1[a], m1[b]] m1.contains_key(a) && m1.contains_key(b) && a != b implies m1[a] != m1[b] by {
                if !m.contains_key(x) {
                    if a == x {
                        assert(m.contains_key(b));
                    } else if b == x {
                        assert(m.contains_key(a));
                    }
                }
            }
        }
        assert forall|k: Slot| #[trigger] m1.contains_key(k) implies m1[k].0 < 4 * c1 && m1[k].0 % 4 == 0 by {
            if k != x {
                assert(m.contains_key(k));
            }
        }
        lemma_number_slots_map(xs.drop_first(), m1, c1);
        let (ys1, m2, c2) = number_slots(xs.drop_first(), m1, c1);
        assert(number_slots(xs, m, c) == (seq![y] + ys1, m2, c2));
        assert(m1.contains_key(x) && m1[x] == y);
        assert forall|k: Slot| #[trigger] m.contains_key(k) implies m2.contains_key(k) && m2[k] == m[k] by {
            assert(m1.contains_key(k) && m1[k] == m[k]);
        }
        assert forall|i: int| 0 <= i < xs.len() implies #[trigger] m2.contains_key(xs[i]) && number_slots(xs, m, c).0[i] == m2[xs[i]] by {
            if i > 0 {
                assert(xs[i] == xs.drop_first()[i - 1]);
                assert(m2.contains_key(xs.drop_first()[i - 1]));
            } else {
                assert(m1.contains_key(xs[0]));
            }
        }
    }
}

/// The slots of the e-node with its private occurrences numbered by first occurrence and its
/// public occurrences kept.
pub open spec fn alpha_slots(n: ENode) -> Seq<Slot> {
    Seq::new(
        all_slots_spec(n).len(),
        |i: int|
            if is_public_pos(n, i) {
                all_slots_spec(n)[i]
            } else {
                number_slots(all_slots_spec(n), Map::empty(), 0).0[i]
            },
    )
}

/// A node whose view puts `ys` in the places of `n`'s slots has `ys` as its slots.
proof fn lemma_same_frame(n: ENode, sh: ENode, ys: Seq<Slot>, zs: Seq<Slot>)
    requires
        ys.len() == all_slots_spec(n).len(),
        zs.len() == ys.len(),
        sh@ == with_all_slots(n, ys),
    ensures
        all_slots_spec(sh) == ys,
        with_all_slots(sh, zs) == with_all_slots(n, zs),
{
    match (n, sh) {
        (ENode::Lam(_, a), ENode::Lam(_, a2)) => {
            assert(a2.m.vals@ == ys.subrange(1, ys.len() as int));
            assert(all_slots_spec(sh) =~= ys);
        },
        (ENode::App(a, b), ENode::App(a2, b2)) => {
            assert(a2.m.vals@ == ys.subrange(0, a.m.vals@.len() as int));
            assert(b2.m.vals@ == ys.subrange(a.m.vals@.len() as int, ys.len() as int));
            assert(all_slots_spec(sh) =~= ys);
        },
        (ENode::Var(_), ENode::Var(_)) => {
            assert(all_slots_spec(sh) =~= ys);
        },
        _ => {},
    }
}

/// The e-node with its private slots renamed to `$0`, `$1`, ... by first occurrence, its
/// public slots kept: e-nodes that differ only in the names of bound slots become the same.
pub fn alpha_normalize(n: &ENode) -> (r: ENode)
    requires
        n.wf(),
        all_slots_spec(*n).len() < u32::MAX,
    ensures
        r.wf(),
        r@ == with_all_slots(*n, alpha_slots(*n)),
{
    let (sh, bij) = n.weak_shape();
    let ghost all = all_slots_spec(*n);
    let ghost num = number_slots(all, Map::empty(), 0);
    proof {
        lemma_number_slots_len(all, Map::empty(), 0);
        lemma_number_slots_map(all, Map::empty(), 0);
        lemma_same_frame(*n, sh, num.0, alpha_slots(*n));
        lemma_same_frame(*n, sh, num.0, rename_public(sh, bij@));
    }
    let r = sh.apply_slotmap(&bij);
    proof {
        let rp = rename_public(sh, bij@);
        assert forall|i: int| 0 <= i < all.len() implies #[trigger] rp[i] == alpha_slots(*n)[i] by {
            assert(all_slots_spec(sh)[i] == num.0[i]);
            assert(num.1.contains_key(all[i]));
            assert(num.0[i] == num.1[all[i]]);
            if let ENode::Lam(s, a) = *n {
                assert(all[0] == s);
                assert(num.1.contains_key(all[0]));
                assert(num.0[0] == num.1[all[0]]);
                if i > 0 {
                    if all[i] != s {
                        assert(num.1[all[i]] != num.1[all[0]]);
                    }
                }
            }
            if is_public_pos(*n, i) {
                assert(public_slots_spec(*n).contains(all[i])) by {
                    match *n {
                        ENode::Lam(s, a) => {
                            assert(all[i] == a.m.vals@[i - 1]);
                            a.m.vals@.lemma_filter_contains(|x: Slot| x != s, i - 1);
                        },
                        ENode::App(a, b) => {
                            assert(all.contains(all[i]));
                        },
                        ENode::Var(x) => {
                            assert(all[i] == x);
                        },
                    }
                }
            }
        }
        assert(rp =~= alpha_slots(*n));
    }
    r
}

} // verus!
