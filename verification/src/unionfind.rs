use vstd::prelude::*;
use crate::slot::Slot;
use crate::slotset::SlotSet;
use crate::slotmap::SlotMap;
use crate::applied::Id;
use crate::group::Group;

verus! {

/// A class that is its own leader; its arity is that of its group.
pub struct LeaderClass {
    pub group: Group,
}

/// A class that follows another one, renaming its slots by `leader_m`.
pub struct FollowerClass {
    pub leader_id: Id,
    pub leader_m: SlotMap,
}

pub enum UfClass {
    Leader(LeaderClass),
    Follower(FollowerClass),
}

/// A union-find over classes with a number of positional slots.
pub struct Unionfind {
    pub classes: Vec<UfClass>,
}

/// The slots `0 .. arity`.
pub open spec fn positional(arity: nat) -> Set<Slot> {
    Set::new(|s: Slot| s.0 % 4 == 0 && s.0 / 4 < arity)
}

/// The set of the first `arity` numeric slots.
fn positional_slots(arity: usize) -> (r: SlotSet)
    requires
        arity <= u32::MAX + 1,
    ensures
        r.wf(),
        r@ == positional(arity as nat),
{
    let mut out = SlotSet::new();
    let mut i: usize = 0;
    while i < arity
        invariant
            0 <= i <= arity,
            arity <= u32::MAX + 1,
            out.wf(),
            out@ == positional(i as nat),
        decreases arity - i,
    {
        let s = Slot::numeric(i as u32);
        out.insert(s);
        assert(out@ =~= positional((i + 1) as nat));
        i = i + 1;
    }
    out
}

impl Unionfind {
    /// Adds a class of `arity` slots, its own leader, without symmetries; returns its id.
    pub fn add(&mut self, arity: usize) -> (r: Id)
        requires
            arity <= u32::MAX + 1,
        ensures
            r == Id(old(self).classes@.len() as usize),
            final(self).classes@.len() == old(self).classes@.len() + 1,
            forall|i: int| 0 <= i < old(self).classes@.len() ==> #[trigger] final(self).classes@[i] == old(self).classes@[i],
            final(self).classes@.last() matches UfClass::Leader(c) && c.group.wf() && c.group.omega@ == positional(arity as nat) && c.group.is_trivial_spec(),
    {
        let i = Id(self.classes.len());
        let omega = positional_slots(arity);
        self.classes.push(UfClass::Leader(LeaderClass { group: Group::trivial(&omega) }));
        i
    }
}

} // verus!
