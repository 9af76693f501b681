use vstd::prelude::*;

pub mod slot;
pub mod slotset;
pub mod slotmap;
pub mod group;
pub mod applied;
pub mod lang;
pub mod cartesian;
pub mod expr;
pub mod suf;
pub mod unionfind;
pub mod applymap;
pub mod proofs;
pub mod wrapper;
pub mod parse;
pub mod machine;
pub mod pending;
pub mod cost;
pub mod show;
pub mod steps;
pub mod slotmap_like;
pub mod report;
pub mod flat;
pub mod ematch;
pub mod egraph;
pub mod extract;
pub mod search;

verus! {

} // verus!
