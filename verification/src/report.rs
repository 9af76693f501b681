use vstd::prelude::*;

verus! {

/// Why a run of equality saturation stopped.
#[derive(Debug, Clone)]
pub enum StopReason<T: Clone = String> {
    Saturated,
    IterationLimit,
    TimeLimit,
    NodeLimit,
    Other(T),
}

} // verus!
