use vstd::prelude::*;

verus! {

/// What has to be redone for an e-node that is waiting to be processed.
#[derive(Clone, Copy, PartialEq, Eq, Structural, Debug)]
pub enum PendingType {
    /// Only the analysis needs to be updated.
    OnlyAnalysis,
    /// The e-node, its strong shape and the analysis need to be updated.
    Full,
}

impl PendingType {
    /// The work that covers both: full if either is.
    pub fn merge(self, other: PendingType) -> (r: PendingType)
        ensures
            r == (if self == PendingType::Full || other == PendingType::Full {
                PendingType::Full
            } else {
                PendingType::OnlyAnalysis
            }),
    {
        match (self, other) {
            (PendingType::Full, _) => PendingType::Full,
            (_, PendingType::Full) => PendingType::Full,
            (PendingType::OnlyAnalysis, PendingType::OnlyAnalysis) => PendingType::OnlyAnalysis,
        }
    }
}

} // verus!
