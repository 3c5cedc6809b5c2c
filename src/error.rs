use vstd::prelude::*;

verus! {

/// The ways in which a statistic or a chain operation can fail.
#[derive(Debug, Clone, Copy, PartialEq, Eq, Structural)]
pub enum StatsError {
    /// A moment statistic was requested of an empty sequence.
    EmptyInput,
    /// A chain operation was given no chains at all.
    EmptyChainSet,
    /// The shortest chain of a chain set holds no draws.
    NoDraws,
}

} // verus!
