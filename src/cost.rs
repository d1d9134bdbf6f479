//! Segment models.
use vstd::prelude::*;

verus! {

/// Segment model cost function, also known as the loss function.
#[derive(Debug, Clone, Copy, PartialEq, Eq, Structural, PartialOrd, Ord, Hash)]
pub enum SegmentCostFunction {
    /// Least absolute deviation.
    L1,
    /// Least squared deviation.
    L2,
}

impl Default for SegmentCostFunction {
    /// Least absolute deviation.
    fn default() -> (r: Self)
        ensures
            r == SegmentCostFunction::L1,
    {
        SegmentCostFunction::L1
    }
}

/// Smallest number of admissible starts for which a model's segment costs are worth
/// spreading over worker threads.
pub open spec fn threading_threshold(model: SegmentCostFunction) -> nat {
    match model {
        // L1 is slow, so with a couple of iterations it already pays off
        SegmentCostFunction::L1 => 32,
        // L2 is quite fast, so it's only worthwhile with many iterations
        SegmentCostFunction::L2 => 512,
    }
}

impl SegmentCostFunction {
    /// Heuristic for determining whether to evaluate segment costs in parallel.
    pub fn should_use_threading(self, iterations: usize) -> (r: bool)
        ensures
            r == (iterations >= threading_threshold(self)),
    {
        match self {
            Self::L1 => iterations >= 32,
            Self::L2 => iterations >= 512,
        }
    }
}

} // verus!
