//! Changepoint detection with Pruned Exact Linear Time.
//!
//! The search over segmentations is verified here; the segment costs themselves are
//! computed by the caller and reach the search as bit patterns of binary64 totals.
pub mod candidates;
pub mod containers;
pub mod cost;
pub mod error;
pub mod partition;
pub mod predict;

pub use cost::SegmentCostFunction;
pub use error::Error;
pub use partition::{Candidate, Partition, RunningSum};
pub use predict::PredictImpl;

use vstd::prelude::*;

verus! {

/// PELT algorithm settings.
///
/// # Defaults
///
/// - `segment_cost_function`: [`SegmentCostFunction::L1`]
/// - `jump`: `5`
/// - `minimum_segment_length`: `2`
/// - `keep_initial_zero`: `false`
#[derive(Debug, Clone, Copy)]
pub struct Pelt {
    /// Segment model.
    segment_cost_function: SegmentCostFunction,
    /// Subsample, one every `jump` points.
    jump: usize,
    /// Minimum allowable number of data points within a segment.
    minimum_segment_length: usize,
    /// Whether the returned change points start with the implicit index zero.
    keep_initial_zero: bool,
}

impl Pelt {
    /// Both step sizes are positive.
    #[verifier::type_invariant]
    spec fn positive_steps(&self) -> bool {
        self.jump >= 1 && self.minimum_segment_length >= 1
    }

    /// Segment model.
    pub closed spec fn model(&self) -> SegmentCostFunction {
        self.segment_cost_function
    }

    /// Step between considered change points.
    pub closed spec fn step(&self) -> usize {
        self.jump
    }

    /// Minimum number of data points in a segment.
    pub closed spec fn min_len(&self) -> usize {
        self.minimum_segment_length
    }

    /// Whether the result starts with zero.
    pub closed spec fn keeps_zero(&self) -> bool {
        self.keep_initial_zero
    }

    /// Construct a new PELT instance with default values.
    pub fn new() -> (r: Self)
        ensures
            r.model() == SegmentCostFunction::L1,
            r.step() == 5,
            r.min_len() == 2,
            !r.keeps_zero(),
    {
        Self {
            segment_cost_function: SegmentCostFunction::L1,
            jump: 5,
            minimum_segment_length: 2,
            keep_initial_zero: false,
        }
    }

    /// Set the segment model, also known as the loss function.
    ///
    /// Determines how the cost of each potential segment is calculated.
    pub fn with_segment_cost_function(self, model: SegmentCostFunction) -> (r: Self)
        ensures
            r.model() == model,
            r.step() == self.step(),
            r.min_len() == self.min_len(),
            r.keeps_zero() == self.keeps_zero(),
    {
        proof {
            use_type_invariant(&self);
        }
        Self { segment_cost_function: model, ..self }
    }

    /// Set the step size when considering previous potential change points.
    ///
    /// - If `jump = 1`, a check is done every possible prior change point.
    /// - If `jump > 1`, previous change points are considered at intervals of `jump`. This speeds
    ///   up the computation, but the solution becomes approximate.
    pub fn with_jump(self, jump: usize) -> (r: Self)
        requires
            jump >= 1,
        ensures
            r.model() == self.model(),
            r.step() == jump,
            r.min_len() == self.min_len(),
            r.keeps_zero() == self.keeps_zero(),
    {
        proof {
            use_type_invariant(&self);
        }
        Self { jump, ..self }
    }

    /// Set the minimum allowable number of data points within a segment.
    ///
    /// Ensures that segments are not too small.
    pub fn with_minimum_segment_length(self, minimum_segment_length: usize) -> (r: Self)
        requires
            minimum_segment_length >= 1,
        ensures
            r.model() == self.model(),
            r.step() == self.step(),
            r.min_len() == minimum_segment_length,
            r.keeps_zero() == self.keeps_zero(),
    {
        proof {
            use_type_invariant(&self);
        }
        Self { minimum_segment_length, ..self }
    }

    /// Set whether the returned change points start with the implicit index zero.
    pub fn with_keep_initial_zero(self, keep_initial_zero: bool) -> (r: Self)
        ensures
            r.model() == self.model(),
            r.step() == self.step(),
            r.min_len() == self.min_len(),
            r.keeps_zero() == keep_initial_zero,
    {
        proof {
            use_type_invariant(&self);
        }
        Self { keep_initial_zero, ..self }
    }

    /// Segment model.
    pub fn segment_cost_function(&self) -> (r: SegmentCostFunction)
        ensures
            r == self.model(),
    {
        self.segment_cost_function
    }

    /// Step between considered change points.
    pub fn jump(&self) -> (r: usize)
        ensures
            r == self.step(),
            r >= 1,
    {
        proof {
            use_type_invariant(self);
        }
        self.jump
    }

    /// Minimum number of data points in a segment.
    pub fn minimum_segment_length(&self) -> (r: usize)
        ensures
            r == self.min_len(),
            r >= 1,
    {
        proof {
            use_type_invariant(self);
        }
        self.minimum_segment_length
    }

    /// Whether the result starts with zero.
    pub fn keep_initial_zero(&self) -> (r: bool)
        ensures
            r == self.keeps_zero(),
    {
        self.keep_initial_zero
    }
}

impl Default for Pelt {
    fn default() -> (r: Self)
        ensures
            r.model() == SegmentCostFunction::L1,
            r.step() == 5,
            r.min_len() == 2,
            !r.keeps_zero(),
    {
        Self::new()
    }
}

} // verus!
