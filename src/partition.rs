//! Partitions of a signal prefix and their running loss-and-penalty sums.
use vstd::prelude::*;

use crate::containers::{
    ends_clone, ends_into_vec, ends_new, ends_of, ends_push, SegmentEnds, MAX_ENDS,
};

verus! {

/// Running loss-and-penalty total of a partition, kept as the bit patterns of a compensated
/// binary64 sum: the total so far and the correction term that compensated summation carries
/// (zero under plain summation). The search never does arithmetic on them; it only orders
/// totals.
#[derive(Debug, Clone, Copy, PartialEq, Eq, Structural)]
pub struct RunningSum {
    /// Bit pattern of the total.
    pub total: u64,
    /// Bit pattern of the correction term.
    pub compensation: u64,
}

/// The running sum of an empty partition: both parts are positive zero.
pub open spec fn zero_sum() -> RunningSum {
    RunningSum { total: 0, compensation: 0 }
}

/// Position of a binary64 bit pattern in the IEEE 754 total order: non-negative patterns keep
/// their value, patterns with the sign bit set count down from -1.
pub open spec fn order_key(bits: u64) -> int {
    if bits < 0x8000_0000_0000_0000 {
        bits as int
    } else {
        0x7fff_ffff_ffff_ffff - bits as int
    }
}

/// Position of a binary64 bit pattern in the IEEE 754 total order, as a signed integer.
pub fn total_order_key(bits: u64) -> (r: i64)
    ensures
        r == order_key(bits),
{
    if bits < 0x8000_0000_0000_0000 {
        bits as i64
    } else {
        let magnitude = (bits - 0x8000_0000_0000_0000) as i64;
        -1 - magnitude
    }
}

/// An admissible start offered for extension to the current breakpoint, with the running sum
/// of the best partition ending at it.
#[derive(Debug, Clone, Copy, PartialEq, Eq, Structural)]
pub struct Candidate {
    /// First row of the segment.
    pub start: usize,
    /// Running sum of the best partition of the rows before `start`.
    pub sum: RunningSum,
}

/// What a partition holds: its segment ends in order, and its running sum.
pub struct PartitionView {
    /// Ends of the segments, in order.
    pub ends: Seq<usize>,
    /// Running loss-and-penalty sum.
    pub sum: RunningSum,
}

/// A single partition: the ends of its segments and the sum of their losses and penalties.
pub struct Partition {
    /// End of ranges it applies to.
    ranges: SegmentEnds,
    /// Sum of all loss and penalty values.
    loss_and_penalty_sum: RunningSum,
}

impl View for Partition {
    type V = PartitionView;

    closed spec fn view(&self) -> PartitionView {
        PartitionView { ends: ends_of(self.ranges), sum: self.loss_and_penalty_sum }
    }
}

impl Partition {
    /// Push a new segment end, with the running sum that includes its loss and penalty.
    pub fn push(&mut self, range: usize, sum: RunningSum)
        requires
            old(self)@.ends.len() < MAX_ENDS,
        ensures
            final(self)@.ends == old(self)@.ends.push(range),
            final(self)@.sum == sum,
    {
        ends_push(&mut self.ranges, range);
        self.loss_and_penalty_sum = sum;
    }

    /// Get the bit pattern of the sum of the loss and penalty.
    pub fn loss_and_penalty_sum(&self) -> (r: u64)
        ensures
            r == self@.sum.total,
    {
        self.loss_and_penalty_sum.total
    }

    /// The running sum, with its correction term.
    pub fn running_sum(&self) -> (r: RunningSum)
        ensures
            r == self@.sum,
    {
        self.loss_and_penalty_sum
    }

    /// A copy of this partition that goes on to `range`.
    pub(crate) fn extended(&self, range: usize, sum: RunningSum) -> (r: Partition)
        requires
            self@.ends.len() < MAX_ENDS,
        ensures
            r@.ends == self@.ends.push(range),
            r@.sum == sum,
    {
        let mut ranges = ends_clone(&self.ranges);
        ends_push(&mut ranges, range);
        Partition { ranges, loss_and_penalty_sum: sum }
    }

    /// A copy of this partition.
    pub(crate) fn duplicate(&self) -> (r: Partition)
        ensures
            r@ == self@,
    {
        Partition { ranges: ends_clone(&self.ranges), loss_and_penalty_sum: self.loss_and_penalty_sum }
    }

    /// The segment ends, in order.
    pub fn into_ends(self) -> (r: Vec<usize>)
        ensures
            r@ == self@.ends,
    {
        ends_into_vec(self.ranges)
    }
}

impl Default for Partition {
    fn default() -> (r: Self)
        ensures
            r@.ends.len() == 0,
            r@.sum == zero_sum(),
    {
        Partition { ranges: ends_new(), loss_and_penalty_sum: RunningSum { total: 0, compensation: 0 } }
    }
}

} // verus!
