//! 16-bit route metrics with an "infinite"/retracted sentinel.

use vstd::prelude::*;

verus! {

/// The sentinel metric value: a route advertised with this metric is
/// retracted (unreachable).
pub const INFINITE_METRIC: u16 = 0xFFFF;

/// A 16-bit cost value. The maximum value means "infinite": the route is
/// unreachable, but may be kept in the table briefly so the retraction
/// itself propagates.
#[derive(Clone, Copy, Debug, PartialEq, Eq, Structural)]
pub struct Metric {
    pub value: u16,
}

impl Metric {
    /// Whether this metric is the retracted/unreachable sentinel.
    pub open spec fn infinite(self) -> bool {
        self.value == INFINITE_METRIC
    }

    pub fn new(value: u16) -> (r: Metric)
        ensures
            r.value == value,
    {
        Metric { value }
    }

    /// The retracted/unreachable sentinel metric.
    pub fn infinity() -> (r: Metric)
        ensures
            r.infinite(),
            r.value == INFINITE_METRIC,
    {
        Metric { value: INFINITE_METRIC }
    }

    pub fn is_infinite(self) -> (r: bool)
        ensures
            r == self.infinite(),
    {
        self.value == INFINITE_METRIC
    }

    /// Add a link cost to this metric, saturating at the infinite
    /// sentinel: anything at or above the sentinel is unreachable.
    pub fn saturating_add(self, other: Metric) -> (r: Metric)
        ensures
            r.value == if self.value + other.value >= INFINITE_METRIC {
                INFINITE_METRIC as int
            } else {
                self.value + other.value
            },
    {
        let sum: u32 = self.value as u32 + other.value as u32;
        if sum >= INFINITE_METRIC as u32 {
            Metric { value: INFINITE_METRIC }
        } else {
            Metric { value: sum as u16 }
        }
    }
}

} // verus!
