use vstd::prelude::*;
use std::time::Duration;
use crate::timing::duration_as_nanos;

verus! {

/// Nanoseconds, so reports stay machine-readable.
#[derive(Clone, Copy, Debug, Default, PartialEq, Eq, PartialOrd, Ord, Structural)]
pub struct DurationNanos(pub u128);

impl DurationNanos {
    pub fn from_duration(d: Duration) -> DurationNanos {
        DurationNanos(duration_as_nanos(&d))
    }
}

/// Work performed by one computation or one edit apply.
#[derive(Clone, Copy, Debug, Default, PartialEq, Eq, Structural)]
pub struct WorkMetrics {
    pub bytes_processed: usize,
    pub allocations_hint: u64,
    pub items_reused: usize,
    pub items_recomputed: usize,
    pub items_invalidated: usize,
    pub items_total: usize,
    pub hashing_nanos: DurationNanos,
}

/// Counters of work that nothing was spent on.
pub open spec fn zero_work() -> WorkMetrics {
    WorkMetrics {
        bytes_processed: 0,
        allocations_hint: 0,
        items_reused: 0,
        items_recomputed: 0,
        items_invalidated: 0,
        items_total: 0,
        hashing_nanos: DurationNanos(0),
    }
}

/// Whether the fieldwise sum of two metrics fits the counters.
pub open spec fn merge_fits(a: WorkMetrics, b: WorkMetrics) -> bool {
    &&& a.bytes_processed + b.bytes_processed <= usize::MAX
    &&& a.allocations_hint + b.allocations_hint <= u64::MAX
    &&& a.items_reused + b.items_reused <= usize::MAX
    &&& a.items_recomputed + b.items_recomputed <= usize::MAX
    &&& a.items_invalidated + b.items_invalidated <= usize::MAX
    &&& a.items_total + b.items_total <= usize::MAX
    &&& a.hashing_nanos.0 + b.hashing_nanos.0 <= u128::MAX
}

impl WorkMetrics {
    pub fn zero() -> (w: WorkMetrics)
        ensures
            w == zero_work(),
    {
        WorkMetrics {
            bytes_processed: 0,
            allocations_hint: 0,
            items_reused: 0,
            items_recomputed: 0,
            items_invalidated: 0,
            items_total: 0,
            hashing_nanos: DurationNanos(0),
        }
    }

    /// Adds every counter of `other` into this one.
    pub fn merge(&mut self, other: &WorkMetrics)
        requires
            merge_fits(*old(self), *other),
        ensures
            final(self).bytes_processed == old(self).bytes_processed + other.bytes_processed,
            final(self).allocations_hint == old(self).allocations_hint + other.allocations_hint,
            final(self).items_reused == old(self).items_reused + other.items_reused,
            final(self).items_recomputed == old(self).items_recomputed + other.items_recomputed,
            final(self).items_invalidated == old(self).items_invalidated + other.items_invalidated,
            final(self).items_total == old(self).items_total + other.items_total,
            final(self).hashing_nanos.0 == old(self).hashing_nanos.0 + other.hashing_nanos.0,
    {
        self.bytes_processed = self.bytes_processed + other.bytes_processed;
        self.allocations_hint = self.allocations_hint + other.allocations_hint;
        self.items_reused = self.items_reused + other.items_reused;
        self.items_recomputed = self.items_recomputed + other.items_recomputed;
        self.items_invalidated = self.items_invalidated + other.items_invalidated;
        self.items_total = self.items_total + other.items_total;
        self.hashing_nanos = DurationNanos(self.hashing_nanos.0 + other.hashing_nanos.0);
    }
}

} // verus!
