//! The handle of a scope that is being measured.
use vstd::prelude::*;

verus! {

/// A started measurement. When its scope ends, hand it to
/// `Profiler::exit`, which logs the scope's duration.
///
/// Times are nanoseconds on one monotonic clock of the caller's choosing.
#[derive(Clone, Copy, Debug)]
pub struct MeasurementTracker {
    /// When the scope was entered.
    pub start_time: u64,
    /// What entering the scope cost the profiler itself.
    pub overhead: u64,
}

} // verus!
