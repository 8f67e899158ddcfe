//! A single-threaded call-tree profiler: named scopes are entered and
//! exited, samples accumulate per call path, and the tree renders as a
//! textual report.
mod decimal;
pub mod format;
pub mod formatter;
pub mod measurement;
pub mod measurement_tracker;

pub use format::FormattingOptions;
pub use formatter::get_formatted_string;
pub use measurement::{measure, reset, Measurement, Profiler};
pub use measurement_tracker::MeasurementTracker;

