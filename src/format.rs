//! The glyphs that draw the branches of a report.
use vstd::prelude::*;

verus! {

/// The six glyphs that draw a report's branches.
///
/// In a reference print with the glyphs `>`, `|`, `+`, `-`, `....` and `,,,,`:
///
/// ```text
/// >,,,, main                      - 100.0%, 300 ms/loop
///   +,,,, physics simulation      -  66.7%, 200 ms/loop
///   | +.... moving things         -  50.0%, 100 ms/loop
///   | -.... resolving collisions  -  50.0%, 100 ms/loop
///   -.... rendering               -  33.3%, 100 ms/loop
/// ```
#[derive(Clone, Copy)]
pub struct FormattingOptions {
    /// Starts the branch of a top-level scope (`>` above).
    pub starting_branch: &'static str,
    /// Continues a branch past a deeper row (`|` above).
    pub continuing_branch: &'static str,
    /// Forks off a scope that has later siblings (`+` above).
    pub branching_branch: &'static str,
    /// Turns into the last scope under a parent (`-` above).
    pub turning_branch: &'static str,
    /// Ends a branch at a scope without children (`....` above).
    pub ending_branch: &'static str,
    /// Ends a branch at a scope with children (`,,,,` above).
    pub turning_ending_branch: &'static str,
}

} // verus!
