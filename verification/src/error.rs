use vstd::prelude::*;

verus! {

/// Errors reported while compiling a pattern. Feeding bytes to a matcher
/// never fails: every reachable state has a defined transition or failure
/// path for every byte, so errors exist only at construction time.
#[derive(Debug)]
pub enum Error {
    /// A structural problem found while building a pattern: an empty state
    /// list, or a transition endpoint that is not a valid state index.
    InvalidPattern(String),
    /// Reserved for front ends that impose a complexity ceiling (for example
    /// a maximum state count) before handing a pattern to this engine; the
    /// engine itself never produces it.
    PatternTooComplex(String),
}

} // verus!
