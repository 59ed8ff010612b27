//! Streaming multi-pattern matcher.
//!
//! Patterns are compiled into small deterministic automata with explicit
//! failure transitions; a matcher then runs any number of compiled automata
//! over a byte stream delivered in arbitrary chunks, using memory that does
//! not grow with the amount of data processed.

mod error;
mod matcher;
mod pattern;

pub use error::Error;
pub use matcher::{StreamMatcher, CURSOR_BYTES, STATE_BYTES, TRANSITION_BYTES};
pub use pattern::{compile_pattern, Pattern, PatternBuilder, State};
