//! The closed set of failure kinds. Errors are data, not control flow: a
//! caller inspects and handles them explicitly.

use vstd::prelude::*;

verus! {

/// A scanner failure.
#[derive(Debug)]
pub enum ScanError {
    /// No literal and no pattern matched: the offending character and its
    /// character (not byte) index in the input.
    BadToken(char, usize),
    /// A pattern failed to compile during configuration: the name of the
    /// first pattern (in configuration order) that the engine rejected,
    /// and the engine's diagnostic.
    InvalidRegex(String, Box<fancy_regex::Error>),
}

} // verus!
