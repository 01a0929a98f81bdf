//! The failures a request can end in.

use vstd::prelude::*;

verus! {

/// Which side of a request a collection stands on.
#[derive(Debug, Clone, Copy, PartialEq, Eq, Structural)]
pub enum InputType {
    Query,
    Reference,
}

/// Why a request was turned down. Every failure is fatal for the one request
/// that raised it; nothing is half-produced.
#[derive(Debug, Clone, PartialEq, Eq)]
#[allow(inconsistent_fields)]
pub enum Error {
    /// A string holds a byte outside `0x00..=0x7F`.
    NonAsciiInput { row_num: usize, offending_string: Vec<u8> },
    /// A collection holds more strings than its index type can number.
    TooManyStrings { input_type: InputType, count: usize, limit: usize },
    /// The threshold is 255, which is kept for "above the threshold".
    MaxDistCapped,
    /// A query against a cached reference asks for more than it was built for.
    MaxDistTooLargeForCache { got: u8, limit: u8 },
}

} // verus!
