use vstd::prelude::*;

verus! {

/// Why a sentence parser stopped.
///
/// `Incomplete` says that the input ended before the grammar could decide, so
/// that more bytes might still make it match; `Invalid` says that the bytes at
/// hand do not match.
#[derive(Debug, Clone, Copy, PartialEq, Eq, Structural)]
pub enum ParseError {
    Incomplete,
    Invalid,
}

/// Why a field could not be turned into a value.
#[derive(Debug, Clone, Copy, PartialEq, Eq, Structural)]
pub enum NmeaSentenceError {
    /// A numeric field did not hold a number of the expected type.
    GeneralParsingError,
    /// A status field held a character that names no known status.
    InvalidStatus(char),
}

} // verus!
