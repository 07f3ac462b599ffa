//! The errors that the library returns.

use vstd::prelude::*;

verus! {

/// Why training left the table as it was.
#[derive(Debug, Clone, Copy, PartialEq, Eq, Structural)]
pub enum TrainError {
    /// A sequence of the corpus is shorter than one window.
    SequenceTooShort,
    /// A count would pass the largest value that 32 bits hold.
    CountOverflow,
}

/// Why a table could not be written as a document.
#[derive(Debug, Clone, Copy, PartialEq, Eq, Structural)]
pub enum SaveError {
    /// The serializer refused the records.
    Encoding,
}

/// Why a document could not be loaded.
#[derive(Debug, Clone, Copy, PartialEq, Eq, Structural)]
pub enum LoadError {
    /// The text is not a document of the expected shape.
    Malformed,
    /// The document holds a count of zero.
    ZeroCount,
}

} // verus!
