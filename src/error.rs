use vstd::prelude::*;

verus! {

/// The ways a selection or parsing call can fail.
#[derive(Debug, Clone, Copy, PartialEq, Eq, Structural)]
pub enum EngineError {
    /// A score vector of length zero was handed in.
    EmptyInput,
    /// A query vector and a candidate vector differ in length.
    DimensionMismatch,
    /// A filtering stage removed all probability mass.
    DegenerateDistribution,
    /// Bytes that should hold text are not valid UTF-8.
    InvalidUtf8,
    /// No text extraction exists for the file's extension.
    UnsupportedFileType,
    /// The file type is known but its text cannot be extracted yet.
    ParserUnavailable,
}

} // verus!
