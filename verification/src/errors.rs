//! Error values of the text-analysis functions. All failures are
//! values; nothing here aborts the process.

use vstd::prelude::*;

verus! {

/// Errors of the statistics and pattern-matching functions.
#[derive(Debug, Clone, PartialEq, Eq, Structural)]
pub enum LexicaError {
    /// The input bytes are not well-formed UTF-8.
    InvalidUtf8,
    /// An internal step (pattern-automaton construction) failed.
    ProcessingError,
}

impl LexicaError {
    /// A short human-readable description of the error.
    pub fn describe(&self) -> (r: &'static str)
        ensures
            self is InvalidUtf8 ==> r@ == "Invalid UTF-8 sequence"@,
            self is ProcessingError ==> r@ == "Processing error"@,
    {
        match self {
            LexicaError::InvalidUtf8 => "Invalid UTF-8 sequence",
            LexicaError::ProcessingError => "Processing error",
        }
    }
}

/// Errors of the morphological parser. Segmentation itself has no error
/// path; these values exist for callers that wrap the parser.
#[derive(Debug, Clone)]
pub enum ParserError {
    /// The input could not be accepted.
    InvalidInput(String),
    /// An internal processing step failed.
    ProcessingError(String),
}

} // verus!
