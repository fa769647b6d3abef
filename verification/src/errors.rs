//! The errors that parsing and editing a locale can report.

use vstd::prelude::*;

verus! {

/// Why a locale text, or a value handed to a setter, was rejected.
#[derive(Debug, Clone, Copy, PartialEq, Eq, Structural)]
pub enum ParserError {
    /// The language subtag is malformed.
    InvalidLanguage,
    /// A script, region or variant subtag is malformed.
    InvalidSubtag,
    /// The extension part is malformed. The number is the position of the
    /// offending segment among the segments of the input, counted from zero.
    InvalidExtension(usize),
}

/// The error of every fallible operation on a locale.
#[derive(Debug, Clone, Copy, PartialEq, Eq, Structural)]
pub enum LocaleError {
    /// A failure that is not a parsing failure.
    Unknown,
    /// The input was malformed.
    ParserError(ParserError),
}

} // verus!
