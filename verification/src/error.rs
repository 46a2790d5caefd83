//! The errors that parsing reports, and their models.

use vstd::prelude::*;

verus! {

/// Errors produced while parsing subtitle input.
#[derive(Debug, PartialEq, Eq)]
pub enum ParseError {
    /// A timestamp that is neither `HH:MM:SS,mmm` nor `HH:MM:SS.mmm`.
    BadTimestamp(String),
    /// A cue whose first or second line holds no `-->`.
    MissingArrow { line: usize },
    /// A timing line whose start or end timestamp is malformed.
    BadTiming { line: usize, text: String },
    /// The input held no cue at all.
    Empty,
}

/// The mathematical model of a [`ParseError`]: its strings as character sequences.
pub enum ParseErrorModel {
    BadTimestamp(Seq<char>),
    MissingArrow { line: nat },
    BadTiming { line: nat, text: Seq<char> },
    Empty,
}

impl View for ParseError {
    type V = ParseErrorModel;

    open spec fn view(&self) -> ParseErrorModel {
        match self {
            ParseError::BadTimestamp(s) => ParseErrorModel::BadTimestamp(s@),
            ParseError::MissingArrow { line } => ParseErrorModel::MissingArrow { line: *line as nat },
            ParseError::BadTiming { line, text } => ParseErrorModel::BadTiming {
                line: *line as nat,
                text: text@,
            },
            ParseError::Empty => ParseErrorModel::Empty,
        }
    }
}

/// Why an input could not be turned into a value: either the text is
/// rejected with a [`ParseError`], or it is well formed but names a time past
/// `i64::MAX` milliseconds, which the millisecond arithmetic cannot hold.
#[derive(Debug, PartialEq, Eq)]
pub enum ParseFailure {
    Rejected(ParseError),
    TooLarge,
}

pub enum FailureModel {
    Rejected(ParseErrorModel),
    TooLarge,
}

impl View for ParseFailure {
    type V = FailureModel;

    open spec fn view(&self) -> FailureModel {
        match self {
            ParseFailure::Rejected(e) => FailureModel::Rejected(e@),
            ParseFailure::TooLarge => FailureModel::TooLarge,
        }
    }
}

} // verus!
