//! The ways in which a pattern can fail to compile.

use vstd::prelude::*;

verus! {

/// An error found while a pattern was processed.
#[derive(Debug)]
pub enum PatternError {
    /// A bare escape character at the end of the pattern.
    BareEscape,
    /// The resulting regular expression was refused: the expression, then
    /// the reason.
    InvalidRegex(String, String),
    /// The pattern uses something that is not supported.
    NotImplemented(String),
    /// A dash follows a completed range within a character class, as in
    /// `[a-b-c]`: the start and the end of the completed range.
    RangeAfterRange(char, char),
    /// A range within a character class runs backwards: its start and its end.
    ReversedRange(char, char),
    /// An alternation that was not closed before the end of the pattern.
    UnclosedAlternation,
    /// A character class that was not closed before the end of the pattern.
    UnclosedClass,
}

/// What a [`PatternError`] says, with its texts as sequences of characters.
pub enum PatternErrorView {
    BareEscape,
    InvalidRegex(Seq<char>, Seq<char>),
    NotImplemented(Seq<char>),
    RangeAfterRange(char, char),
    ReversedRange(char, char),
    UnclosedAlternation,
    UnclosedClass,
}

impl View for PatternError {
    type V = PatternErrorView;

    open spec fn view(&self) -> PatternErrorView {
        match self {
            PatternError::BareEscape => PatternErrorView::BareEscape,
            PatternError::InvalidRegex(pattern, reason) => PatternErrorView::InvalidRegex(pattern@, reason@),
            PatternError::NotImplemented(message) => PatternErrorView::NotImplemented(message@),
            PatternError::RangeAfterRange(start, end) => PatternErrorView::RangeAfterRange(*start, *end),
            PatternError::ReversedRange(start, end) => PatternErrorView::ReversedRange(*start, *end),
            PatternError::UnclosedAlternation => PatternErrorView::UnclosedAlternation,
            PatternError::UnclosedClass => PatternErrorView::UnclosedClass,
        }
    }
}

} // verus!
