//! The regular expression engine that the compiled patterns run on.
//!
//! Everything in this module is believed, not proved: each function calls
//! the `fancy_regex` crate, and its contract gives the outcome a name that
//! the rest of the library reasons with.

use vstd::prelude::*;

verus! {

#[verifier::external_type_specification]
#[verifier::external_body]
pub struct ExRegex(fancy_regex::Regex);

#[verifier::external_type_specification]
#[verifier::external_body]
pub struct ExRegexError(fancy_regex::Error);

/// The message with which `fancy_regex::Regex::new` refuses the text as a
/// regular expression; `None` where it accepts the text.
pub uninterp spec fn regex_refusal(source: Seq<char>) -> Option<Seq<char>>;

/// The text that a compiled expression was made from, as
/// `fancy_regex::Regex::as_str` gives it.
pub uninterp spec fn regex_source(re: fancy_regex::Regex) -> Seq<char>;

/// What `fancy_regex::Regex::is_match` says of the expression and the text:
/// whether the expression matches somewhere in the text, or `None` where the
/// engine gives up.
pub uninterp spec fn regex_finds(re: fancy_regex::Regex, text: Seq<char>) -> Option<bool>;

/// What `fancy_regex::Regex::try_replacen` leaves of the text when every
/// match is replaced by nothing, or `None` where the engine gives up.
pub uninterp spec fn regex_strips(re: fancy_regex::Regex, text: Seq<char>) -> Option<Seq<char>>;

/// What an error of the engine says of itself when it is displayed.
pub uninterp spec fn regex_error_text(e: fancy_regex::Error) -> Seq<char>;

/// Calls `fancy_regex::Regex::new`, which parses and compiles the text with
/// the default options. The contract claims that the outcome depends on the
/// text alone, and that an expression that was accepted remembers the text
/// it was made from.
#[verifier::external_body]
pub(crate) fn compile_regex(source: &str) -> (r: Result<fancy_regex::Regex, fancy_regex::Error>)
    ensures
        match regex_refusal(source@) {
            None => r matches Ok(re) && regex_source(re) == source@,
            Some(message) => r matches Err(e) && regex_error_text(e) == message,
        },
{
    fancy_regex::Regex::new(source)
}

/// Calls `to_string` on an error of the engine, which displays it.
#[verifier::external_body]
pub(crate) fn describe_regex_error(e: &fancy_regex::Error) -> (r: String)
    ensures
        r@ == regex_error_text(*e),
{
    e.to_string()
}

/// Calls `fancy_regex::Regex::as_str`, which returns the text that the
/// expression was made from.
#[verifier::external_body]
pub(crate) fn regex_text(re: &fancy_regex::Regex) -> (r: String)
    ensures
        r@ == regex_source(*re),
{
    re.as_str().to_owned()
}

/// Calls `fancy_regex::Regex::is_match`. The contract claims only that the
/// outcome depends on the expression and the text alone. An error of the
/// engine, such as a search that exceeds the backtracking limit, comes back
/// as `None`.
#[verifier::external_body]
pub(crate) fn regex_is_match(re: &fancy_regex::Regex, text: &str) -> (r: Option<bool>)
    ensures
        r == regex_finds(*re, text@),
{
    re.is_match(text).ok()
}

/// Calls `fancy_regex::Regex::try_replacen` with no limit and an empty
/// replacement: every non-overlapping match is cut out of the text. The
/// contract claims that the outcome depends on the expression and the text
/// alone, and that a text in which the expression finds no match comes back
/// as it is. An error of the engine comes back as `None`.
#[verifier::external_body]
pub(crate) fn regex_strip(re: &fancy_regex::Regex, text: &str) -> (r: Option<String>)
    ensures
        match regex_strips(*re, text@) {
            Some(left) => r matches Some(s) && s@ == left && (regex_finds(*re, text@) == Some(
                false,
            ) ==> s@ == text@),
            None => r is None && regex_finds(*re, text@) != Some(false),
        },
{
    match re.try_replacen(text, 0, "") {
        Ok(left) => Some(left.into_owned()),
        Err(_) => None,
    }
}

} // verus!
