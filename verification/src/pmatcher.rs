//! The compiled patterns of a run and what they say of a name.

use vstd::prelude::*;
use vstd::string::StringExecFns;
use crate::fnmatch_regex::error::{PatternError, PatternErrorView};
use crate::fnmatch_regex::glob::{glob_regex, glob_to_regex_chars};
use crate::pconfig::PatternsConfig;
use crate::regex::{
    compile_regex, describe_regex_error, regex_finds, regex_is_match, regex_refusal, regex_source,
    regex_strip, regex_strips, regex_text,
};
use crate::text::{from_chars, slice_chars, strings_view, to_chars, trim, trimmed};

verus! {

/// The compiled patterns of a run: built once, read by every classification.
#[derive(Debug)]
pub struct PatternMatcher {
    /// A name that one of these matches is deleted; the first match wins.
    pub patterns_to_remove: Vec<fancy_regex::Regex>,
    /// A file whose name one of these matches is deleted where its content
    /// has one of the digests listed with the pattern.
    pub patterns_to_remove_with_hash: Vec<(fancy_regex::Regex, Vec<String>)>,
    /// What these match is cut out of a name, one pattern after the other.
    pub patterns_to_rename: Vec<fancy_regex::Regex>,
}

/// The regular expression that a pattern of the configuration stands for.
/// The pattern is trimmed. Where `mixed` holds and the pattern begins with
/// `/`, what follows the slash is the expression as it is; otherwise the
/// pattern is a glob and is compiled.
pub open spec fn pattern_regex(entry: Seq<char>, mixed: bool) -> Result<
    Seq<char>,
    PatternErrorView,
> {
    let pattern = trimmed(entry);
    if mixed && pattern.len() > 0 && pattern[0] == '/' {
        Ok(pattern.drop_first())
    } else {
        glob_regex(pattern)
    }
}

/// Why a pattern of the configuration cannot be used, if it cannot: the
/// glob is malformed, or the engine refuses the regular expression.
pub open spec fn pattern_failure(entry: Seq<char>, mixed: bool) -> Option<PatternErrorView> {
    match pattern_regex(entry, mixed) {
        Err(e) => Some(e),
        Ok(source) => match regex_refusal(source) {
            Some(message) => Some(PatternErrorView::InvalidRegex(source, message)),
            None => None,
        },
    }
}

/// Why the first pattern of a list that cannot be used cannot be used.
pub open spec fn first_failure(entries: Seq<Seq<char>>, mixed: bool) -> Option<PatternErrorView>
    decreases entries.len(),
{
    if entries.len() == 0 {
        None
    } else {
        match first_failure(entries.drop_last(), mixed) {
            Some(e) => Some(e),
            None => pattern_failure(entries.last(), mixed),
        }
    }
}

/// The patterns of a list of patterns with digests, position by position.
pub open spec fn hash_keys(v: Seq<(String, Vec<String>)>) -> Seq<Seq<char>> {
    Seq::new(v.len(), |i: int| v[i].0@)
}

/// Whether the compiled expressions are those of the patterns, one for one.
pub open spec fn compiled_from(
    list: Seq<fancy_regex::Regex>,
    entries: Seq<Seq<char>>,
    mixed: bool,
) -> bool {
    &&& list.len() == entries.len()
    &&& forall|i: int|
        0 <= i < list.len() ==> pattern_regex(#[trigger] entries[i], mixed) == Ok::<
            Seq<char>,
            PatternErrorView,
        >(regex_source(list[i]))
}

/// Compiles one pattern of the configuration.
fn parse_pattern(pattern: &str, mixed: bool) -> (r: Result<fancy_regex::Regex, PatternError>)
    ensures
        match pattern_failure(pattern@, mixed) {
            Some(e) => r matches Err(x) && x@ == e,
            None => r matches Ok(re) && pattern_regex(pattern@, mixed) == Ok::<
                Seq<char>,
                PatternErrorView,
            >(regex_source(re)),
        },
{
    let chars = to_chars(pattern);
    let pattern = trim(&chars);
    let source = if mixed && pattern.len() > 0 && pattern[0] == '/' {
        let rest = slice_chars(&pattern, 1, pattern.len());
        assert(rest@ == pattern@.drop_first());
        rest
    } else {
        match glob_to_regex_chars(pattern) {
            Ok(text) => text,
            Err(e) => {
                return Err(e);
            },
        }
    };
    let source = from_chars(&source);
    match compile_regex(source.as_str()) {
        Ok(re) => Ok(re),
        Err(e) => {
            let message = describe_regex_error(&e);
            Err(PatternError::InvalidRegex(source, message))
        },
    }
}

/// Compiles a pattern that is a glob, or, behind a leading `/`, a regular
/// expression.
pub fn parse_mixed_regex(pattern: &str) -> (r: Result<fancy_regex::Regex, PatternError>)
    ensures
        match pattern_failure(pattern@, true) {
            Some(e) => r matches Err(x) && x@ == e,
            None => r matches Ok(re) && pattern_regex(pattern@, true) == Ok::<
                Seq<char>,
                PatternErrorView,
            >(regex_source(re)),
        },
{
    parse_pattern(pattern, true)
}

/// Compiles the patterns of a list, each a glob or, behind a leading `/`, a
/// regular expression. The first pattern that cannot be used fails the list.
pub fn create_mixed_regex_list(patterns: &Vec<String>) -> (r: Result<
    Vec<fancy_regex::Regex>,
    PatternError,
>)
    ensures
        match first_failure(strings_view(patterns@), true) {
            Some(e) => r matches Err(x) && x@ == e,
            None => r matches Ok(list) && compiled_from(list@, strings_view(patterns@), true),
        },
{
    let ghost entries = strings_view(patterns@);
    let mut list: Vec<fancy_regex::Regex> = Vec::new();
    let mut i: usize = 0;
    while i < patterns.len()
        invariant
            i <= patterns.len(),
            entries == strings_view(patterns@),
            first_failure(entries.take(i as int), true) is None,
            compiled_from(list@, entries.take(i as int), true),
        decreases patterns.len() - i,
    {
        proof {
            assert(entries.take(i + 1).drop_last() == entries.take(i as int));
            assert(entries.take(i + 1).last() == patterns@[i as int]@);
        }
        match parse_pattern(patterns[i].as_str(), true) {
            Ok(re) => {
                list.push(re);
            },
            Err(e) => {
                proof {
                    lemma_first_failure_extends(entries, i + 1);
                }
                return Err(e);
            },
        }
        i = i + 1;
    }
    assert(entries.take(patterns.len() as int) == entries);
    Ok(list)
}

/// A failure among the first patterns of a list is the failure of the list.
proof fn lemma_first_failure_extends(entries: Seq<Seq<char>>, n: int)
    requires
        0 <= n <= entries.len(),
        first_failure(entries.take(n), true) is Some || first_failure(entries.take(n), false) is Some,
    ensures
        first_failure(entries.take(n), true) is Some ==> first_failure(entries, true)
            == first_failure(entries.take(n), true),
        first_failure(entries.take(n), false) is Some ==> first_failure(entries, false)
            == first_failure(entries.take(n), false),
    decreases entries.len() - n,
{
    if n < entries.len() {
        assert(entries.take(n + 1).drop_last() == entries.take(n));
        lemma_first_failure_extends(entries, n + 1);
    } else {
        assert(entries.take(n) == entries);
    }
}

/// A copy of a list of strings.
fn copy_strings(v: &Vec<String>) -> (r: Vec<String>)
    ensures
        strings_view(r@) == strings_view(v@),
{
    let mut r: Vec<String> = Vec::new();
    let mut i: usize = 0;
    while i < v.len()
        invariant
            i <= v.len(),
            r.len() == i,
            forall|k: int| 0 <= k < i ==> r@[k]@ == v@[k]@,
        decreases v.len() - i,
    {
        r.push(v[i].clone());
        i = i + 1;
    }
    assert(strings_view(r@) =~= strings_view(v@));
    r
}

/// Whether the compiled patterns with digests are those of the
/// configuration, one for one: the pattern compiled as a glob, the digests
/// as they are.
pub open spec fn hashed_from(
    list: Seq<(fancy_regex::Regex, Vec<String>)>,
    entries: Seq<(String, Vec<String>)>,
) -> bool {
    &&& list.len() == entries.len()
    &&& forall|i: int|
        0 <= i < list.len() ==> pattern_regex(#[trigger] entries[i].0@, false) == Ok::<
            Seq<char>,
            PatternErrorView,
        >(regex_source(list[i].0)) && strings_view(list[i].1@) == strings_view(entries[i].1@)
}

/// Compiles the patterns that come with digests: each pattern is a glob.
/// The first pattern that cannot be used fails the list.
pub fn create_patterns_with_hash(patterns: &Vec<(String, Vec<String>)>) -> (r: Result<
    Vec<(fancy_regex::Regex, Vec<String>)>,
    PatternError,
>)
    ensures
        match first_failure(hash_keys(patterns@), false) {
            Some(e) => r matches Err(x) && x@ == e,
            None => r matches Ok(list) && hashed_from(list@, patterns@),
        },
{
    let ghost entries = hash_keys(patterns@);
    let mut list: Vec<(fancy_regex::Regex, Vec<String>)> = Vec::new();
    let mut i: usize = 0;
    while i < patterns.len()
        invariant
            i <= patterns.len(),
            entries == hash_keys(patterns@),
            first_failure(entries.take(i as int), false) is None,
            hashed_from(list@, patterns@.take(i as int)),
        decreases patterns.len() - i,
    {
        proof {
            assert(entries.take(i + 1).drop_last() == entries.take(i as int));
            assert(entries.take(i + 1).last() == patterns@[i as int].0@);
        }
        match parse_pattern(patterns[i].0.as_str(), false) {
            Ok(re) => {
                let digests = copy_strings(&patterns[i].1);
                list.push((re, digests));
            },
            Err(e) => {
                proof {
                    lemma_first_failure_extends(entries, i + 1);
                }
                return Err(e);
            },
        }
        i = i + 1;
    }
    assert(entries.take(patterns.len() as int) == entries);
    assert(patterns@.take(patterns.len() as int) == patterns@);
    Ok(list)
}

/// Why the first pattern of a configuration that cannot be used cannot be
/// used, the patterns taken in this order: those to remove, those to clean
/// up, those with digests.
pub open spec fn config_failure(config: PatternsConfig) -> Option<PatternErrorView> {
    match first_failure(strings_view(config.remove@), true) {
        Some(e) => Some(e),
        None => match first_failure(strings_view(config.cleanup@), true) {
            Some(e) => Some(e),
            None => first_failure(hash_keys(config.remove_hash@), false),
        },
    }
}

/// Whether an expression matches somewhere in the text. Where the engine
/// gives up there is no match.
pub open spec fn hits(re: fancy_regex::Regex, text: Seq<char>) -> bool {
    regex_finds(re, text) == Some(true)
}

/// The first of the expressions that matches the text, as the text it was
/// made from; `None` where none matches.
pub open spec fn remove_match(patterns: Seq<fancy_regex::Regex>, text: Seq<char>) -> Option<
    Seq<char>,
>
    decreases patterns.len(),
{
    if patterns.len() == 0 {
        None
    } else if hits(patterns[0], text) {
        Some(regex_source(patterns[0]))
    } else {
        remove_match(patterns.drop_first(), text)
    }
}

/// Whether one of the digests is the given one.
pub open spec fn lists_digest(digests: Seq<String>, digest: Seq<char>) -> bool {
    exists|k: int| 0 <= k < digests.len() && #[trigger] digests[k]@ == digest
}

/// The reason given for a deletion by name and digest: the expression, a
/// colon, the digest.
pub open spec fn hash_reason(re: fancy_regex::Regex, digest: Seq<char>) -> Seq<char> {
    regex_source(re) + seq![':'] + digest
}

/// The first pattern that matches the name and lists the digest, as the
/// reason for the deletion; `None` where there is none.
pub open spec fn hash_match(
    patterns: Seq<(fancy_regex::Regex, Vec<String>)>,
    name: Seq<char>,
    digest: Seq<char>,
) -> Option<Seq<char>>
    decreases patterns.len(),
{
    if patterns.len() == 0 {
        None
    } else if hits(patterns[0].0, name) && lists_digest(patterns[0].1@, digest) {
        Some(hash_reason(patterns[0].0, digest))
    } else {
        hash_match(patterns.drop_first(), name, digest)
    }
}

/// Whether a pattern with digests matches the name, so that the digest of
/// the content decides.
pub open spec fn digest_wanted(
    patterns: Seq<(fancy_regex::Regex, Vec<String>)>,
    name: Seq<char>,
) -> bool {
    exists|i: int| 0 <= i < patterns.len() && hits(#[trigger] patterns[i].0, name)
}

/// The text with the matches of the expression cut out. A text in which
/// the expression finds no match stays as it is, and so does a text on
/// which the engine gives up.
pub open spec fn stripped(re: fancy_regex::Regex, text: Seq<char>) -> Seq<char> {
    if regex_finds(re, text) == Some(false) {
        text
    } else {
        match regex_strips(re, text) {
            Some(left) => left,
            None => text,
        }
    }
}

/// Whether none of the expressions finds a match in the text.
pub open spec fn none_finds(patterns: Seq<fancy_regex::Regex>, text: Seq<char>) -> bool {
    forall|i: int| 0 <= i < patterns.len() ==> regex_finds(#[trigger] patterns[i], text) == Some(false)
}

/// Cleaning leaves a text alone in which no pattern finds a match.
pub proof fn lemma_unmatched_text_stays(patterns: Seq<fancy_regex::Regex>, text: Seq<char>)
    requires
        none_finds(patterns, text),
    ensures
        cleaned(patterns, text) == text,
    decreases patterns.len(),
{
    if patterns.len() > 0 {
        let rest = patterns.drop_first();
        assert(regex_finds(patterns[0], text) == Some(false));
        assert forall|i: int| 0 <= i < rest.len() implies regex_finds(#[trigger] rest[i], text)
            == Some(false) by {
            assert(rest[i] == patterns[i + 1]);
        }
        lemma_unmatched_text_stays(rest, text);
    }
}

/// Cleaning leaves a path alone in whose name no pattern finds a match.
pub proof fn lemma_unmatched_name_stays(patterns: Seq<fancy_regex::Regex>, path: Seq<char>)
    requires
        none_finds(patterns, name_of(path)),
    ensures
        cleaned_path(patterns, path) == path,
{
    lemma_name_start_bounds(path);
    lemma_unmatched_text_stays(patterns, path.skip(name_start(path)));
    assert(path.take(name_start(path)) + path.skip(name_start(path)) =~= path);
}

/// The text after each expression in turn has cut its matches out of what
/// the one before has left.
pub open spec fn cleaned(patterns: Seq<fancy_regex::Regex>, text: Seq<char>) -> Seq<char>
    decreases patterns.len(),
{
    if patterns.len() == 0 {
        text
    } else {
        cleaned(patterns.drop_first(), stripped(patterns[0], text))
    }
}

/// Where the name begins in a path: behind the last slash, or at the start
/// where there is no slash.
pub open spec fn name_start(path: Seq<char>) -> int
    decreases path.len(),
{
    if path.len() == 0 {
        0
    } else if path.last() == '/' {
        path.len() as int
    } else {
        name_start(path.drop_last())
    }
}

/// The name starts within the path.
pub proof fn lemma_name_start_bounds(path: Seq<char>)
    ensures
        0 <= name_start(path) <= path.len(),
    decreases path.len(),
{
    if path.len() > 0 && path.last() != '/' {
        lemma_name_start_bounds(path.drop_last());
    }
}

/// The name of a path: what stands behind its last slash.
pub open spec fn name_of(path: Seq<char>) -> Seq<char> {
    path.skip(name_start(path))
}

/// The path with its name cleaned: what stands before the name is kept as
/// it is.
pub open spec fn cleaned_path(patterns: Seq<fancy_regex::Regex>, path: Seq<char>) -> Seq<char> {
    path.take(name_start(path)) + cleaned(patterns, name_of(path))
}

/// The text of an optional string.
pub open spec fn optional_text(s: Option<String>) -> Option<Seq<char>> {
    match s {
        Some(t) => Some(t@),
        None => None,
    }
}

/// Where the name begins in a path.
pub fn name_offset(path: &Vec<char>) -> (r: usize)
    ensures
        r == name_start(path@),
        r <= path.len(),
{
    let mut start: usize = path.len();
    assert(path@.take(path.len() as int) == path@);
    while start > 0 && path[start - 1] != '/'
        invariant
            start <= path.len(),
            name_start(path@) == name_start(path@.take(start as int)),
        decreases start,
    {
        proof {
            assert(path@.take(start as int).drop_last() == path@.take(start - 1));
        }
        start = start - 1;
    }
    proof {
        if start > 0 {
            assert(path@.take(start as int).last() == '/');
        }
    }
    start
}

impl PatternMatcher {
    /// Whether the matcher holds the patterns of the configuration, compiled
    /// one for one.
    pub open spec fn built_from(&self, config: PatternsConfig) -> bool {
        &&& compiled_from(self.patterns_to_remove@, strings_view(config.remove@), true)
        &&& compiled_from(self.patterns_to_rename@, strings_view(config.cleanup@), true)
        &&& hashed_from(self.patterns_to_remove_with_hash@, config.remove_hash@)
    }

    /// Compiles the patterns of a configuration. A pattern to remove or to
    /// clean up that begins with `/` is a regular expression, any other a
    /// glob; a pattern with digests is always a glob. The first pattern that
    /// cannot be used fails the whole configuration.
    pub fn from_config(config: &PatternsConfig) -> (r: Result<PatternMatcher, PatternError>)
        ensures
            match config_failure(*config) {
                Some(e) => r matches Err(x) && x@ == e,
                None => r matches Ok(matcher) && matcher.built_from(*config),
            },
    {
        let patterns_to_remove = match create_mixed_regex_list(&config.remove) {
            Ok(list) => list,
            Err(e) => {
                return Err(e);
            },
        };
        let patterns_to_rename = match create_mixed_regex_list(&config.cleanup) {
            Ok(list) => list,
            Err(e) => {
                return Err(e);
            },
        };
        let patterns_to_remove_with_hash = match create_patterns_with_hash(&config.remove_hash) {
            Ok(list) => list,
            Err(e) => {
                return Err(e);
            },
        };
        Ok(PatternMatcher { patterns_to_remove, patterns_to_remove_with_hash, patterns_to_rename })
    }

    /// Whether a pattern to remove matches the name, and the first that does.
    pub fn match_remove_pattern(&self, test_file: &str) -> (r: (bool, Option<String>))
        ensures
            optional_text(r.1) == remove_match(self.patterns_to_remove@, test_file@),
            r.0 == r.1.is_some(),
    {
        let ghost all = self.patterns_to_remove@;
        let mut i: usize = 0;
        assert(all.skip(0) == all);
        while i < self.patterns_to_remove.len()
            invariant
                i <= self.patterns_to_remove.len(),
                all == self.patterns_to_remove@,
                remove_match(all, test_file@) == remove_match(all.skip(i as int), test_file@),
            decreases self.patterns_to_remove.len() - i,
        {
            let re = &self.patterns_to_remove[i];
            proof {
                assert(all.skip(i as int)[0] == all[i as int]);
                assert(all.skip(i as int).drop_first() == all.skip(i + 1));
            }
            match regex_is_match(re, test_file) {
                Some(true) => {
                    return (true, Some(regex_text(re)));
                },
                _ => {},
            }
            i = i + 1;
        }
        (false, None)
    }

    /// Whether a pattern with digests matches the name, so that the digest
    /// of the content is wanted.
    pub fn wants_digest(&self, filename: &str) -> (r: bool)
        ensures
            r == digest_wanted(self.patterns_to_remove_with_hash@, filename@),
    {
        let mut i: usize = 0;
        while i < self.patterns_to_remove_with_hash.len()
            invariant
                i <= self.patterns_to_remove_with_hash.len(),
                forall|j: int|
                    0 <= j < i ==> !hits(
                        #[trigger] self.patterns_to_remove_with_hash@[j].0,
                        filename@,
                    ),
            decreases self.patterns_to_remove_with_hash.len() - i,
        {
            match regex_is_match(&self.patterns_to_remove_with_hash[i].0, filename) {
                Some(true) => {
                    return true;
                },
                _ => {},
            }
            i = i + 1;
        }
        false
    }

    /// Whether a pattern with digests matches the name and lists the digest
    /// of the content, and the first that does, with the digest.
    pub fn match_remove_hash(&self, filename: &str, digest: &str) -> (r: (bool, Option<String>))
        ensures
            optional_text(r.1) == hash_match(
                self.patterns_to_remove_with_hash@,
                filename@,
                digest@,
            ),
            r.0 == r.1.is_some(),
    {
        let ghost all = self.patterns_to_remove_with_hash@;
        let wanted = digest.to_owned();
        let mut i: usize = 0;
        assert(all.skip(0) == all);
        while i < self.patterns_to_remove_with_hash.len()
            invariant
                i <= self.patterns_to_remove_with_hash.len(),
                all == self.patterns_to_remove_with_hash@,
                wanted@ == digest@,
                hash_match(all, filename@, digest@) == hash_match(
                    all.skip(i as int),
                    filename@,
                    digest@,
                ),
            decreases self.patterns_to_remove_with_hash.len() - i,
        {
            let re = &self.patterns_to_remove_with_hash[i].0;
            let digests = &self.patterns_to_remove_with_hash[i].1;
            proof {
                assert(all.skip(i as int)[0] == all[i as int]);
                assert(all.skip(i as int).drop_first() == all.skip(i + 1));
            }
            match regex_is_match(re, filename) {
                Some(true) => {
                    if holds_string(digests, &wanted) {
                        let mut reason = regex_text(re);
                        reason.push(':');
                        reason.append(digest);
                        return (true, Some(reason));
                    }
                },
                _ => {},
            }
            i = i + 1;
        }
        (false, None)
    }

    /// The path with its name cleaned: each pattern to clean up in turn
    /// cuts its matches out of the name. What stands before the name, up to
    /// the last slash, is kept as it is.
    pub fn clean_filename(&self, filename: &str) -> (r: String)
        ensures
            r@ == cleaned_path(self.patterns_to_rename@, filename@),
    {
        let chars = to_chars(filename);
        let start = name_offset(&chars);
        let prefix = slice_chars(&chars, 0, start);
        let name = slice_chars(&chars, start, chars.len());
        let mut new_filename = from_chars(&name);
        let ghost all = self.patterns_to_rename@;
        let mut i: usize = 0;
        assert(all.skip(0) == all);
        while i < self.patterns_to_rename.len()
            invariant
                i <= self.patterns_to_rename.len(),
                all == self.patterns_to_rename@,
                cleaned(all, name@) == cleaned(all.skip(i as int), new_filename@),
            decreases self.patterns_to_rename.len() - i,
        {
            proof {
                assert(all.skip(i as int)[0] == all[i as int]);
                assert(all.skip(i as int).drop_first() == all.skip(i + 1));
            }
            match regex_strip(&self.patterns_to_rename[i], new_filename.as_str()) {
                Some(left) => {
                    new_filename = left;
                },
                None => {},
            }
            i = i + 1;
        }
        let mut full_path = from_chars(&prefix);
        full_path.append(new_filename.as_str());
        full_path
    }
}

/// Whether the list holds the string.
fn holds_string(list: &Vec<String>, wanted: &String) -> (r: bool)
    ensures
        r == lists_digest(list@, wanted@),
{
    let mut k: usize = 0;
    while k < list.len()
        invariant
            k <= list.len(),
            forall|j: int| 0 <= j < k ==> list@[j]@ != wanted@,
        decreases list.len() - k,
    {
        if list[k] == *wanted {
            return true;
        }
        k = k + 1;
    }
    false
}

} // verus!
