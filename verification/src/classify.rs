//! The classification of one entry: what the patterns propose for it,
//! whatever the other entries are.

use vstd::prelude::*;
use crate::data::{empty_dir_reason, AppOptions, Operation, OperationView};
use crate::pmatcher::{
    cleaned, cleaned_path, digest_wanted, hash_match, hits, lemma_name_start_bounds,
    lemma_unmatched_name_stays, name_of, name_offset, name_start, none_finds, remove_match,
    PatternMatcher,
};
use crate::text::{same_text, to_chars};

verus! {

/// What the walk knows of an entry besides its name.
#[derive(Clone, Copy, Debug)]
pub struct EntryFacts {
    /// Whether the entry is a directory.
    pub is_dir: bool,
    /// Whether the entry is a symbolic link.
    pub is_symlink: bool,
    /// Whether the entry is a directory that holds nothing.
    pub is_empty: bool,
}

/// Whether the digest of an entry's content can decide its classification:
/// deletion and digest matching are enabled, no pattern to remove matches
/// the name, and a pattern with digests does.
pub open spec fn digest_decides(matcher: PatternMatcher, options: AppOptions, name: Seq<char>)
    -> bool {
    &&& options.enable_deletion
    &&& options.enable_hash_matching
    &&& remove_match(matcher.patterns_to_remove@, name) is None
    &&& digest_wanted(matcher.patterns_to_remove_with_hash@, name)
}

/// The deletion that the patterns propose for an entry, as its reason: by
/// name first, then by name and digest.
pub open spec fn proposed_deletion(
    matcher: PatternMatcher,
    options: AppOptions,
    name: Seq<char>,
    digest: Option<Seq<char>>,
) -> Option<Seq<char>> {
    if !options.enable_deletion {
        None
    } else if remove_match(matcher.patterns_to_remove@, name) is Some {
        remove_match(matcher.patterns_to_remove@, name)
    } else if options.enable_hash_matching && digest is Some {
        hash_match(matcher.patterns_to_remove_with_hash@, name, digest->0)
    } else {
        None
    }
}

/// The operation proposed for an entry. The first rule that applies wins:
/// a deletion by name; a deletion by name and digest; a new name where
/// cleaning changes the name, or, for a directory whose cleaned name is
/// empty, the move of its contents to its parent; the deletion of an empty
/// directory that is no symbolic link; else nothing.
pub open spec fn classification(
    matcher: PatternMatcher,
    options: AppOptions,
    name: Seq<char>,
    facts: EntryFacts,
    digest: Option<Seq<char>>,
) -> OperationView {
    let new_name = cleaned_path(matcher.patterns_to_rename@, name);
    if proposed_deletion(matcher, options, name, digest) is Some {
        OperationView::Delete(proposed_deletion(matcher, options, name, digest)->0)
    } else if options.enable_renaming && new_name != name {
        if facts.is_dir && cleaned(matcher.patterns_to_rename@, name_of(name)).len() == 0 {
            OperationView::MoveToParent
        } else {
            OperationView::Rename(new_name)
        }
    } else if options.enable_prune_empty_dir && facts.is_dir && !facts.is_symlink
        && facts.is_empty {
        OperationView::Delete(empty_dir_reason())
    } else {
        OperationView::Keep
    }
}

/// Whether the content of the entry has to be digested before the entry is
/// classified. Where it has not, `classify` gives the same for any digest
/// and for none.
pub fn needs_digest(matcher: &PatternMatcher, options: &AppOptions, name: &str) -> (r: bool)
    ensures
        r == digest_decides(*matcher, *options, name@),
{
    if !options.enable_deletion || !options.enable_hash_matching {
        return false;
    }
    let by_name = matcher.match_remove_pattern(name);
    if by_name.0 {
        return false;
    }
    matcher.wants_digest(name)
}

/// Proposes the operation for one entry, given its name, what the walk
/// knows of it, and the digest of its content where that was computed
/// (`None` where it was not wanted, or could not be had).
pub fn classify(
    matcher: &PatternMatcher,
    options: &AppOptions,
    name: &str,
    facts: EntryFacts,
    digest: Option<&str>,
) -> (r: Operation)
    ensures
        r@ == classification(
            *matcher,
            *options,
            name@,
            facts,
            match digest {
                Some(d) => Some(d@),
                None => None,
            },
        ),
{
    if options.enable_deletion {
        let by_name = matcher.match_remove_pattern(name);
        match by_name.1 {
            Some(pattern) => {
                return Operation::Delete(pattern);
            },
            None => {},
        }
        if options.enable_hash_matching {
            match digest {
                Some(d) => {
                    let by_hash = matcher.match_remove_hash(name, d);
                    match by_hash.1 {
                        Some(reason) => {
                            return Operation::Delete(reason);
                        },
                        None => {},
                    }
                },
                None => {},
            }
        }
    }
    if options.enable_renaming {
        let new_filename = matcher.clean_filename(name);
        if !same_text(new_filename.as_str(), name) {
            let offset = name_offset(&to_chars(name));
            proof {
                lemma_name_start_bounds(name@);
            }
            if facts.is_dir && new_filename.as_str().unicode_len() == offset {
                return Operation::MoveToParent;
            }
            return Operation::Rename(new_filename);
        }
    }
    if options.enable_prune_empty_dir && facts.is_dir && !facts.is_symlink && facts.is_empty {
        return Operation::Delete("<EMPTY_DIR>".to_owned());
    }
    Operation::Keep
}

/// A deletion by name and digest needs a pattern with digests that matches
/// the name.
pub proof fn lemma_hash_match_wanted(
    patterns: Seq<(fancy_regex::Regex, Vec<String>)>,
    name: Seq<char>,
    digest: Seq<char>,
)
    requires
        hash_match(patterns, name, digest) is Some,
    ensures
        digest_wanted(patterns, name),
    decreases patterns.len(),
{
    if hits(patterns[0].0, name) {
    } else {
        let rest = patterns.drop_first();
        lemma_hash_match_wanted(rest, name, digest);
        let i = choose|i: int|
            0 <= i < rest.len() && hits(#[trigger] rest[i].0, name);
        assert(patterns[i + 1].0 == rest[i].0);
    }
}

/// The digest is read only where it is needed: where it does not decide,
/// the classification is the same with any digest as with none.
pub proof fn lemma_digest_is_lazy(
    matcher: PatternMatcher,
    options: AppOptions,
    name: Seq<char>,
    facts: EntryFacts,
    digest: Seq<char>,
)
    requires
        !digest_decides(matcher, options, name),
    ensures
        classification(matcher, options, name, facts, Some(digest)) == classification(
            matcher,
            options,
            name,
            facts,
            None,
        ),
{
    if hash_match(matcher.patterns_to_remove_with_hash@, name, digest) is Some {
        lemma_hash_match_wanted(matcher.patterns_to_remove_with_hash@, name, digest);
    }
}

/// An entry that no rule applies to is left alone: where no pattern to
/// remove matches the name, no pattern with digests does, no pattern to
/// clean up finds a match in it, and the entry is no empty directory, the
/// classification is `Keep`.
pub proof fn lemma_clean_entry_is_kept(
    matcher: PatternMatcher,
    options: AppOptions,
    name: Seq<char>,
    facts: EntryFacts,
    digest: Option<Seq<char>>,
)
    requires
        remove_match(matcher.patterns_to_remove@, name) is None,
        !digest_wanted(matcher.patterns_to_remove_with_hash@, name),
        none_finds(matcher.patterns_to_rename@, name_of(name)),
        !(facts.is_dir && facts.is_empty),
    ensures
        classification(matcher, options, name, facts, digest) is Keep,
{
    lemma_unmatched_name_stays(matcher.patterns_to_rename@, name);
    if digest is Some && hash_match(matcher.patterns_to_remove_with_hash@, name, digest->0)
        is Some {
        lemma_hash_match_wanted(matcher.patterns_to_remove_with_hash@, name, digest->0);
    }
}

} // verus!
