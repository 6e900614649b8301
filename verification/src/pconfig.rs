//! The patterns of a run, as the configuration gives them.

use vstd::prelude::*;
use crate::text::{from_chars, same_text, slice_chars, strings_view, to_chars, trim, trimmed};

verus! {

/// The patterns of a run. A key that the configuration lacks stands for an
/// empty list.
#[derive(Debug, Clone, PartialEq, Eq)]
pub struct PatternsConfig {
    /// The names to delete: glob patterns, or regular expressions behind a
    /// leading `/`.
    pub remove: Vec<String>,
    /// The names to delete where the content has one of the listed
    /// digests: a glob pattern with its digests. A configuration that is
    /// read from a document has each pattern once.
    pub remove_hash: Vec<(String, Vec<String>)>,
    /// What to strip from names: glob patterns, or regular expressions
    /// behind a leading `/`.
    pub cleanup: Vec<String>,
}

impl PatternsConfig {
    /// The configuration without any pattern.
    pub fn empty() -> (r: PatternsConfig)
        ensures
            r.remove@.len() == 0,
            r.remove_hash@.len() == 0,
            r.cleanup@.len() == 0,
    {
        PatternsConfig { remove: Vec::new(), remove_hash: Vec::new(), cleanup: Vec::new() }
    }
}

/// What stands under a pattern of `remove_hash` in a document.
#[derive(Debug, Clone, PartialEq, Eq)]
pub enum DigestList {
    /// A sequence of digests.
    Items(Vec<String>),
    /// Anything else.
    Other,
}

/// What stands under a key of a configuration document.
#[derive(Debug, Clone, PartialEq, Eq)]
pub enum ConfigValue {
    /// A text, possibly of several lines.
    Text(String),
    /// A sequence of texts.
    List(Vec<String>),
    /// A mapping from patterns to what stands under each.
    Table(Vec<(String, DigestList)>),
    /// Anything else.
    Other,
}

/// The patterns that a value under `remove` or `cleanup` gives: the
/// trimmed lines of a text, the items of a sequence, nothing otherwise.
pub open spec fn patterns_in(value: ConfigValue) -> Seq<Seq<char>> {
    match value {
        ConfigValue::Text(text) => trimmed_each(split_lines(text@)),
        ConfigValue::List(items) => strings_view(items@),
        _ => Seq::empty(),
    }
}

/// The pieces of a text between its newlines, where a newline at the very
/// end of the text starts no further piece. The empty text has no piece.
pub open spec fn split_lines(text: Seq<char>) -> Seq<Seq<char>>
    decreases text.len(),
{
    if text.len() == 0 {
        Seq::empty()
    } else {
        let end = line_end(text) as int;
        if end + 1 >= text.len() {
            seq![text.take(end)]
        } else {
            seq![text.take(end)] + split_lines(text.skip(end + 1))
        }
    }
}

/// Where the first line of a text ends: at its first newline, or at the
/// end of the text.
pub open spec fn line_end(text: Seq<char>) -> nat
    decreases text.len(),
{
    if text.len() == 0 || text[0] == '\n' {
        0
    } else {
        1 + line_end(text.drop_first())
    }
}

/// Each text trimmed.
pub open spec fn trimmed_each(lines: Seq<Seq<char>>) -> Seq<Seq<char>> {
    Seq::new(lines.len(), |i: int| trimmed(lines[i]))
}

/// The digests that stand under a pattern: the items of a sequence,
/// nothing otherwise.
pub open spec fn digests_in(value: DigestList) -> Seq<Seq<char>> {
    match value {
        DigestList::Items(items) => strings_view(items@),
        DigestList::Other => Seq::empty(),
    }
}

/// The patterns with digests that a value under `remove_hash` gives, as
/// mathematical values.
pub open spec fn hashed_in(value: ConfigValue) -> Seq<(Seq<char>, Seq<Seq<char>>)> {
    match value {
        ConfigValue::Table(rows) => Seq::new(
            rows@.len(),
            |i: int| (rows@[i].0@, digests_in(rows@[i].1)),
        ),
        _ => Seq::empty(),
    }
}

/// The patterns with digests of a configuration, as mathematical values.
pub open spec fn hashed_view(v: Seq<(String, Vec<String>)>) -> Seq<(Seq<char>, Seq<Seq<char>>)> {
    Seq::new(v.len(), |i: int| (v[i].0@, strings_view(v[i].1@)))
}

/// What a document says under one key, for all the times the key occurs,
/// in the order of the document.
pub open spec fn patterns_under(doc: Seq<(String, ConfigValue)>, key: Seq<char>) -> Seq<Seq<char>>
    decreases doc.len(),
{
    if doc.len() == 0 {
        Seq::empty()
    } else if doc.last().0@ == key {
        patterns_under(doc.drop_last(), key) + patterns_in(doc.last().1)
    } else {
        patterns_under(doc.drop_last(), key)
    }
}

/// Whether row `i` has the pattern as its key.
pub open spec fn has_key_at(rows: Seq<(Seq<char>, Seq<Seq<char>>)>, key: Seq<char>, i: int) -> bool {
    0 <= i < rows.len() && rows[i].0 == key
}

/// Whether each pattern is the key of one row only, so that one list of
/// digests belongs to each pattern.
pub open spec fn distinct_keys(rows: Seq<(Seq<char>, Seq<Seq<char>>)>) -> bool {
    forall|i: int, j: int| 0 <= i < j < rows.len() ==> (#[trigger] rows[i]).0 != (#[trigger] rows[j]).0
}

/// The rows with the digests of a pattern put in: in the place of the row
/// of the same pattern where there is one, at the end otherwise.
pub open spec fn put_row(
    rows: Seq<(Seq<char>, Seq<Seq<char>>)>,
    key: Seq<char>,
    digests: Seq<Seq<char>>,
) -> Seq<(Seq<char>, Seq<Seq<char>>)> {
    if exists|i: int| has_key_at(rows, key, i) {
        rows.update(choose|i: int| has_key_at(rows, key, i), (key, digests))
    } else {
        rows.push((key, digests))
    }
}

/// The rows with further rows put in, one after the other.
pub open spec fn put_rows(
    rows: Seq<(Seq<char>, Seq<Seq<char>>)>,
    more: Seq<(Seq<char>, Seq<Seq<char>>)>,
) -> Seq<(Seq<char>, Seq<Seq<char>>)>
    decreases more.len(),
{
    if more.len() == 0 {
        rows
    } else {
        put_row(put_rows(rows, more.drop_last()), more.last().0, more.last().1)
    }
}

/// The patterns with digests that a document gives under `remove_hash`:
/// where a pattern comes again, its later digests take the place of the
/// earlier ones.
pub open spec fn hashed_under(doc: Seq<(String, ConfigValue)>) -> Seq<(Seq<char>, Seq<Seq<char>>)>
    decreases doc.len(),
{
    if doc.len() == 0 {
        Seq::empty()
    } else if doc.last().0@ == "remove_hash"@ {
        put_rows(hashed_under(doc.drop_last()), hashed_in(doc.last().1))
    } else {
        hashed_under(doc.drop_last())
    }
}

/// Putting a row in keeps each pattern the key of one row only.
pub proof fn lemma_put_row_keeps_distinct(
    rows: Seq<(Seq<char>, Seq<Seq<char>>)>,
    key: Seq<char>,
    digests: Seq<Seq<char>>,
)
    requires
        distinct_keys(rows),
    ensures
        distinct_keys(put_row(rows, key, digests)),
{
    let after = put_row(rows, key, digests);
    if exists|i: int| has_key_at(rows, key, i) {
        let k = choose|i: int| has_key_at(rows, key, i);
        assert forall|i: int, j: int| 0 <= i < j < after.len() implies (#[trigger] after[i]).0 != (
        #[trigger] after[j]).0 by {
            assert(rows[i].0 != rows[j].0);
        }
    } else {
        assert forall|i: int, j: int| 0 <= i < j < after.len() implies (#[trigger] after[i]).0 != (
        #[trigger] after[j]).0 by {
            if j < rows.len() {
                assert(rows[i].0 != rows[j].0);
            } else {
                assert(!has_key_at(rows, key, i));
            }
        }
    }
}

/// Puts the digests of a pattern into the list: in the place of the row of
/// the same pattern where there is one, at the end otherwise.
fn put_hashed(list: &mut Vec<(String, Vec<String>)>, key: String, digests: Vec<String>)
    requires
        distinct_keys(hashed_view(old(list)@)),
    ensures
        hashed_view(final(list)@) == put_row(hashed_view(old(list)@), key@, strings_view(digests@)),
        distinct_keys(hashed_view(final(list)@)),
{
    let ghost before = hashed_view(list@);
    let ghost row = (key@, strings_view(digests@));
    proof {
        lemma_put_row_keeps_distinct(before, key@, strings_view(digests@));
    }
    let mut i: usize = 0;
    while i < list.len()
        invariant
            i <= list.len(),
            before == hashed_view(list@),
            before == hashed_view(old(list)@),
            distinct_keys(before),
            row == (key@, strings_view(digests@)),
            forall|j: int| 0 <= j < i ==> (#[trigger] before[j]).0 != key@,
        decreases list.len() - i,
    {
        assert(before[i as int].0 == list@[i as int].0@);
        if list[i].0 == key {
            proof {
                assert(has_key_at(before, key@, i as int));
                let k = choose|k: int| has_key_at(before, key@, k);
                if k < i {
                    assert(before[k].0 != before[i as int].0);
                } else if k > i {
                    assert(before[i as int].0 != before[k].0);
                }
                assert(k == i);
            }
            list[i] = (key, digests);
            assert(hashed_view(list@) =~= before.update(i as int, row));
            return ;
        }
        i = i + 1;
    }
    proof {
        if exists|k: int| has_key_at(before, key@, k) {
            let k = choose|k: int| has_key_at(before, key@, k);
            assert(before[k].0 != key@);
        }
    }
    list.push((key, digests));
    assert(hashed_view(list@) =~= before.push(row));
}

/// Splits a text into its lines and trims each.
fn trimmed_lines(text: &str) -> (r: Vec<String>)
    ensures
        strings_view(r@) == trimmed_each(split_lines(text@)),
{
    let chars = to_chars(text);
    let mut r: Vec<String> = Vec::new();
    let mut start: usize = 0;
    let ghost mut done: Seq<Seq<char>> = Seq::empty();
    assert(chars@.skip(0) == chars@);
    while start < chars.len()
        invariant
            start <= chars.len(),
            strings_view(r@) == trimmed_each(done),
            split_lines(chars@) == done + split_lines(chars@.skip(start as int)),
        decreases chars.len() - start,
    {
        let ghost rest = chars@.skip(start as int);
        let mut end: usize = start;
        while end < chars.len() && chars[end] != '\n'
            invariant
                start <= end <= chars.len(),
                rest == chars@.skip(start as int),
                line_end(rest) == (end - start) + line_end(chars@.skip(end as int)),
            decreases chars.len() - end,
        {
            proof {
                assert(chars@.skip(end as int).drop_first() == chars@.skip(end + 1));
            }
            end = end + 1;
        }
        proof {
            assert(line_end(chars@.skip(end as int)) == 0);
            assert(line_end(rest) == end - start);
            assert(rest.take(end - start) == chars@.subrange(start as int, end as int));
        }
        let line = slice_chars(&chars, start, end);
        let line = trim(&line);
        let ghost before = strings_view(r@);
        r.push(from_chars(&line));
        proof {
            let piece = rest.take(end - start);
            assert(strings_view(r@) =~= before.push(trimmed(piece)));
            assert(trimmed_each(done.push(piece)) =~= trimmed_each(done).push(trimmed(piece)));
            if end + 1 >= chars.len() {
                assert(split_lines(rest) == seq![piece]);
                assert(done + seq![piece] =~= done.push(piece));
                assert(split_lines(chars@.skip(chars.len() as int)) =~= Seq::<
                    Seq<char>,
                >::empty());
                assert(done.push(piece) + Seq::<Seq<char>>::empty() =~= done.push(piece));
            } else {
                assert(rest.skip(end - start + 1) == chars@.skip(end + 1));
                assert(done + (seq![piece] + split_lines(chars@.skip(end + 1))) =~= done.push(
                    piece,
                ) + split_lines(chars@.skip(end + 1)));
            }
            done = done.push(piece);
        }
        if chars.len() - end <= 1 {
            start = chars.len();
        } else {
            start = end + 1;
        }
    }
    proof {
        assert(split_lines(chars@.skip(chars.len() as int)) =~= Seq::<Seq<char>>::empty());
        assert(done + Seq::<Seq<char>>::empty() =~= done);
    }
    r
}

/// Appends copies of the strings to the list.
fn extend_strings(list: &mut Vec<String>, more: &Vec<String>)
    ensures
        strings_view(final(list)@) == strings_view(old(list)@) + strings_view(more@),
{
    let mut i: usize = 0;
    assert(strings_view(list@) =~= strings_view(old(list)@) + strings_view(more@).take(0));
    while i < more.len()
        invariant
            i <= more.len(),
            strings_view(list@) == strings_view(old(list)@) + strings_view(more@).take(i as int),
        decreases more.len() - i,
    {
        let ghost before = strings_view(list@);
        list.push(more[i].clone());
        assert(strings_view(list@) =~= before.push(more@[i as int]@));
        assert(strings_view(more@).take(i + 1) =~= strings_view(more@).take(i as int).push(
            more@[i as int]@,
        ));
        i = i + 1;
    }
    assert(strings_view(more@).take(more.len() as int) =~= strings_view(more@));
}

/// Appends the patterns that a value gives to the list.
fn extend_patterns(list: &mut Vec<String>, value: &ConfigValue)
    ensures
        strings_view(final(list)@) == strings_view(old(list)@) + patterns_in(*value),
{
    match value {
        ConfigValue::Text(text) => {
            let lines = trimmed_lines(text.as_str());
            extend_strings(list, &lines);
        },
        ConfigValue::List(items) => {
            extend_strings(list, items);
        },
        _ => {
            assert(strings_view(list@) + Seq::<Seq<char>>::empty() =~= strings_view(list@));
        },
    }
}

/// Puts the patterns with digests that a value gives into the list.
fn extend_hashed(list: &mut Vec<(String, Vec<String>)>, value: &ConfigValue)
    requires
        distinct_keys(hashed_view(old(list)@)),
    ensures
        hashed_view(final(list)@) == put_rows(hashed_view(old(list)@), hashed_in(*value)),
        distinct_keys(hashed_view(final(list)@)),
{
    match value {
        ConfigValue::Table(rows) => {
            let ghost start = hashed_view(list@);
            let ghost more = hashed_in(*value);
            let mut i: usize = 0;
            assert(more.take(0) =~= Seq::<(Seq<char>, Seq<Seq<char>>)>::empty());
            while i < rows.len()
                invariant
                    i <= rows.len(),
                    *value == ConfigValue::Table(*rows),
                    more == hashed_in(*value),
                    start == hashed_view(old(list)@),
                    distinct_keys(hashed_view(list@)),
                    hashed_view(list@) == put_rows(start, more.take(i as int)),
                decreases rows.len() - i,
            {
                let mut digests: Vec<String> = Vec::new();
                match &rows[i].1 {
                    DigestList::Items(items) => {
                        extend_strings(&mut digests, items);
                        assert(strings_view(digests@) =~= strings_view(items@));
                    },
                    DigestList::Other => {
                        assert(strings_view(digests@) =~= Seq::<Seq<char>>::empty());
                    },
                }
                proof {
                    assert(more.take(i + 1).drop_last() =~= more.take(i as int));
                    assert(more.take(i + 1).last() == (
                        rows@[i as int].0@,
                        digests_in(rows@[i as int].1),
                    ));
                }
                put_hashed(list, rows[i].0.clone(), digests);
                i = i + 1;
            }
            assert(more.take(rows.len() as int) =~= more);
        },
        _ => {
            assert(hashed_in(*value) =~= Seq::<(Seq<char>, Seq<Seq<char>>)>::empty());
        },
    }
}

impl PatternsConfig {
    /// Reads the patterns out of a document, given as its keys with what
    /// stands under each. Under `remove` and `cleanup` a text gives its
    /// trimmed lines and a sequence its items; under `remove_hash` a
    /// mapping gives its patterns, each with the digests listed under it,
    /// and each pattern once. Anything else is passed over, as is any
    /// other key.
    pub fn from_document(doc: &Vec<(String, ConfigValue)>) -> (r: PatternsConfig)
        ensures
            strings_view(r.remove@) == patterns_under(doc@, "remove"@),
            strings_view(r.cleanup@) == patterns_under(doc@, "cleanup"@),
            hashed_view(r.remove_hash@) == hashed_under(doc@),
            distinct_keys(hashed_view(r.remove_hash@)),
    {
        let mut config = PatternsConfig::empty();
        let mut i: usize = 0;
        assert(strings_view(config.remove@) =~= patterns_under(doc@.take(0), "remove"@));
        assert(strings_view(config.cleanup@) =~= patterns_under(doc@.take(0), "cleanup"@));
        assert(hashed_view(config.remove_hash@) =~= hashed_under(doc@.take(0)));
        while i < doc.len()
            invariant
                i <= doc.len(),
                strings_view(config.remove@) == patterns_under(doc@.take(i as int), "remove"@),
                strings_view(config.cleanup@) == patterns_under(doc@.take(i as int), "cleanup"@),
                hashed_view(config.remove_hash@) == hashed_under(doc@.take(i as int)),
                distinct_keys(hashed_view(config.remove_hash@)),
            decreases doc.len() - i,
        {
            proof {
                assert(doc@.take(i + 1).drop_last() == doc@.take(i as int));
                assert(doc@.take(i + 1).last() == doc@[i as int]);
                reveal_strlit("remove");
                reveal_strlit("cleanup");
                reveal_strlit("remove_hash");
                assert("remove"@.len() == 6 && "cleanup"@.len() == 7 && "remove_hash"@.len() == 11);
            }
            let key = doc[i].0.as_str();
            if same_text(key, "remove") {
                extend_patterns(&mut config.remove, &doc[i].1);
            } else if same_text(key, "remove_hash") {
                extend_hashed(&mut config.remove_hash, &doc[i].1);
            } else if same_text(key, "cleanup") {
                extend_patterns(&mut config.cleanup, &doc[i].1);
            }
            i = i + 1;
        }
        assert(doc@.take(doc.len() as int) == doc@);
        config
    }
}

} // verus!
