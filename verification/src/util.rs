//! Small helpers on names and lists of paths.

use vstd::prelude::*;
use crate::path::EntryPath;
use crate::text::same_text;

verus! {

/// The list without the repetitions: of each value its first occurrence, in
/// the order of the list.
pub open spec fn first_occurrences<T>(s: Seq<T>) -> Seq<T>
    decreases s.len(),
{
    if s.len() == 0 {
        Seq::empty()
    } else if s.drop_last().contains(s.last()) {
        first_occurrences(s.drop_last())
    } else {
        first_occurrences(s.drop_last()).push(s.last())
    }
}

/// The paths of a list, position by position.
pub open spec fn paths_of(v: Seq<EntryPath>) -> Seq<Seq<Seq<char>>> {
    Seq::new(v.len(), |i: int| v[i]@)
}

/// What has a first occurrence in a list is what the list contains.
pub proof fn lemma_first_occurrences_contains<T>(s: Seq<T>, x: T)
    ensures
        first_occurrences(s).contains(x) <==> s.contains(x),
    decreases s.len(),
{
    if s.len() > 0 {
        let head = s.drop_last();
        lemma_first_occurrences_contains(head, x);
        let kept = first_occurrences(head);
        if s.contains(x) {
            let i = choose|i: int| 0 <= i < s.len() && s[i] == x;
            if i < head.len() {
                assert(head[i] == x);
            }
        }
        if head.contains(x) {
            let i = choose|i: int| 0 <= i < head.len() && head[i] == x;
            assert(s[i] == x);
        }
        if x == s.last() {
            assert(s[s.len() - 1] == x);
        }
        if !head.contains(s.last()) {
            let grown = kept.push(s.last());
            if grown.contains(x) {
                let i = choose|i: int| 0 <= i < grown.len() && grown[i] == x;
                if i < kept.len() {
                    assert(kept[i] == x);
                }
            }
            if kept.contains(x) {
                let i = choose|i: int| 0 <= i < kept.len() && kept[i] == x;
                assert(grown[i] == x);
            }
            if x == s.last() {
                assert(grown[kept.len() as int] == x);
            }
        }
    }
}

/// No value occurs twice among the first occurrences.
pub proof fn lemma_first_occurrences_distinct<T>(s: Seq<T>)
    ensures
        first_occurrences(s).no_duplicates(),
    decreases s.len(),
{
    if s.len() > 0 {
        let head = s.drop_last();
        lemma_first_occurrences_distinct(head);
        lemma_first_occurrences_contains(head, s.last());
    }
}

/// Whether the list holds the path.
pub fn contains_path(v: &Vec<EntryPath>, path: &EntryPath) -> (r: bool)
    ensures
        r == paths_of(v@).contains(path@),
{
    let mut k: usize = 0;
    while k < v.len()
        invariant
            k <= v.len(),
            forall|j: int| 0 <= j < k ==> paths_of(v@)[j] != path@,
        decreases v.len() - k,
    {
        if v[k].same_as(path) {
            assert(paths_of(v@)[k as int] == path@);
            return true;
        }
        k = k + 1;
    }
    false
}

/// The paths of the list without repetitions: each path once, where it
/// first occurs.
pub fn dedup_vec(v: &Vec<EntryPath>) -> (r: Vec<EntryPath>)
    ensures
        paths_of(r@) == first_occurrences(paths_of(v@)),
{
    let ghost all = paths_of(v@);
    let mut new_vec: Vec<EntryPath> = Vec::new();
    let mut i: usize = 0;
    assert(paths_of(new_vec@) =~= first_occurrences(all.take(0)));
    while i < v.len()
        invariant
            i <= v.len(),
            all == paths_of(v@),
            paths_of(new_vec@) == first_occurrences(all.take(i as int)),
        decreases v.len() - i,
    {
        let ghost kept = paths_of(new_vec@);
        proof {
            let head = all.take(i as int);
            assert(all.take(i + 1).drop_last() == head);
            assert(all.take(i + 1).last() == v@[i as int]@);
            lemma_first_occurrences_contains(head, v@[i as int]@);
        }
        if !contains_path(&new_vec, &v[i]) {
            new_vec.push(v[i].duplicate());
            assert(paths_of(new_vec@) =~= kept.push(v@[i as int]@));
        }
        i = i + 1;
    }
    assert(all.take(v.len() as int) == all);
    new_vec
}

/// Whether an entry is to be walked: neither the entry nor the directory
/// that holds it is named `.tmp`.
pub fn is_not_hidden(name: &str, parent_name: Option<&str>) -> (r: bool)
    ensures
        r == (name@ != ".tmp"@ && match parent_name {
            Some(parent) => parent@ != ".tmp"@,
            None => true,
        }),
{
    if same_text(name, ".tmp") {
        return false;
    }
    match parent_name {
        Some(parent) => !same_text(parent, ".tmp"),
        None => true,
    }
}

} // verus!
