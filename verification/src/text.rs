//! Text as sequences of characters.
//!
//! The library reads and builds text character by character, so inside it a
//! piece of text is a `Vec<char>` whose view is the `Seq<char>` that the
//! contracts speak of. This module converts to and from `str` and `String`,
//! copies and joins such texts, and orders them.

use vstd::prelude::*;
use vstd::relations::*;
use crate::order::Ranked;

verus! {

/// `String::push` appends one character to the string.
pub assume_specification[ String::push ](s: &mut String, ch: char)
    ensures
        final(s)@ == old(s)@.push(ch),
;

/// Whether a character is whitespace: whether it has the Unicode property
/// `White_Space`, which these code points have.
pub open spec fn is_whitespace(c: char) -> bool {
    (c >= '\u{9}' && '\u{d}' >= c) || c == ' ' || c == '\u{85}' || c == '\u{a0}' || c
        == '\u{1680}' || (c >= '\u{2000}' && '\u{200a}' >= c) || c == '\u{2028}' || c
        == '\u{2029}' || c == '\u{202f}' || c == '\u{205f}' || c == '\u{3000}'
}

/// `char::is_whitespace` tells whether the character has the Unicode
/// property `White_Space`.
pub assume_specification[ char::is_whitespace ](c: char) -> (r: bool)
    ensures
        r == is_whitespace(c),
;

/// The characters of a string slice.
pub fn to_chars(s: &str) -> (v: Vec<char>)
    ensures
        v@ == s@,
{
    let mut v: Vec<char> = Vec::new();
    let chars = s.chars();
    for c in it: chars
        invariant
            it.seq() == s@,
            v@ == s@.take(it.index()),
    {
        v.push(c);
    }
    v
}

/// The string made of the given characters.
pub fn from_chars(v: &Vec<char>) -> (s: String)
    ensures
        s@ == v@,
{
    let mut s = String::new();
    let mut i: usize = 0;
    while i < v.len()
        invariant
            i <= v.len(),
            s@ == v@.take(i as int),
        decreases v.len() - i,
    {
        s.push(v[i]);
        i = i + 1;
    }
    s
}

/// Appends the characters of `src` to `dst`.
pub fn push_all(dst: &mut Vec<char>, src: &Vec<char>)
    ensures
        final(dst)@ == old(dst)@ + src@,
{
    let mut i: usize = 0;
    while i < src.len()
        invariant
            i <= src.len(),
            dst@ == old(dst)@ + src@.take(i as int),
        decreases src.len() - i,
    {
        dst.push(src[i]);
        i = i + 1;
    }
}

/// The texts of a list of strings, position by position.
pub open spec fn strings_view(v: Seq<String>) -> Seq<Seq<char>> {
    Seq::new(v.len(), |i: int| v[i]@)
}

/// Whether two texts hold the same characters.
pub fn same_chars(a: &Vec<char>, b: &Vec<char>) -> (r: bool)
    ensures
        r == (a@ == b@),
{
    if a.len() != b.len() {
        return false;
    }
    let mut i: usize = 0;
    while i < a.len()
        invariant
            i <= a.len(),
            a.len() == b.len(),
            a@.take(i as int) == b@.take(i as int),
        decreases a.len() - i,
    {
        if a[i] != b[i] {
            return false;
        }
        assert(a@.take(i + 1) == a@.take(i as int).push(a@[i as int]));
        assert(b@.take(i + 1) == b@.take(i as int).push(b@[i as int]));
        i = i + 1;
    }
    assert(a@ == a@.take(a.len() as int));
    assert(b@ == b@.take(b.len() as int));
    true
}

/// Whether two string slices hold the same text.
pub fn same_text(a: &str, b: &str) -> (r: bool)
    ensures
        r == (a@ == b@),
{
    let left = to_chars(a);
    let right = to_chars(b);
    same_chars(&left, &right)
}

/// The text without the whitespace at its start.
pub open spec fn without_leading_space(s: Seq<char>) -> Seq<char>
    decreases s.len(),
{
    if s.len() > 0 && is_whitespace(s[0]) {
        without_leading_space(s.drop_first())
    } else {
        s
    }
}

/// The text without the whitespace at its end.
pub open spec fn without_trailing_space(s: Seq<char>) -> Seq<char>
    decreases s.len(),
{
    if s.len() > 0 && is_whitespace(s.last()) {
        without_trailing_space(s.drop_last())
    } else {
        s
    }
}

/// The text without the whitespace at its start and at its end.
pub open spec fn trimmed(s: Seq<char>) -> Seq<char> {
    without_trailing_space(without_leading_space(s))
}

/// The characters of `s` from `from` up to `to`.
pub fn slice_chars(s: &Vec<char>, from: usize, to: usize) -> (r: Vec<char>)
    requires
        from <= to <= s.len(),
    ensures
        r@ == s@.subrange(from as int, to as int),
{
    let mut r: Vec<char> = Vec::new();
    let mut i: usize = from;
    while i < to
        invariant
            from <= i <= to,
            to <= s.len(),
            r@ == s@.subrange(from as int, i as int),
        decreases to - i,
    {
        r.push(s[i]);
        i = i + 1;
    }
    r
}

/// The text without the whitespace at its start and at its end.
pub fn trim(s: &Vec<char>) -> (r: Vec<char>)
    ensures
        r@ == trimmed(s@),
{
    let mut start: usize = 0;
    assert(s@.skip(0) == s@);
    while start < s.len() && s[start].is_whitespace()
        invariant
            start <= s.len(),
            without_leading_space(s@) == without_leading_space(s@.skip(start as int)),
        decreases s.len() - start,
    {
        proof {
            assert(s@.skip(start as int).drop_first() == s@.skip(start + 1));
        }
        start = start + 1;
    }
    assert(without_leading_space(s@) == s@.skip(start as int));
    let ghost body = s@.skip(start as int);
    let mut end: usize = s.len();
    while end > start && s[end - 1].is_whitespace()
        invariant
            start <= end <= s.len(),
            body == s@.skip(start as int),
            without_trailing_space(body) == without_trailing_space(
                s@.subrange(start as int, end as int),
            ),
        decreases end - start,
    {
        proof {
            assert(s@.subrange(start as int, end as int).drop_last() == s@.subrange(
                start as int,
                end - 1,
            ));
        }
        end = end - 1;
    }
    proof {
        let part = s@.subrange(start as int, end as int);
        if part.len() > 0 {
            assert(part.last() == s@[end - 1]);
        }
        assert(without_trailing_space(part) == part);
    }
    slice_chars(s, start, end)
}

/// `a` and `b` agree on their first `k` characters, and there `a` ends while
/// `b` goes on, or `a` holds the smaller character.
pub open spec fn lex_lt_at(a: Seq<char>, b: Seq<char>, k: int) -> bool {
    &&& 0 <= k <= a.len()
    &&& k <= b.len()
    &&& a.take(k) == b.take(k)
    &&& (k == a.len() && k < b.len()) || (k < a.len() && k < b.len() && a[k] < b[k])
}

/// Lexicographic order by code point: `a` comes strictly before `b`.
pub open spec fn lex_lt(a: Seq<char>, b: Seq<char>) -> bool {
    exists|k: int| lex_lt_at(a, b, k)
}

/// The lexicographic order as a relation.
pub open spec fn lex_order() -> spec_fn(Seq<char>, Seq<char>) -> bool {
    |a: Seq<char>, b: Seq<char>| lex_lt(a, b)
}

/// Two different texts differ at a first position, or one is a proper prefix
/// of the other.
proof fn lemma_lex_connected(a: Seq<char>, b: Seq<char>, k: int)
    requires
        a != b,
        0 <= k <= a.len(),
        k <= b.len(),
        a.take(k) == b.take(k),
    ensures
        lex_lt(a, b) || lex_lt(b, a),
    decreases a.len() - k,
{
    if k == a.len() {
        if k == b.len() {
            assert(a == a.take(k));
            assert(b == b.take(k));
        } else {
            assert(lex_lt_at(a, b, k));
        }
    } else if k == b.len() {
        assert(lex_lt_at(b, a, k));
    } else if a[k] < b[k] {
        assert(lex_lt_at(a, b, k));
    } else if b[k] < a[k] {
        assert(lex_lt_at(b, a, k));
    } else {
        assert(a.take(k + 1) == a.take(k).push(a[k]));
        assert(b.take(k + 1) == b.take(k).push(b[k]));
        lemma_lex_connected(a, b, k + 1);
    }
}

/// Where `a` and `b` agree on their first `k` characters they agree on any
/// shorter prefix.
proof fn lemma_take_shorter(a: Seq<char>, b: Seq<char>, k: int, j: int)
    requires
        0 <= j <= k <= a.len(),
        k <= b.len(),
        a.take(k) == b.take(k),
    ensures
        a.take(j) == b.take(j),
        j < k ==> a[j] == b[j],
{
    assert(a.take(j) == a.take(k).take(j));
    assert(b.take(j) == b.take(k).take(j));
    if j < k {
        assert(a[j] == a.take(k)[j]);
        assert(b[j] == b.take(k)[j]);
    }
}

/// The lexicographic order is a strict total order.
pub proof fn lemma_lex_strict_total()
    ensures
        strict_total_ordering(lex_order()),
{
    let r = lex_order();
    assert forall|x: Seq<char>| !#[trigger] r(x, x) by {
        if lex_lt(x, x) {
            let k = choose|k: int| lex_lt_at(x, x, k);
        }
    }
    assert forall|x: Seq<char>, y: Seq<char>, z: Seq<char>| #[trigger]
        r(x, y) && #[trigger] r(y, z) implies r(x, z) by {
        let k1 = choose|k: int| lex_lt_at(x, y, k);
        let k2 = choose|k: int| lex_lt_at(y, z, k);
        if k1 <= k2 {
            lemma_take_shorter(y, z, k2, k1);
            assert(lex_lt_at(x, z, k1));
        } else {
            lemma_take_shorter(x, y, k1, k2);
            assert(lex_lt_at(x, z, k2));
        }
    }
    assert forall|x: Seq<char>, y: Seq<char>| #[trigger] r(x, y) && #[trigger] r(y, x) implies x
        == y by {
        assert(r(x, x));
    }
    assert forall|x: Seq<char>, y: Seq<char>| x != y implies #[trigger] r(x, y) || #[trigger] r(
        y,
        x,
    ) by {
        assert(x.take(0) == y.take(0));
        lemma_lex_connected(x, y, 0);
    }
}

impl Ranked for char {
    type Key = char;

    open spec fn key(&self) -> char {
        *self
    }

    open spec fn order() -> spec_fn(char, char) -> bool {
        |a: char, b: char| a < b
    }

    proof fn order_is_strict_total() {
    }

    fn precedes(&self, other: &Self) -> (r: bool) {
        *self < *other
    }
}

impl Ranked for (char, char) {
    type Key = (char, char);

    open spec fn key(&self) -> (char, char) {
        *self
    }

    open spec fn order() -> spec_fn((char, char), (char, char)) -> bool {
        |a: (char, char), b: (char, char)| a.0 < b.0 || (a.0 == b.0 && a.1 < b.1)
    }

    proof fn order_is_strict_total() {
    }

    fn precedes(&self, other: &Self) -> (r: bool) {
        self.0 < other.0 || (self.0 == other.0 && self.1 < other.1)
    }
}

impl Ranked for Vec<char> {
    type Key = Seq<char>;

    open spec fn key(&self) -> Seq<char> {
        self@
    }

    open spec fn order() -> spec_fn(Seq<char>, Seq<char>) -> bool {
        lex_order()
    }

    proof fn order_is_strict_total() {
        lemma_lex_strict_total();
    }

    fn precedes(&self, other: &Self) -> (r: bool) {
        let mut i: usize = 0;
        while i < self.len() && i < other.len()
            invariant
                i <= self.len(),
                i <= other.len(),
                self@.take(i as int) == other@.take(i as int),
            decreases self.len() - i,
        {
            if self[i] < other[i] {
                assert(lex_lt_at(self@, other@, i as int));
                return true;
            }
            if other[i] < self[i] {
                assert(lex_lt_at(other@, self@, i as int));
                proof {
                    lemma_lex_strict_total();
                    assert(lex_order()(other@, self@));
                    if lex_lt(self@, other@) {
                        assert(lex_order()(self@, other@));
                    }
                }
                return false;
            }
            assert(self@.take(i + 1) == self@.take(i as int).push(self@[i as int]));
            assert(other@.take(i + 1) == other@.take(i as int).push(other@[i as int]));
            i = i + 1;
        }
        if i < other.len() {
            assert(lex_lt_at(self@, other@, i as int));
            true
        } else {
            proof {
                lemma_lex_strict_total();
                if i < self.len() {
                    assert(lex_lt_at(other@, self@, i as int));
                    assert(lex_order()(other@, self@));
                } else {
                    assert(self@ == self@.take(i as int));
                    assert(other@ == other@.take(i as int));
                }
                if lex_lt(self@, other@) {
                    assert(lex_order()(self@, other@));
                }
            }
            false
        }
    }
}

} // verus!
