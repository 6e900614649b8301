//! Shell glob-like filename matching.
//!
//! The glob-style pattern features currently supported are:
//! - any character except `?`, `*`, `[`, `\`, or `{` is matched literally
//! - `?` matches any single character except a slash (`/`)
//! - `*` matches any sequence of zero or more characters that does not
//!   contain a slash (`/`)
//! - a backslash allows the next character to be matched literally, except
//!   for the `\a`, `\b`, `\e`, `\f`, `\n`, `\r`, `\t` and `\v` sequences
//! - a `[...]` character class supports ranges, negation if the very first
//!   character is `!`, backslash-escaping, and also matching
//!   a `]` character if it is the very first character possibly after
//!   the `!` one (e.g. `[]]` would only match a single `]` character)
//! - an `{a,bbb,cc}` alternation supports backslash-escaping, but not
//!   nested alternations or character classes
//!
//! The `*` and `?` wildcard patterns, as well as the character classes,
//! never match a slash.
//!
//! A pattern is refused where it ends in a bare backslash, where a class or
//! an alternation is not closed, where a range runs backwards, where a dash
//! follows a range other than at the end of the class, and where it uses
//! what is not supported: a backslash as the end of a range, or a class
//! within an alternation.
//!
//! A pattern is compiled by a state machine that reads it one character at
//! a time. Each step moves to a next state and writes at most one piece of
//! the regular expression; the pieces in a row, between `^` and `$`, are the
//! result.

use vstd::prelude::*;
use crate::fnmatch_regex::class::{
    class_admits, close_class, closed_class, item_admits, read_atom, read_class, read_members,
    ClassAccumulator, ClassItem, ClassView,
};
use crate::fnmatch_regex::error::{PatternError, PatternErrorView};
use crate::order::{
    enumeration, key_set, keys_of, lemma_key_set_empty, lemma_key_set_push, sorted_distinct,
};
use crate::text::{from_chars, lex_order, push_all, to_chars};

verus! {

/// Whether a character has a meaning of its own in a regular expression
/// outside a bracket expression, so that it is escaped where it stands for
/// itself.
pub open spec fn is_special(c: char) -> bool {
    c == '[' || c == '{' || c == '(' || c == ')' || c == '|' || c == '^' || c == '$' || c == '.'
        || c == '*' || c == '?' || c == '+' || c == '\\'
}

/// The text that stands for a character outside a bracket expression.
pub open spec fn escaped(c: char) -> Seq<char> {
    if is_special(c) {
        seq!['\\', c]
    } else {
        seq![c]
    }
}

/// Escape a character outside of a character class if necessary.
pub fn escape(chr: char) -> (r: Vec<char>)
    ensures
        r@ == escaped(chr),
{
    if chr == '[' || chr == '{' || chr == '(' || chr == ')' || chr == '|' || chr == '^' || chr
        == '$' || chr == '.' || chr == '*' || chr == '?' || chr == '+' || chr == '\\' {
        vec!['\\', chr]
    } else {
        vec![chr]
    }
}

/// The character that a letter stands for after a backslash: the control
/// character for `a b e f n r t v`, the character itself otherwise.
pub open spec fn letter_escape(c: char) -> char {
    if c == 'a' {
        '\x07'
    } else if c == 'b' {
        '\x08'
    } else if c == 'e' {
        '\x1b'
    } else if c == 'f' {
        '\x0c'
    } else if c == 'n' {
        '\x0a'
    } else if c == 'r' {
        '\x0d'
    } else if c == 't' {
        '\x09'
    } else if c == 'v' {
        '\x0b'
    } else {
        c
    }
}

/// Interpret an escaped character: return the one that was meant.
pub fn map_letter_escape(chr: char) -> (r: char)
    ensures
        r == letter_escape(chr),
{
    match chr {
        'a' => '\x07',
        'b' => '\x08',
        'e' => '\x1b',
        'f' => '\x0c',
        'n' => '\x0a',
        'r' => '\x0d',
        't' => '\x09',
        'v' => '\x0b',
        other => other,
    }
}

/// Unescape a character and escape it if needed.
pub fn escape_special(chr: char) -> (r: Vec<char>)
    ensures
        r@ == escaped(letter_escape(chr)),
{
    escape(map_letter_escape(chr))
}

/// A text with each of its characters escaped as `escaped` says.
pub open spec fn escaped_text(s: Seq<char>) -> Seq<char>
    decreases s.len(),
{
    if s.len() == 0 {
        Seq::empty()
    } else {
        escaped_text(s.drop_last()) + escaped(s.last())
    }
}

/// The texts of a list, position by position.
pub open spec fn texts(v: Seq<Vec<char>>) -> Seq<Seq<char>> {
    Seq::new(v.len(), |i: int| v[i]@)
}

/// The alternatives of an alternation as they are written: each escaped.
pub open spec fn alternatives(gathered: Seq<Seq<char>>) -> Set<Seq<char>> {
    Set::new(
        |t: Seq<char>|
            exists|i: int| 0 <= i < gathered.len() && #[trigger] escaped_text(gathered[i]) == t,
    )
}

/// The parts in a row, with the separator between each two.
pub open spec fn joined(parts: Seq<Seq<char>>, sep: char) -> Seq<char>
    decreases parts.len(),
{
    if parts.len() == 0 {
        Seq::empty()
    } else if parts.len() == 1 {
        parts[0]
    } else {
        joined(parts.drop_last(), sep) + seq![sep] + parts.last()
    }
}

/// The regular expression for an alternation: a group of the escaped
/// alternatives, in lexicographic order and each once, with `|` between
/// them.
pub open spec fn closed_alternate(gathered: Seq<Seq<char>>) -> Seq<char> {
    seq!['('] + joined(enumeration(alternatives(gathered), lex_order()), '|') + seq![')']
}

/// Escapes each character of a text.
fn escape_text(s: &Vec<char>) -> (r: Vec<char>)
    ensures
        r@ == escaped_text(s@),
{
    let mut r: Vec<char> = Vec::new();
    let mut i: usize = 0;
    while i < s.len()
        invariant
            i <= s.len(),
            r@ == escaped_text(s@.take(i as int)),
        decreases s.len() - i,
    {
        proof {
            assert(s@.take(i + 1).drop_last() == s@.take(i as int));
        }
        let piece = escape(s[i]);
        push_all(&mut r, &piece);
        i = i + 1;
    }
    assert(s@.take(s.len() as int) == s@);
    r
}

/// Convert a glob alternatives list to a regular expression pattern.
pub fn close_alternate(gathered: Vec<Vec<char>>) -> (r: Vec<char>)
    ensures
        r@ == closed_alternate(texts(gathered@)),
{
    let ghost all = texts(gathered@);
    let mut items: Vec<Vec<char>> = Vec::new();
    let mut i: usize = 0;
    proof {
        lemma_key_set_empty::<Vec<char>>();
        assert(alternatives(all.take(0)) =~= Set::<Seq<char>>::empty());
    }
    while i < gathered.len()
        invariant
            i <= gathered.len(),
            all == texts(gathered@),
            key_set(items@) == alternatives(all.take(i as int)),
        decreases gathered.len() - i,
    {
        let item = escape_text(&gathered[i]);
        proof {
            lemma_key_set_push(items@, item);
            let before = all.take(i as int);
            let after = all.take(i + 1);
            assert(after == before.push(all[i as int]));
            assert forall|t: Seq<char>| alternatives(after).contains(t) <==> alternatives(
                before,
            ).insert(item@).contains(t) by {
                if alternatives(after).contains(t) {
                    let k = choose|k: int|
                        0 <= k < after.len() && #[trigger] escaped_text(after[k]) == t;
                    if k < i {
                        assert(escaped_text(before[k]) == t);
                    }
                }
                if alternatives(before).contains(t) {
                    let k = choose|k: int|
                        0 <= k < before.len() && #[trigger] escaped_text(before[k]) == t;
                    assert(escaped_text(after[k]) == t);
                }
                if t == item@ {
                    assert(escaped_text(after[i as int]) == t);
                }
            }
            assert(alternatives(after) =~= alternatives(before).insert(item@));
        }
        items.push(item);
        i = i + 1;
    }
    assert(all.take(gathered.len() as int) == all);
    let sorted = sorted_distinct(items);
    let ghost parts = keys_of(sorted@);
    let mut out: Vec<char> = Vec::new();
    out.push('(');
    let mut j: usize = 0;
    while j < sorted.len()
        invariant
            j <= sorted.len(),
            parts == keys_of(sorted@),
            out@ == seq!['('] + joined(parts.take(j as int), '|'),
        decreases sorted.len() - j,
    {
        proof {
            assert(parts.take(j + 1).drop_last() == parts.take(j as int));
            assert(parts.take(j + 1).last() == sorted@[j as int]@);
            if j == 0 {
                assert(parts.take(1)[0] == sorted@[0]@);
            }
        }
        if j > 0 {
            out.push('|');
        }
        push_all(&mut out, &sorted[j]);
        j = j + 1;
    }
    assert(parts.take(sorted.len() as int) == parts);
    out.push(')');
    out
}

/// The current state of the glob pattern parser.
#[derive(Debug)]
pub enum State {
    /// The very start of the pattern: nothing was written yet.
    Start,
    /// The end of the pattern, nothing more to do.
    End,
    /// The next item can be a literal character.
    Literal,
    /// The next item will signify a character escape, e.g. `\t`, `\n`, etc.
    Escape,
    /// The next item will be the first character of a class, possibly `!`.
    ClassStart,
    /// The next item will either be a character or a range, both within a class.
    Class(ClassAccumulator),
    /// A dash followed a character within a class: the next item may close
    /// the range that the character starts.
    ClassRange(ClassAccumulator, char),
    /// There was a dash following a character range: only the end of the
    /// class may come now.
    ClassRangeDash(ClassAccumulator),
    /// The next item will signify a character escape within a character class.
    ClassEscape(ClassAccumulator),
    /// We are building a collection of alternatives: the current one, and
    /// those gathered before it.
    Alternate(Vec<char>, Vec<Vec<char>>),
    /// The next item will signify a character escape within a collection of alternatives.
    AlternateEscape(Vec<char>, Vec<Vec<char>>),
}

/// A parser state as a mathematical value.
pub enum StateView {
    Start,
    End,
    Literal,
    Escape,
    ClassStart,
    Class(ClassView),
    ClassRange(ClassView, char),
    ClassRangeDash(ClassView),
    ClassEscape(ClassView),
    Alternate(Seq<char>, Seq<Seq<char>>),
    AlternateEscape(Seq<char>, Seq<Seq<char>>),
}

impl View for State {
    type V = StateView;

    open spec fn view(&self) -> StateView {
        match self {
            State::Start => StateView::Start,
            State::End => StateView::End,
            State::Literal => StateView::Literal,
            State::Escape => StateView::Escape,
            State::ClassStart => StateView::ClassStart,
            State::Class(acc) => StateView::Class(acc@),
            State::ClassRange(acc, start) => StateView::ClassRange(acc@, *start),
            State::ClassRangeDash(acc) => StateView::ClassRangeDash(acc@),
            State::ClassEscape(acc) => StateView::ClassEscape(acc@),
            State::Alternate(current, gathered) => StateView::Alternate(current@, texts(gathered@)),
            State::AlternateEscape(current, gathered) => StateView::AlternateEscape(
                current@,
                texts(gathered@),
            ),
        }
    }
}

/// Whether the last item of a class is a range.
pub open spec fn ends_in_range(cls: ClassView) -> bool {
    cls.items.len() > 0 && cls.items.last() is Range
}

impl StateView {
    /// What holds of every state that the parser reaches: the class that a
    /// dash has followed ends in the range that the dash came after.
    pub open spec fn wf(self) -> bool {
        match self {
            StateView::ClassRangeDash(cls) => ends_in_range(cls),
            _ => true,
        }
    }
}

/// What one step of the parser does: the state it moves to and the piece of
/// the regular expression it writes, if any.
pub struct Move {
    pub next: StateView,
    pub fragment: Option<Seq<char>>,
}

/// What is missing where the end of a class range is escaped.
pub open spec fn range_end_escape_message() -> Seq<char> {
    "an escaped character at the end of a class range"@
}

/// What is missing where a character class opens within an alternation.
pub open spec fn alternate_class_message() -> Seq<char> {
    "a character class within an alternation"@
}

/// The step on a literal position. At the end of the pattern the closing
/// anchor is written. A backslash, an opening bracket and an opening brace
/// lead into their states. `?` stands for one character that is no slash,
/// `*` for any run of such characters. A dot, a closing bracket and a
/// closing brace are escaped; any other character is written as it is.
pub open spec fn literal_move(c: Option<char>) -> Move {
    match c {
        None => Move { next: StateView::End, fragment: Some(seq!['$']) },
        Some(chr) => if chr == '\\' {
            Move { next: StateView::Escape, fragment: None }
        } else if chr == '[' {
            Move { next: StateView::ClassStart, fragment: None }
        } else if chr == '{' {
            Move { next: StateView::Alternate(Seq::empty(), Seq::empty()), fragment: None }
        } else if chr == '?' {
            Move { next: StateView::Literal, fragment: Some(seq!['[', '^', '/', ']']) }
        } else if chr == '*' {
            Move { next: StateView::Literal, fragment: Some(seq!['[', '^', '/', ']', '*']) }
        } else if chr == ']' || chr == '}' || chr == '.' {
            Move { next: StateView::Literal, fragment: Some(seq!['\\', chr]) }
        } else {
            Move { next: StateView::Literal, fragment: Some(seq![chr]) }
        },
    }
}

/// The step after a backslash: the escaped character is written, a pattern
/// that ends here is refused.
pub open spec fn escape_move(c: Option<char>) -> Result<Move, PatternErrorView> {
    match c {
        None => Err(PatternErrorView::BareEscape),
        Some(chr) => Ok(
            Move { next: StateView::Literal, fragment: Some(escaped(letter_escape(chr))) },
        ),
    }
}

/// The step on the first character of a class: `!` negates the class, a
/// backslash escapes the next character, and any other character, the dash
/// and the closing bracket among them, is the first member.
pub open spec fn class_start_move(c: Option<char>) -> Result<Move, PatternErrorView> {
    match c {
        None => Err(PatternErrorView::UnclosedClass),
        Some(chr) => if chr == '!' {
            Ok(
                Move {
                    next: StateView::Class(ClassView { negated: true, items: Seq::empty() }),
                    fragment: None,
                },
            )
        } else if chr == '\\' {
            Ok(
                Move {
                    next: StateView::ClassEscape(ClassView { negated: false, items: Seq::empty() }),
                    fragment: None,
                },
            )
        } else {
            Ok(
                Move {
                    next: StateView::Class(
                        ClassView { negated: false, items: seq![ClassItem::Char(chr)] },
                    ),
                    fragment: None,
                },
            )
        },
    }
}

/// The class with one more item.
pub open spec fn with_item(cls: ClassView, item: ClassItem) -> ClassView {
    ClassView { negated: cls.negated, items: cls.items.push(item) }
}

/// The step within a class. A closing bracket closes the class, unless the
/// class is still empty: then it is a member. A dash after a character
/// starts a range, after a range it waits for the end of the class, and in
/// an empty class it is a member. A backslash escapes the next character.
pub open spec fn class_move(cls: ClassView, c: Option<char>) -> Result<Move, PatternErrorView> {
    match c {
        None => Err(PatternErrorView::UnclosedClass),
        Some(chr) => if chr == ']' {
            if cls.items.len() == 0 {
                Ok(
                    Move {
                        next: StateView::Class(with_item(cls, ClassItem::Char(']'))),
                        fragment: None,
                    },
                )
            } else {
                Ok(Move { next: StateView::Literal, fragment: Some(closed_class(cls)) })
            }
        } else if chr == '-' {
            if cls.items.len() == 0 {
                Ok(
                    Move {
                        next: StateView::Class(with_item(cls, ClassItem::Char('-'))),
                        fragment: None,
                    },
                )
            } else {
                match cls.items.last() {
                    ClassItem::Range(_, _) => Ok(
                        Move { next: StateView::ClassRangeDash(cls), fragment: None },
                    ),
                    ClassItem::Char(start) => Ok(
                        Move {
                            next: StateView::ClassRange(
                                ClassView { negated: cls.negated, items: cls.items.drop_last() },
                                start,
                            ),
                            fragment: None,
                        },
                    ),
                }
            }
        } else if chr == '\\' {
            Ok(Move { next: StateView::ClassEscape(cls), fragment: None })
        } else {
            Ok(Move { next: StateView::Class(with_item(cls, ClassItem::Char(chr))), fragment: None })
        },
    }
}

/// The step after a backslash within a class: the escaped character is a
/// member.
pub open spec fn class_escape_move(cls: ClassView, c: Option<char>) -> Result<Move, PatternErrorView> {
    match c {
        None => Err(PatternErrorView::UnclosedClass),
        Some(chr) => Ok(
            Move {
                next: StateView::Class(with_item(cls, ClassItem::Char(letter_escape(chr)))),
                fragment: None,
            },
        ),
    }
}

/// The step after a character and a dash within a class. A closing bracket
/// makes both of them members and closes the class. Any other character
/// ends the range: a range that runs backwards is refused, one from a
/// character to itself is that character. An escaped end is not supported.
pub open spec fn class_range_move(cls: ClassView, start: char, c: Option<char>) -> Result<
    Move,
    PatternErrorView,
> {
    match c {
        None => Err(PatternErrorView::UnclosedClass),
        Some(chr) => if chr == '\\' {
            Err(PatternErrorView::NotImplemented(range_end_escape_message()))
        } else if chr == ']' {
            Ok(
                Move {
                    next: StateView::Literal,
                    fragment: Some(
                        closed_class(
                            with_item(with_item(cls, ClassItem::Char(start)), ClassItem::Char('-')),
                        ),
                    ),
                },
            )
        } else if start > chr {
            Err(PatternErrorView::ReversedRange(start, chr))
        } else if start == chr {
            Ok(
                Move {
                    next: StateView::Class(with_item(cls, ClassItem::Char(start))),
                    fragment: None,
                },
            )
        } else {
            Ok(
                Move {
                    next: StateView::Class(with_item(cls, ClassItem::Range(start, chr))),
                    fragment: None,
                },
            )
        },
    }
}

/// The step after a range and a dash within a class: a closing bracket
/// makes the dash a member and closes the class, anything else is refused
/// with the range that the dash came after.
pub open spec fn class_range_dash_move(cls: ClassView, c: Option<char>) -> Result<Move, PatternErrorView> {
    match c {
        None => Err(PatternErrorView::UnclosedClass),
        Some(chr) => if chr == ']' {
            Ok(
                Move {
                    next: StateView::Literal,
                    fragment: Some(closed_class(with_item(cls, ClassItem::Char('-')))),
                },
            )
        } else {
            match cls.items.last() {
                ClassItem::Range(start, end) => Err(PatternErrorView::RangeAfterRange(start, end)),
                ClassItem::Char(_) => Err(PatternErrorView::UnclosedClass),
            }
        },
    }
}

/// The step within an alternation. A comma ends the current alternative, a
/// closing brace ends the alternation: `{}` stands for the two braces
/// themselves. A backslash escapes the next character; a character class
/// is not supported here.
pub open spec fn alternate_move(current: Seq<char>, gathered: Seq<Seq<char>>, c: Option<char>)
    -> Result<Move, PatternErrorView> {
    match c {
        None => Err(PatternErrorView::UnclosedAlternation),
        Some(chr) => if chr == ',' {
            Ok(
                Move {
                    next: StateView::Alternate(Seq::empty(), gathered.push(current)),
                    fragment: None,
                },
            )
        } else if chr == '}' {
            if current.len() == 0 && gathered.len() == 0 {
                Ok(Move { next: StateView::Literal, fragment: Some(seq!['\\', '{', '\\', '}']) })
            } else {
                Ok(
                    Move {
                        next: StateView::Literal,
                        fragment: Some(closed_alternate(gathered.push(current))),
                    },
                )
            }
        } else if chr == '\\' {
            Ok(Move { next: StateView::AlternateEscape(current, gathered), fragment: None })
        } else if chr == '[' {
            Err(PatternErrorView::NotImplemented(alternate_class_message()))
        } else {
            Ok(Move { next: StateView::Alternate(current.push(chr), gathered), fragment: None })
        },
    }
}

/// The step after a backslash within an alternation: the escaped character
/// joins the current alternative.
pub open spec fn alternate_escape_move(
    current: Seq<char>,
    gathered: Seq<Seq<char>>,
    c: Option<char>,
) -> Result<Move, PatternErrorView> {
    match c {
        None => Err(PatternErrorView::UnclosedAlternation),
        Some(chr) => Ok(
            Move {
                next: StateView::Alternate(current.push(letter_escape(chr)), gathered),
                fragment: None,
            },
        ),
    }
}

/// The step that a state takes on the next character of the pattern, or on
/// its end (`None`). `Start` and `End` read nothing: see `run`.
pub open spec fn state_move(s: StateView, c: Option<char>) -> Result<Move, PatternErrorView> {
    match s {
        StateView::Start => Ok(Move { next: StateView::Literal, fragment: Some(seq!['^']) }),
        StateView::End => Ok(Move { next: StateView::End, fragment: None }),
        StateView::Literal => Ok(literal_move(c)),
        StateView::Escape => escape_move(c),
        StateView::ClassStart => class_start_move(c),
        StateView::Class(cls) => class_move(cls, c),
        StateView::ClassRange(cls, start) => class_range_move(cls, start, c),
        StateView::ClassRangeDash(cls) => class_range_dash_move(cls, c),
        StateView::ClassEscape(cls) => class_escape_move(cls, c),
        StateView::Alternate(current, gathered) => alternate_move(current, gathered, c),
        StateView::AlternateEscape(current, gathered) => alternate_escape_move(
            current,
            gathered,
            c,
        ),
    }
}

/// The text with `head` in front of it, where there is a text.
pub open spec fn prefixed(head: Seq<char>, tail: Result<Seq<char>, PatternErrorView>) -> Result<
    Seq<char>,
    PatternErrorView,
> {
    match tail {
        Ok(t) => Ok(head + t),
        Err(e) => Err(e),
    }
}

/// The characters of a fragment, none where there is no fragment.
pub open spec fn fragment_text(fragment: Option<Seq<char>>) -> Seq<char> {
    match fragment {
        Some(t) => t,
        None => Seq::empty(),
    }
}

/// The first character of a text, if it has one.
pub open spec fn first_of(rest: Seq<char>) -> Option<char> {
    if rest.len() == 0 {
        None
    } else {
        Some(rest[0])
    }
}

/// A text without its first character, if it has one.
pub open spec fn after_first(rest: Seq<char>) -> Seq<char> {
    if rest.len() == 0 {
        rest
    } else {
        rest.drop_first()
    }
}

/// How far a state is from the end once nothing is left to read.
pub open spec fn rank(s: StateView) -> nat {
    match s {
        StateView::End => 0,
        StateView::Start => 2,
        _ => 1,
    }
}

/// What the parser writes at the end of the pattern: the last piece where
/// the state lets a pattern end, the error where it does not.
pub open spec fn run_out(s: StateView) -> Result<Seq<char>, PatternErrorView> {
    match state_move(s, None) {
        Err(e) => Err(e),
        Ok(m) => Ok(fragment_text(m.fragment)),
    }
}

/// What the parser writes from a state on, given the rest of the pattern:
/// the pieces of all its steps in a row, or the first error that a step
/// meets. `Start` writes the opening anchor and reads nothing; every other
/// state reads one character at each step, and at last the end of the
/// pattern.
pub open spec fn run(s: StateView, rest: Seq<char>) -> Result<Seq<char>, PatternErrorView>
    decreases rest.len(), rank(s),
{
    match s {
        StateView::End => Ok(Seq::empty()),
        StateView::Start => prefixed(seq!['^'], run(StateView::Literal, rest)),
        _ => if rest.len() == 0 {
            run_out(s)
        } else {
            match state_move(s, Some(rest[0])) {
                Err(e) => Err(e),
                Ok(m) => prefixed(fragment_text(m.fragment), run(m.next, rest.drop_first())),
            }
        },
    }
}

/// The regular expression that a glob pattern compiles to, or the error
/// that refuses the pattern.
pub open spec fn glob_regex(pattern: Seq<char>) -> Result<Seq<char>, PatternErrorView> {
    run(StateView::Start, pattern)
}

/// Slash safety of the wildcards: what is written for `?` is a bracket
/// expression that reads as the negated class of the slash alone, what is
/// written for `*` is any run of it, and that class admits no slash.
pub proof fn lemma_wildcards_reject_slash()
    ensures
        literal_move(Some('?')).fragment == Some(seq!['[', '^', '/', ']']),
        literal_move(Some('*')).fragment == Some(seq!['[', '^', '/', ']'].push('*')),
        read_class(seq!['[', '^', '/', ']']) == Some(
            ClassView { negated: true, items: seq![ClassItem::Char('/')] },
        ),
        !class_admits(ClassView { negated: true, items: seq![ClassItem::Char('/')] }, '/'),
{
    let text = seq!['[', '^', '/', ']'];
    let listed = text.skip(2);
    let end = listed.skip(1);
    assert(seq!['[', '^', '/', ']'].push('*') =~= seq!['[', '^', '/', ']', '*']);
    assert(listed[0] == '/' && listed[1] == ']' && listed.len() == 2);
    assert(end[0] == ']' && end.len() == 1);
    assert(read_members(end) == Some(Seq::<ClassItem>::empty()));
    assert(read_atom(listed) == Some(('/', 1int)));
    assert(read_members(listed) == Some(seq![ClassItem::Char('/')] + Seq::<ClassItem>::empty()));
    assert(seq![ClassItem::Char('/')] + Seq::<ClassItem>::empty() =~= seq![ClassItem::Char('/')]);
    let items = seq![ClassItem::Char('/')];
    assert(item_admits(items[0], '/'));
}

/// Anchoring: whatever the parser writes from a state other than its end
/// closes with the anchor `$`.
pub proof fn lemma_run_closes_with_anchor(s: StateView, rest: Seq<char>)
    requires
        !(s is End),
    ensures
        run(s, rest) matches Ok(text) ==> text.len() > 0 && text.last() == '$',
    decreases rest.len(), rank(s),
{
    match s {
        StateView::Start => {
            lemma_run_closes_with_anchor(StateView::Literal, rest);
        },
        _ => {
            if rest.len() > 0 {
                match state_move(s, Some(rest[0])) {
                    Ok(m) => {
                        lemma_run_closes_with_anchor(m.next, rest.drop_first());
                    },
                    Err(_) => {},
                }
            }
        },
    }
}

/// Anchoring: a compiled pattern stands between `^` and `$`.
pub proof fn lemma_compiled_is_anchored(pattern: Seq<char>)
    ensures
        glob_regex(pattern) matches Ok(text) ==> text.len() >= 2 && text.first() == '^'
            && text.last() == '$',
{
    lemma_run_closes_with_anchor(StateView::Literal, pattern);
    lemma_run_closes_with_anchor(StateView::Start, pattern);
}

/// A step from a well-formed state leads to a well-formed state.
pub proof fn lemma_move_keeps_wf(s: StateView, c: Option<char>)
    requires
        s.wf(),
    ensures
        state_move(s, c) matches Ok(m) ==> m.next.wf(),
{
}

/// Putting two texts in front, one after the other, is putting their
/// concatenation in front.
pub proof fn lemma_prefixed_twice(a: Seq<char>, b: Seq<char>, tail: Result<Seq<char>, PatternErrorView>)
    ensures
        prefixed(a, prefixed(b, tail)) == prefixed(a + b, tail),
{
    match tail {
        Ok(t) => {
            assert(a + (b + t) =~= (a + b) + t);
        },
        Err(_) => {},
    }
}

/// The piece that a step has written, as a mathematical value.
pub open spec fn fragment_view(fragment: Option<Vec<char>>) -> Option<Seq<char>> {
    match fragment {
        Some(t) => Some(t@),
        None => None,
    }
}

/// Iterate over a glob pattern's characters, build up a regular expression.
#[derive(Debug)]
pub struct GlobIterator {
    /// The characters of the glob pattern.
    pub pattern: Vec<char>,
    /// How many of them have been read.
    pub pos: usize,
    /// The current state of the glob pattern parser.
    pub state: State,
}

/// What a step of the executable parser has done, held against what the
/// step should do: the pattern is the same, one character was read unless
/// none was left, and the piece and the next state are those of the
/// expected move. After an error the parser is at its end.
pub open spec fn follows(
    before: GlobIterator,
    after: GlobIterator,
    r: Result<Option<Vec<char>>, PatternError>,
    expected: Result<Move, PatternErrorView>,
) -> bool {
    &&& after.pattern == before.pattern
    &&& after.pos <= after.pattern.len()
    &&& after.rest() == after_first(before.rest())
    &&& match expected {
        Ok(m) => r matches Ok(fragment) && fragment_view(fragment) == m.fragment && after.state@
            == m.next,
        Err(e) => r matches Err(x) && x@ == e && after.state@ == StateView::End,
    }
}

impl GlobIterator {
    /// The position is within the pattern and the state is one that the
    /// parser reaches.
    pub open spec fn wf(&self) -> bool {
        self.pos <= self.pattern.len() && self.state@.wf()
    }

    /// What is left to read of the pattern.
    pub open spec fn rest(&self) -> Seq<char> {
        self.pattern@.skip(self.pos as int)
    }

    /// The character that is read next, if one is left.
    pub open spec fn upcoming(&self) -> Option<char> {
        first_of(self.rest())
    }

    /// A parser at the very start of the pattern.
    pub fn new(pattern: Vec<char>) -> (r: Self)
        ensures
            r.wf(),
            r.pattern == pattern,
            r.pos == 0,
            r.state@ == StateView::Start,
            r.rest() == pattern@,
    {
        let r = GlobIterator { pattern, pos: 0, state: State::Start };
        assert(r.pattern@.skip(0) == r.pattern@);
        r
    }

    /// Reads the next character of the pattern, if one is left.
    fn take_char(&mut self) -> (c: Option<char>)
        requires
            old(self).pos <= old(self).pattern.len(),
        ensures
            c == old(self).upcoming(),
            final(self).pattern == old(self).pattern,
            final(self).state == old(self).state,
            final(self).pos <= final(self).pattern.len(),
            final(self).rest() == after_first(old(self).rest()),
    {
        if self.pos < self.pattern.len() {
            let c = self.pattern[self.pos];
            self.pos = self.pos + 1;
            assert(self.rest() == old(self).rest().drop_first());
            Some(c)
        } else {
            None
        }
    }

    /// Output a "^" at the very start of the pattern.
    pub fn handle_start(&mut self) -> (r: Vec<char>)
        ensures
            r@ == seq!['^'],
            final(self).state@ == StateView::Literal,
            final(self).pattern == old(self).pattern,
            final(self).pos == old(self).pos,
    {
        self.state = State::Literal;
        vec!['^']
    }

    /// Handle the next character when expecting a literal one.
    pub fn handle_literal(&mut self) -> (r: Option<Vec<char>>)
        requires
            old(self).pos <= old(self).pattern.len(),
        ensures
            follows(*old(self), *final(self), Ok(r), Ok(literal_move(old(self).upcoming()))),
    {
        match self.take_char() {
            None => {
                self.state = State::End;
                let piece = vec!['$'];
                assert(piece@ =~= seq!['$']);
                Some(piece)
            },
            Some(chr) => {
                if chr == '\\' {
                    self.state = State::Escape;
                    None
                } else if chr == '[' {
                    self.state = State::ClassStart;
                    None
                } else if chr == '{' {
                    let gathered: Vec<Vec<char>> = Vec::new();
                    assert(texts(gathered@) == Seq::<Seq<char>>::empty());
                    self.state = State::Alternate(Vec::new(), gathered);
                    None
                } else if chr == '?' {
                    self.state = State::Literal;
                    let piece = vec!['[', '^', '/', ']'];
                    assert(piece@ =~= seq!['[', '^', '/', ']']);
                    Some(piece)
                } else if chr == '*' {
                    self.state = State::Literal;
                    let piece = vec!['[', '^', '/', ']', '*'];
                    assert(piece@ =~= seq!['[', '^', '/', ']', '*']);
                    Some(piece)
                } else if chr == ']' || chr == '}' || chr == '.' {
                    self.state = State::Literal;
                    let piece = vec!['\\', chr];
                    assert(piece@ =~= seq!['\\', chr]);
                    Some(piece)
                } else {
                    self.state = State::Literal;
                    let piece = vec![chr];
                    assert(piece@ =~= seq![chr]);
                    Some(piece)
                }
            },
        }
    }

    /// Handle an escaped character.
    pub fn handle_escape(&mut self) -> (r: Result<Option<Vec<char>>, PatternError>)
        requires
            old(self).pos <= old(self).pattern.len(),
        ensures
            follows(*old(self), *final(self), r, escape_move(old(self).upcoming())),
    {
        match self.take_char() {
            Some(chr) => {
                self.state = State::Literal;
                Ok(Some(escape_special(chr)))
            },
            None => {
                self.state = State::End;
                Err(PatternError::BareEscape)
            },
        }
    }

    /// Handle the first character in a character class specification.
    pub fn handle_class_start(&mut self) -> (r: Result<Option<Vec<char>>, PatternError>)
        requires
            old(self).pos <= old(self).pattern.len(),
        ensures
            follows(*old(self), *final(self), r, class_start_move(old(self).upcoming())),
    {
        match self.take_char() {
            Some(chr) => {
                if chr == '!' {
                    self.state = State::Class(ClassAccumulator { negated: true, items: Vec::new() });
                } else if chr == '\\' {
                    self.state = State::ClassEscape(
                        ClassAccumulator { negated: false, items: Vec::new() },
                    );
                } else {
                    let items = vec![ClassItem::Char(chr)];
                    assert(items@ =~= seq![ClassItem::Char(chr)]);
                    self.state = State::Class(ClassAccumulator { negated: false, items });
                }
                Ok(None)
            },
            None => {
                self.state = State::End;
                Err(PatternError::UnclosedClass)
            },
        }
    }

    /// Handle a character in a character class specification.
    pub fn handle_class(&mut self, acc: ClassAccumulator) -> (r: Result<Option<Vec<char>>, PatternError>)
        requires
            old(self).pos <= old(self).pattern.len(),
        ensures
            follows(*old(self), *final(self), r, class_move(acc@, old(self).upcoming())),
    {
        let mut acc = acc;
        match self.take_char() {
            Some(chr) => {
                if chr == ']' {
                    if acc.items.len() == 0 {
                        acc.items.push(ClassItem::Char(']'));
                        self.state = State::Class(acc);
                        Ok(None)
                    } else {
                        self.state = State::Literal;
                        Ok(Some(close_class(acc)))
                    }
                } else if chr == '-' {
                    let ghost before = acc@;
                    match acc.items.pop() {
                        None => {
                            acc.items.push(ClassItem::Char('-'));
                            self.state = State::Class(acc);
                            Ok(None)
                        },
                        Some(ClassItem::Range(start, end)) => {
                            acc.items.push(ClassItem::Range(start, end));
                            assert(acc.items@ == before.items);
                            self.state = State::ClassRangeDash(acc);
                            Ok(None)
                        },
                        Some(ClassItem::Char(start)) => {
                            assert(acc.items@ == before.items.drop_last());
                            self.state = State::ClassRange(acc, start);
                            Ok(None)
                        },
                    }
                } else if chr == '\\' {
                    self.state = State::ClassEscape(acc);
                    Ok(None)
                } else {
                    acc.items.push(ClassItem::Char(chr));
                    self.state = State::Class(acc);
                    Ok(None)
                }
            },
            None => {
                self.state = State::End;
                Err(PatternError::UnclosedClass)
            },
        }
    }

    /// Escape a character in a class specification.
    pub fn handle_class_escape(&mut self, acc: ClassAccumulator) -> (r: Result<
        Option<Vec<char>>,
        PatternError,
    >)
        requires
            old(self).pos <= old(self).pattern.len(),
        ensures
            follows(*old(self), *final(self), r, class_escape_move(acc@, old(self).upcoming())),
    {
        let mut acc = acc;
        match self.take_char() {
            Some(chr) => {
                acc.items.push(ClassItem::Char(map_letter_escape(chr)));
                self.state = State::Class(acc);
                Ok(None)
            },
            None => {
                self.state = State::End;
                Err(PatternError::UnclosedClass)
            },
        }
    }

    /// Handle a character within a class range.
    pub fn handle_class_range(&mut self, acc: ClassAccumulator, start: char) -> (r: Result<
        Option<Vec<char>>,
        PatternError,
    >)
        requires
            old(self).pos <= old(self).pattern.len(),
        ensures
            follows(
                *old(self),
                *final(self),
                r,
                class_range_move(acc@, start, old(self).upcoming()),
            ),
    {
        let mut acc = acc;
        match self.take_char() {
            Some(chr) => {
                if chr == '\\' {
                    self.state = State::End;
                    Err(
                        PatternError::NotImplemented(
                            "an escaped character at the end of a class range".to_owned(),
                        ),
                    )
                } else if chr == ']' {
                    acc.items.push(ClassItem::Char(start));
                    acc.items.push(ClassItem::Char('-'));
                    self.state = State::Literal;
                    Ok(Some(close_class(acc)))
                } else if start > chr {
                    self.state = State::End;
                    Err(PatternError::ReversedRange(start, chr))
                } else if start == chr {
                    acc.items.push(ClassItem::Char(start));
                    self.state = State::Class(acc);
                    Ok(None)
                } else {
                    acc.items.push(ClassItem::Range(start, chr));
                    self.state = State::Class(acc);
                    Ok(None)
                }
            },
            None => {
                self.state = State::End;
                Err(PatternError::UnclosedClass)
            },
        }
    }

    /// Handle a dash immediately following a range within a character class.
    pub fn handle_class_range_dash(&mut self, acc: ClassAccumulator) -> (r: Result<
        Option<Vec<char>>,
        PatternError,
    >)
        requires
            old(self).pos <= old(self).pattern.len(),
            ends_in_range(acc@),
        ensures
            follows(*old(self), *final(self), r, class_range_dash_move(acc@, old(self).upcoming())),
    {
        let mut acc = acc;
        match self.take_char() {
            Some(chr) => {
                if chr == ']' {
                    acc.items.push(ClassItem::Char('-'));
                    self.state = State::Literal;
                    Ok(Some(close_class(acc)))
                } else {
                    self.state = State::End;
                    match acc.items[acc.items.len() - 1] {
                        ClassItem::Range(start, end) => Err(PatternError::RangeAfterRange(start, end)),
                        ClassItem::Char(_) => Err(PatternError::UnclosedClass),
                    }
                }
            },
            None => {
                self.state = State::End;
                Err(PatternError::UnclosedClass)
            },
        }
    }

    /// Handle a character within a set of alternatives.
    pub fn handle_alternate(&mut self, current: Vec<char>, gathered: Vec<Vec<char>>) -> (r: Result<
        Option<Vec<char>>,
        PatternError,
    >)
        requires
            old(self).pos <= old(self).pattern.len(),
        ensures
            follows(
                *old(self),
                *final(self),
                r,
                alternate_move(current@, texts(gathered@), old(self).upcoming()),
            ),
    {
        let mut current = current;
        let mut gathered = gathered;
        let ghost before = texts(gathered@);
        match self.take_char() {
            Some(chr) => {
                if chr == ',' {
                    gathered.push(current);
                    assert(texts(gathered@) == before.push(current@));
                    self.state = State::Alternate(Vec::new(), gathered);
                    Ok(None)
                } else if chr == '}' {
                    self.state = State::Literal;
                    if current.len() == 0 && gathered.len() == 0 {
                        let piece = vec!['\\', '{', '\\', '}'];
                        assert(piece@ =~= seq!['\\', '{', '\\', '}']);
                        assert(current@ =~= Seq::<char>::empty());
                        assert(before =~= Seq::<Seq<char>>::empty());
                        Ok(Some(piece))
                    } else {
                        gathered.push(current);
                        assert(texts(gathered@) == before.push(current@));
                        Ok(Some(close_alternate(gathered)))
                    }
                } else if chr == '\\' {
                    self.state = State::AlternateEscape(current, gathered);
                    Ok(None)
                } else if chr == '[' {
                    self.state = State::End;
                    Err(PatternError::NotImplemented("a character class within an alternation".to_owned()))
                } else {
                    current.push(chr);
                    self.state = State::Alternate(current, gathered);
                    Ok(None)
                }
            },
            None => {
                self.state = State::End;
                Err(PatternError::UnclosedAlternation)
            },
        }
    }

    /// Escape a character within a list of alternatives.
    pub fn handle_alternate_escape(&mut self, current: Vec<char>, gathered: Vec<Vec<char>>) -> (r:
        Result<Option<Vec<char>>, PatternError>)
        requires
            old(self).pos <= old(self).pattern.len(),
        ensures
            follows(
                *old(self),
                *final(self),
                r,
                alternate_escape_move(current@, texts(gathered@), old(self).upcoming()),
            ),
    {
        let mut current = current;
        match self.take_char() {
            Some(chr) => {
                current.push(map_letter_escape(chr));
                self.state = State::Alternate(current, gathered);
                Ok(None)
            },
            None => {
                self.state = State::End;
                Err(PatternError::UnclosedAlternation)
            },
        }
    }

    /// Takes one step: `None` once the parser is at its end, else the piece
    /// that the step has written, if any, or the error that it has met.
    /// From `Start` the opening anchor is written and nothing is read;
    /// from any other state the step is the one that `state_move` gives
    /// for the state and the next character, or the end of the pattern.
    pub fn next(&mut self) -> (r: Option<Result<Option<Vec<char>>, PatternError>>)
        requires
            old(self).wf(),
        ensures
            final(self).wf(),
            final(self).pattern == old(self).pattern,
            match old(self).state@ {
                StateView::End => r is None && final(self).state@ is End && final(self).pos == old(
                    self,
                ).pos,
                StateView::Start => final(self).state@ is Literal && final(self).pos == old(
                    self,
                ).pos && (r matches Some(Ok(Some(t))) && t@ == seq!['^']),
                _ => (r matches Some(x) && follows(
                    *old(self),
                    *final(self),
                    x,
                    state_move(old(self).state@, old(self).upcoming()),
                )),
            },
    {
        let mut state = State::End;
        std::mem::swap(&mut self.state, &mut state);
        proof {
            lemma_move_keeps_wf(state@, old(self).upcoming());
        }
        match state {
            State::Start => Some(Ok(Some(self.handle_start()))),
            State::End => None,
            State::Literal => Some(Ok(self.handle_literal())),
            State::Escape => Some(self.handle_escape()),
            State::ClassStart => Some(self.handle_class_start()),
            State::Class(acc) => Some(self.handle_class(acc)),
            State::ClassEscape(acc) => Some(self.handle_class_escape(acc)),
            State::ClassRange(acc, start) => Some(self.handle_class_range(acc, start)),
            State::ClassRangeDash(acc) => Some(self.handle_class_range_dash(acc)),
            State::Alternate(current, gathered) => Some(self.handle_alternate(current, gathered)),
            State::AlternateEscape(current, gathered) => Some(
                self.handle_alternate_escape(current, gathered),
            ),
        }
    }
}

/// Parse a shell glob-like pattern, given as its characters, into the
/// characters of a regular expression.
pub fn glob_to_regex_chars(pattern: Vec<char>) -> (r: Result<Vec<char>, PatternError>)
    ensures
        match glob_regex(pattern@) {
            Ok(text) => r matches Ok(s) && s@ == text,
            Err(e) => r matches Err(x) && x@ == e,
        },
{
    let ghost whole = pattern@;
    let mut parser = GlobIterator::new(pattern);
    let mut out: Vec<char> = Vec::new();
    assert(prefixed(out@, glob_regex(whole)) == glob_regex(whole)) by {
        match glob_regex(whole) {
            Ok(t) => {
                assert(out@ + t =~= t);
            },
            Err(_) => {},
        }
    }
    loop
        invariant
            parser.wf(),
            whole == pattern@,
            glob_regex(whole) == prefixed(out@, run(parser.state@, parser.rest())),
        decreases parser.rest().len(), rank(parser.state@),
    {
        let ghost state = parser.state@;
        let ghost rest = parser.rest();
        let ghost head = out@;
        match parser.next() {
            None => {
                assert(out@ + Seq::<char>::empty() =~= out@);
                return Ok(out);
            },
            Some(Err(e)) => {
                return Err(e);
            },
            Some(Ok(None)) => {
                proof {
                    lemma_prefixed_twice(head, Seq::empty(), run(parser.state@, parser.rest()));
                    assert(head + Seq::<char>::empty() =~= head);
                }
            },
            Some(Ok(Some(fragment))) => {
                proof {
                    lemma_prefixed_twice(head, fragment@, run(parser.state@, parser.rest()));
                    if rest.len() == 0 && !(state is Start) {
                        assert(fragment@ + Seq::<char>::empty() =~= fragment@);
                    }
                }
                push_all(&mut out, &fragment);
            },
        }
    }
}

/// Parse a shell glob-like pattern into a regular expression.
///
/// See the module-level documentation for a description of the pattern
/// features supported.
///
/// # Errors
/// Most of the [`PatternError`] values, mostly syntax errors in the specified
/// glob pattern.
pub fn glob_to_regex_string(pattern: &str) -> (r: Result<String, PatternError>)
    ensures
        match glob_regex(pattern@) {
            Ok(text) => r matches Ok(s) && s@ == text,
            Err(e) => r matches Err(x) && x@ == e,
        },
{
    match glob_to_regex_chars(to_chars(pattern)) {
        Ok(text) => Ok(from_chars(&text)),
        Err(e) => Err(e),
    }
}

} // verus!
