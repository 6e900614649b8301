//! Character classes: what they admit, how the slash is kept out of them,
//! and the bracket expression written for them.

use vstd::prelude::*;
use crate::order::{
    enumerable, enumeration, key_set, keys_of, lemma_enumerable_empty, lemma_enumerable_insert,
    lemma_enumeration_enumerates, lemma_key_set_empty, lemma_key_set_push, sorted_distinct, Ranked,
};
use crate::text::push_all;

verus! {

/// Something that may appear in a character class.
#[derive(Clone, Copy, Debug)]
pub enum ClassItem {
    /// A single character.
    Char(char),
    /// A range of characters, from the first to the second, both included.
    Range(char, char),
}

/// What has been read of a character class so far.
#[derive(Debug)]
pub struct ClassAccumulator {
    /// Whether the class is negated, that is whether it began with `!`.
    pub negated: bool,
    /// The characters and ranges of the class, in order of appearance.
    pub items: Vec<ClassItem>,
}

/// A character class as a mathematical value.
pub struct ClassView {
    pub negated: bool,
    pub items: Seq<ClassItem>,
}

impl View for ClassAccumulator {
    type V = ClassView;

    open spec fn view(&self) -> ClassView {
        ClassView { negated: self.negated, items: self.items@ }
    }
}

/// Whether the item admits the character.
pub open spec fn item_admits(item: ClassItem, c: char) -> bool {
    match item {
        ClassItem::Char(x) => x == c,
        ClassItem::Range(start, end) => start <= c && c <= end,
    }
}

/// Whether one of the items admits the character.
pub open spec fn items_admit(items: Seq<ClassItem>, c: char) -> bool {
    exists|i: int| 0 <= i < items.len() && item_admits(#[trigger] items[i], c)
}

/// Whether the class matches the character: one of its items admits it, or,
/// for a negated class, none does.
pub open spec fn class_admits(cls: ClassView, c: char) -> bool {
    cls.negated != items_admit(cls.items, c)
}

/// Whether a character has a meaning of its own inside a bracket
/// expression: the brackets and the backslash, the caret that negates, the
/// dash that makes a range, and the ampersand and the tilde that, doubled,
/// combine classes.
pub open spec fn is_class_special(c: char) -> bool {
    c == ']' || c == '\\' || c == '[' || c == '^' || c == '-' || c == '&' || c == '~'
}

/// The text that stands for a character inside a bracket expression: a
/// character with a meaning of its own there is escaped, so that it stands
/// for itself wherever it is written.
pub open spec fn escaped_in_class(c: char) -> Seq<char> {
    if is_class_special(c) {
        seq!['\\', c]
    } else {
        seq![c]
    }
}

/// Escape a character in a character class if necessary.
pub fn escape_in_class(chr: char) -> (r: Vec<char>)
    ensures
        r@ == escaped_in_class(chr),
{
    if chr == ']' || chr == '\\' || chr == '[' || chr == '^' || chr == '-' || chr == '&' || chr
        == '~' {
        vec!['\\', chr]
    } else {
        vec![chr]
    }
}

/// What is left of an item once the slash is taken out of it: nothing of
/// the slash itself, a range that ends or starts at the slash shortened by
/// one, a range across the slash split in two. A range that shrinks to one
/// character becomes that character.
pub open spec fn item_without_slash(item: ClassItem) -> Seq<ClassItem> {
    match item {
        ClassItem::Char(c) => if c == '/' {
            Seq::empty()
        } else {
            seq![item]
        },
        ClassItem::Range(start, end) => if end == '/' {
            seq![below_slash(start)]
        } else if start == '/' {
            seq![above_slash(end)]
        } else if start > '/' || '/' > end {
            seq![item]
        } else {
            seq![below_slash(start), above_slash(end)]
        },
    }
}

/// The part of a range from `start` that lies below the slash.
pub open spec fn below_slash(start: char) -> ClassItem {
    if start == '.' {
        ClassItem::Char('.')
    } else {
        ClassItem::Range(start, '.')
    }
}

/// The part of a range up to `end` that lies above the slash.
pub open spec fn above_slash(end: char) -> ClassItem {
    if end == '0' {
        ClassItem::Char('0')
    } else {
        ClassItem::Range('0', end)
    }
}

/// The items with the slash taken out of each.
pub open spec fn without_slash(items: Seq<ClassItem>) -> Seq<ClassItem>
    decreases items.len(),
{
    if items.len() == 0 {
        Seq::empty()
    } else {
        without_slash(items.drop_last()) + item_without_slash(items.last())
    }
}

/// The items, followed by the slash where none of them admits it.
pub open spec fn with_slash(items: Seq<ClassItem>) -> Seq<ClassItem> {
    if items_admit(items, '/') {
        items
    } else {
        items.push(ClassItem::Char('/'))
    }
}

/// The class made safe for filenames: it never matches a slash. A negated
/// class lists the slash among what it excludes, another has it taken out.
pub open spec fn slash_safe(cls: ClassView) -> ClassView {
    if cls.negated {
        ClassView { negated: true, items: with_slash(cls.items) }
    } else {
        ClassView { negated: false, items: without_slash(cls.items) }
    }
}

fn exec_below_slash(start: char) -> (r: ClassItem)
    ensures
        r == below_slash(start),
{
    if start == '.' {
        ClassItem::Char('.')
    } else {
        ClassItem::Range(start, '.')
    }
}

fn exec_above_slash(end: char) -> (r: ClassItem)
    ensures
        r == above_slash(end),
{
    if end == '0' {
        ClassItem::Char('0')
    } else {
        ClassItem::Range('0', end)
    }
}

/// Exclude the slash character from classes that would include it.
pub fn handle_slash_exclude(acc: ClassAccumulator) -> (r: ClassAccumulator)
    requires
        !acc.negated,
    ensures
        r@ == slash_safe(acc@),
{
    let mut items: Vec<ClassItem> = Vec::new();
    let mut i: usize = 0;
    while i < acc.items.len()
        invariant
            i <= acc.items.len(),
            items@ == without_slash(acc.items@.take(i as int)),
        decreases acc.items.len() - i,
    {
        proof {
            assert(acc.items@.take(i + 1).drop_last() == acc.items@.take(i as int));
        }
        match acc.items[i] {
            ClassItem::Char(c) => {
                if c != '/' {
                    items.push(ClassItem::Char(c));
                }
            },
            ClassItem::Range(start, end) => {
                if end == '/' {
                    items.push(exec_below_slash(start));
                } else if start == '/' {
                    items.push(exec_above_slash(end));
                } else if start > '/' || '/' > end {
                    items.push(ClassItem::Range(start, end));
                } else {
                    items.push(exec_below_slash(start));
                    items.push(exec_above_slash(end));
                }
            },
        }
        i = i + 1;
    }
    assert(acc.items@.take(acc.items.len() as int) == acc.items@);
    ClassAccumulator { negated: acc.negated, items }
}

/// Make sure a negated character class lists the slash, so that it does not
/// match one.
pub fn handle_slash_include(acc: ClassAccumulator) -> (r: ClassAccumulator)
    requires
        acc.negated,
    ensures
        r@ == slash_safe(acc@),
{
    let mut acc = acc;
    let mut slash_found = false;
    let mut i: usize = 0;
    while i < acc.items.len()
        invariant
            i <= acc.items.len(),
            slash_found == items_admit(acc.items@.take(i as int), '/'),
        decreases acc.items.len() - i,
    {
        let admits = match acc.items[i] {
            ClassItem::Char(c) => c == '/',
            ClassItem::Range(start, end) => start <= '/' && '/' <= end,
        };
        proof {
            let before = acc.items@.take(i as int);
            let after = acc.items@.take(i + 1);
            assert(admits == item_admits(acc.items@[i as int], '/'));
            if slash_found {
                let k = choose|k: int| 0 <= k < before.len() && item_admits(#[trigger] before[k], '/');
                assert(item_admits(after[k], '/'));
            }
            if admits {
                assert(item_admits(after[i as int], '/'));
            }
            if items_admit(after, '/') {
                let k = choose|k: int| 0 <= k < after.len() && item_admits(#[trigger] after[k], '/');
                if k < i {
                    assert(item_admits(before[k], '/'));
                }
            }
        }
        slash_found = slash_found || admits;
        i = i + 1;
    }
    assert(acc.items@.take(acc.items.len() as int) == acc.items@);
    if !slash_found {
        acc.items.push(ClassItem::Char('/'));
    }
    acc
}

/// Character classes should never match a slash when used in filenames.
/// Thus, make sure that a negated character class lists the slash
/// character and that a non-negated one does not include it.
pub fn handle_slash(acc: ClassAccumulator) -> (r: ClassAccumulator)
    ensures
        r@ == slash_safe(acc@),
{
    if acc.negated {
        handle_slash_include(acc)
    } else {
        handle_slash_exclude(acc)
    }
}

/// The characters that the items list one by one, the dash left aside.
pub open spec fn class_chars(items: Seq<ClassItem>) -> Set<char> {
    Set::new(|c: char| c != '-' && items.contains(ClassItem::Char(c)))
}

/// The ranges that the items list, each as its start and its end.
pub open spec fn class_ranges(items: Seq<ClassItem>) -> Set<(char, char)> {
    Set::new(|r: (char, char)| items.contains(ClassItem::Range(r.0, r.1)))
}

/// Whether the items list the dash as a character.
pub open spec fn class_has_dash(items: Seq<ClassItem>) -> bool {
    items.contains(ClassItem::Char('-'))
}

/// The characters written one after the other, each escaped as a bracket
/// expression needs it.
pub open spec fn chars_text(chars: Seq<char>) -> Seq<char>
    decreases chars.len(),
{
    if chars.len() == 0 {
        Seq::empty()
    } else {
        chars_text(chars.drop_last()) + escaped_in_class(chars.last())
    }
}

/// One range as a bracket expression writes it: start, dash, end.
pub open spec fn range_text(range: (char, char)) -> Seq<char> {
    escaped_in_class(range.0) + seq!['-'] + escaped_in_class(range.1)
}

/// The ranges written one after the other.
pub open spec fn ranges_text(ranges: Seq<(char, char)>) -> Seq<char>
    decreases ranges.len(),
{
    if ranges.len() == 0 {
        Seq::empty()
    } else {
        ranges_text(ranges.drop_last()) + range_text(ranges.last())
    }
}

/// The bracket expression with the given parts: the negation mark, the single
/// characters, the ranges, and the dash at the very end.
pub open spec fn bracket_text(
    negated: bool,
    chars: Seq<char>,
    ranges: Seq<(char, char)>,
    dash: bool,
) -> Seq<char> {
    seq!['['] + (if negated {
        seq!['^']
    } else {
        Seq::empty()
    }) + chars_text(chars) + ranges_text(ranges) + (if dash {
        seq!['-']
    } else {
        Seq::empty()
    }) + seq![']']
}

/// The single characters of a class in the order in which they are written:
/// ascending, each once.
pub open spec fn ordered_chars(items: Seq<ClassItem>) -> Seq<char> {
    enumeration(class_chars(items), <char as Ranked>::order())
}

/// The ranges of a class in the order in which they are written: ascending
/// by start, then by end, each once.
pub open spec fn ordered_ranges(items: Seq<ClassItem>) -> Seq<(char, char)> {
    enumeration(class_ranges(items), <(char, char) as Ranked>::order())
}

/// The regular expression for a character class of a pattern: the class is
/// made safe against the slash, then written as a bracket expression with
/// its characters and its ranges in ascending order and without repetition,
/// and its dash, if it has one, last. Of a class of which nothing is left
/// once the slash is taken out the text is `[]`, which is no bracket
/// expression: the engine refuses a pattern that holds it.
pub open spec fn closed_class(cls: ClassView) -> Seq<char> {
    let safe = slash_safe(cls);
    bracket_text(
        safe.negated,
        ordered_chars(safe.items),
        ordered_ranges(safe.items),
        class_has_dash(safe.items),
    )
}

proof fn lemma_class_parts_push(items: Seq<ClassItem>, item: ClassItem)
    ensures
        class_chars(items.push(item)) == (match item {
            ClassItem::Char(c) => if c != '-' {
                class_chars(items).insert(c)
            } else {
                class_chars(items)
            },
            ClassItem::Range(_, _) => class_chars(items),
        }),
        class_ranges(items.push(item)) == (match item {
            ClassItem::Char(_) => class_ranges(items),
            ClassItem::Range(start, end) => class_ranges(items).insert((start, end)),
        }),
        class_has_dash(items.push(item)) == (class_has_dash(items) || item == ClassItem::Char('-')),
{
    let grown = items.push(item);
    assert forall|x: ClassItem| grown.contains(x) <==> (items.contains(x) || x == item) by {
        if grown.contains(x) {
            let i = choose|i: int| 0 <= i < grown.len() && grown[i] == x;
            if i < items.len() {
                assert(items[i] == x);
            }
        }
        if items.contains(x) {
            let i = choose|i: int| 0 <= i < items.len() && items[i] == x;
            assert(grown[i] == x);
        }
        if x == item {
            assert(grown[items.len() as int] == x);
        }
    }
    match item {
        ClassItem::Char(c) => {
            if c != '-' {
                assert(class_chars(grown) =~= class_chars(items).insert(c));
            } else {
                assert(class_chars(grown) =~= class_chars(items));
            }
            assert(class_ranges(grown) =~= class_ranges(items));
        },
        ClassItem::Range(start, end) => {
            assert(class_chars(grown) =~= class_chars(items));
            assert(class_ranges(grown) =~= class_ranges(items).insert((start, end)));
        },
    }
}

/// Convert a glob character class to a regular expression one.
/// Make sure the class will not allow a slash to be matched in
/// a filename, make sure the dash is at the end of the regular expression
/// class pattern (e.g. `[A-Za-z0-9-]`), sort the characters and the ranges.
pub fn close_class(glob_acc: ClassAccumulator) -> (r: Vec<char>)
    ensures
        r@ == closed_class(glob_acc@),
        r@.len() >= 2,
        r@[0] == '[',
        (r@[1] == '^') == glob_acc.negated,
{
    proof {
        let safe = slash_safe(glob_acc@);
        lemma_bracket_text_opening(
            safe.negated,
            ordered_chars(safe.items),
            ordered_ranges(safe.items),
            class_has_dash(safe.items),
        );
    }
    let acc = handle_slash(glob_acc);
    let mut chars_vec: Vec<char> = Vec::new();
    let mut ranges_vec: Vec<(char, char)> = Vec::new();
    let mut has_dash = false;
    let mut i: usize = 0;
    proof {
        lemma_key_set_empty::<char>();
        lemma_key_set_empty::<(char, char)>();
        assert(class_chars(acc.items@.take(0)) =~= Set::<char>::empty());
        assert(class_ranges(acc.items@.take(0)) =~= Set::<(char, char)>::empty());
    }
    while i < acc.items.len()
        invariant
            i <= acc.items.len(),
            key_set(chars_vec@) == class_chars(acc.items@.take(i as int)),
            key_set(ranges_vec@) == class_ranges(acc.items@.take(i as int)),
            has_dash == class_has_dash(acc.items@.take(i as int)),
        decreases acc.items.len() - i,
    {
        proof {
            assert(acc.items@.take(i + 1) == acc.items@.take(i as int).push(acc.items@[i as int]));
            lemma_class_parts_push(acc.items@.take(i as int), acc.items@[i as int]);
        }
        match acc.items[i] {
            ClassItem::Char(c) => {
                if c == '-' {
                    has_dash = true;
                } else {
                    proof {
                        lemma_key_set_push(chars_vec@, c);
                    }
                    chars_vec.push(c);
                }
            },
            ClassItem::Range(start, end) => {
                proof {
                    lemma_key_set_push(ranges_vec@, (start, end));
                }
                ranges_vec.push((start, end));
            },
        }
        i = i + 1;
    }
    assert(acc.items@.take(acc.items.len() as int) == acc.items@);
    let chars = sorted_distinct(chars_vec);
    let ranges = sorted_distinct(ranges_vec);
    assert(chars@ == ordered_chars(acc.items@)) by {
        assert(keys_of(chars@) =~= chars@);
    }
    assert(ranges@ == ordered_ranges(acc.items@)) by {
        assert(keys_of(ranges@) =~= ranges@);
    }
    let mut out: Vec<char> = Vec::new();
    out.push('[');
    if acc.negated {
        out.push('^');
    }
    let ghost head = out@;
    let mut j: usize = 0;
    while j < chars.len()
        invariant
            j <= chars.len(),
            out@ == head + chars_text(chars@.take(j as int)),
        decreases chars.len() - j,
    {
        proof {
            assert(chars@.take(j + 1).drop_last() == chars@.take(j as int));
        }
        let piece = escape_in_class(chars[j]);
        push_all(&mut out, &piece);
        j = j + 1;
    }
    assert(chars@.take(chars.len() as int) == chars@);
    let ghost body = out@;
    let mut k: usize = 0;
    while k < ranges.len()
        invariant
            k <= ranges.len(),
            out@ == body + ranges_text(ranges@.take(k as int)),
        decreases ranges.len() - k,
    {
        proof {
            assert(ranges@.take(k + 1).drop_last() == ranges@.take(k as int));
        }
        let range = ranges[k];
        let start = escape_in_class(range.0);
        let end = escape_in_class(range.1);
        push_all(&mut out, &start);
        out.push('-');
        push_all(&mut out, &end);
        k = k + 1;
    }
    assert(ranges@.take(ranges.len() as int) == ranges@);
    if has_dash {
        out.push('-');
    }
    out.push(']');
    out
}

/// One member at the start of a text within a bracket expression: the
/// character it stands for, and how many characters of the text it takes.
/// A character with a meaning of its own stands for itself only behind a
/// backslash; any other character stands for itself as it is.
pub open spec fn read_atom(t: Seq<char>) -> Option<(char, int)> {
    if t.len() == 0 {
        None
    } else if t[0] == '\\' {
        if t.len() >= 2 && is_class_special(t[1]) {
            Some((t[1], 2))
        } else {
            None
        }
    } else if is_class_special(t[0]) {
        None
    } else {
        Some((t[0], 1))
    }
}

/// The members that a text lists up to the bracket that closes it: a
/// member followed by a dash and another member is a range; a dash right
/// before the closing bracket is the dash itself. `None` for a text that
/// is not of this form.
pub open spec fn read_members(t: Seq<char>) -> Option<Seq<ClassItem>>
    decreases t.len(),
{
    if t.len() == 0 {
        None
    } else if t[0] == ']' {
        if t.len() == 1 {
            Some(Seq::empty())
        } else {
            None
        }
    } else if t[0] == '-' {
        if t.len() == 2 && t[1] == ']' {
            Some(seq![ClassItem::Char('-')])
        } else {
            None
        }
    } else {
        match read_atom(t) {
            None => None,
            Some((c, n)) => if t.len() > n + 1 && t[n] == '-' && t[n + 1] != ']' {
                match read_atom(t.skip(n + 1)) {
                    None => None,
                    Some((d, m)) => match read_members(t.skip(n + 1 + m)) {
                        None => None,
                        Some(rest) => Some(seq![ClassItem::Range(c, d)] + rest),
                    },
                }
            } else {
                match read_members(t.skip(n)) {
                    None => None,
                    Some(rest) => Some(seq![ClassItem::Char(c)] + rest),
                }
            },
        }
    }
}

/// The class that a bracket expression stands for, read as the regular
/// expression engine reads the expressions that this module writes: an
/// opening bracket, a caret where the class is negated, the members, the
/// closing bracket. `None` for a text that is not of this form, and for
/// one without any member, which the engine refuses.
pub open spec fn read_class(text: Seq<char>) -> Option<ClassView> {
    if text.len() < 2 || text[0] != '[' {
        None
    } else {
        let negated = text[1] == '^';
        let members = if negated {
            read_members(text.skip(2))
        } else {
            read_members(text.skip(1))
        };
        match members {
            Some(items) => if items.len() > 0 {
                Some(ClassView { negated, items })
            } else {
                None
            },
            None => None,
        }
    }
}

/// A character as a member of a class.
pub open spec fn char_member(c: char) -> ClassItem {
    ClassItem::Char(c)
}

/// A range, given as its start and its end, as a member of a class.
pub open spec fn range_member(range: (char, char)) -> ClassItem {
    ClassItem::Range(range.0, range.1)
}

/// The characters as members of a class.
pub open spec fn char_items(chars: Seq<char>) -> Seq<ClassItem>
    decreases chars.len(),
{
    if chars.len() == 0 {
        Seq::empty()
    } else {
        seq![char_member(chars[0])] + char_items(chars.drop_first())
    }
}

/// The ranges as members of a class.
pub open spec fn range_items(ranges: Seq<(char, char)>) -> Seq<ClassItem>
    decreases ranges.len(),
{
    if ranges.len() == 0 {
        Seq::empty()
    } else {
        seq![range_member(ranges[0])] + range_items(ranges.drop_first())
    }
}

/// The dash as a member of a class, where the class has it.
pub open spec fn dash_items(dash: bool) -> Seq<ClassItem> {
    if dash {
        seq![ClassItem::Char('-')]
    } else {
        Seq::empty()
    }
}

/// The end of a bracket expression: the dash, where the class has it, and
/// the closing bracket.
pub open spec fn tail_text(dash: bool) -> Seq<char> {
    if dash {
        seq!['-', ']']
    } else {
        seq![']']
    }
}

/// The members that a bracket expression with the given parts lists, in
/// the order in which it lists them.
pub open spec fn written_items(chars: Seq<char>, ranges: Seq<(char, char)>, dash: bool) -> Seq<
    ClassItem,
> {
    char_items(chars) + (range_items(ranges) + dash_items(dash))
}

/// The text of the characters begins with the text of the first.
proof fn lemma_chars_text_front(chars: Seq<char>)
    requires
        chars.len() > 0,
    ensures
        chars_text(chars) == escaped_in_class(chars[0]) + chars_text(chars.drop_first()),
    decreases chars.len(),
{
    if chars.len() == 1 {
        assert(chars.drop_last() =~= Seq::<char>::empty());
        assert(chars.drop_first() =~= Seq::<char>::empty());
        assert(chars_text(chars.drop_last()) =~= Seq::<char>::empty());
        assert(chars_text(chars) =~= escaped_in_class(chars[0]) + Seq::<char>::empty());
    } else {
        let head = chars.drop_last();
        lemma_chars_text_front(head);
        assert(head.drop_first() =~= chars.drop_first().drop_last());
        assert(chars.drop_first().last() == chars.last());
        assert(head[0] == chars[0]);
        assert(chars_text(chars) =~= escaped_in_class(chars[0]) + (chars_text(head.drop_first())
            + escaped_in_class(chars.last())));
    }
}

/// The text of the ranges begins with the text of the first.
proof fn lemma_ranges_text_front(ranges: Seq<(char, char)>)
    requires
        ranges.len() > 0,
    ensures
        ranges_text(ranges) == range_text(ranges[0]) + ranges_text(ranges.drop_first()),
    decreases ranges.len(),
{
    if ranges.len() == 1 {
        assert(ranges.drop_last() =~= Seq::<(char, char)>::empty());
        assert(ranges.drop_first() =~= Seq::<(char, char)>::empty());
        assert(ranges_text(ranges.drop_last()) =~= Seq::<char>::empty());
        assert(ranges_text(ranges) =~= range_text(ranges[0]) + Seq::<char>::empty());
    } else {
        let head = ranges.drop_last();
        lemma_ranges_text_front(head);
        assert(head.drop_first() =~= ranges.drop_first().drop_last());
        assert(ranges.drop_first().last() == ranges.last());
        assert(head[0] == ranges[0]);
        assert(ranges_text(ranges) =~= range_text(ranges[0]) + (ranges_text(head.drop_first())
            + range_text(ranges.last())));
    }
}

/// A member that is written is read back as it was, whatever follows it.
proof fn lemma_read_written_atom(c: char, rest: Seq<char>)
    ensures
        read_atom(escaped_in_class(c) + rest) == Some((c, escaped_in_class(c).len() as int)),
        (escaped_in_class(c) + rest)[0] != ']',
        (escaped_in_class(c) + rest)[0] != '-',
        (escaped_in_class(c) + rest).skip(escaped_in_class(c).len() as int) == rest,
{
    let t = escaped_in_class(c) + rest;
    if is_class_special(c) {
        assert(t[0] == '\\');
        assert(t[1] == c);
    } else {
        assert(t[0] == c);
    }
    assert(t.skip(escaped_in_class(c).len() as int) =~= rest);
}

/// Reading a text that begins with a written character, where what
/// follows is no range: the character is a member, then come the members
/// of what follows.
proof fn lemma_read_step_char(c: char, rest: Seq<char>)
    requires
        rest.len() > 0,
        rest[0] == '-' ==> rest.len() >= 2 && rest[1] == ']',
    ensures
        read_members(escaped_in_class(c) + rest) == (match read_members(rest) {
            Some(items) => Some(seq![ClassItem::Char(c)] + items),
            None => None,
        }),
{
    let t = escaped_in_class(c) + rest;
    let n = escaped_in_class(c).len() as int;
    lemma_read_written_atom(c, rest);
    assert(t[n] == rest[0]);
    if rest[0] == '-' {
        assert(t[n + 1] == rest[1]);
    }
}

/// Reading a text that begins with a written range: the range is a
/// member, then come the members of what follows.
#[verifier::rlimit(40)]
proof fn lemma_read_step_range(a: char, b: char, rest: Seq<char>, t: Seq<char>)
    requires
        t == escaped_in_class(a) + (seq!['-'] + (escaped_in_class(b) + rest)),
    ensures
        read_members(t) == (match read_members(rest) {
            Some(items) => Some(seq![ClassItem::Range(a, b)] + items),
            None => None,
        }),
{
    let upper = escaped_in_class(b) + rest;
    let middle = seq!['-'] + upper;
    let n = escaped_in_class(a).len() as int;
    let m = escaped_in_class(b).len() as int;
    lemma_read_written_atom(a, middle);
    lemma_read_written_atom(b, rest);
    assert(t.skip(n) == middle);
    assert(t[n] == middle[0]);
    assert(t[n + 1] == middle[1]);
    assert(middle[1] == upper[0]);
    assert(t.skip(n + 1) =~= upper);
    assert(t.skip(n + 1 + m) =~= upper.skip(m));
}

/// The end of a bracket expression is read back as it was written.
proof fn lemma_read_tail(dash: bool)
    ensures
        read_members(tail_text(dash)) == Some(dash_items(dash)),
{
    if dash {
        assert(tail_text(dash)[0] == '-');
        assert(tail_text(dash)[1] == ']');
    } else {
        assert(tail_text(dash)[0] == ']');
        assert(dash_items(dash) =~= Seq::<ClassItem>::empty());
    }
}

/// The text of ranges with what follows: the first range, then the rest.
proof fn lemma_ranges_text_shape(ranges: Seq<(char, char)>, tail: Seq<char>)
    requires
        ranges.len() > 0,
    ensures
        ranges_text(ranges) + tail == escaped_in_class(ranges[0].0) + (seq!['-'] + (
        escaped_in_class(ranges[0].1) + (ranges_text(ranges.drop_first()) + tail))),
{
    lemma_ranges_text_front(ranges);
    let head = range_text(ranges[0]);
    let others = ranges_text(ranges.drop_first());
    assert(head =~= escaped_in_class(ranges[0].0) + (seq!['-'] + escaped_in_class(ranges[0].1)));
    assert((head + others) + tail =~= escaped_in_class(ranges[0].0) + (seq!['-'] + (
    escaped_in_class(ranges[0].1) + (others + tail))));
}

/// The text of characters with what follows: the first character, then
/// the rest.
proof fn lemma_chars_text_shape(chars: Seq<char>, tail: Seq<char>)
    requires
        chars.len() > 0,
    ensures
        chars_text(chars) + tail == escaped_in_class(chars[0]) + (chars_text(chars.drop_first())
            + tail),
{
    lemma_chars_text_front(chars);
    let others = chars_text(chars.drop_first());
    assert((escaped_in_class(chars[0]) + others) + tail =~= escaped_in_class(chars[0]) + (others
        + tail));
}

/// The ranges and the end of a bracket expression are read back as they
/// were written.
proof fn lemma_read_ranges(ranges: Seq<(char, char)>, dash: bool)
    ensures
        read_members(ranges_text(ranges) + tail_text(dash)) == Some(
            range_items(ranges) + dash_items(dash),
        ),
    decreases ranges.len(),
{
    let tail = tail_text(dash);
    if ranges.len() == 0 {
        lemma_read_tail(dash);
        assert(ranges_text(ranges) =~= Seq::<char>::empty());
        assert(ranges_text(ranges) + tail =~= tail);
        assert(range_items(ranges) + dash_items(dash) =~= dash_items(dash));
    } else {
        let first = ranges[0];
        let others = ranges.drop_first();
        lemma_read_ranges(others, dash);
        lemma_ranges_text_shape(ranges, tail);
        lemma_read_step_range(
            first.0,
            first.1,
            ranges_text(others) + tail,
            ranges_text(ranges) + tail,
        );
        assert(range_items(ranges) + dash_items(dash) =~= seq![range_member(first)] + (range_items(
            others,
        ) + dash_items(dash)));
    }
}

/// What follows the characters of a bracket expression begins with a dash
/// only where it is the dash before the closing bracket.
proof fn lemma_members_head(ranges: Seq<(char, char)>, dash: bool)
    ensures
        (ranges_text(ranges) + tail_text(dash)).len() > 0,
        (ranges_text(ranges) + tail_text(dash))[0] == '-' ==> (ranges_text(ranges) + tail_text(
            dash,
        )).len() == 2 && (ranges_text(ranges) + tail_text(dash))[1] == ']',
        (ranges_text(ranges) + tail_text(dash))[0] != '^',
{
    let tail = tail_text(dash);
    if ranges.len() == 0 {
        assert(ranges_text(ranges) =~= Seq::<char>::empty());
        assert(ranges_text(ranges) + tail =~= tail);
    } else {
        lemma_ranges_text_front(ranges);
        let start = escaped_in_class(ranges[0].0);
        let first = range_text(ranges[0]);
        assert(start[0] != '-' && start[0] != '^');
        assert(first[0] == start[0]);
        assert(ranges_text(ranges)[0] == first[0]);
        assert((ranges_text(ranges) + tail)[0] == ranges_text(ranges)[0]);
    }
}

/// What a bracket expression lists begins with no caret and, where it
/// begins with a dash, is the dash before the closing bracket.
proof fn lemma_listing_head(chars: Seq<char>, ranges: Seq<(char, char)>, dash: bool)
    ensures
        (chars_text(chars) + (ranges_text(ranges) + tail_text(dash))).len() > 0,
        (chars_text(chars) + (ranges_text(ranges) + tail_text(dash)))[0] != '^',
        (chars_text(chars) + (ranges_text(ranges) + tail_text(dash)))[0] == '-' ==> (chars_text(
            chars,
        ) + (ranges_text(ranges) + tail_text(dash))).len() == 2 && (chars_text(chars) + (
        ranges_text(ranges) + tail_text(dash)))[1] == ']',
{
    let after = ranges_text(ranges) + tail_text(dash);
    if chars.len() == 0 {
        lemma_members_head(ranges, dash);
        assert(chars_text(chars) =~= Seq::<char>::empty());
        assert(chars_text(chars) + after =~= after);
    } else {
        let rest = chars_text(chars.drop_first()) + after;
        lemma_chars_text_shape(chars, after);
        lemma_read_written_atom(chars[0], rest);
        assert(read_atom(escaped_in_class(chars[0]) + rest) is Some);
    }
}

/// The characters, the ranges and the end of a bracket expression are
/// read back as they were written.
proof fn lemma_read_chars(chars: Seq<char>, ranges: Seq<(char, char)>, dash: bool)
    ensures
        read_members(chars_text(chars) + (ranges_text(ranges) + tail_text(dash))) == Some(
            written_items(chars, ranges, dash),
        ),
    decreases chars.len(),
{
    let after = ranges_text(ranges) + tail_text(dash);
    if chars.len() == 0 {
        lemma_read_ranges(ranges, dash);
        assert(chars_text(chars) =~= Seq::<char>::empty());
        assert(chars_text(chars) + after =~= after);
        assert(written_items(chars, ranges, dash) =~= range_items(ranges) + dash_items(dash));
    } else {
        let c = chars[0];
        let others = chars.drop_first();
        lemma_read_chars(others, ranges, dash);
        lemma_listing_head(others, ranges, dash);
        let rest = chars_text(others) + after;
        lemma_chars_text_shape(chars, after);
        lemma_read_step_char(c, rest);
        assert(written_items(chars, ranges, dash) =~= seq![char_member(c)] + written_items(
            others,
            ranges,
            dash,
        ));
    }
}

/// How a bracket expression opens: with the bracket, and with the caret
/// where it is negated.
pub open spec fn opening_text(negated: bool) -> Seq<char> {
    if negated {
        seq!['[', '^']
    } else {
        seq!['[']
    }
}

/// A bracket expression is its opening, then what it lists up to the
/// closing bracket.
proof fn lemma_bracket_text_shape(
    negated: bool,
    chars: Seq<char>,
    ranges: Seq<(char, char)>,
    dash: bool,
)
    ensures
        bracket_text(negated, chars, ranges, dash) == opening_text(negated) + (chars_text(chars) + (
        ranges_text(ranges) + tail_text(dash))),
{
    assert(bracket_text(negated, chars, ranges, dash) =~= opening_text(negated) + (chars_text(chars)
        + (ranges_text(ranges) + tail_text(dash))));
}

/// A bracket expression is read back as it was written: with the negation
/// and the members of its parts, provided that it has a member at all. In
/// particular it opens with `[^` exactly where it is negated.
pub proof fn lemma_bracket_text_reads_back(
    negated: bool,
    chars: Seq<char>,
    ranges: Seq<(char, char)>,
    dash: bool,
)
    requires
        written_items(chars, ranges, dash).len() > 0,
    ensures
        read_class(bracket_text(negated, chars, ranges, dash)) == Some(
            ClassView { negated, items: written_items(chars, ranges, dash) },
        ),
        bracket_text(negated, chars, ranges, dash)[0] == '[',
        (bracket_text(negated, chars, ranges, dash)[1] == '^') == negated,
{
    let members = chars_text(chars) + (ranges_text(ranges) + tail_text(dash));
    let text = bracket_text(negated, chars, ranges, dash);
    lemma_bracket_text_shape(negated, chars, ranges, dash);
    lemma_read_chars(chars, ranges, dash);
    lemma_listing_head(chars, ranges, dash);
    let opening = opening_text(negated);
    assert(text[0] == '[');
    assert(text[1] == (if negated { '^' } else { members[0] }));
    assert((opening + members).skip(opening.len() as int) =~= members);
}

/// A bracket expression opens with `[`, and with `[^` exactly where it is
/// negated: a caret that is a member never stands first as it is.
pub proof fn lemma_bracket_text_opening(
    negated: bool,
    chars: Seq<char>,
    ranges: Seq<(char, char)>,
    dash: bool,
)
    ensures
        bracket_text(negated, chars, ranges, dash).len() >= 2,
        bracket_text(negated, chars, ranges, dash)[0] == '[',
        (bracket_text(negated, chars, ranges, dash)[1] == '^') == negated,
{
    let members = chars_text(chars) + (ranges_text(ranges) + tail_text(dash));
    let text = bracket_text(negated, chars, ranges, dash);
    lemma_bracket_text_shape(negated, chars, ranges, dash);
    lemma_listing_head(chars, ranges, dash);
    assert(text[1] == (if negated { '^' } else { members[0] }));
}

/// The members of two lists in a row admit what one of the lists admits.
proof fn lemma_items_admit_concat(a: Seq<ClassItem>, b: Seq<ClassItem>, c: char)
    ensures
        items_admit(a + b, c) <==> (items_admit(a, c) || items_admit(b, c)),
{
    let all = a + b;
    if items_admit(all, c) {
        let k = choose|k: int| 0 <= k < all.len() && item_admits(#[trigger] all[k], c);
        if k < a.len() {
            assert(item_admits(a[k], c));
        } else {
            assert(item_admits(b[k - a.len()], c));
        }
    }
    if items_admit(a, c) {
        let k = choose|k: int| 0 <= k < a.len() && item_admits(#[trigger] a[k], c);
        assert(item_admits(all[k], c));
    }
    if items_admit(b, c) {
        let k = choose|k: int| 0 <= k < b.len() && item_admits(#[trigger] b[k], c);
        assert(item_admits(all[a.len() + k], c));
    }
}

/// A single member admits what it admits.
proof fn lemma_items_admit_single(item: ClassItem, c: char)
    ensures
        items_admit(seq![item], c) <==> item_admits(item, c),
{
    let one = seq![item];
    assert(one[0] == item);
    if items_admit(one, c) {
        let k = choose|k: int| 0 <= k < one.len() && item_admits(#[trigger] one[k], c);
    }
}

/// No member, nothing admitted.
proof fn lemma_items_admit_none(c: char)
    ensures
        !items_admit(Seq::<ClassItem>::empty(), c),
{
    let none = Seq::<ClassItem>::empty();
    if items_admit(none, c) {
        let k = choose|k: int| 0 <= k < none.len() && item_admits(#[trigger] none[k], c);
    }
}

/// The characters as members admit the characters, and are as many.
proof fn lemma_char_items(chars: Seq<char>, c: char)
    ensures
        items_admit(char_items(chars), c) <==> chars.contains(c),
        char_items(chars).len() == chars.len(),
    decreases chars.len(),
{
    if chars.len() == 0 {
        lemma_items_admit_none(c);
    } else {
        let others = chars.drop_first();
        lemma_char_items(others, c);
        lemma_items_admit_single(char_member(chars[0]), c);
        lemma_items_admit_concat(seq![char_member(chars[0])], char_items(others), c);
        if chars.contains(c) {
            let k = choose|k: int| 0 <= k < chars.len() && chars[k] == c;
            if k > 0 {
                assert(others[k - 1] == c);
            }
        }
        if others.contains(c) {
            let k = choose|k: int| 0 <= k < others.len() && others[k] == c;
            assert(chars[k + 1] == c);
        }
        if chars[0] == c {
            assert(chars.contains(c));
        }
    }
}

/// Whether one of the ranges holds the character.
pub open spec fn in_ranges(ranges: Seq<(char, char)>, c: char) -> bool {
    exists|i: int| 0 <= i < ranges.len() && (#[trigger] ranges[i]).0 <= c && c <= ranges[i].1
}

/// The ranges as members admit what the ranges hold, and are as many.
proof fn lemma_range_items(ranges: Seq<(char, char)>, c: char)
    ensures
        items_admit(range_items(ranges), c) <==> in_ranges(ranges, c),
        range_items(ranges).len() == ranges.len(),
    decreases ranges.len(),
{
    if ranges.len() == 0 {
        lemma_items_admit_none(c);
        if in_ranges(ranges, c) {
            let i = choose|i: int|
                0 <= i < ranges.len() && (#[trigger] ranges[i]).0 <= c && c <= ranges[i].1;
        }
    } else {
        let others = ranges.drop_first();
        let first = range_member(ranges[0]);
        lemma_range_items(others, c);
        lemma_items_admit_single(first, c);
        lemma_items_admit_concat(seq![first], range_items(others), c);
        if in_ranges(ranges, c) {
            let i = choose|i: int|
                0 <= i < ranges.len() && (#[trigger] ranges[i]).0 <= c && c <= ranges[i].1;
            if i > 0 {
                assert(others[i - 1] == ranges[i]);
                assert(others[i - 1].0 <= c && c <= others[i - 1].1);
            }
        }
        if in_ranges(others, c) {
            let i = choose|i: int|
                0 <= i < others.len() && (#[trigger] others[i]).0 <= c && c <= others[i].1;
            assert(ranges[i + 1] == others[i]);
            assert(ranges[i + 1].0 <= c && c <= ranges[i + 1].1);
        }
        if item_admits(first, c) {
            assert(ranges[0].0 <= c && c <= ranges[0].1);
        }
    }
}

/// Whether a class with the given parts admits the character: one of the
/// characters is the character, one of the ranges holds it, or it is the
/// dash and the class has the dash; or, for a negated class, none of these.
/// This speaks of the parts from which a bracket expression is written;
/// `read_class` speaks of the text.
pub open spec fn bracket_admits(
    negated: bool,
    chars: Seq<char>,
    ranges: Seq<(char, char)>,
    dash: bool,
    c: char,
) -> bool {
    negated != (chars.contains(c) || in_ranges(ranges, c) || (dash && c == '-'))
}

/// Whether the parts from which the bracket expression of a class is
/// written admit the character: its characters and its ranges in ascending
/// order, each once, and its dash.
pub open spec fn written_admits(cls: ClassView, c: char) -> bool {
    bracket_admits(
        cls.negated,
        ordered_chars(cls.items),
        ordered_ranges(cls.items),
        class_has_dash(cls.items),
        c,
    )
}

/// The characters and the ranges of a class can be put in ascending order.
pub proof fn lemma_class_parts_enumerable(items: Seq<ClassItem>)
    ensures
        enumerable(class_chars(items), <char as Ranked>::order()),
        enumerable(class_ranges(items), <(char, char) as Ranked>::order()),
    decreases items.len(),
{
    <char as Ranked>::order_is_strict_total();
    <(char, char) as Ranked>::order_is_strict_total();
    if items.len() == 0 {
        lemma_enumerable_empty::<char>(<char as Ranked>::order());
        lemma_enumerable_empty::<(char, char)>(<(char, char) as Ranked>::order());
        assert(class_chars(items) =~= Set::<char>::empty());
        assert(class_ranges(items) =~= Set::<(char, char)>::empty());
    } else {
        let head = items.drop_last();
        lemma_class_parts_enumerable(head);
        lemma_class_parts_push(head, items.last());
        assert(head.push(items.last()) == items);
        match items.last() {
            ClassItem::Char(c) => {
                if c != '-' {
                    lemma_enumerable_insert(class_chars(head), c, <char as Ranked>::order());
                }
            },
            ClassItem::Range(start, end) => {
                lemma_enumerable_insert(
                    class_ranges(head),
                    (start, end),
                    <(char, char) as Ranked>::order(),
                );
            },
        }
    }
}

/// Sorting the members of a class, dropping the repeated ones and moving
/// the dash to the end loses nothing: the parts from which the bracket
/// expression is written admit exactly what the class admits.
pub proof fn lemma_written_class_admits(cls: ClassView, c: char)
    ensures
        written_admits(cls, c) == class_admits(cls, c),
{
    let items = cls.items;
    let chars = ordered_chars(items);
    let ranges = ordered_ranges(items);
    lemma_class_parts_enumerable(items);
    lemma_enumeration_enumerates(class_chars(items), <char as Ranked>::order());
    lemma_enumeration_enumerates(class_ranges(items), <(char, char) as Ranked>::order());
    let in_range = in_ranges(ranges, c);
    let listed = chars.contains(c) || in_range || (class_has_dash(items) && c == '-');
    if items_admit(items, c) {
        let k = choose|k: int| 0 <= k < items.len() && item_admits(#[trigger] items[k], c);
        match items[k] {
            ClassItem::Char(x) => {
                assert(items.contains(ClassItem::Char(c)));
                if c != '-' {
                    assert(class_chars(items).contains(c));
                }
            },
            ClassItem::Range(start, end) => {
                assert(items.contains(ClassItem::Range(start, end)));
                assert(class_ranges(items).contains((start, end)));
                assert(ranges.contains((start, end)));
                let i = choose|i: int| 0 <= i < ranges.len() && ranges[i] == (start, end);
                assert(ranges[i].0 <= c && c <= ranges[i].1);
            },
        }
        assert(listed);
    }
    if listed {
        if chars.contains(c) {
            assert(class_chars(items).contains(c));
            let k = choose|k: int| 0 <= k < items.len() && items[k] == ClassItem::Char(c);
            assert(item_admits(items[k], c));
        } else if in_range {
            let i = choose|i: int|
                0 <= i < ranges.len() && (#[trigger] ranges[i]).0 <= c && c <= ranges[i].1;
            assert(ranges.contains(ranges[i]));
            assert(class_ranges(items).contains(ranges[i]));
            let k = choose|k: int|
                0 <= k < items.len() && items[k] == ClassItem::Range(ranges[i].0, ranges[i].1);
            assert(item_admits(items[k], c));
        } else {
            let k = choose|k: int| 0 <= k < items.len() && items[k] == ClassItem::Char('-');
            assert(item_admits(items[k], c));
        }
        assert(items_admit(items, c));
    }
}

/// What is left of an item without the slash admits what the item admits,
/// but for the slash.
proof fn lemma_item_without_slash(item: ClassItem, c: char)
    ensures
        items_admit(item_without_slash(item), c) <==> (c != '/' && item_admits(item, c)),
{
    let left = item_without_slash(item);
    if items_admit(left, c) {
        let k = choose|k: int| 0 <= k < left.len() && item_admits(#[trigger] left[k], c);
    }
    if c != '/' && item_admits(item, c) {
        match item {
            ClassItem::Char(_) => {
                assert(item_admits(left[0], c));
            },
            ClassItem::Range(start, end) => {
                if end == '/' || start == '/' || start > '/' || '/' > end {
                    assert(item_admits(left[0], c));
                } else if c > '/' {
                    assert(item_admits(left[1], c));
                } else {
                    assert(item_admits(left[0], c));
                }
            },
        }
    }
}

/// With the slash taken out the items admit what they admitted, but for
/// the slash.
pub proof fn lemma_without_slash(items: Seq<ClassItem>, c: char)
    ensures
        items_admit(without_slash(items), c) <==> (c != '/' && items_admit(items, c)),
    decreases items.len(),
{
    if items.len() > 0 {
        let head = items.drop_last();
        let last = items.last();
        lemma_without_slash(head, c);
        lemma_item_without_slash(last, c);
        let left = without_slash(head);
        let right = item_without_slash(last);
        let all = left + right;
        if items_admit(all, c) {
            let k = choose|k: int| 0 <= k < all.len() && item_admits(#[trigger] all[k], c);
            if k < left.len() {
                assert(item_admits(left[k], c));
            } else {
                assert(item_admits(right[k - left.len()], c));
            }
        }
        if items_admit(left, c) {
            let k = choose|k: int| 0 <= k < left.len() && item_admits(#[trigger] left[k], c);
            assert(item_admits(all[k], c));
        }
        if items_admit(right, c) {
            let k = choose|k: int| 0 <= k < right.len() && item_admits(#[trigger] right[k], c);
            assert(item_admits(all[left.len() + k], c));
        }
        if items_admit(head, c) {
            let k = choose|k: int| 0 <= k < head.len() && item_admits(#[trigger] head[k], c);
            assert(item_admits(items[k], c));
        }
        if items_admit(items, c) {
            let k = choose|k: int| 0 <= k < items.len() && item_admits(#[trigger] items[k], c);
            if k < head.len() {
                assert(item_admits(head[k], c));
            }
        }
        if item_admits(last, c) {
            assert(item_admits(items[items.len() - 1], c));
        }
    } else {
        if items_admit(without_slash(items), c) {
            let k = choose|k: int|
                0 <= k < without_slash(items).len() && item_admits(
                    #[trigger] without_slash(items)[k],
                    c,
                );
        }
        if items_admit(items, c) {
            let k = choose|k: int| 0 <= k < items.len() && item_admits(#[trigger] items[k], c);
        }
    }
}

/// A class made safe admits no slash, and of any other character what the
/// class admitted.
pub proof fn lemma_slash_safe(cls: ClassView, c: char)
    ensures
        !class_admits(slash_safe(cls), '/'),
        c != '/' ==> class_admits(slash_safe(cls), c) == class_admits(cls, c),
{
    if cls.negated {
        let items = cls.items;
        let safe = with_slash(items);
        if !items_admit(items, '/') {
            assert(item_admits(safe[items.len() as int], '/'));
            if items_admit(safe, c) {
                let k = choose|k: int| 0 <= k < safe.len() && item_admits(#[trigger] safe[k], c);
                if k < items.len() {
                    assert(item_admits(items[k], c));
                }
            }
            if items_admit(items, c) {
                let k = choose|k: int| 0 <= k < items.len() && item_admits(#[trigger] items[k], c);
                assert(item_admits(safe[k], c));
            }
        }
    } else {
        lemma_without_slash(cls.items, '/');
        lemma_without_slash(cls.items, c);
    }
}

/// The parts from which the bracket expression of a safe class is written
/// admit no slash, and any other character exactly where the class of the
/// pattern admits it.
pub proof fn lemma_closed_class_rejects_slash(cls: ClassView, c: char)
    ensures
        !written_admits(slash_safe(cls), '/'),
        c != '/' ==> written_admits(slash_safe(cls), c) == class_admits(cls, c),
{
    lemma_slash_safe(cls, c);
    lemma_written_class_admits(slash_safe(cls), '/');
    lemma_written_class_admits(slash_safe(cls), c);
}

/// The members that are written admit what the parts admit.
proof fn lemma_written_items_admit(
    negated: bool,
    chars: Seq<char>,
    ranges: Seq<(char, char)>,
    dash: bool,
    c: char,
)
    ensures
        class_admits(ClassView { negated, items: written_items(chars, ranges, dash) }, c)
            == bracket_admits(negated, chars, ranges, dash, c),
        written_items(chars, ranges, dash).len() == chars.len() + ranges.len() + dash_items(
            dash,
        ).len(),
{
    lemma_char_items(chars, c);
    lemma_range_items(ranges, c);
    lemma_items_admit_none(c);
    lemma_items_admit_single(ClassItem::Char('-'), c);
    lemma_items_admit_concat(range_items(ranges), dash_items(dash), c);
    lemma_items_admit_concat(char_items(chars), range_items(ranges) + dash_items(dash), c);
}

/// Slash safety: the bracket expression that is written for a class of a
/// pattern, read back as text, is a class that admits no slash, whether
/// the class of the pattern is negated or not, and that admits any other
/// character exactly where the class of the pattern admits it. It is
/// negated exactly where the class of the pattern is. This holds of every
/// class of which a member is left once the slash is taken out; of a class
/// of which none is left the text is `[]`, which stands for no class.
pub proof fn lemma_closed_class_reads_as_class(cls: ClassView, c: char)
    requires
        slash_safe(cls).items.len() > 0,
    ensures
        read_class(closed_class(cls)) matches Some(read) && read.negated == cls.negated
            && !class_admits(read, '/') && (c != '/' ==> class_admits(read, c) == class_admits(
            cls,
            c,
        )),
        closed_class(cls)[0] == '[',
        (closed_class(cls)[1] == '^') == cls.negated,
{
    let safe = slash_safe(cls);
    let chars = ordered_chars(safe.items);
    let ranges = ordered_ranges(safe.items);
    let dash = class_has_dash(safe.items);
    assert(written_items(chars, ranges, dash).len() > 0) by {
        lemma_written_items_admit(safe.negated, chars, ranges, dash, c);
        lemma_class_parts_enumerable(safe.items);
        lemma_enumeration_enumerates(class_chars(safe.items), <char as Ranked>::order());
        lemma_enumeration_enumerates(class_ranges(safe.items), <(char, char) as Ranked>::order());
        match safe.items[0] {
            ClassItem::Char(x) => {
                assert(safe.items.contains(ClassItem::Char(x)));
                if x != '-' {
                    assert(class_chars(safe.items).contains(x));
                    assert(chars.contains(x));
                }
            },
            ClassItem::Range(start, end) => {
                assert(safe.items.contains(ClassItem::Range(start, end)));
                assert(class_ranges(safe.items).contains((start, end)));
                assert(ranges.contains((start, end)));
            },
        }
    }
    lemma_bracket_text_reads_back(safe.negated, chars, ranges, dash);
    lemma_written_items_admit(safe.negated, chars, ranges, dash, '/');
    lemma_written_items_admit(safe.negated, chars, ranges, dash, c);
    lemma_closed_class_rejects_slash(cls, c);
}

} // verus!
