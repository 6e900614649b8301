//! The order in which a plan is carried out, and the names that give way
//! to names already taken.

use vstd::prelude::*;
use vstd::relations::sorted_by;
use vstd::string::StringExecFns;
use crate::cascade::{gone, plan_view, PlanEntry, PlanEntryView};
use crate::order::{
    enumerates, key_set, keys_of, lemma_key_set_empty, lemma_key_set_push, sorted_distinct, Ranked,
};
use crate::text::{from_chars, push_all, slice_chars, strings_view, to_chars};

verus! {

/// A part of the plan that is carried out in one go.
#[derive(Clone, Copy, Debug)]
pub enum Phase {
    /// The deletions, but for those that the deletion of a directory above
    /// brings with it.
    Deletion,
    /// The renamings, and the moves of a directory's contents to its parent.
    Renaming,
}

/// Whether the entry is dealt with in the phase.
pub open spec fn in_phase(e: PlanEntryView, phase: Phase) -> bool {
    match phase {
        Phase::Deletion => gone(e) && !e.implied,
        Phase::Renaming => e.op is Rename || e.op is MoveToParent,
    }
}

/// The place of an entry in the order of execution: its depth, and its
/// index in the plan.
#[derive(Clone, Copy, Debug)]
pub struct Slot {
    pub depth: usize,
    pub index: usize,
}

/// Deepest first: a slot comes before another where it is deeper, or as
/// deep and earlier in the plan.
pub open spec fn deepest_first() -> spec_fn((usize, usize), (usize, usize)) -> bool {
    |a: (usize, usize), b: (usize, usize)| a.0 > b.0 || (a.0 == b.0 && a.1 < b.1)
}

impl Ranked for Slot {
    type Key = (usize, usize);

    open spec fn key(&self) -> (usize, usize) {
        (self.depth, self.index)
    }

    open spec fn order() -> spec_fn((usize, usize), (usize, usize)) -> bool {
        deepest_first()
    }

    proof fn order_is_strict_total() {
    }

    fn precedes(&self, other: &Self) -> (r: bool) {
        self.depth > other.depth || (self.depth == other.depth && self.index < other.index)
    }
}

/// The slots of the first `upto` entries of the plan that the phase deals
/// with.
pub open spec fn phase_slots(plan: Seq<PlanEntryView>, phase: Phase, upto: int) -> Set<
    (usize, usize),
> {
    Set::new(
        |k: (usize, usize)|
            k.1 < upto && k.1 < plan.len() && in_phase(plan[k.1 as int], phase) && k.0
                == plan[k.1 as int].path.len(),
    )
}

/// The slots of the given entries of the plan, in the order given.
pub open spec fn slots_of(plan: Seq<PlanEntryView>, order: Seq<usize>) -> Seq<(usize, usize)> {
    Seq::new(order.len(), |k: int| (plan[order[k] as int].path.len() as usize, order[k]))
}

/// Whether the phase deals with the entry.
fn is_in_phase(entry: &PlanEntry, phase: Phase) -> (r: bool)
    ensures
        r == in_phase(entry@, phase),
{
    match phase {
        Phase::Deletion => entry.op.is_delete() && !entry.implied,
        Phase::Renaming => match entry.op {
            crate::data::Operation::Rename(_) => true,
            crate::data::Operation::MoveToParent => true,
            _ => false,
        },
    }
}

/// The entries that a phase deals with, as indices into the plan, in the
/// order in which they are carried out: deepest first, so that what lies
/// in a directory is dealt with before the directory; among entries of one
/// depth, in the order of the plan.
pub fn execution_order(entries: &Vec<PlanEntry>, phase: Phase) -> (r: Vec<usize>)
    ensures
        forall|k: int| 0 <= k < r.len() ==> #[trigger] r@[k] < entries.len(),
        enumerates(
            slots_of(plan_view(entries@), r@),
            phase_slots(plan_view(entries@), phase, entries.len() as int),
            deepest_first(),
        ),
{
    let ghost plan = plan_view(entries@);
    let mut slots: Vec<Slot> = Vec::new();
    let mut i: usize = 0;
    proof {
        lemma_key_set_empty::<Slot>();
        assert(phase_slots(plan, phase, 0) =~= Set::<(usize, usize)>::empty());
    }
    while i < entries.len()
        invariant
            i <= entries.len(),
            plan == plan_view(entries@),
            key_set(slots@) == phase_slots(plan, phase, i as int),
            forall|j: int|
                0 <= j < slots.len() ==> (#[trigger] slots@[j]).index < entries.len()
                    && slots@[j].depth == plan[slots@[j].index as int].path.len(),
        decreases entries.len() - i,
    {
        assert(plan[i as int] == entries@[i as int]@);
        if is_in_phase(&entries[i], phase) {
            let slot = Slot { depth: entries[i].path.depth(), index: i };
            proof {
                lemma_key_set_push(slots@, slot);
                assert(phase_slots(plan, phase, i + 1) =~= phase_slots(plan, phase, i as int).insert(
                    slot.key(),
                ));
            }
            slots.push(slot);
        } else {
            assert(phase_slots(plan, phase, i + 1) =~= phase_slots(plan, phase, i as int));
        }
        i = i + 1;
    }
    let ghost before = slots@;
    let sorted = sorted_distinct(slots);
    let mut r: Vec<usize> = Vec::new();
    let mut k: usize = 0;
    while k < sorted.len()
        invariant
            k <= sorted.len(),
            r.len() == k,
            plan == plan_view(entries@),
            forall|j: int| 0 <= j < sorted.len() ==> before.contains(#[trigger] sorted@[j]),
            forall|j: int|
                0 <= j < before.len() ==> (#[trigger] before[j]).index < entries.len()
                    && before[j].depth == plan[before[j].index as int].path.len(),
            forall|j: int| 0 <= j < k ==> #[trigger] r@[j] == sorted@[j].index,
        decreases sorted.len() - k,
    {
        r.push(sorted[k].index);
        k = k + 1;
    }
    proof {
        assert forall|j: int| 0 <= j < r.len() implies #[trigger] r@[j] < entries.len()
            && slots_of(plan, r@)[j] == keys_of(sorted@)[j] by {
            assert(before.contains(sorted@[j]));
            let b = choose|b: int| 0 <= b < before.len() && before[b] == sorted@[j];
            assert(before[b].index < entries.len());
        }
        assert(slots_of(plan, r@) =~= keys_of(sorted@));
    }
    r
}

/// In the order of execution no entry comes before a deeper one, each
/// entry of the phase comes once, and nothing else comes.
pub proof fn lemma_order_is_deepest_first(
    plan: Seq<PlanEntryView>,
    phase: Phase,
    order: Seq<usize>,
)
    requires
        plan.len() <= usize::MAX,
        forall|i: int| 0 <= i < plan.len() ==> (#[trigger] plan[i]).path.len() <= usize::MAX,
        forall|k: int| 0 <= k < order.len() ==> #[trigger] order[k] < plan.len(),
        enumerates(
            slots_of(plan, order),
            phase_slots(plan, phase, plan.len() as int),
            deepest_first(),
        ),
    ensures
        forall|a: int, b: int|
            0 <= a < b < order.len() ==> plan[#[trigger] order[a] as int].path.len()
                >= plan[#[trigger] order[b] as int].path.len(),
        forall|a: int, b: int| 0 <= a < b < order.len() ==> #[trigger] order[a] != #[trigger] order[b],
        forall|k: int| 0 <= k < order.len() ==> in_phase(plan[#[trigger] order[k] as int], phase),
        forall|i: int|
            0 <= i < plan.len() && in_phase(#[trigger] plan[i], phase) ==> exists|k: int|
                0 <= k < order.len() && #[trigger] order[k] == i,
{
    let slots = slots_of(plan, order);
    let wanted = phase_slots(plan, phase, plan.len() as int);
    assert forall|a: int, b: int| 0 <= a < b < order.len() implies plan[#[trigger] order[a] as int].path.len()
        >= plan[#[trigger] order[b] as int].path.len() && order[a] != order[b] by {
        assert(deepest_first()(slots[a], slots[b]));
    }
    assert forall|k: int| 0 <= k < order.len() implies in_phase(
        plan[#[trigger] order[k] as int],
        phase,
    ) by {
        assert(slots.contains(slots[k]));
        assert(wanted.contains(slots[k]));
    }
    assert forall|i: int| 0 <= i < plan.len() && in_phase(#[trigger] plan[i], phase) implies exists|
        k: int,
    | 0 <= k < order.len() && #[trigger] order[k] == i by {
        let slot = (plan[i].path.len() as usize, i as usize);
        assert(wanted.contains(slot));
        assert(slots.contains(slot));
        let k = choose|k: int| 0 <= k < slots.len() && slots[k] == slot;
        assert(order[k] == i);
    }
}

/// Where the extension of a name begins: at its last dot. `None` where the
/// name has no dot.
pub open spec fn last_dot(name: Seq<char>) -> Option<int>
    decreases name.len(),
{
    if name.len() == 0 {
        None
    } else if name.last() == '.' {
        Some(name.len() - 1)
    } else {
        last_dot(name.drop_last())
    }
}

/// The name without its extension.
pub open spec fn stem_of(name: Seq<char>) -> Seq<char> {
    match last_dot(name) {
        Some(d) => name.take(d),
        None => name,
    }
}

/// The extension of a name, with its dot; empty where the name has no dot.
pub open spec fn extension_of(name: Seq<char>) -> Seq<char> {
    match last_dot(name) {
        Some(d) => name.skip(d),
        None => Seq::empty(),
    }
}

/// The character for a digit.
pub open spec fn digit_char(d: nat) -> char {
    if d == 0 {
        '0'
    } else if d == 1 {
        '1'
    } else if d == 2 {
        '2'
    } else if d == 3 {
        '3'
    } else if d == 4 {
        '4'
    } else if d == 5 {
        '5'
    } else if d == 6 {
        '6'
    } else if d == 7 {
        '7'
    } else if d == 8 {
        '8'
    } else {
        '9'
    }
}

/// A number written in decimal.
pub open spec fn decimal(n: nat) -> Seq<char>
    decreases n,
{
    if n < 10 {
        seq![digit_char(n)]
    } else {
        decimal(n / 10).push(digit_char(n % 10))
    }
}

/// The name that gives way for the `k`th time: the number in parentheses
/// stands before the extension, or at the end where there is no extension.
pub open spec fn numbered(name: Seq<char>, k: nat) -> Seq<char> {
    stem_of(name) + seq!['('] + decimal(k) + seq![')'] + extension_of(name)
}

/// How often a name gives way before it is given up.
pub const ATTEMPTS: u32 = 999;

fn digit(d: u32) -> (r: char)
    requires
        d < 10,
    ensures
        r == digit_char(d as nat),
{
    if d == 0 {
        '0'
    } else if d == 1 {
        '1'
    } else if d == 2 {
        '2'
    } else if d == 3 {
        '3'
    } else if d == 4 {
        '4'
    } else if d == 5 {
        '5'
    } else if d == 6 {
        '6'
    } else if d == 7 {
        '7'
    } else if d == 8 {
        '8'
    } else {
        '9'
    }
}

/// Writes a number in decimal.
fn write_decimal(n: u32) -> (r: Vec<char>)
    ensures
        r@ == decimal(n as nat),
    decreases n,
{
    if n < 10 {
        let r = vec![digit(n)];
        assert(r@ =~= seq![digit_char(n as nat)]);
        r
    } else {
        let mut r = write_decimal(n / 10);
        r.push(digit(n % 10));
        r
    }
}

/// The name that gives way for the `k`th time.
pub fn numbered_name(name: &str, k: u32) -> (r: String)
    ensures
        r@ == numbered(name@, k as nat),
{
    let chars = to_chars(name);
    let mut dot: usize = chars.len();
    let mut found = false;
    assert(chars@.take(chars.len() as int) == chars@);
    while dot > 0 && !found
        invariant
            dot <= chars.len(),
            !found ==> last_dot(chars@) == last_dot(chars@.take(dot as int)),
            found ==> dot < chars.len() && last_dot(chars@) == Some(dot as int),
        decreases dot,
    {
        proof {
            assert(chars@.take(dot as int).drop_last() == chars@.take(dot - 1));
            assert(chars@.take(dot as int).last() == chars@[dot - 1]);
        }
        dot = dot - 1;
        if chars[dot] == '.' {
            found = true;
        }
    }
    let split = if found {
        dot
    } else {
        chars.len()
    };
    proof {
        if !found {
            assert(chars@.take(0).len() == 0);
            assert(last_dot(chars@) is None);
            assert(chars@.take(chars.len() as int) == chars@);
            assert(chars@.skip(chars.len() as int) =~= Seq::<char>::empty());
        }
    }
    let mut out = slice_chars(&chars, 0, split);
    let tail = slice_chars(&chars, split, chars.len());
    assert(out@ == stem_of(name@));
    assert(tail@ == extension_of(name@));
    out.push('(');
    let number = write_decimal(k);
    push_all(&mut out, &number);
    out.push(')');
    push_all(&mut out, &tail);
    from_chars(&out)
}

/// Whether the name is among those taken.
pub open spec fn is_taken(taken: Seq<Seq<char>>, name: Seq<char>) -> bool {
    taken.contains(name)
}

/// Whether the list holds the name.
fn holds_name(taken: &Vec<String>, name: &String) -> (r: bool)
    ensures
        r == is_taken(strings_view(taken@), name@),
{
    let mut k: usize = 0;
    while k < taken.len()
        invariant
            k <= taken.len(),
            forall|j: int| 0 <= j < k ==> strings_view(taken@)[j] != name@,
        decreases taken.len() - k,
    {
        if taken[k] == *name {
            assert(strings_view(taken@)[k as int] == name@);
            return true;
        }
        k = k + 1;
    }
    false
}

/// Whether `k` is the first time that the name, giving way, is free.
pub open spec fn first_free(taken: Seq<Seq<char>>, name: Seq<char>, k: nat) -> bool {
    &&& 1 <= k <= ATTEMPTS
    &&& !is_taken(taken, numbered(name, k))
    &&& forall|j: nat| 1 <= j < k ==> is_taken(taken, #[trigger] numbered(name, j))
}

/// The name under which an entry can be put where it is wanted. Where the
/// wanted name is free it is that name. Where it is taken the name gives
/// way: `(1)`, `(2)` and so on up to `(999)` are put before the extension
/// until a name is free. Where all of these are taken there is none.
pub fn resolve_target(desired: &str, taken: &Vec<String>) -> (r: Option<String>)
    ensures
        match r {
            Some(name) => if is_taken(strings_view(taken@), desired@) {
                exists|k: nat|
                    first_free(strings_view(taken@), desired@, k) && name@ == #[trigger] numbered(
                        desired@,
                        k,
                    )
            } else {
                name@ == desired@
            },
            None => is_taken(strings_view(taken@), desired@) && forall|k: nat|
                1 <= k <= ATTEMPTS ==> is_taken(
                    strings_view(taken@),
                    #[trigger] numbered(desired@, k),
                ),
        },
{
    let wanted = desired.to_owned();
    if !holds_name(taken, &wanted) {
        return Some(wanted);
    }
    let mut counter: u32 = 1;
    while counter <= ATTEMPTS
        invariant
            1 <= counter <= ATTEMPTS + 1,
            is_taken(strings_view(taken@), desired@),
            forall|j: nat|
                1 <= j < counter ==> is_taken(
                    strings_view(taken@),
                    #[trigger] numbered(desired@, j),
                ),
        decreases ATTEMPTS + 1 - counter,
    {
        let candidate = numbered_name(desired, counter);
        if !holds_name(taken, &candidate) {
            assert(first_free(strings_view(taken@), desired@, counter as nat));
            return Some(candidate);
        }
        counter = counter + 1;
    }
    None
}

} // verus!
