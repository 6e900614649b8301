//! From the classification of each entry to a consistent plan.
//!
//! Two passes run over the classified entries. The first deletes every
//! directory that has nothing left in it once the deletions are made, and
//! so on upwards until no directory qualifies. The second deletes whatever
//! lies below a deleted directory, so that no operation is planned for an
//! entry that will be gone.

use vstd::prelude::*;
use crate::data::{empty_dir_reason, AppOptions, Operation, OperationView};
use crate::path::{is_ancestor, is_parent, EntryPath};

verus! {

/// One entry of the plan: its path, what the walk found it to be, and the
/// operation planned for it.
#[derive(Debug, Clone, PartialEq, Eq)]
pub struct PlanEntry {
    /// The path of the entry.
    pub path: EntryPath,
    /// Whether the entry is a directory.
    pub is_dir: bool,
    /// Whether the entry is a symbolic link.
    pub is_symlink: bool,
    /// The operation planned for the entry.
    pub op: Operation,
    /// Whether the entry is deleted only because a directory above it is:
    /// the deletion of that directory takes the entry with it.
    pub implied: bool,
}

/// A [`PlanEntry`] as a mathematical value.
pub struct PlanEntryView {
    pub path: Seq<Seq<char>>,
    pub is_dir: bool,
    pub is_symlink: bool,
    pub op: OperationView,
    pub implied: bool,
}

impl View for PlanEntry {
    type V = PlanEntryView;

    open spec fn view(&self) -> PlanEntryView {
        PlanEntryView {
            path: self.path@,
            is_dir: self.is_dir,
            is_symlink: self.is_symlink,
            op: self.op@,
            implied: self.implied,
        }
    }
}

/// The entries of a plan as mathematical values, position by position.
pub open spec fn plan_view(v: Seq<PlanEntry>) -> Seq<PlanEntryView> {
    Seq::new(v.len(), |i: int| v[i]@)
}

/// Whether the entry is deleted.
pub open spec fn gone(e: PlanEntryView) -> bool {
    e.op is Delete
}

/// Whether the entry is a directory that can be deleted for being empty:
/// a directory that is no symbolic link.
pub open spec fn prunable(e: PlanEntryView) -> bool {
    e.is_dir && !e.is_symlink
}

/// Whether entry `j` of the plan lies directly in entry `i`.
pub open spec fn child_at(plan: Seq<PlanEntryView>, i: int, j: int) -> bool {
    0 <= j < plan.len() && is_parent(plan[i].path, plan[j].path)
}

/// Whether everything that lies directly in entry `i` is deleted.
pub open spec fn children_gone(plan: Seq<PlanEntryView>, i: int) -> bool {
    forall|j: int| #[trigger] child_at(plan, i, j) ==> gone(plan[j])
}

/// Whether the two plans speak of the same entries: as many, with the same
/// paths, each what it was.
pub open spec fn same_entries(before: Seq<PlanEntryView>, after: Seq<PlanEntryView>) -> bool {
    &&& after.len() == before.len()
    &&& forall|i: int|
        0 <= i < before.len() ==> (#[trigger] after[i]).path == before[i].path && after[i].is_dir
            == before[i].is_dir && after[i].is_symlink == before[i].is_symlink
}

/// Whether entry `i` of the plan has the path.
pub open spec fn holds_path_at(plan: Seq<PlanEntryView>, path: Seq<Seq<char>>, i: int) -> bool {
    0 <= i < plan.len() && plan[i].path == path
}

/// The place of the entry that has the path, where the plan has one.
pub open spec fn place_of(plan: Seq<PlanEntryView>, path: Seq<Seq<char>>) -> Option<int> {
    if exists|i: int| holds_path_at(plan, path, i) {
        Some(choose|i: int| holds_path_at(plan, path, i))
    } else {
        None
    }
}

/// Whether each path occurs once in the plan, so that one operation
/// belongs to each path.
pub open spec fn distinct_paths(plan: Seq<PlanEntryView>) -> bool {
    forall|i: int, j: int|
        0 <= i < j < plan.len() ==> (#[trigger] plan[i]).path != (#[trigger] plan[j]).path
}

/// A plan of the same entries has each path once where the other has.
pub proof fn lemma_same_entries_stay_distinct(
    before: Seq<PlanEntryView>,
    after: Seq<PlanEntryView>,
)
    requires
        same_entries(before, after),
    ensures
        distinct_paths(before) ==> distinct_paths(after),
{
    if distinct_paths(before) {
        assert forall|i: int, j: int| 0 <= i < j < after.len() implies (#[trigger] after[i]).path
            != (#[trigger] after[j]).path by {
            assert(before[i].path != before[j].path);
        }
    }
}

/// What the cascade does to entry `i`. The entry is deleted afterwards
/// where it was before, or where it is a directory with nothing left in
/// it. A directory that the cascade deletes gets the reason `<EMPTY_DIR>`;
/// every other entry stays as it was.
pub open spec fn cascaded_at(before: Seq<PlanEntryView>, after: Seq<PlanEntryView>, i: int)
    -> bool {
    &&& gone(after[i]) <==> gone(before[i]) || (prunable(before[i]) && children_gone(after, i))
    &&& gone(before[i]) || !gone(after[i]) ==> after[i] == before[i]
    &&& !gone(before[i]) && gone(after[i]) ==> after[i].op == OperationView::Delete(
        empty_dir_reason(),
    ) && !after[i].implied
}

/// Whether `after` is the plan that the cascade of empty directories makes
/// of `before`: a fixed point, in which a directory is deleted exactly
/// where all that it holds is.
pub open spec fn cascaded(before: Seq<PlanEntryView>, after: Seq<PlanEntryView>) -> bool {
    &&& same_entries(before, after)
    &&& forall|i: int| 0 <= i < before.len() ==> #[trigger] cascaded_at(before, after, i)
}

/// Whether the cascade has decided on an entry of the given depth and index
/// once it has come to the entries of depth `level` below index `upto`:
/// deeper entries are decided first.
pub open spec fn is_settled(depth: nat, index: int, level: int, upto: int) -> bool {
    depth > level || (depth == level && index < upto)
}

/// Whether entry `j` is decided, stays, and lies directly in entry `k`.
pub open spec fn survives_in(
    plan: Seq<PlanEntryView>,
    level: int,
    upto: int,
    k: int,
    j: int,
) -> bool {
    &&& 0 <= j < plan.len()
    &&& is_settled(plan[j].path.len(), j, level, upto)
    &&& !gone(plan[j])
    &&& is_parent(plan[k].path, plan[j].path)
}

/// Whether something that is decided and stays lies directly in entry `k`.
pub open spec fn has_survivor(plan: Seq<PlanEntryView>, level: int, upto: int, k: int) -> bool {
    exists|j: int| survives_in(plan, level, upto, k, j)
}

/// What holds while the cascade works its way up: the entries are the
/// same, those decided are as the cascade leaves them, the others as they
/// were.
pub open spec fn cascading(
    before: Seq<PlanEntryView>,
    cur: Seq<PlanEntryView>,
    level: int,
    upto: int,
) -> bool {
    &&& same_entries(before, cur)
    &&& forall|j: int|
        0 <= j < before.len() && is_settled(before[j].path.len(), j, level, upto)
            ==> #[trigger] cascaded_at(before, cur, j)
    &&& forall|j: int|
        0 <= j < before.len() && !is_settled(before[j].path.len(), j, level, upto)
            ==> #[trigger] cur[j] == before[j]
}

/// The step of the cascade on entry `i`, which has the depth that the
/// cascade has come to: the entry is decided, nothing else changes.
proof fn lemma_settle_one(
    before: Seq<PlanEntryView>,
    cur: Seq<PlanEntryView>,
    next: Seq<PlanEntryView>,
    level: int,
    i: int,
)
    requires
        0 <= i < before.len(),
        before[i].path.len() == level,
        cascading(before, cur, level, i),
        next.len() == cur.len(),
        forall|j: int| 0 <= j < cur.len() && j != i ==> #[trigger] next[j] == cur[j],
        next[i].path == cur[i].path,
        next[i].is_dir == cur[i].is_dir,
        next[i].is_symlink == cur[i].is_symlink,
        if !gone(cur[i]) && prunable(cur[i]) && !has_survivor(cur, level, i, i) {
            next[i].op == OperationView::Delete(empty_dir_reason()) && !next[i].implied
        } else {
            next[i] == cur[i]
        },
    ensures
        cascading(before, next, level, i + 1),
        forall|k: int|
            0 <= k < before.len() ==> (#[trigger] has_survivor(next, level, i + 1, k) <==> (
            has_survivor(cur, level, i, k) || (!gone(next[i]) && is_parent(
                next[k].path,
                next[i].path,
            )))),
{
    let up = i + 1;
    assert(cur[i] == before[i]);
    assert forall|j: int| 0 <= j < before.len() implies (#[trigger] next[j]).path
        == before[j].path && next[j].is_dir == before[j].is_dir && next[j].is_symlink
        == before[j].is_symlink by {
        if j != i {
            assert(next[j] == cur[j]);
        }
        assert(cur[j].path == before[j].path);
    }
    assert forall|j: int|
        0 <= j < before.len() && !is_settled(
            before[j].path.len(),
            j,
            level,
            i + 1,
        ) implies #[trigger] next[j] == before[j] by {
        assert(next[j] == cur[j]);
        assert(cur[j] == before[j]);
    }
    assert forall|j: int|
        0 <= j < before.len() && is_settled(
            before[j].path.len(),
            j,
            level,
            i + 1,
        ) implies #[trigger] cascaded_at(before, next, j) by {
        assert(cur[j].path == before[j].path);
        // Nothing that lies directly in a decided entry changes at this step.
        assert forall|c: int| #[trigger] child_at(next, j, c) implies next[c] == cur[c]
            && child_at(cur, j, c) by {
            assert(cur[c].path == before[c].path);
            assert(next[c].path == before[c].path);
            assert(next[j].path == before[j].path);
            if c == i {
                assert(before[c].path.len() == before[j].path.len() + 1);
            }
        }
        assert forall|c: int| #[trigger] child_at(cur, j, c) implies child_at(next, j, c)
            && next[c] == cur[c] by {
            assert(cur[c].path == before[c].path);
            assert(next[c].path == before[c].path);
            assert(next[j].path == before[j].path);
            if c == i {
                assert(before[c].path.len() == before[j].path.len() + 1);
            }
        }
        assert(children_gone(next, j) == children_gone(cur, j)) by {
            if children_gone(cur, j) {
                assert forall|c: int| #[trigger] child_at(next, j, c) implies gone(next[c]) by {
                    assert(child_at(cur, j, c));
                }
            }
            if children_gone(next, j) {
                assert forall|c: int| #[trigger] child_at(cur, j, c) implies gone(cur[c]) by {
                    assert(child_at(next, j, c));
                }
            }
        }
        if j != i {
            assert(next[j] == cur[j]);
            assert(cascaded_at(before, cur, j));
        } else {
            // All that lies directly in the entry is decided.
            if has_survivor(cur, level, i, i) {
                let c = choose|c: int| survives_in(cur, level, i, i, c);
                assert(child_at(cur, i, c));
                assert(!children_gone(cur, i));
            } else {
                assert forall|c: int| #[trigger] child_at(cur, i, c) implies gone(cur[c]) by {
                    assert(cur[c].path == before[c].path);
                    assert(before[c].path.len() == level + 1);
                    if !gone(cur[c]) {
                        assert(survives_in(cur, level, i, i, c));
                    }
                }
                assert(children_gone(cur, i));
            }
        }
    }
    assert forall|k: int| 0 <= k < before.len() implies (#[trigger] has_survivor(
        next,
        level,
        i + 1,
        k,
    ) <==> (has_survivor(cur, level, i, k) || (!gone(next[i]) && is_parent(
        next[k].path,
        next[i].path,
    )))) by {
        assert(next[k].path == cur[k].path);
        if has_survivor(next, level, i + 1, k) {
            let j = choose|j: int| survives_in(next, level, up, k, j);
            assert(cur[j].path == before[j].path);
            assert(next[j].path == before[j].path);
            if j != i {
                assert(next[j] == cur[j]);
                assert(survives_in(cur, level, i, k, j));
            }
        }
        if has_survivor(cur, level, i, k) {
            let j = choose|j: int| survives_in(cur, level, i, k, j);
            assert(cur[j].path == before[j].path);
            assert(j != i);
            assert(next[j] == cur[j]);
            assert(survives_in(next, level, up, k, j));
        }
        if !gone(next[i]) && is_parent(next[k].path, next[i].path) {
            assert(survives_in(next, level, up, k, i));
        }
    }
}

/// An entry of another depth than the one the cascade has come to is
/// passed over.
proof fn lemma_pass_over(before: Seq<PlanEntryView>, cur: Seq<PlanEntryView>, level: int, i: int)
    requires
        0 <= i < before.len(),
        before[i].path.len() != level,
        cascading(before, cur, level, i),
    ensures
        cascading(before, cur, level, i + 1),
        forall|k: int|
            0 <= k < before.len() ==> (#[trigger] has_survivor(cur, level, i + 1, k)
                <==> has_survivor(cur, level, i, k)),
{
    let up = i + 1;
    assert forall|k: int| 0 <= k < before.len() implies (#[trigger] has_survivor(
        cur,
        level,
        i + 1,
        k,
    ) <==> has_survivor(cur, level, i, k)) by {
        if has_survivor(cur, level, i + 1, k) {
            let j = choose|j: int| survives_in(cur, level, up, k, j);
            assert(cur[j].path == before[j].path);
            assert(survives_in(cur, level, i, k, j));
        }
        if has_survivor(cur, level, i, k) {
            let j = choose|j: int| survives_in(cur, level, i, k, j);
            assert(survives_in(cur, level, up, k, j));
        }
    }
}

/// Once the entries of one depth are decided the cascade comes to the next
/// depth above.
proof fn lemma_next_level(before: Seq<PlanEntryView>, cur: Seq<PlanEntryView>, level: int)
    requires
        cascading(before, cur, level, before.len() as int),
    ensures
        cascading(before, cur, level - 1, 0),
        forall|k: int|
            0 <= k < before.len() ==> (#[trigger] has_survivor(cur, level - 1, 0, k)
                <==> has_survivor(cur, level, before.len() as int, k)),
{
    let n = before.len() as int;
    let lower = level - 1;
    assert forall|j: int|
        0 <= j < before.len() && is_settled(
            before[j].path.len(),
            j,
            level - 1,
            0,
        ) implies #[trigger] cascaded_at(before, cur, j) by {
        assert(is_settled(before[j].path.len(), j, level, n));
    }
    assert forall|k: int| 0 <= k < before.len() implies (#[trigger] has_survivor(
        cur,
        level - 1,
        0,
        k,
    ) <==> has_survivor(cur, level, n, k)) by {
        if has_survivor(cur, level - 1, 0, k) {
            let j = choose|j: int| survives_in(cur, lower, 0, k, j);
            assert(survives_in(cur, level, n, k, j));
        }
        if has_survivor(cur, level, n, k) {
            let j = choose|j: int| survives_in(cur, level, n, k, j);
            assert(survives_in(cur, lower, 0, k, j));
        }
    }
}

/// Puts an entry into the plan: in the place of the entry of the same
/// path where there is one, at the end otherwise. A plan that is built in
/// this way has each path once.
pub fn insert_entry(entries: &mut Vec<PlanEntry>, entry: PlanEntry)
    requires
        distinct_paths(plan_view(old(entries)@)),
    ensures
        distinct_paths(plan_view(final(entries)@)),
        match place_of(plan_view(old(entries)@), entry@.path) {
            Some(i) => plan_view(final(entries)@) == plan_view(old(entries)@).update(i, entry@),
            None => plan_view(final(entries)@) == plan_view(old(entries)@).push(entry@),
        },
{
    let ghost before = plan_view(entries@);
    let mut i: usize = 0;
    while i < entries.len()
        invariant
            i <= entries.len(),
            before == plan_view(entries@),
            before == plan_view(old(entries)@),
            distinct_paths(before),
            forall|j: int| 0 <= j < i ==> (#[trigger] before[j]).path != entry@.path,
        decreases entries.len() - i,
    {
        assert(before[i as int] == entries@[i as int]@);
        if entries[i].path.same_as(&entry.path) {
            proof {
                assert(holds_path_at(before, entry@.path, i as int));
                let k = choose|k: int| holds_path_at(before, entry@.path, k);
                if k != i {
                    if k < i {
                        assert(before[k].path != before[i as int].path);
                    } else {
                        assert(before[i as int].path != before[k].path);
                    }
                }
                assert(k == i);
            }
            let ghost view = entry@;
            let ghost place = place_of(before, view.path);
            assert(place == Some(i as int));
            entries[i] = entry;
            proof {
                let after = plan_view(entries@);
                assert(after =~= before.update(i as int, view));
                assert forall|a: int, b: int| 0 <= a < b < after.len() implies (
                #[trigger] after[a]).path != (#[trigger] after[b]).path by {
                    assert(before[a].path != before[b].path);
                }
            }
            return ;
        }
        i = i + 1;
    }
    proof {
        if place_of(before, entry@.path) is Some {
            let k = choose|k: int| holds_path_at(before, entry@.path, k);
            assert(before[k].path != entry@.path);
        }
    }
    let ghost view = entry@;
    entries.push(entry);
    proof {
        let after = plan_view(entries@);
        assert(after =~= before.push(view));
        assert forall|a: int, b: int| 0 <= a < b < after.len() implies (#[trigger] after[a]).path
            != (#[trigger] after[b]).path by {
            if b < before.len() {
                assert(before[a].path != before[b].path);
            } else {
                assert(before[a].path != view.path);
            }
        }
    }
}

/// The greatest depth of an entry.
fn greatest_depth(entries: &Vec<PlanEntry>) -> (r: usize)
    ensures
        forall|i: int| 0 <= i < entries.len() ==> (#[trigger] entries@[i]).path@.len() <= r,
{
    let mut r: usize = 0;
    let mut i: usize = 0;
    while i < entries.len()
        invariant
            i <= entries.len(),
            forall|j: int| 0 <= j < i ==> (#[trigger] entries@[j]).path@.len() <= r,
        decreases entries.len() - i,
    {
        let d = entries[i].path.depth();
        if d > r {
            r = d;
        }
        i = i + 1;
    }
    r
}

/// As many flags as asked for, none of them set.
fn clear_flags(n: usize) -> (r: Vec<bool>)
    ensures
        r.len() == n,
        forall|j: int| 0 <= j < n ==> !r@[j],
{
    let mut r: Vec<bool> = Vec::new();
    let mut i: usize = 0;
    while i < n
        invariant
            i <= n,
            r.len() == i,
            forall|j: int| 0 <= j < i ==> !r@[j],
        decreases n - i,
    {
        r.push(false);
        i = i + 1;
    }
    r
}

/// Sets the flag of every entry that entry `i` lies directly in.
fn flag_parents(entries: &Vec<PlanEntry>, i: usize, flags: &mut Vec<bool>)
    requires
        i < entries.len(),
        old(flags).len() == entries.len(),
    ensures
        final(flags).len() == entries.len(),
        forall|k: int|
            0 <= k < entries.len() ==> final(flags)@[k] == (old(flags)@[k] || is_parent(
                (#[trigger] entries@[k]).path@,
                entries@[i as int].path@,
            )),
{
    let mut k: usize = 0;
    while k < entries.len()
        invariant
            k <= entries.len(),
            i < entries.len(),
            flags.len() == entries.len(),
            forall|j: int|
                0 <= j < k ==> flags@[j] == (old(flags)@[j] || is_parent(
                    (#[trigger] entries@[j]).path@,
                    entries@[i as int].path@,
                )),
            forall|j: int| k <= j < entries.len() ==> flags@[j] == old(flags)@[j],
        decreases entries.len() - k,
    {
        if entries[k].path.is_parent_of(&entries[i].path) {
            flags[k] = true;
        }
        k = k + 1;
    }
}

/// Empty-directory cascade: every directory that has nothing left in it
/// once the planned deletions are made is planned for deletion too, with
/// the reason `<EMPTY_DIR>`, and so on upwards until no directory
/// qualifies. A symbolic link to a directory is never deleted for being
/// empty.
pub fn cascade_empty_dirs(entries: &mut Vec<PlanEntry>)
    ensures
        cascaded(plan_view(old(entries)@), plan_view(final(entries)@)),
{
    let ghost before = plan_view(entries@);
    let n = entries.len();
    let top = greatest_depth(entries);
    let mut survivor = clear_flags(n);
    let mut level: usize = top;
    let mut done = false;
    let ghost mut lv: int = top as int;
    proof {
        assert(cascading(before, plan_view(entries@), lv, 0));
        assert forall|k: int| 0 <= k < n implies survivor@[k] == #[trigger] has_survivor(
            plan_view(entries@),
            lv,
            0,
            k,
        ) by {
            if has_survivor(plan_view(entries@), lv, 0, k) {
                let j = choose|j: int| survives_in(plan_view(entries@), lv, 0, k, j);
                assert(entries@[j].path@.len() <= top);
            }
        }
    }
    while !done
        invariant
            entries.len() == n,
            survivor.len() == n,
            before.len() == n,
            done ==> lv == -1,
            !done ==> lv == level,
            -1 <= lv,
            cascading(before, plan_view(entries@), lv, 0),
            forall|k: int|
                0 <= k < n ==> survivor@[k] == #[trigger] has_survivor(
                    plan_view(entries@),
                    lv,
                    0,
                    k,
                ),
        decreases lv + 1,
    {
        let mut i: usize = 0;
        while i < n
            invariant
                i <= n,
                entries.len() == n,
                survivor.len() == n,
                before.len() == n,
                lv == level,
                cascading(before, plan_view(entries@), lv, i as int),
                forall|k: int|
                    0 <= k < n ==> survivor@[k] == #[trigger] has_survivor(
                        plan_view(entries@),
                        lv,
                        i as int,
                        k,
                    ),
            decreases n - i,
        {
            let ghost cur = plan_view(entries@);
            let ghost flags = survivor@;
            assert(cur[i as int].path == before[i as int].path);
            if entries[i].path.depth() == level {
                assert(cur[i as int] == before[i as int]);
                if !entries[i].op.is_delete() && entries[i].is_dir && !entries[i].is_symlink
                    && !survivor[i] {
                    entries[i].op = Operation::Delete("<EMPTY_DIR>".to_owned());
                    entries[i].implied = false;
                }
                let ghost next = plan_view(entries@);
                proof {
                    assert(next[i as int] == entries@[i as int]@);
                    assert forall|j: int| 0 <= j < cur.len() && j != i implies #[trigger] next[j]
                        == cur[j] by {
                        assert(next[j] == entries@[j]@);
                    }
                    lemma_settle_one(before, cur, next, lv, i as int);
                }
                if !entries[i].op.is_delete() {
                    flag_parents(entries, i, &mut survivor);
                    proof {
                        assert forall|k: int| 0 <= k < n implies survivor@[k]
                            == #[trigger] has_survivor(next, lv, i + 1, k) by {
                            assert(next[k].path == entries@[k].path@);
                            assert(flags[k] == has_survivor(cur, lv, i as int, k));
                        }
                    }
                } else {
                    proof {
                        assert forall|k: int| 0 <= k < n implies survivor@[k]
                            == #[trigger] has_survivor(next, lv, i + 1, k) by {
                            assert(flags[k] == has_survivor(cur, lv, i as int, k));
                        }
                    }
                }
            } else {
                proof {
                    lemma_pass_over(before, cur, lv, i as int);
                    assert forall|k: int| 0 <= k < n implies survivor@[k]
                        == #[trigger] has_survivor(cur, lv, i + 1, k) by {
                        assert(flags[k] == has_survivor(cur, lv, i as int, k));
                    }
                }
            }
            i = i + 1;
        }
        proof {
            let cur = plan_view(entries@);
            lemma_next_level(before, cur, lv);
            assert forall|k: int| 0 <= k < n implies survivor@[k] == #[trigger] has_survivor(
                cur,
                lv - 1,
                0,
                k,
            ) by {
                assert(survivor@[k] == has_survivor(cur, lv, n as int, k));
            }
            lv = lv - 1;
        }
        if level == 0 {
            done = true;
        } else {
            level = level - 1;
        }
    }
    proof {
        let after = plan_view(entries@);
        assert forall|i: int| 0 <= i < before.len() implies #[trigger] cascaded_at(
            before,
            after,
            i,
        ) by {
            assert(is_settled(before[i].path.len(), i, -1, 0));
        }
    }
}

/// The greatest depth of an entry of the plan.
pub open spec fn deepest(plan: Seq<PlanEntryView>) -> nat
    decreases plan.len(),
{
    if plan.len() == 0 {
        0
    } else if plan.last().path.len() > deepest(plan.drop_last()) {
        plan.last().path.len()
    } else {
        deepest(plan.drop_last())
    }
}

/// No entry is deeper than the deepest.
proof fn lemma_deepest_bounds(plan: Seq<PlanEntryView>, i: int)
    requires
        0 <= i < plan.len(),
    ensures
        plan[i].path.len() <= deepest(plan),
    decreases plan.len(),
{
    if i < plan.len() - 1 {
        lemma_deepest_bounds(plan.drop_last(), i);
    }
}

/// Two outcomes of the cascade delete the same entries: what becomes of an
/// entry follows from what becomes of the entries that lie in it.
proof fn lemma_same_fate(
    before: Seq<PlanEntryView>,
    a: Seq<PlanEntryView>,
    b: Seq<PlanEntryView>,
    i: int,
)
    requires
        cascaded(before, a),
        cascaded(before, b),
        0 <= i < before.len(),
    ensures
        gone(a[i]) == gone(b[i]),
    decreases deepest(before) - before[i].path.len(),
{
    lemma_deepest_bounds(before, i);
    assert(cascaded_at(before, a, i));
    assert(cascaded_at(before, b, i));
    assert(a[i].path == before[i].path);
    assert(b[i].path == before[i].path);
    assert forall|c: int| 0 <= c < before.len() && is_parent(
        before[i].path,
        before[c].path,
    ) implies gone(a[c]) == gone(b[c]) by {
        lemma_deepest_bounds(before, c);
        lemma_same_fate(before, a, b, c);
    }
    if children_gone(a, i) {
        assert forall|c: int| #[trigger] child_at(b, i, c) implies gone(b[c]) by {
            assert(b[c].path == before[c].path);
            assert(a[c].path == before[c].path);
            assert(child_at(a, i, c));
        }
    }
    if children_gone(b, i) {
        assert forall|c: int| #[trigger] child_at(a, i, c) implies gone(a[c]) by {
            assert(b[c].path == before[c].path);
            assert(a[c].path == before[c].path);
            assert(child_at(b, i, c));
        }
    }
}

/// The cascade has one outcome: the fixed point is unique.
pub proof fn lemma_cascade_unique(
    before: Seq<PlanEntryView>,
    a: Seq<PlanEntryView>,
    b: Seq<PlanEntryView>,
)
    requires
        cascaded(before, a),
        cascaded(before, b),
    ensures
        a == b,
{
    assert forall|i: int| 0 <= i < a.len() implies a[i] == b[i] by {
        lemma_same_fate(before, a, b, i);
        assert(cascaded_at(before, a, i));
        assert(cascaded_at(before, b, i));
        assert(a[i].path == before[i].path);
        assert(b[i].path == before[i].path);
    }
    assert(a =~= b);
}

/// The plan that the cascade of empty directories makes of a plan.
pub open spec fn cascade_of(before: Seq<PlanEntryView>) -> Seq<PlanEntryView> {
    choose|after: Seq<PlanEntryView>| cascaded(before, after)
}

/// Whether entry `j` of the plan is deleted and entry `i` lies below it.
pub open spec fn deleted_above(plan: Seq<PlanEntryView>, i: int, j: int) -> bool {
    0 <= j < plan.len() && gone(plan[j]) && is_ancestor(plan[j].path, plan[i].path)
}

/// Whether entry `i` lies below a deleted entry, at any depth.
pub open spec fn lies_below_deleted(plan: Seq<PlanEntryView>, i: int) -> bool {
    exists|j: int| deleted_above(plan, i, j)
}

/// What an operation had to say: the reason of a deletion, the new name of
/// a renaming, nothing otherwise.
pub open spec fn former_text(op: OperationView) -> Seq<char> {
    match op {
        OperationView::Delete(reason) => reason,
        OperationView::Rename(name) => name,
        _ => Seq::empty(),
    }
}

/// What the propagation of deletions makes of entry `i`: an entry that is
/// not deleted but lies below a deleted one is deleted too, marked as
/// implied, with what its operation had to say as the reason. Any other
/// entry stays as it is.
pub open spec fn propagated_entry(plan: Seq<PlanEntryView>, i: int) -> PlanEntryView {
    if !gone(plan[i]) && lies_below_deleted(plan, i) {
        PlanEntryView {
            path: plan[i].path,
            is_dir: plan[i].is_dir,
            is_symlink: plan[i].is_symlink,
            op: OperationView::Delete(former_text(plan[i].op)),
            implied: true,
        }
    } else {
        plan[i]
    }
}

/// The plan that the propagation of deletions makes of a plan.
pub open spec fn propagated(plan: Seq<PlanEntryView>) -> Seq<PlanEntryView> {
    Seq::new(plan.len(), |i: int| propagated_entry(plan, i))
}

/// After the propagation whatever lies below a deleted entry is deleted.
pub proof fn lemma_propagated_is_closed(plan: Seq<PlanEntryView>, p: int, q: int)
    requires
        0 <= p < plan.len(),
        0 <= q < plan.len(),
        gone(propagated(plan)[p]),
        is_ancestor(plan[p].path, plan[q].path),
    ensures
        gone(propagated(plan)[q]),
{
    let above = plan[p].path;
    let below = plan[q].path;
    if gone(plan[p]) {
        assert(deleted_above(plan, q, p));
    } else {
        let j = choose|j: int| deleted_above(plan, p, j);
        let top = plan[j].path;
        assert(below.take(top.len() as int) == above.take(top.len() as int)) by {
            assert(below.take(above.len() as int).take(top.len() as int) == below.take(
                top.len() as int,
            ));
        }
        assert(deleted_above(plan, q, j));
    }
}

/// Whether entry `i` lies below an entry that is flagged.
fn below_flagged(entries: &Vec<PlanEntry>, flags: &Vec<bool>, i: usize) -> (r: bool)
    requires
        i < entries.len(),
        flags.len() == entries.len(),
    ensures
        r == (exists|j: int|
            0 <= j < entries.len() && flags@[j] && is_ancestor(
                (#[trigger] entries@[j]).path@,
                entries@[i as int].path@,
            )),
{
    let mut j: usize = 0;
    while j < entries.len()
        invariant
            j <= entries.len(),
            i < entries.len(),
            flags.len() == entries.len(),
            forall|k: int|
                0 <= k < j ==> !(flags@[k] && is_ancestor(
                    (#[trigger] entries@[k]).path@,
                    entries@[i as int].path@,
                )),
        decreases entries.len() - j,
    {
        if flags[j] && entries[j].path.is_ancestor_of(&entries[i].path) {
            return true;
        }
        j = j + 1;
    }
    false
}

/// Deletion propagation: every entry that is not deleted but lies below a
/// deleted directory is deleted too, marked as implied by the deletion
/// above it. Afterwards whatever lies below a deleted entry is deleted.
pub fn propagate_deletions(entries: &mut Vec<PlanEntry>)
    ensures
        plan_view(final(entries)@) == propagated(plan_view(old(entries)@)),
        forall|p: int, q: int|
            0 <= p < final(entries).len() && 0 <= q < final(entries).len() && gone(
                #[trigger] final(entries)@[p]@,
            ) && is_ancestor(final(entries)@[p].path@, (#[trigger] final(entries)@[q]).path@)
                ==> gone(final(entries)@[q]@),
{
    let ghost before = plan_view(entries@);
    let n = entries.len();
    let mut deleted: Vec<bool> = Vec::new();
    let mut k: usize = 0;
    while k < n
        invariant
            k <= n,
            n == entries.len(),
            deleted.len() == k,
            before == plan_view(entries@),
            forall|j: int| 0 <= j < k ==> deleted@[j] == gone(before[j]),
        decreases n - k,
    {
        assert(before[k as int] == entries@[k as int]@);
        deleted.push(entries[k].op.is_delete());
        k = k + 1;
    }
    let mut i: usize = 0;
    while i < n
        invariant
            i <= n,
            n == entries.len(),
            before.len() == n,
            deleted.len() == n,
            forall|j: int| 0 <= j < n ==> deleted@[j] == gone(before[j]),
            forall|j: int| 0 <= j < n ==> (#[trigger] entries@[j]).path@ == before[j].path,
            forall|j: int| 0 <= j < i ==> (#[trigger] entries@[j])@ == propagated_entry(before, j),
            forall|j: int| i <= j < n ==> (#[trigger] entries@[j])@ == before[j],
        decreases n - i,
    {
        if !deleted[i] {
            let below = below_flagged(entries, &deleted, i);
            proof {
                if below {
                    let j = choose|j: int|
                        0 <= j < entries.len() && deleted@[j] && is_ancestor(
                            (#[trigger] entries@[j]).path@,
                            entries@[i as int].path@,
                        );
                    assert(deleted_above(before, i as int, j));
                }
                if lies_below_deleted(before, i as int) {
                    let j = choose|j: int| deleted_above(before, i as int, j);
                    assert(deleted@[j] && is_ancestor(
                        entries@[j].path@,
                        entries@[i as int].path@,
                    ));
                }
            }
            if below {
                let text = match &entries[i].op {
                    Operation::Rename(name) => name.clone(),
                    Operation::Delete(reason) => reason.clone(),
                    _ => String::new(),
                };
                entries[i].op = Operation::Delete(text);
                entries[i].implied = true;
            }
        }
        i = i + 1;
    }
    proof {
        let after = plan_view(entries@);
        assert(after =~= propagated(before));
        assert forall|p: int, q: int|
            0 <= p < entries.len() && 0 <= q < entries.len() && gone(
                #[trigger] entries@[p]@,
            ) && is_ancestor(entries@[p].path@, (#[trigger] entries@[q]).path@) implies gone(
            entries@[q]@,
        ) by {
            assert(after[p] == entries@[p]@);
            assert(after[q] == entries@[q]@);
            lemma_propagated_is_closed(before, p, q);
        }
    }
}

/// The plan that the two passes make of the classified entries. The
/// cascade of empty directories runs only where both deletion and the
/// pruning of empty directories are enabled; the propagation of deletions
/// always runs.
pub open spec fn resolved(before: Seq<PlanEntryView>, options: AppOptions) -> Seq<PlanEntryView> {
    if options.enable_deletion && options.enable_prune_empty_dir {
        propagated(cascade_of(before))
    } else {
        propagated(before)
    }
}

/// Resolves the classified entries into the plan to carry out: the
/// cascade of empty directories, then the propagation of deletions. The
/// plan keeps its entries, each at its place; an entry that was deleted
/// stays exactly as it was; and where no path occurred twice none does
/// afterwards.
pub fn resolve(entries: &mut Vec<PlanEntry>, options: &AppOptions)
    ensures
        plan_view(final(entries)@) == resolved(plan_view(old(entries)@), *options),
        same_entries(plan_view(old(entries)@), plan_view(final(entries)@)),
        forall|i: int|
            0 <= i < old(entries).len() && gone(#[trigger] old(entries)@[i]@) ==> final(entries)@[i]@
                == old(entries)@[i]@,
        distinct_paths(plan_view(old(entries)@)) ==> distinct_paths(plan_view(final(entries)@)),
        forall|p: int, q: int|
            0 <= p < final(entries).len() && 0 <= q < final(entries).len() && gone(
                #[trigger] final(entries)@[p]@,
            ) && is_ancestor(final(entries)@[p].path@, (#[trigger] final(entries)@[q]).path@)
                ==> gone(final(entries)@[q]@),
{
    let ghost before = plan_view(entries@);
    if options.enable_deletion && options.enable_prune_empty_dir {
        cascade_empty_dirs(entries);
        proof {
            lemma_cascade_unique(before, cascade_of(before), plan_view(entries@));
        }
    }
    let ghost mid = plan_view(entries@);
    propagate_deletions(entries);
    proof {
        let after = plan_view(entries@);
        assert(same_entries(before, mid));
        assert(after.len() == mid.len());
        assert(entries@.len() == after.len());
        assert(old(entries)@.len() == before.len());
        assert forall|i: int| 0 <= i < before.len() implies (#[trigger] after[i]).path
            == before[i].path && after[i].is_dir == before[i].is_dir && after[i].is_symlink
            == before[i].is_symlink by {
            assert(after[i] == propagated_entry(mid, i));
            assert(mid[i].path == before[i].path);
        }
        assert forall|i: int| 0 <= i < old(entries).len() && gone(
            #[trigger] old(entries)@[i]@,
        ) implies entries@[i]@ == old(entries)@[i]@ by {
            assert(before[i] == old(entries)@[i]@);
            assert(after[i] == entries@[i]@);
            assert(after[i] == propagated_entry(mid, i));
            if options.enable_deletion && options.enable_prune_empty_dir {
                assert(cascaded_at(before, mid, i));
            }
        }
        lemma_same_entries_stay_distinct(before, after);
    }
}

/// The passes only ever add deletions: an entry that was deleted stays
/// exactly as it was.
pub proof fn lemma_deletions_stay(before: Seq<PlanEntryView>, mid: Seq<PlanEntryView>, i: int)
    requires
        cascaded(before, mid),
        0 <= i < before.len(),
        gone(before[i]),
    ensures
        mid[i] == before[i],
        propagated(mid)[i] == before[i],
        propagated(before)[i] == before[i],
{
    assert(cascaded_at(before, mid, i));
}

/// A plan without deletions in which every directory holds something is
/// left as it is: on a tree that is already clean the plan stays empty,
/// however often it is made.
pub proof fn lemma_clean_plan_stays(before: Seq<PlanEntryView>, options: AppOptions)
    requires
        forall|i: int| 0 <= i < before.len() ==> !gone(#[trigger] before[i]),
        forall|i: int|
            0 <= i < before.len() && prunable(#[trigger] before[i]) ==> exists|j: int|
                child_at(before, i, j),
    ensures
        resolved(before, options) == before,
{
    assert forall|i: int| 0 <= i < before.len() implies #[trigger] cascaded_at(
        before,
        before,
        i,
    ) by {
        if prunable(before[i]) {
            let j = choose|j: int| child_at(before, i, j);
            assert(!gone(before[j]));
        }
    }
    assert(cascaded(before, before));
    lemma_cascade_unique(before, cascade_of(before), before);
    assert forall|i: int| 0 <= i < before.len() implies propagated_entry(before, i)
        == before[i] by {
        if lies_below_deleted(before, i) {
            let j = choose|j: int| deleted_above(before, i, j);
        }
    }
    assert(propagated(before) =~= before);
}

} // verus!
