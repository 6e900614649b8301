use std::path::PathBuf;

use tidytree::cascade::{
    cascade_empty_dirs, insert_entry, propagate_deletions, resolve, PlanEntry,
};
use tidytree::classify::{classify, EntryFacts};
use tidytree::data::{AppOptions, Operation};
use tidytree::path::EntryPath;
use tidytree::pconfig::PatternsConfig;
use tidytree::pmatcher::PatternMatcher;

fn path(text: &str) -> EntryPath {
    EntryPath::new(text.split('/').filter(|c| !c.is_empty()).map(|c| c.to_string()).collect())
}

fn dir(text: &str, op: Operation) -> PlanEntry {
    PlanEntry { path: path(text), is_dir: true, is_symlink: false, op, implied: false }
}

fn file(text: &str, op: Operation) -> PlanEntry {
    PlanEntry { path: path(text), is_dir: false, is_symlink: false, op, implied: false }
}

fn delete(reason: &str) -> Operation {
    Operation::Delete(reason.to_string())
}

fn empty_dir() -> Operation {
    delete("<EMPTY_DIR>")
}

fn ops(plan: &[PlanEntry]) -> Vec<Operation> {
    plan.iter().map(|e| e.op.clone()).collect()
}

fn options() -> AppOptions {
    AppOptions {
        enable_deletion: true,
        enable_hash_matching: true,
        enable_renaming: true,
        enable_prune_empty_dir: true,
        skip_parent_tmp: true,
        prune: false,
        verbose: 0,
        config_file: PathBuf::from("patterns.yml"),
        target_path: PathBuf::from("."),
    }
}

#[test]
fn cascade_climbs_while_directories_empty() {
    let mut plan = vec![
        dir("a", Operation::Keep),
        dir("a/b", Operation::Keep),
        dir("a/b/c", Operation::Keep),
        file("a/b/c/x.tmp", delete("*.tmp")),
    ];
    cascade_empty_dirs(&mut plan);
    assert_eq!(ops(&plan), vec![empty_dir(), empty_dir(), empty_dir(), delete("*.tmp")]);
    assert!(plan.iter().all(|e| !e.implied));
}

#[test]
fn cascade_stops_at_a_directory_with_other_content() {
    let mut plan = vec![
        file("a/b/c/x.tmp", delete("*.tmp")),
        dir("a/b/c", Operation::Keep),
        file("a/keep.txt", Operation::Keep),
        dir("a/b", Operation::Keep),
        dir("a", Operation::Keep),
    ];
    cascade_empty_dirs(&mut plan);
    assert_eq!(
        ops(&plan),
        vec![delete("*.tmp"), empty_dir(), Operation::Keep, empty_dir(), Operation::Keep]
    );
}

#[test]
fn cascade_does_not_depend_on_the_order_of_entries() {
    let mut plan = vec![
        dir("r/d1", Operation::Keep),
        file("r/d1/d2/f", delete("p")),
        dir("r", Operation::Keep),
        dir("r/d1/d2", Operation::Keep),
    ];
    cascade_empty_dirs(&mut plan);
    assert_eq!(ops(&plan), vec![empty_dir(), delete("p"), empty_dir(), empty_dir()]);
}

#[test]
fn renamed_entries_keep_their_directory() {
    let mut plan = vec![
        dir("a", Operation::Keep),
        file("a/x", Operation::Rename("y".to_string())),
        dir("b", Operation::Keep),
        dir("b/c", Operation::MoveToParent),
        file("b/c/f", Operation::Keep),
    ];
    cascade_empty_dirs(&mut plan);
    assert_eq!(
        ops(&plan),
        vec![
            Operation::Keep,
            Operation::Rename("y".to_string()),
            Operation::Keep,
            Operation::MoveToParent,
            Operation::Keep
        ]
    );
}

#[test]
fn emptied_directory_is_deleted_whatever_was_planned_for_it() {
    let mut plan = vec![
        dir("b", Operation::Keep),
        dir("b/c", Operation::MoveToParent),
        dir("b/d", Operation::Rename("e".to_string())),
        file("b/d/f", delete("f")),
    ];
    cascade_empty_dirs(&mut plan);
    assert_eq!(ops(&plan), vec![empty_dir(), empty_dir(), empty_dir(), delete("f")]);
}

#[test]
fn directory_without_entries_is_empty() {
    let mut plan = vec![dir("a", Operation::Keep), file("b", Operation::Keep)];
    cascade_empty_dirs(&mut plan);
    assert_eq!(ops(&plan), vec![empty_dir(), Operation::Keep]);
}

#[test]
fn symlinked_directory_is_never_pruned() {
    let mut plan = vec![
        PlanEntry {
            path: path("link"),
            is_dir: true,
            is_symlink: true,
            op: Operation::Keep,
            implied: false,
        },
        dir("d", Operation::Keep),
        PlanEntry {
            path: path("d/link"),
            is_dir: true,
            is_symlink: true,
            op: Operation::Keep,
            implied: false,
        },
    ];
    cascade_empty_dirs(&mut plan);
    assert_eq!(ops(&plan), vec![Operation::Keep, Operation::Keep, Operation::Keep]);
}

#[test]
fn cascade_keeps_given_deletions_as_they_are() {
    let mut plan = vec![dir("a", delete("a*")), file("a/f", delete("f"))];
    cascade_empty_dirs(&mut plan);
    assert_eq!(ops(&plan), vec![delete("a*"), delete("f")]);
}

#[test]
fn cascade_of_nothing() {
    let mut plan: Vec<PlanEntry> = Vec::new();
    cascade_empty_dirs(&mut plan);
    assert!(plan.is_empty());
    propagate_deletions(&mut plan);
    assert!(plan.is_empty());
}

#[test]
fn deletion_reaches_renamed_descendant() {
    let mut plan = vec![dir("a", delete("a*")), file("a/x", Operation::Rename("y".to_string()))];
    propagate_deletions(&mut plan);
    assert_eq!(ops(&plan), vec![delete("a*"), delete("y")]);
    assert!(!plan[0].implied);
    assert!(plan[1].implied);
}

#[test]
fn deletion_reaches_every_depth() {
    let mut plan = vec![
        file("a/b/c/d", Operation::Keep),
        dir("a/b/c", Operation::MoveToParent),
        dir("a/b", Operation::Keep),
        dir("a", delete("a")),
        dir("ab", Operation::Keep),
        file("ab/f", Operation::Keep),
        file("a/b/x", delete("x")),
    ];
    propagate_deletions(&mut plan);
    assert_eq!(
        ops(&plan),
        vec![
            delete(""),
            delete(""),
            delete(""),
            delete("a"),
            Operation::Keep,
            Operation::Keep,
            delete("x")
        ]
    );
    let implied: Vec<bool> = plan.iter().map(|e| e.implied).collect();
    assert_eq!(implied, vec![true, true, true, false, false, false, false]);
}

#[test]
fn after_resolution_nothing_survives_below_a_deletion() {
    let mut plan = vec![
        dir("a", Operation::Keep),
        dir("a/b", delete("b")),
        file("a/b/f", Operation::Rename("g".to_string())),
        dir("a/b/c", Operation::Keep),
        file("a/b/c/h", Operation::Keep),
        file("k", Operation::Keep),
    ];
    resolve(&mut plan, &options());
    for p in &plan {
        for q in &plan {
            if p.op.is_delete() && p.path.is_ancestor_of(&q.path) {
                assert!(q.op.is_delete());
            }
        }
    }
    assert_eq!(plan[0].op, empty_dir());
    assert!(!plan[0].implied);
    assert!(plan[2].implied);
    assert_eq!(plan[5].op, Operation::Keep);
}

#[test]
fn cascade_runs_only_with_deletion_and_pruning() {
    let tree = || vec![dir("a", Operation::Keep), file("a/f", delete("f"))];
    let mut plan = tree();
    resolve(&mut plan, &options());
    assert_eq!(ops(&plan), vec![empty_dir(), delete("f")]);
    let mut o = options();
    o.enable_prune_empty_dir = false;
    let mut plan = tree();
    resolve(&mut plan, &o);
    assert_eq!(ops(&plan), vec![Operation::Keep, delete("f")]);
    let mut o = options();
    o.enable_deletion = false;
    let mut plan = tree();
    resolve(&mut plan, &o);
    assert_eq!(ops(&plan), vec![Operation::Keep, delete("f")]);
}

#[test]
fn clean_tree_gives_an_empty_plan_twice() {
    let tree = || {
        vec![
            dir("a", Operation::Keep),
            file("a/f.txt", Operation::Keep),
            dir("a/b", Operation::Keep),
            file("a/b/g.txt", Operation::Keep),
        ]
    };
    let mut first = tree();
    resolve(&mut first, &options());
    assert_eq!(first, tree());
    let mut second = first.clone();
    resolve(&mut second, &options());
    assert_eq!(second, tree());
}

#[test]
fn temporary_file_is_deleted_and_directory_follows_once_cleared() {
    let config = PatternsConfig {
        remove: vec!["*.tmp".to_string()],
        remove_hash: Vec::new(),
        cleanup: vec!["/^f\\.txt$".to_string()],
    };
    let matcher = PatternMatcher::from_config(&config).unwrap();
    let facts = |is_dir: bool| EntryFacts { is_dir, is_symlink: false, is_empty: false };
    let classified = |name: &str, is_dir: bool| {
        classify(&matcher, &options(), name, facts(is_dir), None)
    };
    let mut plan = vec![
        dir("d", classified("d", true)),
        file("d/e.tmp", classified("e.tmp", false)),
        file("d/f.txt", classified("f.txt", false)),
    ];
    assert_eq!(plan[0].op, Operation::Keep);
    assert_eq!(plan[1].op, delete("^[^/]*\\.tmp$"));
    assert_eq!(plan[2].op, Operation::Rename(String::new()));
    resolve(&mut plan, &options());
    assert_eq!(plan[0].op, Operation::Keep);
    assert_eq!(plan[1].op, delete("^[^/]*\\.tmp$"));

    let only_tmp = PatternsConfig {
        remove: vec!["*.tmp".to_string(), "f.txt".to_string()],
        remove_hash: Vec::new(),
        cleanup: Vec::new(),
    };
    let matcher = PatternMatcher::from_config(&only_tmp).unwrap();
    let mut plan = vec![
        dir("d", classify(&matcher, &options(), "d", facts(true), None)),
        file("d/e.tmp", classify(&matcher, &options(), "e.tmp", facts(false), None)),
        file("d/f.txt", classify(&matcher, &options(), "f.txt", facts(false), None)),
    ];
    resolve(&mut plan, &options());
    assert_eq!(ops(&plan), vec![empty_dir(), delete("^[^/]*\\.tmp$"), delete("^f\\.txt$")]);
}

#[test]
fn one_operation_belongs_to_each_path() {
    let mut plan: Vec<PlanEntry> = Vec::new();
    insert_entry(&mut plan, dir("a", Operation::Keep));
    insert_entry(&mut plan, file("a/f", Operation::Keep));
    insert_entry(&mut plan, file("b", Operation::Keep));
    insert_entry(&mut plan, file("a/f", delete("f")));
    insert_entry(&mut plan, dir("a", Operation::Rename("c".to_string())));
    assert_eq!(
        plan,
        vec![
            dir("a", Operation::Rename("c".to_string())),
            file("a/f", delete("f")),
            file("b", Operation::Keep)
        ]
    );
}

#[test]
fn resolution_keeps_the_entries_and_the_deletions() {
    let tree = vec![
        dir("a", delete("a*")),
        file("a/x", Operation::Rename("y".to_string())),
        dir("b", Operation::Keep),
        file("b/t", delete("t")),
        file("c", Operation::Keep),
    ];
    let mut plan = tree.clone();
    resolve(&mut plan, &options());
    assert_eq!(plan.len(), tree.len());
    for (before, after) in tree.iter().zip(plan.iter()) {
        assert_eq!(before.path, after.path);
        assert_eq!(before.is_dir, after.is_dir);
        assert_eq!(before.is_symlink, after.is_symlink);
        if before.op.is_delete() {
            assert_eq!(before, after);
        }
    }
}
