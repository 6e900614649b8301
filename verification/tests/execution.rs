use tidytree::cascade::PlanEntry;
use tidytree::data::Operation;
use tidytree::digest::{digest_of, exceeds_digest_limit, to_hex, ContentDigest, DIGEST_LIMIT};
use tidytree::executor::{execution_order, numbered_name, resolve_target, Phase, ATTEMPTS};
use tidytree::path::EntryPath;
use tidytree::util::{contains_path, dedup_vec, is_not_hidden};

fn path(text: &str) -> EntryPath {
    EntryPath::new(text.split('/').filter(|c| !c.is_empty()).map(|c| c.to_string()).collect())
}

fn entry(text: &str, op: Operation, implied: bool) -> PlanEntry {
    PlanEntry { path: path(text), is_dir: false, is_symlink: false, op, implied }
}

fn delete(reason: &str) -> Operation {
    Operation::Delete(reason.to_string())
}

fn rename(name: &str) -> Operation {
    Operation::Rename(name.to_string())
}

fn names(items: &[&str]) -> Vec<String> {
    items.iter().map(|s| s.to_string()).collect()
}

#[test]
fn deletions_run_deepest_first() {
    let plan = vec![
        entry("a", delete("x"), false),
        entry("a/b/c", delete("x"), false),
        entry("k", Operation::Keep, false),
        entry("a/b", delete("x"), false),
        entry("a/b/d", delete("x"), false),
        entry("z", rename("y"), false),
    ];
    assert_eq!(execution_order(&plan, Phase::Deletion), vec![1, 4, 3, 0]);
}

#[test]
fn implied_deletions_are_not_executed() {
    let plan = vec![
        entry("a", delete("x"), false),
        entry("a/b", delete(""), true),
        entry("a/b/c", delete(""), true),
    ];
    assert_eq!(execution_order(&plan, Phase::Deletion), vec![0]);
    assert_eq!(execution_order(&plan, Phase::Renaming), Vec::<usize>::new());
}

#[test]
fn renamings_and_moves_run_deepest_first() {
    let plan = vec![
        entry("a", rename("b"), false),
        entry("a/x/y", rename("z"), false),
        entry("a/x", Operation::MoveToParent, false),
        entry("q", delete("q"), false),
        entry("a/w", rename("v"), false),
    ];
    assert_eq!(execution_order(&plan, Phase::Renaming), vec![1, 2, 4, 0]);
}

#[test]
fn order_of_an_empty_plan() {
    assert!(execution_order(&Vec::new(), Phase::Deletion).is_empty());
}

#[test]
fn number_goes_before_the_extension() {
    assert_eq!(numbered_name("bar.txt", 1), "bar(1).txt");
    assert_eq!(numbered_name("bar.tar.gz", 12), "bar.tar(12).gz");
    assert_eq!(numbered_name("noext", 7), "noext(7)");
    assert_eq!(numbered_name(".bashrc", 3), "(3).bashrc");
    assert_eq!(numbered_name("dot.", 999), "dot(999).");
    assert_eq!(numbered_name("", 0), "(0)");
    assert_eq!(numbered_name("a.b", 4294967295), "a(4294967295).b");
    assert_eq!(numbered_name("a.b", 100), "a(100).b");
}

#[test]
fn free_name_is_taken_as_it_is() {
    assert_eq!(resolve_target("bar.txt", &names(&["foo.txt"])), Some("bar.txt".to_string()));
    assert_eq!(resolve_target("bar.txt", &Vec::new()), Some("bar.txt".to_string()));
}

#[test]
fn taken_name_gives_way_to_the_first_free_number() {
    let taken = names(&["foo.txt", "bar.txt", "bar(1).txt"]);
    assert_eq!(resolve_target("bar.txt", &taken), Some("bar(2).txt".to_string()));
    let taken = names(&["bar.txt", "bar(2).txt"]);
    assert_eq!(resolve_target("bar.txt", &taken), Some("bar(1).txt".to_string()));
}

#[test]
fn name_is_given_up_after_all_attempts() {
    assert_eq!(ATTEMPTS, 999);
    let mut taken = vec!["f".to_string()];
    for k in 1..=998 {
        taken.push(format!("f({})", k));
    }
    assert_eq!(resolve_target("f", &taken), Some("f(999)".to_string()));
    taken.push("f(999)".to_string());
    assert_eq!(resolve_target("f", &taken), None);
}

#[test]
fn digest_of_known_content() {
    let chunks = vec![b"hello world".to_vec()];
    assert_eq!(digest_of(&chunks), "5eb63bbbe01eeed093cb22bb8f5acdc3");
    assert_eq!(digest_of(&Vec::new()), "d41d8cd98f00b204e9800998ecf8427e");
}

#[test]
fn digest_does_not_depend_on_the_pieces() {
    let whole = vec![b"hello world".to_vec()];
    let pieces = vec![b"hel".to_vec(), Vec::new(), b"lo wor".to_vec(), b"ld".to_vec()];
    assert_eq!(digest_of(&whole), digest_of(&pieces));
    let mut digest = ContentDigest::new();
    digest.update(b"hello ");
    digest.update(b"world");
    assert_eq!(digest.finish(), "5eb63bbbe01eeed093cb22bb8f5acdc3");
}

#[test]
fn hexadecimal_is_lower_case_with_two_digits() {
    assert_eq!(to_hex(&vec![0x00, 0x0f, 0xa0, 0xff, 0x5e]), "000fa0ff5e");
    assert_eq!(to_hex(&Vec::new()), "");
}

#[test]
fn large_files_are_not_digested() {
    assert_eq!(DIGEST_LIMIT, 100 * 1024 * 1024);
    assert!(!exceeds_digest_limit(0));
    assert!(!exceeds_digest_limit(100 * 1024 * 1024));
    assert!(exceeds_digest_limit(100 * 1024 * 1024 + 1));
}

#[test]
fn first_occurrences_are_kept_in_order() {
    let list = vec![path("a/b"), path("c"), path("a/b"), path("a"), path("c"), path("a/b/c")];
    let kept = dedup_vec(&list);
    assert_eq!(kept, vec![path("a/b"), path("c"), path("a"), path("a/b/c")]);
    assert!(dedup_vec(&Vec::new()).is_empty());
    assert!(contains_path(&list, &path("a")));
    assert!(!contains_path(&list, &path("b")));
}

#[test]
fn tmp_directories_are_hidden() {
    assert!(is_not_hidden("file", Some("dir")));
    assert!(is_not_hidden("file", None));
    assert!(!is_not_hidden(".tmp", Some("dir")));
    assert!(!is_not_hidden(".tmp", None));
    assert!(!is_not_hidden("file", Some(".tmp")));
    assert!(is_not_hidden(".tmpx", Some("x.tmp")));
}

#[test]
fn paths_know_their_parents() {
    let a = path("a");
    let ab = path("a/b");
    let abc = path("a/b/c");
    let ax = path("a/x");
    let root = path("");
    assert_eq!(abc.depth(), 3);
    assert_eq!(root.depth(), 0);
    assert!(a.is_parent_of(&ab));
    assert!(!a.is_parent_of(&abc));
    assert!(!ab.is_parent_of(&a));
    assert!(!a.is_parent_of(&a));
    assert!(root.is_parent_of(&a));
    assert!(!root.is_parent_of(&root));
    assert!(a.is_ancestor_of(&abc));
    assert!(root.is_ancestor_of(&abc));
    assert!(!ax.is_ancestor_of(&abc));
    assert!(!abc.is_ancestor_of(&abc));
    assert!(!abc.is_ancestor_of(&a));
    assert!(ab.same_as(&path("a//b")));
    assert!(!ab.same_as(&ax));
    assert!(!ab.same_as(&a));
    assert_eq!(ab.duplicate(), ab);
}
