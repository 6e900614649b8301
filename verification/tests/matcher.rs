use std::path::PathBuf;

use tidytree::classify::{classify, needs_digest, EntryFacts};
use tidytree::data::{AppOptions, Operation};
use tidytree::fnmatch_regex::error::PatternError;
use tidytree::pconfig::{ConfigValue, DigestList, PatternsConfig};
use tidytree::pmatcher::{create_mixed_regex_list, parse_mixed_regex, PatternMatcher};
use tidytree::text::trim;

fn strings(items: &[&str]) -> Vec<String> {
    items.iter().map(|s| s.to_string()).collect()
}

fn config(remove: &[&str], hashed: &[(&str, &[&str])], cleanup: &[&str]) -> PatternsConfig {
    PatternsConfig {
        remove: strings(remove),
        remove_hash: hashed.iter().map(|(k, v)| (k.to_string(), strings(v))).collect(),
        cleanup: strings(cleanup),
    }
}

fn matcher(remove: &[&str], hashed: &[(&str, &[&str])], cleanup: &[&str]) -> PatternMatcher {
    match PatternMatcher::from_config(&config(remove, hashed, cleanup)) {
        Ok(m) => m,
        Err(e) => panic!("the configuration was refused: {:?}", e),
    }
}

fn options() -> AppOptions {
    AppOptions {
        enable_deletion: true,
        enable_hash_matching: true,
        enable_renaming: true,
        enable_prune_empty_dir: true,
        skip_parent_tmp: true,
        prune: false,
        verbose: 0,
        config_file: PathBuf::from("patterns.yml"),
        target_path: PathBuf::from("."),
    }
}

const FILE: EntryFacts = EntryFacts { is_dir: false, is_symlink: false, is_empty: false };
const DIR: EntryFacts = EntryFacts { is_dir: true, is_symlink: false, is_empty: false };
const EMPTY_DIR: EntryFacts = EntryFacts { is_dir: true, is_symlink: false, is_empty: true };
const EMPTY_LINK: EntryFacts = EntryFacts { is_dir: true, is_symlink: true, is_empty: true };

#[test]
fn glob_entry_is_compiled() {
    let re = parse_mixed_regex("*.tmp").unwrap();
    assert_eq!(re.as_str(), "^[^/]*\\.tmp$");
}

#[test]
fn slash_entry_is_a_regex() {
    let re = parse_mixed_regex("/^a+b$").unwrap();
    assert_eq!(re.as_str(), "^a+b$");
}

#[test]
fn entries_are_trimmed() {
    let re = parse_mixed_regex("  *.bak \n").unwrap();
    assert_eq!(re.as_str(), "^[^/]*\\.bak$");
    let re = parse_mixed_regex("\t/x.y ").unwrap();
    assert_eq!(re.as_str(), "x.y");
}

#[test]
fn malformed_glob_fails_the_entry() {
    assert!(matches!(parse_mixed_regex("[abc"), Err(PatternError::UnclosedClass)));
}

#[test]
fn invalid_regex_fails_the_entry() {
    match parse_mixed_regex("/(unclosed") {
        Err(PatternError::InvalidRegex(pattern, reason)) => {
            assert_eq!(pattern, "(unclosed");
            assert!(!reason.is_empty());
        }
        other => panic!("unexpected outcome: {:?}", other.map(|re| re.as_str().to_string())),
    }
}

#[test]
fn glob_that_is_no_regex_fails_the_entry() {
    match parse_mixed_regex("a)b") {
        Err(PatternError::InvalidRegex(pattern, _)) => assert_eq!(pattern, "^a)b$"),
        other => panic!("unexpected outcome: {:?}", other.map(|re| re.as_str().to_string())),
    }
}

#[test]
fn first_bad_entry_fails_the_list() {
    let outcome = create_mixed_regex_list(&strings(&["*.a", "[z-a]", "{"]));
    assert!(matches!(outcome, Err(PatternError::ReversedRange('z', 'a'))));
    let list = create_mixed_regex_list(&strings(&["*.a", "/b$"])).unwrap();
    assert_eq!(list.len(), 2);
    assert_eq!(list[0].as_str(), "^[^/]*\\.a$");
    assert_eq!(list[1].as_str(), "b$");
}

#[test]
fn bad_configuration_is_refused_as_a_whole() {
    let bad_remove = config(&["{a"], &[], &["[z-a]"]);
    assert!(matches!(
        PatternMatcher::from_config(&bad_remove),
        Err(PatternError::UnclosedAlternation)
    ));
    let bad_cleanup = config(&["*.tmp"], &[("[", &[])], &["[z-a]"]);
    assert!(matches!(
        PatternMatcher::from_config(&bad_cleanup),
        Err(PatternError::ReversedRange('z', 'a'))
    ));
    let bad_hash = config(&["*.tmp"], &[("[", &[])], &[]);
    assert!(matches!(PatternMatcher::from_config(&bad_hash), Err(PatternError::UnclosedClass)));
}

#[test]
fn hash_keys_are_always_globs() {
    let m = matcher(&[], &[("/x", &["d"])], &[]);
    assert_eq!(m.patterns_to_remove_with_hash[0].0.as_str(), "^/x$");
    assert_eq!(m.patterns_to_remove_with_hash[0].1, strings(&["d"]));
}

#[test]
fn first_matching_remove_pattern_wins() {
    let m = matcher(&["*.tmp", "/^a", "a*"], &[], &[]);
    assert_eq!(m.match_remove_pattern("x.tmp"), (true, Some("^[^/]*\\.tmp$".to_string())));
    assert_eq!(m.match_remove_pattern("abc"), (true, Some("^a".to_string())));
    assert_eq!(m.match_remove_pattern("a.tmp"), (true, Some("^[^/]*\\.tmp$".to_string())));
    assert_eq!(m.match_remove_pattern("b.txt"), (false, None));
}

#[test]
fn bracket_first_in_class_matches_only_the_bracket() {
    let m = matcher(&["[]]"], &[], &[]);
    assert!(m.match_remove_pattern("]").0);
    assert!(!m.match_remove_pattern("a").0);
    assert!(!m.match_remove_pattern("]]").0);
    assert!(!m.match_remove_pattern("").0);
    assert!(!m.match_remove_pattern("/").0);
}

#[test]
fn negated_bracket_matches_all_but_bracket_and_slash() {
    let m = matcher(&["[!]]"], &[], &[]);
    assert!(m.match_remove_pattern("a").0);
    assert!(m.match_remove_pattern("[").0);
    assert!(m.match_remove_pattern("-").0);
    assert!(!m.match_remove_pattern("]").0);
    assert!(!m.match_remove_pattern("/").0);
    assert!(!m.match_remove_pattern("ab").0);
}

#[test]
fn empty_braces_match_the_braces() {
    let m = matcher(&["{}"], &[], &[]);
    assert!(m.match_remove_pattern("{}").0);
    assert!(!m.match_remove_pattern("").0);
    assert!(!m.match_remove_pattern("{").0);
}

#[test]
fn wildcards_and_classes_stop_at_the_slash() {
    let m = matcher(&["a*b", "c?d", "e[.-9]f", "g[!x]h"], &[], &[]);
    assert!(m.match_remove_pattern("axyzb").0);
    assert!(m.match_remove_pattern("ab").0);
    assert!(!m.match_remove_pattern("ax/yb").0);
    assert!(m.match_remove_pattern("cxd").0);
    assert!(!m.match_remove_pattern("c/d").0);
    assert!(m.match_remove_pattern("e.f").0);
    assert!(m.match_remove_pattern("e5f").0);
    assert!(!m.match_remove_pattern("e/f").0);
    assert!(m.match_remove_pattern("gyh").0);
    assert!(!m.match_remove_pattern("gxh").0);
    assert!(!m.match_remove_pattern("g/h").0);
}

#[test]
fn kernel_names_match() {
    let m = matcher(&["linux-[0-9]*-{generic,aws}"], &[], &[]);
    assert!(m.match_remove_pattern("linux-5.2.27b1-generic").0);
    assert!(m.match_remove_pattern("linux-4.0.12-aws").0);
    assert!(!m.match_remove_pattern("linux-unsigned-5.2.27b1-generic").0);
}

#[test]
fn hash_match_needs_name_and_digest() {
    let m = matcher(&[], &[("*.bin", &["aa", "bb"]), ("x*", &["cc"])], &[]);
    assert_eq!(m.match_remove_hash("x.bin", "bb"), (true, Some("^[^/]*\\.bin$:bb".to_string())));
    assert_eq!(m.match_remove_hash("x.bin", "cc"), (true, Some("^x[^/]*$:cc".to_string())));
    assert_eq!(m.match_remove_hash("x.bin", "dd"), (false, None));
    assert_eq!(m.match_remove_hash("y.txt", "aa"), (false, None));
    assert!(m.wants_digest("x.bin"));
    assert!(m.wants_digest("xyz"));
    assert!(!m.wants_digest("y.txt"));
}

#[test]
fn cleanup_patterns_apply_in_sequence() {
    let m = matcher(&[], &[], &["/\\[[^\\]]*\\]", "/ +$", "/^_+"]);
    assert_eq!(m.clean_filename("__movie [1080p] "), "movie");
    assert_eq!(m.clean_filename("plain.txt"), "plain.txt");
}

#[test]
fn cleanup_leaves_the_path_prefix_alone() {
    let m = matcher(&[], &[], &["/x"]);
    assert_eq!(m.clean_filename("xdir/axbx.txt"), "xdir/ab.tt");
    assert_eq!(m.clean_filename("xdir/"), "xdir/");
    assert_eq!(m.clean_filename("xx"), "");
}

#[test]
fn cleanup_glob_strips_a_whole_name_only() {
    let m = matcher(&[], &[], &["*.url"]);
    assert_eq!(m.clean_filename("site.url"), "");
    assert_eq!(m.clean_filename("site.url.txt"), "site.url.txt");
}

#[test]
fn deletion_by_name_comes_first() {
    let m = matcher(&["*.tmp"], &[("*.tmp", &["d1"])], &["/tmp"]);
    let op = classify(&m, &options(), "a.tmp", FILE, Some("d1"));
    assert_eq!(op, Operation::Delete("^[^/]*\\.tmp$".to_string()));
    assert!(!needs_digest(&m, &options(), "a.tmp"));
}

#[test]
fn deletion_by_digest_comes_second() {
    let m = matcher(&["*.tmp"], &[("*.dat", &["d1"])], &["/dat"]);
    assert!(needs_digest(&m, &options(), "a.dat"));
    let op = classify(&m, &options(), "a.dat", FILE, Some("d1"));
    assert_eq!(op, Operation::Delete("^[^/]*\\.dat$:d1".to_string()));
    let op = classify(&m, &options(), "a.dat", FILE, Some("d2"));
    assert_eq!(op, Operation::Rename("a.".to_string()));
    let op = classify(&m, &options(), "a.dat", FILE, None);
    assert_eq!(op, Operation::Rename("a.".to_string()));
}

#[test]
fn renaming_comes_third() {
    let m = matcher(&[], &[], &["/\\.bak"]);
    assert_eq!(
        classify(&m, &options(), "a.bak.txt", FILE, None),
        Operation::Rename("a.txt".to_string())
    );
    assert_eq!(
        classify(&m, &options(), "d.bak", EMPTY_DIR, None),
        Operation::Rename("d".to_string())
    );
}

#[test]
fn directory_cleaned_to_nothing_moves_to_parent() {
    let m = matcher(&[], &[], &["/junk"]);
    assert_eq!(classify(&m, &options(), "junk", DIR, None), Operation::MoveToParent);
    assert_eq!(classify(&m, &options(), "junk", FILE, None), Operation::Rename(String::new()));
}

#[test]
fn empty_directory_is_pruned_last() {
    let m = matcher(&["*.tmp"], &[], &["/junk"]);
    assert_eq!(
        classify(&m, &options(), "d", EMPTY_DIR, None),
        Operation::Delete("<EMPTY_DIR>".to_string())
    );
    assert_eq!(classify(&m, &options(), "d", DIR, None), Operation::Keep);
    assert_eq!(classify(&m, &options(), "d", EMPTY_LINK, None), Operation::Keep);
    assert_eq!(classify(&m, &options(), "f.txt", FILE, None), Operation::Keep);
}

#[test]
fn disabled_rules_do_not_apply() {
    let m = matcher(&["*.tmp"], &[("*.dat", &["d1"])], &["/\\.bak"]);
    let mut o = options();
    o.enable_deletion = false;
    assert_eq!(classify(&m, &o, "a.tmp", FILE, Some("d1")), Operation::Keep);
    assert_eq!(classify(&m, &o, "a.dat", FILE, Some("d1")), Operation::Keep);
    assert!(!needs_digest(&m, &o, "a.dat"));
    let mut o = options();
    o.enable_hash_matching = false;
    assert_eq!(classify(&m, &o, "a.dat", FILE, Some("d1")), Operation::Keep);
    assert!(!needs_digest(&m, &o, "a.dat"));
    let mut o = options();
    o.enable_renaming = false;
    assert_eq!(classify(&m, &o, "a.bak", FILE, None), Operation::Keep);
    let mut o = options();
    o.enable_prune_empty_dir = false;
    assert_eq!(classify(&m, &o, "d", EMPTY_DIR, None), Operation::Keep);
}

#[test]
fn digest_is_not_needed_where_it_cannot_decide() {
    let m = matcher(&["*.tmp"], &[("*.dat", &["d1"])], &[]);
    for name in ["a.tmp", "a.txt"] {
        assert!(!needs_digest(&m, &options(), name));
        assert_eq!(
            classify(&m, &options(), name, FILE, Some("d1")),
            classify(&m, &options(), name, FILE, None)
        );
    }
}

#[test]
fn debug_mode_starts_at_level_three() {
    let mut o = options();
    assert!(!o.is_debug_mode());
    o.verbose = 2;
    assert!(!o.is_debug_mode());
    o.verbose = 3;
    assert!(o.is_debug_mode());
    o.verbose = 255;
    assert!(o.is_debug_mode());
}

#[test]
fn document_text_gives_trimmed_lines() {
    let doc = vec![
        ("remove".to_string(), ConfigValue::Text(" *.tmp \n\n*.bak\r\n  x".to_string())),
        ("cleanup".to_string(), ConfigValue::Text("a\n".to_string())),
    ];
    let c = PatternsConfig::from_document(&doc);
    assert_eq!(c.remove, strings(&["*.tmp", "", "*.bak", "x"]));
    assert_eq!(c.cleanup, strings(&["a"]));
    assert!(c.remove_hash.is_empty());
}

#[test]
fn document_lines_follow_the_newlines() {
    let lines = |text: &str| {
        PatternsConfig::from_document(&vec![(
            "remove".to_string(),
            ConfigValue::Text(text.to_string()),
        )])
        .remove
    };
    assert_eq!(lines(""), strings(&[]));
    assert_eq!(lines("\n"), strings(&[""]));
    assert_eq!(lines("a"), strings(&["a"]));
    assert_eq!(lines("a\n"), strings(&["a"]));
    assert_eq!(lines("a\n\n"), strings(&["a", ""]));
    assert_eq!(lines("\na"), strings(&["", "a"]));
}

#[test]
fn document_sequences_and_tables() {
    let doc = vec![
        ("cleanup".to_string(), ConfigValue::List(strings(&[" a ", "b"]))),
        (
            "remove_hash".to_string(),
            ConfigValue::Table(vec![
                ("*.bin".to_string(), DigestList::Items(strings(&["d1", "d2"]))),
                ("*.iso".to_string(), DigestList::Other),
            ]),
        ),
        ("remove".to_string(), ConfigValue::Other),
        ("remove".to_string(), ConfigValue::Table(vec![])),
        ("cleanup".to_string(), ConfigValue::Text("c".to_string())),
        ("unknown".to_string(), ConfigValue::List(strings(&["z"]))),
        ("remove_hash".to_string(), ConfigValue::List(strings(&["z"]))),
    ];
    let c = PatternsConfig::from_document(&doc);
    assert!(c.remove.is_empty());
    assert_eq!(c.cleanup, strings(&[" a ", "b", "c"]));
    assert_eq!(
        c.remove_hash,
        vec![("*.bin".to_string(), strings(&["d1", "d2"])), ("*.iso".to_string(), vec![])]
    );
}

#[test]
fn missing_keys_mean_empty_lists() {
    let c = PatternsConfig::from_document(&Vec::new());
    assert_eq!(c, PatternsConfig::empty());
    assert!(c.remove.is_empty() && c.remove_hash.is_empty() && c.cleanup.is_empty());
}

#[test]
fn whitespace_of_any_script_is_trimmed() {
    let re = parse_mixed_regex("\u{3000}\u{a0}*.log\u{2003}").unwrap();
    assert_eq!(re.as_str(), "^[^/]*\\.log$");
    let re = parse_mixed_regex("   ").unwrap();
    assert_eq!(re.as_str(), "^$");
}

#[test]
fn class_with_a_caret_matches_its_members_only() {
    let m = matcher(&["[^a]"], &[], &[]);
    assert!(m.match_remove_pattern("^").0);
    assert!(m.match_remove_pattern("a").0);
    assert!(!m.match_remove_pattern("b").0);
    assert!(!m.match_remove_pattern("/").0);
    assert!(!m.match_remove_pattern("\\").0);
}

#[test]
fn class_with_special_members_matches_its_members_only() {
    let m = matcher(&["x[[a]", "y[&&-(]", "z[+--]", "w[--9]", "v[~~-\u{80}]"], &[], &[]);
    for name in ["x[", "xa", "y&", "y'", "y(", "z+", "z,", "z-", "w-", "w.", "w5", "v~", "v\u{7f}"] {
        assert!(m.match_remove_pattern(name).0, "{} should match", name);
    }
    for name in ["x]", "xb", "y%", "y)", "z*", "z.", "w/", "w,", "w:", "v}", "v/"] {
        assert!(!m.match_remove_pattern(name).0, "{} should not match", name);
    }
}

#[test]
fn every_class_of_two_ascii_members_rejects_the_slash() {
    let members: Vec<char> = (0x20u8..0x7f).map(|b| b as char).collect();
    let mut globs = Vec::new();
    for a in &members {
        for b in ['a', '^', '-', ']', '&', '~', '[', '/', '\\'] {
            for negated in ["", "!"] {
                let mut glob = format!("[{}", negated);
                for c in [*a, b] {
                    if matches!(c, '\\' | ']' | '-' | '!') {
                        glob.push('\\');
                    }
                    glob.push(c);
                }
                glob.push(']');
                if negated.is_empty() && *a == '/' && b == '/' {
                    // nothing is left of the class, and the engine takes no empty class
                    assert!(matches!(
                        PatternMatcher::from_config(&config(&[glob.as_str()], &[], &[])),
                        Err(PatternError::InvalidRegex(_, _))
                    ));
                    continue;
                }
                globs.push(glob);
            }
        }
    }
    for glob in globs {
        let m = matcher(&[glob.as_str()], &[], &[]);
        assert!(!m.match_remove_pattern("/").0, "{} matches the slash", glob);
    }
}

#[test]
fn escaped_parenthesis_matches_itself() {
    let m = matcher(&["\\)", "{a\\),b}"], &[], &[]);
    assert!(m.match_remove_pattern(")").0);
    assert!(m.match_remove_pattern("a)").0);
    assert!(m.match_remove_pattern("b").0);
    assert!(!m.match_remove_pattern("a").0);
}

#[test]
fn name_without_a_match_is_not_renamed() {
    let m = matcher(&[], &[], &["/\\.bak$", "*.url", "/^tmp"]);
    for name in ["report.txt", "dir/report.txt", "x.baks", ""] {
        assert_eq!(m.clean_filename(name), name);
        assert_eq!(classify(&m, &options(), name, FILE, None), Operation::Keep);
        assert_eq!(classify(&m, &options(), name, DIR, None), Operation::Keep);
    }
}

#[test]
fn directory_moves_to_parent_where_its_name_is_cleaned_away() {
    let m = matcher(&[], &[], &["/junk"]);
    assert_eq!(classify(&m, &options(), "up/junk", DIR, None), Operation::MoveToParent);
    assert_eq!(
        classify(&m, &options(), "up/junk", FILE, None),
        Operation::Rename("up/".to_string())
    );
    assert_eq!(
        classify(&m, &options(), "junk/a", DIR, None),
        Operation::Keep
    );
}

#[test]
fn whitespace_is_what_the_standard_library_takes_it_to_be() {
    for code in 0u32..=0x10ffff {
        if let Some(c) = char::from_u32(code) {
            let trimmed_away = trim(&vec![c]).is_empty();
            assert_eq!(trimmed_away, c.is_whitespace(), "U+{:04X}", code);
        }
    }
    let text: Vec<char> = " \u{2003}a b\t\u{3000}".chars().collect();
    assert_eq!(trim(&text), vec!['a', ' ', 'b']);
    assert_eq!(trim(&vec!['a']), vec!['a']);
}

#[test]
fn later_digests_replace_earlier_ones_of_a_pattern() {
    let table = |rows: &[(&str, &[&str])]| {
        ConfigValue::Table(
            rows.iter().map(|(k, v)| (k.to_string(), DigestList::Items(strings(v)))).collect(),
        )
    };
    let doc = vec![
        ("remove_hash".to_string(), table(&[("*.a", &["1"]), ("*.b", &["2"]), ("*.a", &["3", "4"])])),
        ("remove_hash".to_string(), table(&[("*.c", &["5"]), ("*.b", &[])])),
    ];
    let c = PatternsConfig::from_document(&doc);
    assert_eq!(
        c.remove_hash,
        vec![
            ("*.a".to_string(), strings(&["3", "4"])),
            ("*.b".to_string(), vec![]),
            ("*.c".to_string(), strings(&["5"]))
        ]
    );
}
