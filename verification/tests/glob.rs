use tidytree::fnmatch_regex::error::PatternError;
use tidytree::fnmatch_regex::class::{
    close_class, escape_in_class, handle_slash, ClassAccumulator, ClassItem,
};
use tidytree::fnmatch_regex::glob::{
    escape, escape_special, glob_to_regex_string, map_letter_escape, GlobIterator, State,
};

fn compiled(pattern: &str) -> String {
    match glob_to_regex_string(pattern) {
        Ok(text) => text,
        Err(e) => panic!("{:?} was refused: {:?}", pattern, e),
    }
}

#[test]
fn literal_text_is_anchored() {
    assert_eq!(compiled("abc"), "^abc$");
    assert_eq!(compiled(""), "^$");
}

#[test]
fn dot_bracket_and_brace_are_escaped() {
    assert_eq!(compiled("abc.txt"), "^abc\\.txt$");
    assert_eq!(compiled("a]b}c"), "^a\\]b\\}c$");
}

#[test]
fn wildcards_exclude_the_slash() {
    assert_eq!(compiled("?"), "^[^/]$");
    assert_eq!(compiled("*"), "^[^/]*$");
    assert_eq!(compiled("*.tmp"), "^[^/]*\\.tmp$");
    assert_eq!(compiled("foo/test?.txt"), "^foo/test[^/]\\.txt$");
}

#[test]
fn escapes_map_letters_to_control_characters() {
    assert_eq!(compiled("\\a\\b\\e\\f\\n\\r\\t\\v"), "^\x07\x08\x1b\x0c\x0a\x0d\x09\x0b$");
    assert_eq!(compiled("\\*\\?\\.\\\\"), "^\\*\\?\\.\\\\$");
    assert_eq!(compiled("\\x"), "^x$");
}

#[test]
fn bare_escape_is_refused() {
    assert!(matches!(glob_to_regex_string("abc\\"), Err(PatternError::BareEscape)));
}

#[test]
fn range_after_range_is_refused() {
    assert!(matches!(glob_to_regex_string("[a-z-0]"), Err(PatternError::RangeAfterRange('a', 'z'))));
}

#[test]
fn reversed_range_is_refused() {
    assert!(matches!(glob_to_regex_string("[z-a]"), Err(PatternError::ReversedRange('z', 'a'))));
}

#[test]
fn unclosed_class_is_refused() {
    assert!(matches!(glob_to_regex_string("[abc"), Err(PatternError::UnclosedClass)));
    assert!(matches!(glob_to_regex_string("["), Err(PatternError::UnclosedClass)));
    assert!(matches!(glob_to_regex_string("[a-"), Err(PatternError::UnclosedClass)));
    assert!(matches!(glob_to_regex_string("[a-c-"), Err(PatternError::UnclosedClass)));
    assert!(matches!(glob_to_regex_string("[\\"), Err(PatternError::UnclosedClass)));
}

#[test]
fn unclosed_alternation_is_refused() {
    assert!(matches!(glob_to_regex_string("{a,b"), Err(PatternError::UnclosedAlternation)));
    assert!(matches!(glob_to_regex_string("{a\\"), Err(PatternError::UnclosedAlternation)));
}

#[test]
fn class_in_alternation_is_not_implemented() {
    assert!(matches!(glob_to_regex_string("{a,[bc]}"), Err(PatternError::NotImplemented(_))));
}

#[test]
fn escaped_range_end_is_not_implemented() {
    assert!(matches!(glob_to_regex_string("[a-\\n]"), Err(PatternError::NotImplemented(_))));
}

#[test]
fn first_error_wins() {
    assert!(matches!(glob_to_regex_string("[z-a]{"), Err(PatternError::ReversedRange('z', 'a'))));
}

#[test]
fn closing_bracket_first_is_a_member() {
    assert_eq!(compiled("[]]"), "^[\\]]$");
    assert_eq!(compiled("[!]]"), "^[^/\\]]$");
}

#[test]
fn class_is_sorted_and_deduplicated() {
    assert_eq!(compiled("[cbaabc]"), "^[abc]$");
    assert_eq!(compiled("[x-za-cx-z]"), "^[a-cx-z]$");
    assert_eq!(compiled("[za-c0]"), "^[0za-c]$");
}

#[test]
fn dash_is_hoisted_to_the_end() {
    assert_eq!(compiled("[-a]"), "^[a-]$");
    assert_eq!(compiled("[a-]"), "^[a-]$");
    assert_eq!(compiled("[a-c-]"), "^[a-c-]$");
    assert_eq!(compiled("[!-]"), "^[^/-]$");
}

#[test]
fn range_of_one_is_a_character() {
    assert_eq!(compiled("[a-a]"), "^[a]$");
}

#[test]
fn slash_is_taken_out_of_classes() {
    assert_eq!(compiled("[.-9]"), "^[.0-9]$");
    assert_eq!(compiled("[--9]"), "^[\\--.0-9]$");
    assert_eq!(compiled("[a/b]"), "^[ab]$");
    assert_eq!(compiled("[.-/]"), "^[.]$");
    assert_eq!(compiled("[/-0]"), "^[0]$");
    assert_eq!(compiled("[+-/]"), "^[+-.]$");
    assert_eq!(compiled("[/-5]"), "^[0-5]$");
    assert_eq!(compiled("[.-0]"), "^[.0]$");
}

#[test]
fn negated_class_lists_the_slash() {
    assert_eq!(compiled("[!a]"), "^[^/a]$");
    assert_eq!(compiled("[!a/]"), "^[^/a]$");
    assert_eq!(compiled("[!.-9]"), "^[^.-9]$");
}

#[test]
fn class_escapes() {
    assert_eq!(compiled("[\\]a]"), "^[\\]a]$");
    assert_eq!(compiled("[a\\\\]"), "^[\\\\a]$");
    assert_eq!(compiled("[\\t]"), "^[\t]$");
}

#[test]
fn empty_braces_are_literal() {
    assert_eq!(compiled("{}"), "^\\{\\}$");
}

#[test]
fn alternation_is_sorted_and_deduplicated() {
    assert_eq!(compiled("{generic,aws}"), "^(aws|generic)$");
    assert_eq!(compiled("{b,a,b}"), "^(a|b)$");
    assert_eq!(compiled("{a}"), "^(a)$");
    assert_eq!(compiled("{a,}"), "^(|a)$");
    assert_eq!(compiled("{,}"), "^()$");
    assert_eq!(compiled("{ab,a}"), "^(a|ab)$");
}

#[test]
fn alternation_escapes_its_text() {
    assert_eq!(compiled("{a.b,c*}"), "^(a\\.b|c\\*)$");
    assert_eq!(compiled("{a\\,b,c}"), "^(a,b|c)$");
    assert_eq!(compiled("{\\n}"), "^(\n)$");
}

#[test]
fn kernel_names() {
    assert_eq!(compiled("linux-[0-9]*-{generic,aws}"), "^linux-[0-9][^/]*-(aws|generic)$");
}

#[test]
fn characters_beyond_ascii_are_ordered_by_code_point() {
    assert_eq!(compiled("[üaé]"), "^[aéü]$");
    assert_eq!(compiled("{é,z,zé,za}"), "^(z|za|zé|é)$");
    assert_eq!(compiled("ß?"), "^ß[^/]$");
    assert_eq!(compiled("[α-ω]"), "^[α-ω]$");
}

#[test]
fn parser_writes_one_piece_per_step() {
    let mut parser = GlobIterator::new("a?[b]".chars().collect());
    let mut pieces: Vec<Option<String>> = Vec::new();
    while let Some(step) = parser.next() {
        pieces.push(step.unwrap().map(|piece| piece.into_iter().collect()));
    }
    assert_eq!(
        pieces,
        vec![
            Some("^".to_string()),
            Some("a".to_string()),
            Some("[^/]".to_string()),
            None,
            None,
            Some("[b]".to_string()),
            Some("$".to_string())
        ]
    );
    assert!(matches!(parser.state, State::End));
    assert!(parser.next().is_none());
}

#[test]
fn parser_is_at_its_end_after_an_error() {
    let mut parser = GlobIterator::new("[z-a]x".chars().collect());
    let mut outcome = None;
    while let Some(step) = parser.next() {
        if step.is_err() {
            outcome = Some(step);
            break;
        }
    }
    assert!(matches!(outcome, Some(Err(PatternError::ReversedRange('z', 'a')))));
    assert!(matches!(parser.state, State::End));
    assert!(parser.next().is_none());
}

#[test]
fn class_helpers_keep_the_slash_out() {
    let text = |acc: ClassAccumulator| close_class(acc).into_iter().collect::<String>();
    let acc = ClassAccumulator {
        negated: false,
        items: vec![ClassItem::Range('a', 'c'), ClassItem::Char('/'), ClassItem::Range('!', '9')],
    };
    assert_eq!(text(acc), "[!-.0-9a-c]");
    let safe = handle_slash(ClassAccumulator { negated: true, items: vec![ClassItem::Char('x')] });
    assert!(safe.negated);
    assert!(matches!(safe.items.as_slice(), [ClassItem::Char('x'), ClassItem::Char('/')]));
    let safe = handle_slash(ClassAccumulator {
        negated: true,
        items: vec![ClassItem::Range('.', '0')],
    });
    assert!(matches!(safe.items.as_slice(), [ClassItem::Range('.', '0')]));
    let empty = ClassAccumulator { negated: false, items: vec![ClassItem::Char('/')] };
    assert_eq!(text(empty), "[]");
}

#[test]
fn escapes_outside_and_inside_classes() {
    let text = |v: Vec<char>| v.into_iter().collect::<String>();
    for c in "[{()|^$.*?+\\".chars() {
        assert_eq!(text(escape(c)), format!("\\{}", c));
    }
    for c in "]}a/ -&~#".chars() {
        assert_eq!(text(escape(c)), c.to_string());
    }
    assert_eq!(text(escape_in_class(']')), "\\]");
    assert_eq!(text(escape_in_class('\\')), "\\\\");
    for c in "[^-&~".chars() {
        assert_eq!(text(escape_in_class(c)), format!("\\{}", c));
    }
    for c in "a.*(){}$|/ ".chars() {
        assert_eq!(text(escape_in_class(c)), c.to_string());
    }
    assert_eq!(map_letter_escape('n'), '\n');
    assert_eq!(map_letter_escape('e'), '\x1b');
    assert_eq!(map_letter_escape('z'), 'z');
    assert_eq!(text(escape_special('t')), "\t");
    assert_eq!(text(escape_special('.')), "\\.");
}

#[test]
fn caret_in_a_class_is_a_member() {
    assert_eq!(compiled("[^a]"), "^[\\^a]$");
    assert_eq!(compiled("[a^]"), "^[\\^a]$");
    assert_eq!(compiled("[!^]"), "^[^/\\^]$");
    assert_eq!(compiled("[^]"), "^[\\^]$");
}

#[test]
fn characters_special_in_a_class_are_escaped() {
    assert_eq!(compiled("[[a]"), "^[\\[a]$");
    assert_eq!(compiled("[&&-z]"), "^[\\&\\&-.0-z]$");
    assert_eq!(compiled("[&&-(]"), "^[\\&\\&-(]$");
    assert_eq!(compiled("[~~-\u{80}]"), "^[\\~\\~-\u{80}]$");
    assert_eq!(compiled("[+--]"), "^[+-\\-]$");
    assert_eq!(compiled("[a-]"), "^[a-]$");
}

#[test]
fn escaped_parenthesis_is_escaped_for_the_engine() {
    assert_eq!(compiled("\\)"), "^\\)$");
    assert_eq!(compiled("\\(a\\)"), "^\\(a\\)$");
    assert_eq!(compiled("{a\\),b}"), "^(a\\)|b)$");
    assert_eq!(compiled("{(x)}"), "^(\\(x\\))$");
}
