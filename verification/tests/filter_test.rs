use rsspec::filter::{glob_match, labels_match, labels_match_filter};

#[test]
fn test_labels_and_filter_with_negation() {
    assert!(labels_match_filter(&["integration", "fast"], "integration+!slow"));
    assert!(!labels_match_filter(&["integration", "slow"], "integration+!slow"));
    assert!(!labels_match_filter(&["fast"], "integration+!slow"));
}

#[test]
fn test_labels_or_filter_with_negation() {
    assert!(labels_match_filter(&["integration"], "integration,!slow"));
    assert!(!labels_match_filter(&["slow"], "integration,!slow"));
    assert!(!labels_match_filter(&["integration", "slow"], "integration,!slow"));
    assert!(!labels_match_filter(&["fast"], "integration,!slow"));
}

#[test]
fn test_labels_pure_negation() {
    assert!(labels_match_filter(&["fast"], "!slow"));
    assert!(!labels_match_filter(&["slow"], "!slow"));
    assert!(labels_match_filter(&[], "!slow"));
}

#[test]
fn test_labels_mixed_and_or_rejected() {
    assert!(!labels_match_filter(&["a", "b"], "a+b,c"));
    assert!(!labels_match_filter(&["a"], "a,b+c"));
}

#[test]
fn test_labels_positive_or() {
    assert!(labels_match_filter(&["integration"], "integration,smoke"));
    assert!(labels_match_filter(&["smoke"], "integration,smoke"));
    assert!(!labels_match_filter(&["fast"], "integration,smoke"));
}

#[test]
fn mixed_and_or_filter_is_rejected() {
    assert!(!labels_match_filter(&["a", "b"], "a+b,c"));
}

#[test]
fn glob_exact_and_wildcard() {
    assert!(glob_match("integration", "integration"));
    assert!(!glob_match("integration", "unit"));
    assert!(glob_match("lang:*", "lang:plain-call"));
    assert!(!glob_match("lang:*", "pg:edge-calls"));
    assert!(glob_match("*:edge-calls", "pg:edge-calls"));
    assert!(glob_match("pg:edge-*", "pg:edge-calls"));
    assert!(glob_match("*", "anything"));
    assert!(glob_match("a*b*c", "axxbyyc"));
    assert!(glob_match("a*b", "ab"));
    assert!(!glob_match("*foo", "barfoox"));
}

#[test]
fn labels_bool_and_or_not() {
    assert!(labels_match(&["a", "b"], Some("a && b")));
    assert!(!labels_match(&["a"], Some("a && b")));
    assert!(labels_match(&["a"], Some("a || b")));
    assert!(!labels_match(&["c"], Some("a || b")));
    assert!(labels_match(&["x"], Some("!a")));
    assert!(!labels_match(&["a"], Some("!a")));
}

#[test]
fn labels_bool_precedence_and_parens() {
    assert!(labels_match(&["a"], Some("a || b && c")));
    assert!(!labels_match(&["b"], Some("a || b && c")));
    assert!(labels_match(&["b", "c"], Some("(a || b) && c")));
    assert!(!labels_match(&["b"], Some("(a || b) && c")));
    assert!(!labels_match(&["a", "b"], Some("(a || x) && !b")));
    assert!(labels_match(&["a", "x"], Some("(a || z) && !b")));
}

#[test]
fn labels_bool_with_glob() {
    assert!(labels_match(&["lang:async"], Some("lang:* && !pg:slow")));
    assert!(!labels_match(&["lang:async", "pg:slow"], Some("lang:* && !pg:slow")));
    assert!(labels_match(&["pg:edge-calls"], Some("lang:* || pg:edge-*")));
}

#[test]
fn labels_none_or_empty_matches_all() {
    assert!(labels_match(&["a"], None));
    assert!(labels_match(&["a"], Some("")));
    assert!(labels_match(&["a"], Some("   ")));
}

#[test]
fn labels_legacy_syntax_still_works_via_dispatcher() {
    assert!(labels_match(&["a", "b"], Some("a+b")));
    assert!(!labels_match(&["a"], Some("a+b")));
    assert!(labels_match(&["a"], Some("a,b")));
    assert!(!labels_match(&["slow"], Some("!slow")));
    assert!(labels_match(&["lang:async"], Some("lang:*")));
}

#[test]
fn labels_invalid_bool_filter_excludes() {
    assert!(!labels_match(&["a"], Some("a &&")));
    assert!(!labels_match(&["a"], Some("(a")));
}

#[test]
fn labels_unbalanced_close_paren_excludes() {
    assert!(!labels_match(&["a"], Some("a)")));
    assert!(!labels_match(&["a"], Some("a & b")));
    assert!(!labels_match(&["a"], Some("a | b")));
}

#[test]
fn glob_star_is_a_wildcard_against_star_in_text() {
    assert!(glob_match("*b", "*ab"));
    assert!(glob_match("*", "*x"));
    assert!(glob_match("a*", "a*"));
    assert!(!glob_match("a?c", "abc"));
    assert!(glob_match("a?c", "a?c"));
}

#[test]
fn trimming_removes_exactly_the_unicode_whitespace() {
    for code in 0u32..0x3100 {
        if let Some(c) = char::from_u32(code) {
            let trimmed = rsspec::text::trim_chars(&vec![c]);
            assert_eq!(trimmed.is_empty(), c.is_whitespace(), "code point {code:#x}");
        }
    }
}
