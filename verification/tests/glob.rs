//! Glob patterns.

use peanutbutter::glob::glob_matches;

#[test]
fn matches_literals_stars_and_question_marks() {
    assert!(glob_matches("a/b.md", "a/b.md"));
    assert!(glob_matches("*", "anything"));
    assert!(glob_matches("a/*", "a/deep/nested"));
    assert!(glob_matches("?.md", "a.md"));
    assert!(!glob_matches("a/b", "a/bc"));
    assert!(!glob_matches("?.md", "ab.md"));
}

#[test]
fn an_empty_pattern_matches_only_an_empty_text() {
    assert!(glob_matches("", ""));
    assert!(!glob_matches("", "a"));
    assert!(glob_matches("**", ""));
}
