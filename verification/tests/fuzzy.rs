//! Fuzzy search over snippets.

use peanutbutter::config::FuzzyWeights;
use peanutbutter::domain::{Frontmatter, Snippet, SnippetId};
use peanutbutter::fuzzy::{
    build_pattern, score_snippet, score_snippet_cross_field, FuzzyScorer, FuzzyState,
};
use peanutbutter::index::IndexedSnippet;
use peanutbutter::needle::{query_fits, MAX_QUERY, MAX_TERM};
use peanutbutter::search;
use peanutbutter::text_map::TextMap;

fn entry(name: &str, body: &str, tags: &[&str], rel: &str) -> IndexedSnippet {
    IndexedSnippet {
        path: rel.to_string(),
        snippet: Snippet {
            id: SnippetId::new(rel, "slug"),
            name: name.to_string(),
            description: String::new(),
            body: body.to_string(),
            variables: vec![],
            language: None,
        },
        relative_path: rel.to_string(),
        frontmatter: Frontmatter {
            name: None,
            description: None,
            tags: tags.iter().map(|s| s.to_string()).collect(),
            variables: TextMap::new(),
        },
    }
}

#[test]
fn empty_query_matches_everything() {
    let mut scorer = FuzzyScorer::new();
    let pattern = build_pattern("");
    let e = entry("git log", "git log --oneline", &["git"], "git/log.md");
    assert_eq!(
        score_snippet(&mut scorer, &pattern, true, &e, &FuzzyWeights::default()),
        Some(0)
    );
}

#[test]
fn name_beats_command_for_same_query() {
    let mut scorer = FuzzyScorer::new();
    let pattern = build_pattern("git");
    let name_match = entry("git log", "echo foo", &[], "a.md");
    let command_match = entry("zzz", "git log --oneline", &[], "b.md");
    let ns = score_snippet(
        &mut scorer,
        &pattern,
        false,
        &name_match,
        &FuzzyWeights::default(),
    )
    .unwrap();
    let bs = score_snippet(
        &mut scorer,
        &pattern,
        false,
        &command_match,
        &FuzzyWeights::default(),
    )
    .unwrap();
    assert!(ns > bs, "name score {ns} should beat command score {bs}");
}

#[test]
fn non_matching_query_returns_none() {
    let mut scorer = FuzzyScorer::new();
    let pattern = build_pattern("xyzq");
    let e = entry("git log", "git log --oneline", &[], "a.md");
    assert!(
        score_snippet(&mut scorer, &pattern, false, &e, &FuzzyWeights::default()).is_none()
    );
}

#[test]
fn tag_match_scores() {
    let mut scorer = FuzzyScorer::new();
    let pattern = build_pattern("docker");
    let e = entry("run it", "echo", &["docker", "compose"], "r.md");
    assert!(
        score_snippet(&mut scorer, &pattern, false, &e, &FuzzyWeights::default()).is_some()
    );
}

fn cross_score(query: &str, entry: &IndexedSnippet, weights: &FuzzyWeights) -> Option<u32> {
    score_snippet_cross_field(
        &mut FuzzyScorer::new(),
        &build_pattern(query),
        entry,
        weights,
    )
}

#[test]
fn cross_field_covers_each_individual_field_and_excludes_from_it() {
    let mut e = entry("heading", "command", &["firsttag", "secondtag"], "path.md");
    e.snippet.description = "prose".into();
    e.frontmatter.name = Some("collection".into());
    e.frontmatter.description = Some("summary".into());
    let weights = FuzzyWeights::default();
    assert!(
        cross_score(
            "heading command firsttag secondtag path prose collection summary",
            &e,
            &weights,
        )
        .is_some()
    );
    for field in [
        "heading",
        "command",
        "firsttag",
        "secondtag",
        "path",
        "prose",
        "collection",
        "summary",
    ] {
        assert_eq!(
            cross_score(&format!("!{field}"), &e, &weights),
            None,
            "{field}"
        );
    }
    assert_eq!(cross_score("missingneedle", &e, &weights), None);
    // One atom may not bridge separate tags, even though two atoms can.
    assert_eq!(cross_score(r"firsttag\ secondtag", &e, &weights), None);
    e.snippet.language = Some("languageonly".into());
    assert_eq!(cross_score("languageonly", &e, &weights), None);
    assert_eq!(cross_score("slug", &e, &weights), None);
}

#[test]
fn cross_field_uses_best_weighted_field_per_atom() {
    let mut e = entry("needle", "needle", &["needle", "needle"], "needle");
    e.snippet.description = "needle".into();
    e.frontmatter.name = Some("needle".into());
    e.frontmatter.description = Some("needle".into());
    let weights = FuzzyWeights::default();
    let mut scorer = FuzzyScorer::new();
    let pattern = build_pattern("needle");
    let raw = scorer.score(&pattern, "needle").unwrap();
    let expected = raw
        * (weights.name
            + weights.command
            + 2 * weights.description
            + weights.frontmatter_name
            + weights.path
            + 2 * weights.tag);
    // Legacy scoring still accumulates every field, even for one atom.
    assert_eq!(
        score_snippet(&mut scorer, &pattern, false, &e, &weights),
        Some(expected)
    );
    assert_eq!(
        cross_score("needle", &e, &weights),
        Some(raw * weights.name)
    );
    assert_eq!(
        cross_score("needle needle", &e, &weights),
        Some(2 * raw * weights.name)
    );
    let weights = FuzzyWeights {
        command: 100,
        ..weights
    };
    assert_eq!(
        cross_score("needle", &e, &weights),
        Some(raw * weights.command)
    );
}

#[test]
fn cross_field_compares_scores_after_weighting() {
    let weights = FuzzyWeights::default();
    let mut scorer = FuzzyScorer::new();
    let pattern = build_pattern("docker");
    let tag_raw = scorer.score(&pattern, "docker").unwrap();
    for (name, name_wins) in [("dxxoxxcxxkxxexxr", false), ("d___o___c___k___e___r", true)] {
        let e = entry(name, "echo", &["docker"], "plain.md");
        let name_raw = scorer.score(&pattern, name).unwrap();
        assert!(name_raw < tag_raw);
        let name_score = name_raw * weights.name;
        let tag_score = tag_raw * weights.tag;
        assert_eq!(name_score > tag_score, name_wins);
        assert_eq!(
            cross_score("docker", &e, &weights),
            Some(if name_wins { name_score } else { tag_score })
        );
    }
}

#[test]
fn cross_field_duplicate_tags_do_not_inflate_scores() {
    let mut e = entry(
        "compose up",
        "docker compose up -d && docker ps",
        &["docker"],
        "docker/compose.md",
    );
    let weights = FuzzyWeights::default();
    let before = cross_score("docker ps", &e, &weights).unwrap();
    e.frontmatter.tags.extend(vec!["docker".to_string(); 100]);
    assert_eq!(cross_score("docker ps", &e, &weights), Some(before));
}

#[test]
fn cross_field_zero_weights_still_match_and_exclude() {
    let weights = FuzzyWeights {
        name: 0,
        command: 0,
        description: 0,
        frontmatter_name: 0,
        path: 0,
        tag: 0,
    };
    let e = entry("kitchen", "eza", &["docker"], "p.md");
    assert_eq!(cross_score("kitchen eza", &e, &weights), Some(0));
    assert_eq!(cross_score("kitchen !docker", &e, &weights), None);
    assert_eq!(cross_score("!absent", &e, &weights), Some(0));
    assert_eq!(cross_score("", &e, &weights), Some(0));
}

#[test]
fn cross_field_weighted_scores_saturate() {
    let e = entry("needle", "needle", &[], "needle");
    let weights = FuzzyWeights {
        name: u32::MAX,
        ..FuzzyWeights::default()
    };
    assert_eq!(cross_score("needle needle", &e, &weights), Some(u32::MAX));
    // Each weighted atom fits, but summing two atoms must saturate too.
    let raw = FuzzyScorer::new()
        .score(&build_pattern("needle"), "needle")
        .unwrap();
    let weights = FuzzyWeights {
        name: u32::MAX / raw / 2 + 1,
        ..FuzzyWeights::default()
    };
    let single = cross_score("needle", &e, &weights).unwrap();
    assert!(single < u32::MAX);
    assert!(u64::from(single) * 2 > u64::from(u32::MAX));
    assert_eq!(cross_score("needle needle", &e, &weights), Some(u32::MAX));
}

#[test]
fn typing_resets_selection_to_top() {
    let mut state = FuzzyState::new();
    state.selection = Some(5);
    state.type_char('a');
    assert_eq!(state.selected(), Some(0));
}

#[test]
fn new_state_selects_first_result_by_default() {
    let state = FuzzyState::new();
    assert_eq!(state.selected(), Some(0));
}

#[test]
fn move_cursor_clamps_to_result_range() {
    let mut state = FuzzyState::new();
    state.move_cursor(10, 3);
    assert_eq!(state.selected(), Some(2));
    state.move_cursor(-100, 3);
    assert_eq!(state.selected(), Some(0));
}

#[test]
fn places_of_a_match_are_in_order() {
    let mut scorer = FuzzyScorer::new();
    let pattern = build_pattern("log git");
    let places = scorer.indices(&pattern, "git log").unwrap();
    assert_eq!(places, vec![0, 1, 2, 4, 5, 6]);
    assert!(scorer.indices(&pattern, "hg diff").is_none());
}

#[test]
fn an_operator_looks_in_one_field() {
    let mut scorer = FuzzyScorer::new();
    let weights = FuzzyWeights::default();
    let e = entry("git log", "echo docker", &["shell"], "a.md");
    assert!(search::score(&mut scorer, "name:git", &e, &weights).is_some());
    assert!(search::score(&mut scorer, "name:docker", &e, &weights).is_none());
    assert!(search::score(&mut scorer, "docker", &e, &weights).is_some());
    assert!(search::score(&mut scorer, "tag:shell", &e, &weights).is_some());
    assert!(search::score(&mut scorer, "tag:git", &e, &weights).is_none());
}

#[test]
fn the_query_is_edited_at_its_cursor() {
    let mut state = FuzzyState::new();
    state.type_char('a');
    state.type_char('\u{e9}');
    state.cursor_left();
    state.type_char('b');
    assert_eq!(state.query, "ab\u{e9}");
    assert_eq!(state.cursor_col(), 2);
    assert!(state.backspace());
    assert_eq!(state.query, "a\u{e9}");
    state.cursor_right();
    assert!(state.backspace());
    assert!(state.backspace());
    assert!(!state.backspace());
    state.set_query("xyz".to_string());
    assert_eq!(state.cursor_col(), 3);
}

#[test]
fn variants_of_letters_are_found() {
    let mut scorer = FuzzyScorer::new();
    let pattern = build_pattern("\u{3c3}\u{e9}");
    let score = scorer.score(&pattern, "\u{3c2}\u{3c3}x\u{e9}");
    assert!(score.is_some());
    assert_eq!(score, scorer.score(&pattern, "\u{3c3}\u{3c3}x\u{e9}"));
    let places = scorer.indices(&pattern, "\u{3c2}\u{3c3}x\u{e9}").unwrap();
    assert_eq!(places.last(), Some(&3));
    let pattern = build_pattern("\u{13a0}\u{3c3}");
    assert!(scorer.score(&pattern, "\u{ab70}\u{3c2}").is_some());
    assert!(scorer.score(&pattern, "\u{ab71}\u{3c2}").is_none());
    let pattern = build_pattern("\u{3b1}\u{3b2}");
    assert_eq!(scorer.indices(&pattern, "\u{3b1}\u{345}\u{3b2}"), Some(vec![0, 1]));
}

#[test]
fn the_heaviest_terms_are_scored() {
    assert!(query_fits(&"a".repeat(MAX_TERM)));
    assert!(!query_fits(&"a".repeat(MAX_TERM + 1)));
    assert!(!query_fits(&("\\".repeat(MAX_TERM - 1) + "\u{e9}")));
    assert!(!query_fits(&("a".repeat(1250) + "\\ " + &"a".repeat(1250))));
    assert!(query_fits(&("a".repeat(2000) + " " + &"a".repeat(2000))));
    assert!(!query_fits(&"a ".repeat(MAX_QUERY)));
    let mut scorer = FuzzyScorer::new();
    let heavy = "\\".repeat(MAX_TERM / 2 - 1) + "\u{e9}";
    assert!(query_fits(&heavy));
    let pattern = build_pattern(&heavy);
    let haystack = "\\".repeat(MAX_TERM) + "\u{e9}";
    assert!(scorer.score(&pattern, &haystack).is_some());
    let long = "a".repeat(MAX_TERM);
    let pattern = build_pattern(&long);
    assert!(scorer.score(&pattern, &long).is_some_and(|score| score <= 65535));
}

#[test]
fn many_short_words_are_scored() {
    let mut scorer = FuzzyScorer::new();
    let one = scorer.score(&build_pattern("ab"), "ab").unwrap();
    let query = "ab ".repeat(2000);
    assert!(query_fits(&query));
    assert_eq!(scorer.score(&build_pattern(&query), "ab"), Some(one * 2000));
    assert!(search::query_fits(&query));
    assert!(search::query_fits(&format!("name:{} ab", "a".repeat(MAX_TERM))));
    assert!(!search::query_fits(&format!("name:{} ab", "a".repeat(MAX_TERM + 1))));
}
