//! What the command line says.

use peanutbutter::cli::{
    after_help, emission, init_note, init_report, init_step, nothing_emitted, overrides_active,
    seeding_note, InitStep, Seeding,
};
use peanutbutter::config::Paths;
use peanutbutter::docs::{run, Topic};
use peanutbutter::domain::SnippetId;
use peanutbutter::execute::ExecutionOutcome;
use peanutbutter::frecency::FrecencyStore;

fn test_paths(root: &str) -> Paths {
    Paths {
        snippet_roots: vec![root.to_string()],
        xdg_snippets_dir: root.to_string(),
        snippet_overrides_active: false,
        state_file: format!("{root}/state.tsv"),
        config_file: format!("{root}/config.toml"),
    }
}

#[test]
fn after_help_mentions_all_shells_and_pb_alias() {
    let paths = test_paths("/tmp/snippets");
    let help = after_help(&paths);
    assert!(help.contains("completions bash|zsh|fish|powershell` also defines `pb`"));
    assert!(help.contains("pb init"));
    assert!(help.contains("snippet roots:"));
    assert!(help.contains("/tmp/snippets"));
    assert!(help.ends_with(
        "snippet roots:\n  /tmp/snippets\nconfig file: /tmp/snippets/config.toml\nstate file: /tmp/snippets/state.tsv\n"
    ));
}

#[test]
fn init_skips_a_file_unless_forced() {
    assert_eq!(init_step(false, false), InitStep::Write);
    assert_eq!(init_step(true, false), InitStep::Skip);
    assert_eq!(init_step(true, true), InitStep::Write);
    assert!(init_report(InitStep::Write, "/x/snippets.md").contains("docs/SNIPPET_SYNTAX.md"));
    assert!(init_report(InitStep::Skip, "/x/snippets.md").contains("already exists"));
}

#[test]
fn overrides_active_matches_env_and_paths_flags() {
    let mut paths = test_paths("/x");
    assert!(!overrides_active(false, &paths));
    assert!(init_note(false, &paths).is_none());
    paths.snippet_overrides_active = true;
    assert!(overrides_active(false, &paths));
    paths.snippet_overrides_active = false;
    assert!(overrides_active(true, &paths));
    assert!(init_note(true, &paths).unwrap().contains("overrides are set"));
}

#[test]
fn seeding_is_reported_only_where_it_matters() {
    let paths = test_paths("/x");
    let written = Seeding::Written("/x/snippets.md".to_string());
    assert!(seeding_note(&written, false, &paths).is_none());
    assert!(seeding_note(&written, true, &paths).unwrap().contains("/x/snippets.md"));
    assert!(seeding_note(&Seeding::Skipped, true, &paths).is_none());
    assert_eq!(
        seeding_note(&Seeding::Failed("denied".to_string()), false, &paths),
        Some("peanutbutter: warning: could not seed starter snippets: denied".to_string())
    );
}

#[test]
fn a_command_goes_out_and_its_use_is_recorded() {
    let outcome = ExecutionOutcome {
        snippet_id: SnippetId::new("snippets.md", "echo"),
        command: "echo hi".to_string(),
        consumed_buffer: true,
    };
    let emitted = emission(Some(outcome), FrecencyStore::new(), "/repo".to_string(), 7).unwrap();
    assert_eq!(emitted.output, "echo hi\n");
    assert_eq!(emitted.store.events().len(), 1);
    assert_eq!(emitted.store.events()[0].id.as_str(), "snippets.md#echo");
    assert_eq!(emitted.store.events()[0].timestamp, 7);
    let result = emitted.finish(Some("disk full".to_string()));
    assert!(result.emitted);
    assert!(result.replace_buffer);
    assert_eq!(result.persist_warning.as_deref(), Some("disk full"));
}

#[test]
fn a_session_that_was_left_emits_nothing() {
    assert!(emission(None, FrecencyStore::new(), "/repo".to_string(), 7).is_none());
    let result = nothing_emitted();
    assert!(!result.emitted && !result.replace_buffer && result.persist_warning.is_none());
}

const SYNTAX: &str = r#"# Snippet Syntax

A `##` heading followed by a fenced code block is a snippet. The heading is its
name, and what stands between them is its description.
"#;

const CONFIG: &str = r##"# Every setting is optional.

[search.fuzzy]
# How much each part of a snippet counts for the match.
name = 30
tag = 20
frontmatter_name = 15
"##;

#[test]
fn embeds_are_non_empty() {
    assert!(run(Some(Topic::Syntax), SYNTAX, CONFIG).len() > 100);
    assert!(run(Some(Topic::Config), SYNTAX, CONFIG).len() > 100);
}

#[test]
fn embeds_contain_known_content_markers() {
    assert!(run(Some(Topic::Syntax), SYNTAX, CONFIG).contains("# Snippet Syntax"));
    assert!(run(Some(Topic::Config), SYNTAX, CONFIG).contains("[search.fuzzy]"));
}

#[test]
fn run_writes_syntax_verbatim() {
    let out = run(Some(Topic::Syntax), SYNTAX, CONFIG);
    assert_eq!(out.as_bytes(), SYNTAX.as_bytes());
}

#[test]
fn run_writes_config_verbatim() {
    let out = run(Some(Topic::Config), SYNTAX, CONFIG);
    assert_eq!(out.as_bytes(), CONFIG.as_bytes());
}

#[test]
fn run_without_topic_lists_topics() {
    let out = run(None, SYNTAX, CONFIG);
    assert_eq!(out.as_bytes(), b"syntax\nconfig\n");
}
