//! Uses of snippets and their clean-up.

use peanutbutter::domain::SnippetId;
use peanutbutter::edit_distance::edit_distance;
use peanutbutter::frecency::{has_id, path_affinity, FrecencyStore};
use peanutbutter::gc::{
    best_candidate, collect_orphans_with_index, is_yes, GcOptions, GcRun, GcStage,
};
use peanutbutter::index::SnippetIndex;
use peanutbutter::parser::parse_file;

fn id(slug: &str) -> SnippetId {
    SnippetId::new("t.md", slug)
}

fn new_index() -> SnippetIndex {
    SnippetIndex::from_files(vec![parse_file(
        "/root/new.md",
        "new.md",
        "## Echo\n\n```\necho hi\n```\n",
    )])
}

fn opts(dry_run: bool, purge: bool, quiet: bool) -> GcOptions {
    GcOptions { dry_run, purge, quiet }
}

fn store_with(id: SnippetId) -> FrecencyStore {
    let mut store = FrecencyStore::new();
    store.record(id, "/repo".to_string(), 1);
    store
}

/// Answers every question alike and gives all that was written.
fn run_to_end(run: &mut GcRun, answer: &str) -> String {
    let mut output = String::new();
    loop {
        output.push_str(&run.take_output());
        match run.stage() {
            GcStage::Decided => return output,
            _ => run.answer(answer),
        }
    }
}

#[test]
fn path_affinity_monotonic_with_shared_depth() {
    let cwd = "/home/me/projects/alpha";
    let of = |other: &str| {
        let a = path_affinity(cwd, other);
        a.shared as f64 / a.out_of as f64
    };
    let exact = of("/home/me/projects/alpha");
    let sibling = of("/home/me/projects/beta");
    let unrelated = of("/tmp");
    assert!(exact > sibling, "exact {exact} should beat sibling {sibling}");
    assert!(sibling > unrelated, "sibling {sibling} should beat unrelated {unrelated}");
    assert_eq!(unrelated, 0.0);
}

#[test]
fn uses_are_seen_from_a_directory_and_a_time() {
    let mut store = FrecencyStore::new();
    store.record(id("a"), "/home/me".to_string(), 100);
    store.record(id("b"), "/home/me".to_string(), 100);
    store.record(id("a"), "/tmp".to_string(), 900);
    let uses = store.uses(&id("a"), "/home/me", 500);
    assert_eq!(uses.len(), 2);
    assert_eq!(uses[0].age, 400);
    assert_eq!(uses[0].affinity.shared, uses[0].affinity.out_of);
    assert_eq!(uses[1].age, 0);
    assert_eq!(uses[1].affinity.shared, 0);
}

#[test]
fn save_and_load_round_trip() {
    let mut store = FrecencyStore::new();
    store.record(id("a"), "/x".to_string(), 1_111);
    store.record(id("b"), "/y/z".to_string(), 2_222);
    let (loaded, skipped) = FrecencyStore::load(&store.save());
    assert_eq!(skipped, 0);
    assert_eq!(loaded.events().len(), 2);
    assert_eq!(loaded.events()[0].id.as_str(), "t.md#a");
    assert_eq!(loaded.events()[1].cwd, "/y/z");
    assert_eq!(loaded.events()[1].timestamp, 2_222);
}

#[test]
fn lines_that_are_no_use_are_skipped() {
    let (loaded, skipped) =
        FrecencyStore::load("12\tt.md#a\t/x\n\nbroken\nsoon\tt.md#b\t/y\n9\tnohash\t/z\n");
    assert_eq!(loaded.events().len(), 1);
    assert_eq!(loaded.events()[0].cwd, "/x");
    assert_eq!(skipped, 3);
    let (empty, none) = FrecencyStore::load("");
    assert!(empty.events().is_empty());
    assert_eq!(none, 0);
}

#[test]
fn uses_are_handed_over_and_taken_away() {
    let mut store = store_with(id("a"));
    store.record(id("b"), "/x".to_string(), 2);
    assert_eq!(store.reattach(&id("a"), &id("c")), 1);
    assert_eq!(store.events()[0].id, id("c"));
    assert_eq!(store.purge_ids(&vec![id("b")]), 1);
    assert_eq!(store.events().len(), 1);
    assert!(has_id(&vec![id("b")], &id("b")));
    assert!(!has_id(&vec![id("b")], &id("c")));
}

#[test]
fn distances_count_changes() {
    assert_eq!(edit_distance("kitten", "sitting"), 3);
    assert_eq!(edit_distance("", "abc"), 3);
    assert_eq!(edit_distance("same", "same"), 0);
    assert_eq!(edit_distance("abc", "cba"), edit_distance("cba", "abc"));
    let over = edit_distance("kitten", "mitten") + edit_distance("mitten", "sitting");
    assert!(edit_distance("kitten", "sitting") <= over);
}

#[test]
fn answers_are_yes_in_any_case() {
    assert!(is_yes(" Y\n"));
    assert!(is_yes("yes"));
    assert!(!is_yes(""));
    assert!(!is_yes("yess"));
}

#[test]
fn orphans_are_uses_without_a_snippet() {
    let index = new_index();
    let mut store = store_with(SnippetId::new("old.md", "echo"));
    store.record(SnippetId::new("new.md", "echo"), "/repo".to_string(), 2);
    let orphans = collect_orphans_with_index(&index, &store);
    assert_eq!(orphans.len(), 1);
    assert_eq!(orphans[0].events, 1);
    assert_eq!(orphans[0].candidate_id, Some(SnippetId::new("new.md", "echo")));
    assert!(best_candidate(&SnippetId::new("x.md", "completely-different"), &index).is_none());
}

#[test]
fn dry_run_reports_orphans_without_writing() {
    let index = new_index();
    let store = store_with(SnippetId::new("old.md", "echo"));
    let before = store.save();
    let mut run = GcRun::new(opts(true, true, true), "/root/state.tsv", &index, store);
    let mut output = run_to_end(&mut run, "");
    output.push_str(&run.report(None));
    let result = run.result(None);
    assert_eq!(result.orphan_events, 1);
    assert_eq!(result.orphan_ids, 1);
    assert_eq!(result.reattached_events, 0);
    assert_eq!(result.purged_events, 1);
    assert!(!result.saved);
    assert!(result.backup_path.is_none());
    assert_eq!(run.store().save(), before);
    assert!(output.contains("would prompt to reattach old.md#echo -> new.md#echo"), "{output}");
    assert!(output.contains("dry run: no changes written"), "{output}");
}

#[test]
fn reattaches_confirmed_orphan_and_backs_up_store() {
    let index = new_index();
    let store = store_with(SnippetId::new("old.md", "echo"));
    let mut run = GcRun::new(opts(false, false, false), "/root/state.tsv", &index, store);
    let _ = run_to_end(&mut run, "y\n");
    assert!(run.would_change());
    let result = run.result(Some("/root/state.bak".to_string()));
    assert_eq!(result.reattached_events, 1);
    assert_eq!(result.purged_events, 0);
    assert!(result.saved);
    assert_eq!(result.backup_path.as_deref(), Some("/root/state.bak"));
    assert_eq!(run.store().events()[0].id.as_str(), "new.md#echo");
}

#[test]
fn prompts_to_purge_unresolved_orphans() {
    let index = new_index();
    let store = store_with(SnippetId::new("missing.md", "completely-different"));
    let mut run = GcRun::new(opts(false, false, false), "/root/state.tsv", &index, store);
    let mut output = run_to_end(&mut run, "y\n");
    output.push_str(&run.report(Some("/root/state.bak")));
    let result = run.result(Some("/root/state.bak".to_string()));
    assert_eq!(result.reattached_events, 0);
    assert_eq!(result.purged_events, 1);
    assert!(result.saved);
    assert!(run.store().events().is_empty());
    assert!(output.contains("Cleanup"), "{output}");
    assert!(output.contains("Purge 1 unresolved orphaned event(s)? [y/N]"), "{output}");
    assert!(output.contains("Result"), "{output}");
}

#[test]
fn purges_unresolved_orphans_when_requested() {
    let index = new_index();
    let store = store_with(SnippetId::new("missing.md", "completely-different"));
    let mut run = GcRun::new(opts(false, true, false), "/root/state.tsv", &index, store);
    let _ = run_to_end(&mut run, "");
    let result = run.result(Some("/root/state.bak".to_string()));
    assert_eq!(result.reattached_events, 0);
    assert_eq!(result.purged_events, 1);
    assert!(result.saved);
    assert!(run.store().events().is_empty());
}

#[test]
fn a_refused_orphan_keeps_its_uses() {
    let index = new_index();
    let store = store_with(SnippetId::new("old.md", "echo"));
    let before = store.save();
    let mut run = GcRun::new(opts(false, false, false), "/root/state.tsv", &index, store);
    let _ = run_to_end(&mut run, "n\n");
    assert!(!run.would_change());
    assert_eq!(run.store().save(), before);
}

#[test]
fn identical_paths_go_together_all_the_way() {
    for path in ["/", "", ".", "/home/me"] {
        let affinity = path_affinity(path, path);
        assert!(affinity.shared > 0);
        assert_eq!(affinity.shared, affinity.out_of);
    }
    assert_eq!(path_affinity("/", "/tmp").shared, 0);
}
