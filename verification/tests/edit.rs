//! Targets of the edit command, and how the editor is called.

use peanutbutter::config::Paths;
use peanutbutter::domain::{Frontmatter, Snippet, SnippetFile, SnippetId};
use peanutbutter::edit::editor::{
    editor_args, resolve_editor, shell_quote, target_for_snippet, EditorTarget,
};
use peanutbutter::edit::target::{
    complete_edit, completion_query, edit_root_aliases, resolve_edit_target,
};
use peanutbutter::execute::suggestions::DirectoryEntry;
use peanutbutter::index::SnippetIndex;

fn test_paths_with_roots(roots: Vec<&str>) -> Paths {
    let first = roots.first().unwrap().to_string();
    Paths {
        snippet_roots: roots.iter().map(|r| r.to_string()).collect(),
        xdg_snippets_dir: first.clone(),
        snippet_overrides_active: false,
        state_file: format!("{first}/state.tsv"),
        config_file: format!("{first}/config.toml"),
    }
}

fn aliases_of(roots: Vec<&str>) -> Vec<String> {
    edit_root_aliases(&test_paths_with_roots(roots))
        .into_iter()
        .map(|entry| entry.alias)
        .collect()
}

fn dir(name: &str) -> DirectoryEntry {
    DirectoryEntry { name: name.to_string(), is_file: false, is_dir: true }
}

fn file(name: &str) -> DirectoryEntry {
    DirectoryEntry { name: name.to_string(), is_file: true, is_dir: false }
}

#[test]
fn resolve_edit_target_defaults_and_appends_markdown_extension() {
    let paths = test_paths_with_roots(vec!["/root"]);
    assert_eq!(resolve_edit_target(&paths, None).unwrap(), "/root/snippets.md");
    assert_eq!(
        resolve_edit_target(&paths, Some("docker/compose")).unwrap(),
        "/root/docker/compose.md"
    );
}

#[test]
fn edit_root_aliases_use_basename_when_unique() {
    assert_eq!(
        aliases_of(vec!["/home/me/snippets", "/home/me/work", "/home/me/personal"]),
        vec!["snippets", "work", "personal"]
    );
}

#[test]
fn edit_root_aliases_walk_up_to_disambiguate_basename_collisions() {
    assert_eq!(
        aliases_of(vec![
            "/home/me/.config/peanutbutter/snippets",
            "/home/me/.config/peanutbutter-private/snippets"
        ]),
        vec!["peanutbutter", "peanutbutter-private"]
    );
}

#[test]
fn edit_root_aliases_walk_only_colliding_roots() {
    assert_eq!(
        aliases_of(vec!["/home/me/snippets", "/home/me/work", "/home/other/work"]),
        vec!["snippets", "me", "other"]
    );
}

#[test]
fn edit_root_aliases_walk_past_shared_ancestors() {
    assert_eq!(
        aliases_of(vec!["/home/work/team/snippets", "/home/personal/team/snippets"]),
        vec!["work", "personal"]
    );
}

#[test]
fn edit_root_aliases_fall_back_to_numeric_suffix_when_indistinguishable() {
    assert_eq!(aliases_of(vec!["/snippets", "/snippets"]), vec!["snippets", "snippets-2"]);
}

#[test]
fn resolve_edit_target_supports_root_qualified_paths_and_current_dir_escape() {
    let paths = test_paths_with_roots(vec!["/w/first", "/w/work"]);
    assert_eq!(
        resolve_edit_target(&paths, Some("work/docker.md")).unwrap(),
        "/w/work/docker.md"
    );
    assert_eq!(resolve_edit_target(&paths, Some("work")).unwrap(), "/w/work/snippets.md");
    assert_eq!(
        resolve_edit_target(&paths, Some("./work/docker.md")).unwrap(),
        "/w/first/work/docker.md"
    );
}

#[test]
fn resolve_edit_target_keeps_absolute_paths_inside_any_root() {
    let paths = test_paths_with_roots(vec!["/w/first", "/w/work"]);
    assert_eq!(
        resolve_edit_target(&paths, Some("/w/work/docker/compose")).unwrap(),
        "/w/work/docker/compose.md"
    );
}

#[test]
fn resolve_edit_target_refuses_absolute_paths_elsewhere() {
    let paths = test_paths_with_roots(vec!["/w/first"]);
    let err = resolve_edit_target(&paths, Some("/elsewhere/x.md")).unwrap_err();
    assert_eq!(
        err,
        "absolute edit target must live under a configured snippet root: /elsewhere/x.md"
    );
    let mut none = test_paths_with_roots(vec!["/w"]);
    none.snippet_roots = vec![];
    assert_eq!(resolve_edit_target(&none, None).unwrap_err(), "no snippet roots configured");
}

#[test]
fn complete_edit_lists_first_root_entries_and_root_aliases() {
    let paths = test_paths_with_roots(vec!["/w/snippets", "/w/work"]);
    let query = completion_query(&paths, "").unwrap();
    assert_eq!(query.dir.trim_end_matches('/'), "/w/snippets");
    let entries = vec![dir("nested"), file("snippets.md"), file("readme.txt"), file("notes.markdown")];
    assert_eq!(
        complete_edit(&paths, "", &entries),
        vec!["nested/", "notes.markdown", "snippets.md", "snippets/", "work/"]
    );
}

#[test]
fn complete_edit_lists_nested_root_qualified_entries() {
    let paths = test_paths_with_roots(vec!["/w/snippets", "/w/work"]);
    assert_eq!(
        complete_edit(&paths, "work/do", &vec![dir("docker"), file("docker.md"), file("x.md")]),
        vec!["work/docker.md", "work/docker/"]
    );
    let query = completion_query(&paths, "work/docker/compose/s").unwrap();
    assert_eq!(query.dir, "/w/work/docker/compose");
    assert_eq!(
        complete_edit(&paths, "work/docker/compose/s", &vec![file("snip.md")]),
        vec!["work/docker/compose/snip.md"]
    );
}

#[test]
fn complete_edit_treats_missing_roots_as_empty() {
    let paths = test_paths_with_roots(vec!["/w/missing"]);
    assert_eq!(complete_edit(&paths, "anything", &vec![]), Vec::<String>::new());
    assert_eq!(complete_edit(&paths, "/abs", &vec![file("x.md")]), Vec::<String>::new());
}

#[test]
fn editor_args_add_line_for_known_bare_editors() {
    let target = EditorTarget::line("/tmp/demo.md".to_string(), 12);

    assert_eq!(editor_args("nvim", &target), "'+12' '/tmp/demo.md'");
    assert_eq!(editor_args("/usr/bin/nano", &target), "'+12' '/tmp/demo.md'");
    assert_eq!(editor_args("code", &target), "'-g' '/tmp/demo.md:12'");
    assert_eq!(editor_args("hx", &target), "'/tmp/demo.md:12'");
}

#[test]
fn editor_args_fall_back_to_file_for_compound_or_unknown_editors() {
    let target = EditorTarget::line("/tmp/demo.md".to_string(), 12);

    assert_eq!(editor_args("nvim -f", &target), "'/tmp/demo.md'");
    assert_eq!(editor_args("custom-editor", &target), "'/tmp/demo.md'");
}

#[test]
fn editor_args_shell_quote_file_paths() {
    let target = EditorTarget::file("/tmp/it's here.md".to_string());

    assert_eq!(editor_args("nvim", &target), "'/tmp/it'\\''s here.md'");
    assert_eq!(shell_quote("a'b"), "'a'\\''b'");
}

#[test]
fn target_for_snippet_returns_one_based_heading_line() {
    let content =
        "---\nname: demo\n---\n\n## First\n\n```\na\n```\n\n## Second\n\n```\nb\n```\n";
    let file = SnippetFile {
        path: "/root/snippets.md".to_string(),
        relative_path: "snippets.md".to_string(),
        frontmatter: Frontmatter::default(),
        snippets: vec![Snippet {
            id: SnippetId::new("snippets.md", "second"),
            name: "Second".to_string(),
            description: String::new(),
            body: "b".to_string(),
            variables: vec![],
            language: None,
        }],
    };
    let index = SnippetIndex::from_files(vec![file]);
    let snippet = index.iter().next().unwrap();

    let target = target_for_snippet(snippet, content);
    assert_eq!(target, EditorTarget::line("/root/snippets.md".to_string(), 11));

    let target = target_for_snippet(snippet, "nothing here\n");
    assert_eq!(target, EditorTarget::file("/root/snippets.md".to_string()));
}

#[test]
fn the_editor_comes_from_the_first_setting_that_says_something() {
    let vi = Some("vi".to_string());
    let nano = Some("nano".to_string());
    let blank = Some("  ".to_string());
    assert_eq!(resolve_editor(Some("hx"), &vi, &nano), Ok("hx".to_string()));
    assert_eq!(resolve_editor(None, &vi, &nano), Ok("vi".to_string()));
    assert_eq!(resolve_editor(None, &blank, &nano), Ok("nano".to_string()));
    assert_eq!(
        resolve_editor(None, &blank, &None),
        Err("set $VISUAL or $EDITOR before using peanutbutter edit".to_string())
    );
}
