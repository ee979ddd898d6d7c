//! Browsing with one path and one input.

use peanutbutter::browse::{
    longest_common_prefix, BrowseEntry, BrowseState, BrowseTree, DirNode,
};
use peanutbutter::index::SnippetIndex;
use peanutbutter::parser::parse_file;

fn example_tree() -> BrowseTree {
    let file = |rel: &str| {
        parse_file(&format!("/x/{rel}"), rel, "## Echo\n\n```\necho hi\n```\n")
    };
    BrowseTree::from_index(&SnippetIndex::from_files(vec![
        file("simple/snippets.md"),
        file("complex/complex.md"),
        file("nested/docker/docker.md"),
        file("nested/docker/compose/snip.md"),
        file("nested/grep/grep.md"),
    ]))
}

#[test]
fn tab_unique_prefix_descends_into_directory() {
    let tree = example_tree();
    let mut state = BrowseState::new();
    state.type_char('s');
    assert!(state.tab_complete(&tree));
    assert_eq!(state.path, vec!["simple".to_string()]);
    assert!(state.input.is_empty());
}

#[test]
fn tab_extends_to_longest_common_prefix_when_ambiguous() {
    let mut root = DirNode::default();
    root.insert_child("gitlog".into(), DirNode::default());
    root.insert_child("gitfoo".into(), DirNode::default());
    let tree = BrowseTree::from_root(root);
    let mut state = BrowseState::new();
    state.type_char('g');
    assert!(state.tab_complete(&tree));
    assert_eq!(state.input, "git");
    assert!(state.path.is_empty());
}

#[test]
fn backspace_empties_input_then_climbs_path() {
    let mut state = BrowseState::new();
    state.path.push("nested".into());
    state.path.push("docker".into());
    state.type_char('c');
    state.type_char('o');
    assert!(state.backspace());
    assert_eq!(state.input, "c");
    assert!(state.backspace());
    assert_eq!(state.input, "");
    assert!(state.backspace());
    assert_eq!(state.path, vec!["nested".to_string()]);
    assert!(state.backspace());
    assert!(state.path.is_empty());
    assert!(!state.backspace());
}

#[test]
fn visible_filters_directories_by_prefix() {
    let tree = example_tree();
    let mut state = BrowseState::new();
    state.path.push("nested".into());
    state.type_char('d');
    let names: Vec<String> =
        state.visible(&tree).iter().map(|e| e.display_name().to_string()).collect();
    assert_eq!(names, vec!["docker".to_string()]);
    assert_eq!(state.path_display(), "/nested/");
}

#[test]
fn activate_descends_into_directory_entries() {
    let tree = example_tree();
    let mut state = BrowseState::new();
    state.selection = Some(0);
    assert!(state.activate(&tree).is_none());
    assert_eq!(state.path, vec!["complex".to_string()]);
    state.selection = Some(0);
    assert!(state.activate(&tree).is_none());
    assert!(matches!(&state.visible(&tree)[0], BrowseEntry::Snippet(_)));
    state.selection = Some(0);
    assert_eq!(state.activate(&tree).unwrap().as_str(), "complex/complex.md#echo");
}

#[test]
fn the_highlight_stays_in_the_list() {
    let mut state = BrowseState::new();
    state.move_cursor(9, 3);
    assert_eq!(state.selection, Some(2));
    state.move_cursor(-9, 3);
    assert_eq!(state.selection, Some(0));
    state.move_cursor(1, 0);
    assert_eq!(state.selection, None);
    state.reset();
    assert!(state.path.is_empty() && state.input.is_empty());
}

#[test]
fn common_prefixes_ignore_case() {
    let names = |list: &[&str]| -> Vec<String> { list.iter().map(|s| s.to_string()).collect() };
    assert_eq!(longest_common_prefix(&names(&["Gitlog", "gitfoo"])), "Git");
    assert_eq!(longest_common_prefix(&names(&["a", "b"])), "");
    assert_eq!(longest_common_prefix(&names(&[])), "");
}
