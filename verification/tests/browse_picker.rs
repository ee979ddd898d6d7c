//! Browsing directories of snippets, level by level.

use peanutbutter::browse::{BrowseEntry, BrowseTree, DirNode};
use peanutbutter::domain::{Frontmatter, Snippet, SnippetFile, SnippetId};
use peanutbutter::execute::browse::BrowseState;
use peanutbutter::index::SnippetIndex;

fn snippet_file(rel: &str, names: &[&str]) -> SnippetFile {
    SnippetFile {
        path: format!("/fixtures/{rel}"),
        relative_path: rel.to_string(),
        frontmatter: Frontmatter::default(),
        snippets: names
            .iter()
            .map(|name| Snippet {
                id: SnippetId::new(rel, &name.to_lowercase().replace(' ', "-")),
                name: (*name).to_string(),
                description: String::new(),
                body: format!("echo {name}"),
                variables: Vec::new(),
                language: Some("bash".to_string()),
            })
            .collect(),
    }
}

fn fixture_tree() -> BrowseTree {
    let index = SnippetIndex::from_files(vec![
        snippet_file("simple/snippets.md", &["Simple fixture"]),
        snippet_file("complex/complex.md", &["Complex fixture"]),
        snippet_file("nested/root.md", &["Nested root fixture"]),
        snippet_file(
            "nested/docker/docker.md",
            &["Run fixture container", "View fixture logs"],
        ),
        snippet_file("nested/docker/compose/snip.md", &["Start fixture services"]),
        snippet_file("nested/docker/images/images.md", &["List fixture images"]),
        snippet_file("nested/grep/grep.md", &["Search fixture pattern"]),
    ]);
    BrowseTree::from_index(&index)
}

#[test]
fn tree_mirrors_fixture_directories() {
    let tree = fixture_tree();
    let root = tree.root();
    let dirs: Vec<&String> = root.children.iter().map(|c| &c.0).collect();
    assert!(dirs.iter().any(|s| s.as_str() == "nested"));
    assert!(dirs.iter().any(|s| s.as_str() == "simple"));
    assert!(dirs.iter().any(|s| s.as_str() == "complex"));
}

#[test]
fn browse_nested_docker_has_compose_images_and_file_subdirs() {
    let tree = fixture_tree();
    let docker = tree
        .get(&vec!["nested".into(), "docker".into()])
        .expect("docker dir");
    let subdirs: Vec<&String> = docker.children.iter().map(|c| &c.0).collect();
    assert!(subdirs.iter().any(|s| s.as_str() == "compose"));
    assert!(subdirs.iter().any(|s| s.as_str() == "images"));
    assert!(subdirs.iter().any(|s| s.as_str() == "docker.md"));
    assert!(
        docker.snippets.is_empty(),
        "snippets now live under the docker.md file node, not the directory"
    );
}

#[test]
fn recursive_count_sums_descendants_and_matches_file_snippet_count() {
    let tree = fixture_tree();
    // File node count equals its snippet count.
    let file = tree
        .get(&vec!["nested".into(), "docker".into(), "docker.md".into()])
        .expect("docker.md");
    assert_eq!(file.recursive_count, file.snippets.len());
    assert!(file.recursive_count > 0);
    // Directory count equals sum of descendants.
    let docker = tree.get(&vec!["nested".into(), "docker".into()]).unwrap();
    let descendant_total: usize = docker
        .children
        .iter()
        .map(|c| c.1.recursive_count)
        .sum::<usize>()
        + docker.snippets.len();
    assert_eq!(docker.recursive_count, descendant_total);
    assert!(docker.recursive_count >= file.recursive_count);
    // Root totals all snippets in tree.
    let mut walk_total = 0usize;
    fn walk(n: &DirNode, total: &mut usize) {
        *total += n.snippets.len();
        for c in n.children.iter() {
            walk(&c.1, total);
        }
    }
    walk(tree.root(), &mut walk_total);
    assert_eq!(tree.root().recursive_count, walk_total);
}

#[test]
fn browse_file_node_carries_its_snippets() {
    let tree = fixture_tree();
    let file = tree
        .get(&vec!["nested".into(), "docker".into(), "docker.md".into()])
        .expect("docker.md file node");
    assert!(
        file.children.is_empty(),
        "a file node has no nested children"
    );
    assert!(
        !file.snippets.is_empty(),
        "docker.md's snippets attach to its file node"
    );
}

#[test]
fn browse_tab_unique_prefix_descends_into_directory() {
    let tree = fixture_tree();
    let mut state = BrowseState::new();
    state.type_char('s');
    let changed = state.tab_complete(&tree);
    assert!(changed);
    assert_eq!(state.path(), &vec!["simple".to_string()]);
    assert!(state.input().is_empty());
}

#[test]
fn browse_tab_extends_to_longest_common_prefix_when_ambiguous() {
    let mut root = DirNode::default();
    root.insert_child("gitlog".into(), DirNode::default());
    root.insert_child("gitfoo".into(), DirNode::default());
    let tree = BrowseTree::from_root(root);
    let mut state = BrowseState::new();
    state.type_char('g');
    let changed = state.tab_complete(&tree);
    assert!(changed);
    assert_eq!(state.input(), "git");
    assert!(state.path().is_empty());
}

#[test]
fn browse_backspace_empties_input_then_climbs_path() {
    let tree = fixture_tree();
    let mut state = BrowseState::new();
    state.set_path(vec!["nested".into(), "docker".into()]);
    state.type_char('c');
    state.type_char('o');
    assert!(state.backspace(&tree));
    assert_eq!(state.input(), "c");
    assert!(state.backspace(&tree));
    assert_eq!(state.input(), "");
    assert!(state.backspace(&tree));
    assert_eq!(state.path(), &vec!["nested".to_string()]);
    assert!(state.backspace(&tree));
    assert!(state.path().is_empty());
    assert!(!state.backspace(&tree));
}

#[test]
fn browse_visible_filters_directories_by_prefix() {
    let tree = fixture_tree();
    let mut state = BrowseState::new();
    state.set_path(vec!["nested".into()]);
    state.type_char('d');
    let names: Vec<String> = state
        .visible(&tree)
        .into_iter()
        .map(|e| e.display_name().to_string())
        .collect();
    assert!(names.contains(&"docker".to_string()));
    assert!(!names.contains(&"grep".to_string()));
}

#[test]
fn browse_activate_descends_into_directory_entries() {
    let tree = fixture_tree();
    let mut state = BrowseState::new();
    state.set_selection(Some(0));
    let id = state.activate(&tree);
    assert!(id.is_none(), "activating a directory returns no snippet id");
    assert_eq!(state.path().len(), 1);
}

#[test]
fn ascend_restores_cursor_onto_descended_child() {
    // Build a tree with several siblings so "first/last by accident"
    // can't pass the test.
    let mut root = DirNode::default();
    root.insert_child("alpha".into(), DirNode::default());
    root.insert_child("docker".into(), DirNode::default());
    root.insert_child("nested".into(), DirNode::default());
    let tree = BrowseTree::from_root(root);

    let mut state = BrowseState::new();
    // descend into "docker" via activate, after positioning the cursor
    let visible = state.visible(&tree);
    let docker_idx = visible
        .iter()
        .position(|e| matches!(e, BrowseEntry::Directory(n) if n == "docker"))
        .unwrap();
    state.set_selection(Some(docker_idx));
    assert!(state.activate(&tree).is_none());
    assert_eq!(state.path(), &vec!["docker".to_string()]);

    // Now ascend (Backspace at empty filter); cursor must land on "docker".
    assert!(state.backspace(&tree));
    let visible_after = state.visible(&tree);
    let landed = state.selection().expect("selection present");
    assert!(matches!(&visible_after[landed], BrowseEntry::Directory(n) if n == "docker"));
}

#[test]
fn ascend_preserves_parent_filter_text() {
    let mut root = DirNode::default();
    root.insert_child("alpha".into(), DirNode::default());
    root.insert_child("docker".into(), DirNode::default());
    let tree = BrowseTree::from_root(root);

    let mut state = BrowseState::new();
    state.type_char('d');
    // Tab-complete descends into "docker" since it is the unique match.
    assert!(state.tab_complete(&tree));
    assert_eq!(state.path(), &vec!["docker".to_string()]);

    // Ascend; the parent's "d" must come back, and cursor must be on "docker".
    assert!(state.backspace(&tree));
    assert_eq!(state.input(), "d");
    let visible = state.visible(&tree);
    let landed = state.selection().expect("selection present");
    assert!(matches!(&visible[landed], BrowseEntry::Directory(n) if n == "docker"));
}

#[test]
fn ascend_falls_back_to_zero_when_child_missing() {
    let mut root = DirNode::default();
    root.insert_child("alpha".into(), DirNode::default());
    root.insert_child("gone".into(), DirNode::default());
    let tree = BrowseTree::from_root(root);

    let mut state = BrowseState::new();
    let idx = state
        .visible(&tree)
        .iter()
        .position(|e| matches!(e, BrowseEntry::Directory(n) if n == "gone"))
        .unwrap();
    state.set_selection(Some(idx));
    assert!(state.activate(&tree).is_none());

    // Remove the child between descend and ascend.
    let mut root = DirNode::default();
    root.insert_child("alpha".into(), DirNode::default());
    let tree = BrowseTree::from_root(root);

    assert!(state.backspace(&tree));
    assert_eq!(state.selection(), Some(0));
}

#[test]
fn backspace_stays_while_something_is_typed() {
    let tree = fixture_tree();
    let mut state = BrowseState::new();
    state.set_path(vec!["nested".into()]);
    state.type_char('a');
    state.cursor_left();
    assert!(!state.backspace(&tree));
    assert_eq!(state.path(), &vec!["nested".to_string()]);
    assert_eq!(state.input(), "a");
    state.cursor_right();
    assert!(state.backspace(&tree));
    assert_eq!(state.input(), "");
    assert!(state.backspace(&tree));
    assert!(state.path().is_empty());
}

#[test]
fn nothing_typed_shows_everything() {
    let tree = fixture_tree();
    let state = BrowseState::new();
    assert_eq!(state.visible(&tree).len(), tree.root().children.len());
}
