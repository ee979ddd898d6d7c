//! The index of snippets.

use peanutbutter::domain::{Frontmatter, Snippet, SnippetFile, SnippetId};
use peanutbutter::index::{SnippetIndex, TagKey};
use peanutbutter::parser::parse_file;

#[test]
fn duplicate_ids_are_deduped_first_wins() {
    let mut index = SnippetIndex::new();
    let file_a = SnippetFile {
        path: "/a/x.md".to_string(),
        relative_path: "x.md".to_string(),
        frontmatter: Frontmatter::default(),
        snippets: vec![Snippet {
            id: SnippetId::new("x.md", "echo"),
            name: "Echo".into(),
            description: "first".into(),
            body: "echo a".into(),
            variables: vec![],
            language: None,
        }],
    };
    let file_b = SnippetFile {
        path: "/b/x.md".to_string(),
        relative_path: "x.md".to_string(),
        frontmatter: Frontmatter::default(),
        snippets: vec![Snippet {
            id: SnippetId::new("x.md", "echo"),
            name: "Echo".into(),
            description: "second".into(),
            body: "echo b".into(),
            variables: vec![],
            language: None,
        }],
    };
    index.insert_file(file_a);
    index.insert_file(file_b);
    assert_eq!(index.len(), 1);
    assert_eq!(index.iter().next().unwrap().description(), "first");
}

#[test]
fn tag_index_groups_by_tag_and_untagged_bucket() {

    fn file(rel: &str, tags: &[&str], slug: &str) -> SnippetFile {
        SnippetFile {
            path: rel.to_string(),
            relative_path: rel.to_string(),
            frontmatter: Frontmatter {
                tags: tags.iter().map(|tag| tag.to_string()).collect(),
                ..Default::default()
            },
            snippets: vec![Snippet {
                id: SnippetId::new(rel, slug),
                name: slug.to_string(),
                description: String::new(),
                body: "echo hi".to_string(),
                variables: vec![],
                language: None,
            }],
        }
    }

    let index = SnippetIndex::from_files(vec![
        file("git.md", &["git", "shell"], "one"),
        file("literal.md", &["__pb_untagged__"], "two"),
        file("none.md", &[], "three"),
    ]);
    let tags = index.tag_index();

    assert_eq!(tags.get(&TagKey::Tag("git".to_string())).unwrap().len(), 1);
    assert_eq!(tags.get(&TagKey::Tag("shell".to_string())).unwrap().len(), 1);
    assert_eq!(tags.get(&TagKey::Tag("__pb_untagged__".to_string())).unwrap().len(), 1);
    assert_eq!(tags.get(&TagKey::Untagged).unwrap().len(), 1);
}

#[test]
fn get_by_id_round_trips() {
    let file = parse_file(
        "/root/a.md",
        "a.md",
        "## One\n\n```\na\n```\n\n## Two\n\n```\nb\n```\n",
    );
    let index = SnippetIndex::from_files(vec![file]);
    assert_eq!(index.len(), 2);
    let first = index.iter().next().unwrap();
    let id = first.id().clone();
    assert_eq!(index.get(&id).unwrap().name(), first.name());
    assert!(index.get(&SnippetId::new("a.md", "three")).is_none());
}
