//! Reading snippet files.

use peanutbutter::domain::{SnippetId, VariableSource};
use peanutbutter::parser::{
    parse_file, parse_snippets, slugify, snippet_line, snippet_line_ranges, snippet_section_range,
};

#[test]
fn headings_become_ids() {
    assert_eq!(slugify("Hello, World!"), "hello-world");
    assert_eq!(slugify("  -- "), "");
    assert_eq!(slugify("A1 \u{c9}t\u{e9}"), "a1-\u{e9}t\u{e9}");
}

#[test]
fn a_section_is_a_snippet() {
    let file = parse_file(
        "/r/git.md",
        "git.md",
        "# Git\n\n## Show log\n\nPrints the log.\n\n```bash\ngit log <@count:?10>\n```\n\nMore prose.\n",
    );
    assert_eq!(file.path, "/r/git.md");
    assert_eq!(file.relative_path, "git.md");
    assert_eq!(file.snippets.len(), 1);
    let snippet = &file.snippets[0];
    assert_eq!(snippet.id.as_str(), "git.md#show-log");
    assert_eq!(snippet.name, "Show log");
    assert_eq!(snippet.description, "Prints the log.");
    assert_eq!(snippet.body, "git log <@count:?10>");
    assert_eq!(snippet.language.as_deref(), Some("bash"));
    assert_eq!(snippet.variables.len(), 1);
    assert_eq!(snippet.variables[0].name, "count");
    assert!(matches!(&snippet.variables[0].source, VariableSource::Default(_)));
}

#[test]
fn text_blocks_belong_to_the_description() {
    let snippets = parse_snippets(
        "a.md",
        "## One\n\n```text\n## sample\n```\n\n~~~~sh\n```\nrun\n~~~\n~~~~\n",
    );
    assert_eq!(snippets.len(), 1);
    assert_eq!(snippets[0].description, "```text\n## sample\n```");
    assert_eq!(snippets[0].body, "```\nrun\n~~~");
    assert_eq!(snippets[0].language.as_deref(), Some("sh"));
}

#[test]
fn only_the_first_block_counts() {
    let snippets = parse_snippets("a.md", "## One\n```\na\nb\n```\n```\nc\n```\n# Other\n```\nd\n```\n");
    assert_eq!(snippets.len(), 1);
    assert_eq!(snippets[0].body, "a\nb");
    assert_eq!(snippets[0].language, None);
}

#[test]
fn an_open_block_is_no_snippet() {
    assert!(parse_snippets("a.md", "## One\n```\na\n").is_empty());
    assert!(parse_snippets("a.md", "## One\nno code\n").is_empty());
    assert!(parse_snippets("a.md", "").is_empty());
}

#[test]
fn frontmatter_is_read() {
    let file = parse_file(
        "/r/a.md",
        "a.md",
        "---\nname: \"Docker\"\ndescription: 'Containers'\ntags:\n  - docker\n  - ops\n---\n## One\n```\na\n```\n",
    );
    assert_eq!(file.frontmatter.name.as_deref(), Some("Docker"));
    assert_eq!(file.frontmatter.description.as_deref(), Some("Containers"));
    assert_eq!(file.frontmatter.tags, vec!["docker", "ops"]);
    assert_eq!(file.snippets.len(), 1);

    let inline = parse_file("/r/a.md", "a.md", "---\ntags: [a, \"b c\", ]\n---\n");
    assert_eq!(inline.frontmatter.tags, vec!["a", "b c"]);

    let open = parse_file("/r/a.md", "a.md", "---\nname: x\n## One\n```\na\n```\n");
    assert_eq!(open.frontmatter.name, None);
    assert_eq!(open.snippets.len(), 1);
}

#[test]
fn ranges_count_lines_from_zero() {
    let content = "# T\n\n## A\n\n```\na\n```\n\nprose\n\n## B\n```\nb\n```\n";
    let ranges = snippet_line_ranges("x.md", content);
    assert_eq!(ranges.len(), 2);
    assert_eq!((ranges[0].start_line, ranges[0].end_line), (2, 7));
    assert_eq!((ranges[1].start_line, ranges[1].end_line), (10, 14));
    let a = SnippetId::new("x.md", "a");
    assert_eq!(snippet_section_range("x.md", content, &a), Some((2, 10)));
    assert_eq!(snippet_line("x.md", content, &a), Some(3));
    assert_eq!(snippet_section_range("x.md", content, &SnippetId::new("x.md", "c")), None);
    assert_eq!(snippet_line("x.md", content, &SnippetId::new("x.md", "c")), None);
}
