//! Taking snippets out of their files.

use peanutbutter::domain::SnippetId;
use peanutbutter::edit::remove::remove_snippet;
use peanutbutter::index::SnippetIndex;
use peanutbutter::parser::parse_file;

fn indexed(content: &str) -> (String, SnippetIndex) {
    let parsed = parse_file("/root/snippets.md", "snippets.md", content);
    (content.to_string(), SnippetIndex::from_files(vec![parsed]))
}

fn remove_by_slug(index: &SnippetIndex, content: &str, slug: &str) -> Result<String, String> {
    let id = SnippetId::new("snippets.md", slug);
    let snippet = index.get(&id).expect("snippet in index");
    remove_snippet(snippet, content)
}

#[test]
fn removes_the_first_snippet_and_keeps_the_rest() {
    let (content, index) = indexed("# Title\n\n## Alpha\n\n```sh\nalpha\n```\n\n## Beta\n\n```sh\nbeta\n```\n");
    let after = remove_by_slug(&index, &content, "alpha").expect("remove");
    assert_eq!(after, "# Title\n\n## Beta\n\n```sh\nbeta\n```\n");
}

#[test]
fn removes_a_middle_snippet_without_disturbing_its_neighbours() {
    let (content, index) = indexed("## Alpha\n\n```sh\nalpha\n```\n\n## Beta\n\n```sh\nbeta\n```\n\n## Gamma\n\n```sh\ngamma\n```\n");
    let after = remove_by_slug(&index, &content, "beta").expect("remove");
    assert_eq!(
        after,
        "## Alpha\n\n```sh\nalpha\n```\n\n## Gamma\n\n```sh\ngamma\n```\n"
    );
}

#[test]
fn removes_the_last_snippet_and_trims_trailing_blank_lines() {
    let (content, index) = indexed("## Alpha\n\n```sh\nalpha\n```\n\n## Beta\n\n```sh\nbeta\n```\n\n\n");
    let after = remove_by_slug(&index, &content, "beta").expect("remove");
    assert_eq!(after, "## Alpha\n\n```sh\nalpha\n```\n");
}

#[test]
fn removes_prose_and_extra_fences_written_after_the_body() {
    // The parsed range stops at the body's closing fence; everything up to the
    // next `##` still belongs to the section and must go with it.
    let (content, index) = indexed("## Alpha\n\n```sh\nalpha\n```\n\nA note about alpha.\n\n```text\n## not a heading\n```\n\n## Beta\n\n```sh\nbeta\n```\n");
    let after = remove_by_slug(&index, &content, "alpha").expect("remove");
    assert_eq!(after, "## Beta\n\n```sh\nbeta\n```\n");
}

#[test]
fn keeps_frontmatter_when_removing_a_snippet_below_it() {
    let (content, index) = indexed("---\nname: Demo\ntags: [demo]\n---\n\n## Alpha\n\n```sh\nalpha\n```\n\n## Beta\n\n```sh\nbeta\n```\n");
    let after = remove_by_slug(&index, &content, "alpha").expect("remove");
    assert_eq!(
        after,
        "---\nname: Demo\ntags: [demo]\n---\n\n## Beta\n\n```sh\nbeta\n```\n"
    );
}

#[test]
fn keeps_the_file_when_its_only_snippet_is_removed() {
    // An emptied file may still carry frontmatter or a title worth keeping, so
    // removal never deletes the file itself.
    let (content, index) = indexed("---\nname: Demo\n---\n\n# Title\n\n## Alpha\n\n```sh\nalpha\n```\n");
    let after = remove_by_slug(&index, &content, "alpha").expect("remove");
    assert_eq!(after, "---\nname: Demo\n---\n\n# Title\n");
}

#[test]
fn keeps_a_following_non_snippet_section() {
    // A `##` section holding only a `text` fence is not an executable snippet;
    // removing the snippet above it must not swallow it.
    let (content, index) = indexed("## Alpha\n\n```sh\nalpha\n```\n\n## Notes\n\n```text\njust an example\n```\n");
    let after = remove_by_slug(&index, &content, "alpha").expect("remove");
    assert_eq!(after, "## Notes\n\n```text\njust an example\n```\n");
}

#[test]
fn refuses_when_the_snippet_is_no_longer_in_the_file() {
    let (_, index) = indexed("## Alpha\n\n```sh\nalpha\n```\n");
    let replacement = "## Renamed\n\n```sh\nalpha\n```\n";
    let err = remove_by_slug(&index, replacement, "alpha")
        .expect_err("stale id should not be removed");
    assert!(err.contains("could not locate"), "{err}");
    assert_eq!(
        err,
        "could not locate `snippets.md#alpha` in /root/snippets.md; the file may have changed or its code fence may be unterminated"
    );
}

#[test]
fn refuses_when_the_code_fence_is_unterminated() {
    let (_, index) = indexed("## Alpha\n\n```sh\nalpha\n```\n");
    let broken = "## Alpha\n\n```sh\nalpha\n";
    remove_by_slug(&index, broken, "alpha").expect_err("unterminated fence should not be removed");
}

#[test]
fn refuses_when_the_body_has_changed() {
    let (_, index) = indexed("## Alpha\n\n```sh\nalpha\n```\n");
    let changed = "## Alpha\n\n```sh\nother\n```\n";
    remove_by_slug(&index, changed, "alpha").expect_err("a changed snippet stays");
}

#[test]
fn line_breaks_of_other_lines_stay() {
    let (content, index) =
        indexed("# T\r\n\r\n## Alpha\r\n```\r\na\r\n```\r\n## Beta\r\n```\r\nb\r\n```");
    let after = remove_by_slug(&index, &content, "alpha").unwrap();
    assert_eq!(after, "# T\r\n\r\n## Beta\r\n```\r\nb\r\n```");
}
