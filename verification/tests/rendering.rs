//! What is drawn: rows, previews, areas and headers.

use peanutbutter::browse::{BrowseTree, DirNode};
use peanutbutter::config::Theme;
use peanutbutter::domain::{Frontmatter, Snippet, SnippetId};
use peanutbutter::execute::app::ListPosition;
use peanutbutter::execute::highlight::highlight_shell;
use peanutbutter::execute::render::highlight::{
    compile_highlight_patterns, highlighted_spans, text_plain, text_to_styled_chars, StyledChar,
};
use peanutbutter::execute::render::layout::{
    prompt_layout, scroll_command, select_layout, Rect,
};
use peanutbutter::execute::render::lists::check_lists;
use peanutbutter::execute::render::preview::{
    ansi_text, container_preview_markdown, markdown_links_for_terminal, render_markdown_text,
    render_snippet_preview_text,
};
use peanutbutter::execute::render::rows::{
    clamp_list_offset, digits, fuzzy_snippet_row_spans, repeat, select_header,
};
use peanutbutter::execute::render::screen::stem;
use peanutbutter::execute::render::tags::{tag_heading, tags_prompt, tags_prompt_prefix_len};
use peanutbutter::fuzzy::FuzzyScorer;
use peanutbutter::index::{IndexedSnippet, SnippetIndex, TagKey};
use peanutbutter::parser::parse_file;
use peanutbutter::style::{Color, Style, BOLD};
use peanutbutter::text_map::TextMap;

fn snippet(name: &str, description: &str, body: &str, tags: &[&str]) -> IndexedSnippet {
    snippet_with_language(name, description, body, tags, None)
}

fn snippet_with_language(
    name: &str,
    description: &str,
    body: &str,
    tags: &[&str],
    language: Option<&str>,
) -> IndexedSnippet {
    IndexedSnippet {
        path: "demo.md".to_string(),
        snippet: Snippet {
            id: SnippetId::new("demo.md", "demo"),
            name: name.to_string(),
            description: description.to_string(),
            body: body.to_string(),
            variables: vec![],
            language: language.map(|l| l.to_string()),
        },
        relative_path: "demo.md".to_string(),
        frontmatter: Frontmatter {
            name: None,
            description: None,
            tags: tags.iter().map(|tag| tag.to_string()).collect(),
            variables: TextMap::new(),
        },
    }
}

fn substr_styles(chars: &[StyledChar], needle: &str) -> Vec<Style> {
    let rendered: String = chars.iter().map(|styled| styled.ch).collect();
    let byte_idx = rendered.find(needle).expect("substring in rendered text");
    let idx = rendered[..byte_idx].chars().count();
    chars[idx..idx + needle.chars().count()]
        .iter()
        .map(|styled| styled.style)
        .collect()
}

fn assert_substr_style(chars: &[StyledChar], needle: &str, expected: Style) {
    let styles = substr_styles(chars, needle);
    assert!(
        styles.iter().all(|style| *style == expected),
        "expected {needle:?} to use {expected:?}, got {styles:?}"
    );
}

fn assert_substr_not_style(chars: &[StyledChar], needle: &str, unexpected: Style) {
    let styles = substr_styles(chars, needle);
    assert!(
        styles.iter().all(|style| *style != unexpected),
        "expected {needle:?} not to use {unexpected:?}"
    );
}

#[test]
fn fuzzy_row_highlights_name_and_path_matches() {
    let theme = Theme::default();
    let mut scorer = FuzzyScorer::new();
    let patterns = compile_highlight_patterns("dock");
    let spans = fuzzy_snippet_row_spans(
        &theme,
        &snippet("docker run", "desc", "echo hi", &[]),
        &patterns,
        &mut scorer,
        false,
    );
    let rendered: String = spans.iter().map(|span| span.content.as_str()).collect();
    assert_eq!(rendered, "docker run  [demo.md]");
    assert_eq!(spans[0].style, theme.fuzzy_highlight);
}

#[test]
fn preview_highlights_markdown_description_text() {
    let theme = Theme::default();
    let mut scorer = FuzzyScorer::new();
    let patterns = compile_highlight_patterns("docker");
    let preview = render_snippet_preview_text(
        &snippet("Demo", "docker setup", "echo hi", &["ops"]),
        80,
        &theme,
        &patterns,
        &mut scorer,
    );
    let chars = text_to_styled_chars(&preview);
    let rendered: String = chars.iter().map(|styled| styled.ch).collect();
    let byte_idx = rendered.find("docker").expect("description in preview");
    let idx = rendered[..byte_idx].chars().count();
    let docker: Vec<_> = chars[idx..idx + "docker".chars().count()].iter().collect();
    assert!(
        docker
            .iter()
            .all(|styled| styled.style == theme.fuzzy_highlight)
    );
}

#[test]
fn preview_highlights_single_operator_value_in_name() {
    let theme = Theme::default();
    let mut scorer = FuzzyScorer::new();
    let patterns = compile_highlight_patterns("name:prompt");
    let preview = render_snippet_preview_text(
        &snippet("prompt helper", "desc", "echo hi", &[]),
        80,
        &theme,
        &patterns,
        &mut scorer,
    );
    let chars = text_to_styled_chars(&preview);
    let rendered: String = chars.iter().map(|styled| styled.ch).collect();
    let byte_idx = rendered.find("prompt").expect("name in preview");
    let idx = rendered[..byte_idx].chars().count();
    let prompt: Vec<_> = chars[idx..idx + "prompt".chars().count()].iter().collect();
    assert!(
        prompt
            .iter()
            .all(|styled| styled.style == theme.emphasis.patch(theme.fuzzy_highlight))
    );
}

#[test]
fn preview_highlights_each_operator_in_its_field() {
    let theme = Theme::default();
    let mut scorer = FuzzyScorer::new();
    let patterns = compile_highlight_patterns(
        "name:NameNeedle path:demo tag:TagNeedle snippet:BodyNeedle",
    );
    let preview = render_snippet_preview_text(
        &snippet(
            "NameNeedle helper",
            "DescriptionNeedle",
            "echo BodyNeedle",
            &["TagNeedle"],
        ),
        80,
        &theme,
        &patterns,
        &mut scorer,
    );
    let chars = text_to_styled_chars(&preview);

    assert_substr_style(
        &chars,
        "NameNeedle",
        theme.emphasis.patch(theme.fuzzy_highlight),
    );
    assert_substr_style(&chars, "demo", theme.fuzzy_highlight);
    assert_substr_style(&chars, "TagNeedle", theme.fuzzy_highlight);
    assert_substr_style(&chars, "BodyNeedle", theme.fuzzy_highlight);
    assert_substr_not_style(&chars, "DescriptionNeedle", theme.fuzzy_highlight);
}

#[test]
fn preview_does_not_apply_field_operator_highlight_to_other_fields() {
    let theme = Theme::default();
    let mut scorer = FuzzyScorer::new();
    let patterns = compile_highlight_patterns("snippet:NameNeedle");
    let preview = render_snippet_preview_text(
        &snippet("NameNeedle helper", "", "echo BodyNeedle", &[]),
        80,
        &theme,
        &patterns,
        &mut scorer,
    );
    let chars = text_to_styled_chars(&preview);

    assert_substr_not_style(
        &chars,
        "NameNeedle",
        theme.emphasis.patch(theme.fuzzy_highlight),
    );
}

#[test]
fn preview_renders_markdown_description() {
    let theme = Theme::default();
    let mut scorer = FuzzyScorer::new();
    let preview = render_snippet_preview_text(
        &snippet(
            "Demo",
            "### Setup\n\n- **Install** [Docker](https://example.com)\n- Run `pb`",
            "echo hi",
            &[],
        ),
        80,
        &theme,
        &vec![],
        &mut scorer,
    );
    let rendered = text_plain(&preview);

    assert!(rendered.contains("Setup"));
    assert!(rendered.contains("Install"));
    assert!(rendered.contains("Docker"));
    assert!(!rendered.contains("### Setup"));
    assert!(!rendered.contains("**Install**"));
    assert!(!rendered.contains("[Docker](https://example.com)"));
}

#[test]
fn preview_preserves_plain_text_description() {
    let theme = Theme::default();
    let mut scorer = FuzzyScorer::new();
    let preview = render_snippet_preview_text(
        &snippet("Demo", "plain text description", "echo hi", &[]),
        80,
        &theme,
        &vec![],
        &mut scorer,
    );

    assert!(text_plain(&preview).contains("plain text description"));
}

#[test]
fn preview_renders_fenced_text_description_and_body() {
    let theme = Theme::default();
    let mut scorer = FuzzyScorer::new();
    let preview = render_snippet_preview_text(
        &snippet(
            "Demo",
            "Example output:\n\n```text\nsource.txt -> dest.txt\n```",
            "cp <@source> <@dest>",
            &[],
        ),
        80,
        &theme,
        &vec![],
        &mut scorer,
    );
    let rendered = text_plain(&preview);

    assert!(rendered.contains("source.txt -> dest.txt"));
    assert!(rendered.contains("cp <@source> <@dest>"));
}

#[test]
fn preview_does_not_render_body_as_markdown() {
    let theme = Theme::default();
    let mut scorer = FuzzyScorer::new();
    let preview = render_snippet_preview_text(
        &snippet("Demo", "**description**", "echo **literal**", &[]),
        80,
        &theme,
        &vec![],
        &mut scorer,
    );

    assert!(text_plain(&preview).contains("echo **literal**"));
}

#[test]
fn preview_body_highlight_patches_existing_shell_style() {
    let theme = Theme::default();
    let mut scorer = FuzzyScorer::new();
    let patterns = compile_highlight_patterns("home");
    let preview = render_snippet_preview_text(
        &snippet("Demo", "", "echo $HOME", &[]),
        80,
        &theme,
        &patterns,
        &mut scorer,
    );
    let chars = text_to_styled_chars(&preview);
    let rendered: String = chars.iter().map(|styled| styled.ch).collect();
    let byte_idx = rendered.find("$HOME").expect("shell body in preview");
    let idx = rendered[..byte_idx].chars().count() + 1;
    let home: Vec<_> = chars[idx..idx + "HOME".chars().count()].iter().collect();
    let expected = Style::default()
        .fg(Color::Cyan)
        .patch(theme.fuzzy_highlight);
    assert!(home.iter().all(|styled| styled.style == expected));
}

#[test]
fn fuzzy_row_includes_language_after_separator() {
    let theme = Theme::default();
    let mut scorer = FuzzyScorer::new();
    let s = snippet_with_language("deploy", "desc", "kubectl apply", &[], Some("bash"));
    let spans = fuzzy_snippet_row_spans(&theme, &s, &vec![], &mut scorer, false);
    let rendered: String = spans.iter().map(|span| span.content.as_str()).collect();
    assert!(
        rendered.contains(" · bash"),
        "expected language in row: {rendered}"
    );
}

#[test]
fn preview_includes_lang_metadata_line() {
    let theme = Theme::default();
    let mut scorer = FuzzyScorer::new();
    let s = snippet_with_language("deploy", "desc", "kubectl apply", &[], Some("bash"));
    let preview = render_snippet_preview_text(&s, 80, &theme, &vec![], &mut scorer);
    let rendered: String = preview
        .lines
        .iter()
        .flat_map(|line| line.spans.iter().map(|span| span.content.as_str()))
        .collect::<Vec<_>>()
        .join("");
    assert!(
        rendered.contains("lang"),
        "expected lang label in preview: {rendered}"
    );
    assert!(
        rendered.contains("bash"),
        "expected language value in preview: {rendered}"
    );
}

#[test]
fn escape_sequences_become_styles() {
    let text = ansi_text("\u{1b}[1;31mred\u{1b}[0m plain\nnext");
    assert_eq!(text.lines.len(), 2);
    let red = &text.lines[0].spans[0];
    assert_eq!(red.content, "red");
    assert_eq!(red.style.fg, Some(Color::Red));
    assert_eq!(red.style.add_modifier & BOLD, BOLD);
    assert_eq!(text_plain(&text), "red plain\nnext");
}

#[test]
fn escape_sequences_set_every_kind_of_colour() {
    let fg = |code: &str| {
        let text = ansi_text(&format!("\u{1b}[{code}mx"));
        let span = text.lines[0].spans.iter().find(|s| s.content == "x").unwrap();
        span.style.fg
    };
    assert_eq!(fg("30"), Some(Color::Black));
    assert_eq!(fg("32"), Some(Color::Green));
    assert_eq!(fg("33"), Some(Color::Yellow));
    assert_eq!(fg("34"), Some(Color::Blue));
    assert_eq!(fg("35"), Some(Color::Magenta));
    assert_eq!(fg("36"), Some(Color::Cyan));
    assert_eq!(fg("37"), Some(Color::Gray));
    assert_eq!(fg("39"), Some(Color::Reset));
    assert_eq!(fg("90"), Some(Color::DarkGray));
    assert_eq!(fg("91"), Some(Color::LightRed));
    assert_eq!(fg("92"), Some(Color::LightGreen));
    assert_eq!(fg("93"), Some(Color::LightYellow));
    assert_eq!(fg("94"), Some(Color::LightBlue));
    assert_eq!(fg("95"), Some(Color::LightMagenta));
    assert_eq!(fg("96"), Some(Color::LightCyan));
    assert_eq!(fg("97"), Some(Color::White));
    assert_eq!(fg("38;5;200"), Some(Color::Indexed(200)));
    assert_eq!(fg("38;2;1;2;255"), Some(Color::Rgb(1, 2, 255)));
}

#[test]
fn markdown_is_formatted_to_a_width() {
    let text = render_markdown_text("# Title\n\nword **bold**", 40);
    let plain = text_plain(&text);
    assert!(plain.contains("Title") && plain.contains("bold"), "{plain}");
    assert!(!plain.contains("**"), "{plain}");
    let bold = text
        .lines
        .iter()
        .flat_map(|line| line.spans.iter())
        .any(|span| span.content.contains("bold") && span.style.add_modifier & BOLD == BOLD);
    assert!(bold, "{text:?}");
}

#[test]
fn links_keep_their_text() {
    assert!(!markdown_links_for_terminal("see [Docker](https://example.com)").contains("]("));
    assert_eq!(markdown_links_for_terminal("no links"), "no links");
}

#[test]
fn shell_words_are_coloured() {
    let text = highlight_shell("echo $HOME # note");
    assert_eq!(text_plain(&text), "echo $HOME # note");
    let home = text.lines[0].spans.iter().find(|s| s.content.contains("HOME")).unwrap();
    assert_eq!(home.style.fg, Some(Color::Cyan));
}

#[test]
fn runs_are_split_where_the_style_changes() {
    let mark = Style::default().fg(Color::Red);
    let spans = highlighted_spans("abcd", &vec![1, 2], Style::default(), mark);
    let parts: Vec<(&str, Style)> =
        spans.iter().map(|s| (s.content.as_str(), s.style)).collect();
    assert_eq!(
        parts,
        vec![("a", Style::default()), ("bc", mark), ("d", Style::default())]
    );
}

#[test]
fn areas_do_not_overlap() {
    let outer = Rect { x: 0, y: 0, width: 80, height: 20 };
    let areas = select_layout(outer, false);
    assert!(areas.heading.is_none());
    assert_eq!(areas.header.height, 2);
    assert_eq!(areas.footer.height, 1);
    assert!(areas.list.x + areas.list.width <= areas.preview.x + 1);
    assert_eq!(areas.footer.y, areas.header.y + 2);
    assert!(select_layout(outer, true).heading.is_some());

    let areas = prompt_layout(outer, 3, Some(2));
    assert!(areas.suggestions.is_some());
    assert!(areas.command.y < areas.status.y);
    assert!(prompt_layout(outer, 3, None).suggestions.is_none());
}

#[test]
fn a_long_command_scrolls_to_its_cursor() {
    assert_eq!(scroll_command(0, 3, 5), 0);
    let scroll = scroll_command(9, 10, 4);
    assert!(scroll <= 9 && 9 < scroll + 4);
}

#[test]
fn the_window_of_a_list_holds_the_highlight() {
    let mut position = ListPosition { offset: 7, selected: Some(2) };
    clamp_list_offset(&mut position, 20, 5);
    assert!(position.offset <= 20);
    let mut position = ListPosition { offset: 50, selected: Some(3) };
    clamp_list_offset(&mut position, 4, 10);
    assert!(position.offset < 4 || position.offset == 0);
}

#[test]
fn headers_are_as_wide_as_the_screen() {
    let lines = select_header(&Theme::default(), "> query", "3/10", "fuzzy", 40, 20);
    assert_eq!(lines.lines.len(), 2);
    assert_eq!(digits(0), 1);
    assert_eq!(digits(100), 3);
    assert_eq!(repeat('-', 3), "---");
    assert_eq!(stem("notes.md"), "notes");
}

#[test]
fn tags_are_named_in_the_prompt() {
    let tag = TagKey::Tag("git".to_string());
    let prompt = tags_prompt(Some(&tag), "st").unwrap();
    assert!(prompt.ends_with("st"), "{prompt}");
    assert_eq!(prompt.chars().count(), tags_prompt_prefix_len(&tag) + 2);
    assert!(tags_prompt(None, "").is_none());
    assert!(tag_heading(&tag).contains("git"));
}

#[test]
fn a_directory_is_described() {
    let index = SnippetIndex::from_files(vec![parse_file(
        "/r/git/log.md",
        "git/log.md",
        "## Show\n\n```\ngit log\n```\n",
    )]);
    let tree = BrowseTree::from_index(&index);
    let node: &DirNode = tree.get(&vec!["git".to_string()]).unwrap();
    let md = container_preview_markdown("git", &vec!["git".to_string()], node);
    assert!(md.contains("git") && md.contains("log.md"), "{md}");
}

#[test]
fn lists_without_room_are_shown_as_they_are_written() {
    assert!(check_lists("1. foo bar", 3));
    assert!(!check_lists("10. foo bar", 3));
    assert!(check_lists("10. foo bar", 4));
    assert!(!check_lists("  - foo bar", 3));
    assert!(check_lists("  - foo bar", 4));
    assert!(check_lists("    - code", 3));
    assert!(check_lists("```\n10. code\n```\n", 3));
    // The second item is number ten.
    assert!(!check_lists("9. a\n1. b", 3));
    // Counting on from here leaves the numbers.
    assert!(!check_lists("4294967295. a", 80));
    assert!(check_lists("99999999999999999999. a", 80));
    assert!(check_lists("| - a | b |", 80));
    // A table that is wider than its room is wrapped, down to columns of three.
    assert!(check_lists("| 1. a | b |", 14));
    assert!(!check_lists("| 1. a | b |", 13));
    assert!(check_lists("| - a | b |", 3));
    assert!(check_lists("| 1. a | b\n\n| a long cell of a table", 14));
    assert!(!check_lists("| 1. a | b\n| a long cell of a table", 14));
    assert!(!check_lists("| 1. a | b\n```\n```\n| a long cell of a table", 14));
    assert!(check_lists("| 1. a | b\n```\n| code\n```\n| a long cell of a table", 14));
    assert!(!check_lists("| 1. a | `b`", 80));

    let text = render_markdown_text("10. foo bar", 3);
    assert_eq!(text_plain(&text), "10. foo bar");
    let text = render_markdown_text("10. **foo** bar", 20);
    assert!(!text_plain(&text).contains("**"));
}

#[test]
fn markdown_is_formatted_at_every_width() {
    let samples = [
        "1. one two three\n1. four five six\n  - seven eight\n\n* nine ten eleven",
        "| a | bb | ccc |\n|---|:-:|---|\n| - one two | **three four** | `five six` |",
        "# A heading that is long\n\n> quoted words that are long\n\n---\n\n```\ncode that is long\n```",
        "10) ten words in a row and more of them\n   100. deeper words in a row",
        "| 10. ten | b |\n|---|---|\n|   100. deeper words | \u{4e2d}\u{6587} |",
        "| 1. a\n```\n```\n| 1.\n|1.|\u{17d8}|",
    ];
    for sample in samples {
        for width in 0..40 {
            let _ = render_markdown_text(sample, width);
        }
    }
}

#[test]
fn areas_lie_on_the_screen() {
    for (width, height) in [(0, 0), (1, 1), (3, 2), (10, 4), (80, 20)] {
        let outer = Rect { x: 2, y: 3, width, height };
        let inside = |part: Rect| {
            part.x >= 2
                && part.y >= 3
                && part.x + part.width <= 2 + width
                && part.y + part.height <= 3 + height
        };
        let areas = select_layout(outer, true);
        assert!(inside(areas.list) && inside(areas.preview));
        assert!(inside(areas.header) && inside(areas.footer) && inside(areas.heading.unwrap()));
        let areas = prompt_layout(outer, 3, Some(2));
        assert!(inside(areas.command) && inside(areas.status) && inside(areas.footer));
        assert!(inside(areas.suggestions.unwrap()));
    }
}
