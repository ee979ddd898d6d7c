//! The preview beside the picker: what a snippet is, or what a directory or a
//! tag holds.

use ansi_to_tui::IntoText;
use vstd::prelude::*;
use crate::browse;
use crate::browse::DirNode;
use crate::config;
use crate::config::Theme;
use crate::domain;
use crate::domain::Variable;
use crate::execute::highlight as shell;
use crate::execute::template;
use crate::fuzzy::FuzzyScorer;
use crate::index;
use crate::index::IndexedSnippet;
use crate::search;
use crate::search::QueryField;
use crate::style;
use crate::style::{Color, Span, Style, Text};
use crate::text;
use super::highlight;
use super::highlight::HighlightPattern;
use super::lists;

verus! {

broadcast use vstd::string::group_string_axioms;

/// What the preview shows.
pub enum PickerPreview<'a> {
    /// A snippet.
    Snippet(&'a IndexedSnippet),
    /// Markdown.
    Markdown(String),
    /// Nothing is highlighted.
    Empty,
}

/// What a [`PickerPreview`] holds.
pub enum PreviewView {
    Snippet(index::EntryView),
    Markdown(Seq<char>),
    Empty,
}

impl<'a> View for PickerPreview<'a> {
    type V = PreviewView;

    open spec fn view(&self) -> PreviewView {
        match self {
            PickerPreview::Snippet(entry) => PreviewView::Snippet(entry@),
            PickerPreview::Markdown(markdown) => PreviewView::Markdown(markdown@),
            PickerPreview::Empty => PreviewView::Empty,
        }
    }
}

/// How a link with a label and an address is shown.
pub open spec fn shown_link(label: Seq<char>, url: Seq<char>) -> Seq<char> {
    if label.len() == 0 || url.len() == 0 {
        seq!['['] + label + seq![']', '('] + url + seq![')']
    } else if label == url {
        label
    } else {
        label + " ("@ + url + seq![')']
    }
}

/// Markdown with its links as plain text: the label, and the address in
/// brackets where it is another.
pub open spec fn plain_links(s: Seq<char>) -> Seq<char>
    decreases s.len(),
{
    match text::find_from(s, seq!['['], 0) {
        Some(open) if 0 <= open < s.len() => match text::find_from(s, seq![']'], open + 1) {
            Some(close) if open < close < s.len() => if !text::stands_at(
                s,
                seq![']', '('],
                close,
            ) {
                s.take(close + 1) + plain_links(s.skip(close + 1))
            } else {
                match text::find_from(s, seq![')'], close + 2) {
                    Some(end) if close + 2 <= end < s.len() => s.take(open) + shown_link(
                        s.subrange(open + 1, close),
                        s.subrange(close + 2, end),
                    ) + plain_links(s.skip(end + 1)),
                    _ => s,
                }
            },
            _ => s,
        },
        _ => s,
    }
}

/// Adds characters.
fn push_chars(out: &mut String, chars: &Vec<char>, from: usize, to: usize)
    requires
        from <= to <= chars@.len(),
    ensures
        final(out)@ == old(out)@ + chars@.subrange(from as int, to as int),
{
    let piece = text::string_from(chars, from, to);
    out.append(piece.as_str());
}

/// Adds a link as it is shown.
fn push_link(out: &mut String, label: &Vec<char>, url: &Vec<char>)
    ensures
        final(out)@ == old(out)@ + shown_link(label@, url@),
{
    let ghost before = out@;
    if label.len() == 0 || url.len() == 0 {
        out.push('[');
        push_chars(out, label, 0, label.len());
        out.push(']');
        out.push('(');
        push_chars(out, url, 0, url.len());
        out.push(')');
        assert(label@.subrange(0, label@.len() as int) =~= label@);
        assert(url@.subrange(0, url@.len() as int) =~= url@);
    } else if text::same_chars(label, url) {
        push_chars(out, label, 0, label.len());
        assert(label@.subrange(0, label@.len() as int) =~= label@);
    } else {
        push_chars(out, label, 0, label.len());
        out.append(" (");
        push_chars(out, url, 0, url.len());
        out.push(')');
        assert(label@.subrange(0, label@.len() as int) =~= label@);
        assert(url@.subrange(0, url@.len() as int) =~= url@);
    }
    assert(out@ =~= before + shown_link(label@, url@));
}

/// Markdown with its links as plain text.
#[verifier::rlimit(60)]
#[verifier::spinoff_prover]
pub fn markdown_links_for_terminal(markdown: &str) -> (out: String)
    ensures
        out@ == plain_links(markdown@),
{
    let chars = text::chars_of(markdown);
    let n: usize = chars.len();
    let open_mark: Vec<char> = vec!['['];
    let close_mark: Vec<char> = vec![']'];
    let link_mark: Vec<char> = vec![']', '('];
    let end_mark: Vec<char> = vec![')'];
    assert(open_mark@ =~= seq!['[']);
    assert(close_mark@ =~= seq![']']);
    assert(link_mark@ =~= seq![']', '(']);
    assert(end_mark@ =~= seq![')']);
    let mut out = String::new();
    let mut i: usize = 0;
    assert(chars@.skip(0) =~= chars@);
    assert(out@ + plain_links(chars@) =~= plain_links(markdown@));
    loop
        invariant
            i <= n == chars@.len(),
            chars@ == markdown@,
            open_mark@ == seq!['['],
            close_mark@ == seq![']'],
            link_mark@ == seq![']', '('],
            end_mark@ == seq![')'],
            out@ + plain_links(chars@.skip(i as int)) == plain_links(markdown@),
        ensures
            i <= n == chars@.len(),
            out@ + chars@.skip(i as int) == plain_links(markdown@),
        decreases n - i,
    {
        let ghost s = chars@.skip(i as int);
        let ghost before = out@;
        proof {
            text::lemma_find_shift(chars@, seq!['['], i as int, 0);
            text::lemma_find_from(chars@, seq!['['], i as int);
        }
        let open: usize = match text::find_chars(&chars, &open_mark, i) {
            Some(at) => at,
            None => {
                break;
            },
        };
        proof {
            text::lemma_find_shift(chars@, seq![']'], i as int, open - i + 1);
            text::lemma_find_from(chars@, seq![']'], open + 1);
        }
        let close: usize = match text::find_chars(&chars, &close_mark, open + 1) {
            Some(at) => at,
            None => {
                break;
            },
        };
        proof {
            text::lemma_stands_shift(chars@, seq![']', '('], i as int, close - i);
        }
        if !text::is_at(&chars, &link_mark, close) {
            push_chars(&mut out, &chars, i, close + 1);
            proof {
                assert(chars@.subrange(i as int, close + 1) =~= s.take(close - i + 1));
                assert(s.skip(close - i + 1) =~= chars@.skip(close + 1));
                let rest = plain_links(chars@.skip(close + 1));
                assert(before + s.take(close - i + 1) + rest =~= before + (s.take(close - i + 1)
                    + rest));
            }
            i = close + 1;
        } else {
            proof {
                text::lemma_find_shift(chars@, seq![')'], i as int, close - i + 2);
                text::lemma_find_from(chars@, seq![')'], close + 2);
            }
            let end: usize = match text::find_chars(&chars, &end_mark, close + 2) {
                Some(at) => at,
                None => {
                    break;
                },
            };
            let ghost label = s.subrange(open - i + 1, close - i);
            let ghost url = s.subrange(close - i + 2, end - i);
            let label_chars = text::sub_chars(&chars, open + 1, close);
            let url_chars = text::sub_chars(&chars, close + 2, end);
            assert(label_chars@ =~= label);
            assert(url_chars@ =~= url);
            push_chars(&mut out, &chars, i, open);
            assert(chars@.subrange(i as int, open as int) =~= s.take(open - i));
            push_link(&mut out, &label_chars, &url_chars);
            proof {
                let shown = s.take(open - i) + shown_link(label, url);
                assert(out@ =~= before + shown);
                assert(s.skip(end - i + 1) =~= chars@.skip(end + 1));
                let rest = plain_links(chars@.skip(end + 1));
                assert(before + shown + rest =~= before + (shown + rest));
            }
            i = end + 1;
        }
    }
    push_chars(&mut out, &chars, i, n);
    assert(chars@.subrange(i as int, n as int) =~= chars@.skip(i as int));
    out
}

/// The look of rendered markdown.
#[verifier::external_type_specification]
#[verifier::external_body]
pub struct ExMadSkin(termimad::MadSkin);

/// Where a heading stands in its line.
#[derive(Debug, Clone, Copy, PartialEq, Eq, Structural)]
pub enum Side {
    Left,
    Center,
    Right,
}

/// `MadSkin::default`, with headings on a side, a margin around code, and code in
/// a grey on a grey or on no background. Nothing is claimed of the result. The
/// margins are added to the widths of lines when text is formatted.
#[verifier::external_body]
fn preview_skin(headings: Side, margin: usize, grey: u8, behind: Option<u8>) -> (skin:
    termimad::MadSkin)
    requires
        margin <= u16::MAX,
{
    let mut skin = termimad::MadSkin::default();
    skin.headers.iter_mut().for_each(|h| h.align = match headings {
        Side::Left => termimad::Alignment::Left,
        Side::Center => termimad::Alignment::Center,
        Side::Right => termimad::Alignment::Right,
    });
    skin.code_block.left_margin = margin;
    skin.code_block.right_margin = margin;
    skin.code_block.compound_style.set_fg(termimad::gray(grey));
    skin.code_block.compound_style.object_style.background_color = behind.map(termimad::gray);
    skin.inline_code.set_fg(termimad::gray(grey));
    skin.inline_code.object_style.background_color = behind.map(termimad::gray);
    skin
}

/// `FmtText::from` and its `Display`: markdown for a terminal of some width,
/// with escape sequences. Whether colours are among them depends on the
/// environment, so nothing is claimed of the result. The width must hold what
/// stands before the text of each list item, from which it is subtracted, and
/// numbers that are counted on must stay in their type; rules are as long as the
/// width.
#[verifier::external_body]
fn format_markdown(skin: &termimad::MadSkin, markdown: &str, width: usize) -> (ansi: String)
    requires
        3 <= width <= u16::MAX,
        lists::lists_fit(markdown@, width),
{
    termimad::FmtText::from(skin, markdown, Some(width)).to_string()
}

/// A run of text between escape sequences. Colours are given by their names,
/// modifiers by their bits.
pub struct AnsiRun {
    pub content: String,
    pub fg: Option<String>,
    pub bg: Option<String>,
    pub add_modifier: u16,
    pub sub_modifier: u16,
}

/// What an [`AnsiRun`] holds.
pub struct AnsiRunView {
    pub content: Seq<char>,
    pub fg: Option<Seq<char>>,
    pub bg: Option<Seq<char>>,
    pub add_modifier: u16,
    pub sub_modifier: u16,
}

impl View for AnsiRun {
    type V = AnsiRunView;

    open spec fn view(&self) -> AnsiRunView {
        AnsiRunView {
            content: self.content@,
            fg: text::optional_text(self.fg),
            bg: text::optional_text(self.bg),
            add_modifier: self.add_modifier,
            sub_modifier: self.sub_modifier,
        }
    }
}

/// What the runs of a line hold.
pub open spec fn ansi_run_views(runs: Seq<AnsiRun>) -> Seq<AnsiRunView> {
    runs.map_values(|r: AnsiRun| r@)
}

/// What the runs of lines hold.
pub open spec fn ansi_line_views(lines: Seq<Vec<AnsiRun>>) -> Seq<Seq<AnsiRunView>> {
    lines.map_values(|l: Vec<AnsiRun>| ansi_run_views(l@))
}

/// The runs that `into_text` finds in a text with escape sequences, line by
/// line.
pub uninterp spec fn ansi_runs(s: Seq<char>) -> Option<Seq<Seq<AnsiRunView>>>;

/// `into_text` of `ansi_to_tui`: the lines of a text with escape sequences, as
/// runs with their styles. Claimed: they depend on the text alone.
#[verifier::external_body]
fn parse_ansi(ansi: &str) -> (lines: Option<Vec<Vec<AnsiRun>>>)
    ensures
        match lines {
            Some(l) => ansi_runs(ansi@) == Some(ansi_line_views(l@)),
            None => ansi_runs(ansi@) is None,
        },
{
    let run = |span: ratatui::text::Span<'static>| AnsiRun {
        content: span.content.into_owned(),
        fg: span.style.fg.map(|c| c.to_string()),
        bg: span.style.bg.map(|c| c.to_string()),
        add_modifier: span.style.add_modifier.bits(),
        sub_modifier: span.style.sub_modifier.bits(),
    };
    let lines = ansi.into_text().ok()?.lines.into_iter();
    Some(lines.map(|line| line.spans.into_iter().map(run).collect()).collect())
}

/// The colour of a name: a number of the palette, or a colour of its own.
pub open spec fn named_color(name: Option<Seq<char>>) -> Option<Color> {
    match name {
        None => None,
        Some(n) => match text::number_of(n) {
            Some(i) if i <= u8::MAX => Some(Color::Indexed(i as u8)),
            _ => match config::color_of(n) {
                Ok(color) => Some(color),
                Err(_) => None,
            },
        },
    }
}

fn color_named(name: &Option<String>) -> (color: Option<Color>)
    ensures
        color == named_color(text::optional_text(*name)),
{
    let n = match name {
        Some(n) => n,
        None => {
            return None;
        },
    };
    match text::parse_number(n.as_str()) {
        Some(i) => {
            if i <= u8::MAX as u64 {
                return Some(Color::Indexed(i as u8));
            }
        },
        None => {},
    }
    match config::parse_color(n.as_str()) {
        Ok(color) => Some(color),
        Err(_) => None,
    }
}

/// A run as it is shown.
pub open spec fn shown_run(run: AnsiRunView) -> style::SpanView {
    style::styled_span(
        run.content,
        Style {
            fg: named_color(run.fg),
            bg: named_color(run.bg),
            add_modifier: run.add_modifier,
            sub_modifier: run.sub_modifier,
        },
    )
}

/// A line of plain text.
pub open spec fn plain_text_line(s: Seq<char>) -> Seq<style::SpanView> {
    if s.len() == 0 {
        Seq::empty()
    } else {
        seq![style::raw_span(s)]
    }
}

/// The lines of plain text; one empty line where there is no text.
pub open spec fn plain_text_lines(s: Seq<char>) -> Seq<Seq<style::SpanView>> {
    if s.len() == 0 {
        seq![Seq::empty()]
    } else {
        text::lines_of(s).map_values(|l: Seq<char>| plain_text_line(l))
    }
}

/// A text with escape sequences as it is shown; as plain text where it cannot
/// be read.
pub open spec fn ansi_lines(s: Seq<char>) -> Seq<Seq<style::SpanView>> {
    match ansi_runs(s) {
        Some(lines) => lines.map_values(
            |line: Seq<AnsiRunView>| line.map_values(|run: AnsiRunView| shown_run(run)),
        ),
        None => plain_text_lines(s),
    }
}

/// Plain text as lines.
pub fn plain_text(s: &str) -> (out: Text)
    ensures
        out@ == plain_text_lines(s@),
{
    let mut out = Text::new();
    if s.is_empty() {
        let none: Vec<Span> = Vec::new();
        assert(style::span_views(none@) =~= Seq::<style::SpanView>::empty());
        out.push(none);
        assert(out@ =~= plain_text_lines(s@));
        return out;
    }
    let lines = text::lines(s);
    let ghost all = text::texts(lines@);
    let ghost shown = plain_text_lines(s@);
    assert(shown.len() == all.len());
    let mut i: usize = 0;
    assert(out@ =~= shown.take(0));
    while i < lines.len()
        invariant
            i <= lines@.len(),
            all == text::texts(lines@),
            all == text::lines_of(s@),
            shown == all.map_values(|l: Seq<char>| plain_text_line(l)),
            out@ == shown.take(i as int),
        decreases lines@.len() - i,
    {
        assert(all[i as int] == lines@[i as int]@);
        let mut spans: Vec<Span> = Vec::new();
        if !lines[i].as_str().is_empty() {
            spans.push(Span::raw(lines[i].clone()));
        }
        assert(style::span_views(spans@) =~= plain_text_line(all[i as int]));
        out.push(spans);
        assert(shown.take(i + 1) =~= shown.take(i as int).push(shown[i as int]));
        i = i + 1;
    }
    assert(shown.take(shown.len() as int) =~= shown);
    out
}

/// A text with escape sequences as it is shown.
pub fn ansi_text(ansi: &str) -> (out: Text)
    ensures
        out@ == ansi_lines(ansi@),
{
    let lines = match parse_ansi(ansi) {
        Some(lines) => lines,
        None => {
            return plain_text(ansi);
        },
    };
    let ghost runs = ansi_line_views(lines@);
    let ghost shown = ansi_lines(ansi@);
    assert(shown.len() == lines@.len());
    let mut out = Text::new();
    let mut i: usize = 0;
    assert(out@ =~= shown.take(0));
    while i < lines.len()
        invariant
            i <= lines@.len(),
            runs == ansi_line_views(lines@),
            shown == runs.map_values(
                |line: Seq<AnsiRunView>| line.map_values(|run: AnsiRunView| shown_run(run)),
            ),
            out@ == shown.take(i as int),
        decreases lines@.len() - i,
    {
        assert(runs[i as int] == ansi_run_views(lines@[i as int]@));
        let spans = run_spans(&lines[i]);
        assert(shown[i as int] == style::span_views(spans@));
        out.push(spans);
        assert(shown.take(i + 1) =~= shown.take(i as int).push(shown[i as int]));
        i = i + 1;
    }
    assert(shown.take(shown.len() as int) =~= shown);
    out
}

fn run_spans(runs: &Vec<AnsiRun>) -> (spans: Vec<Span>)
    ensures
        style::span_views(spans@) == ansi_run_views(runs@).map_values(
            |run: AnsiRunView| shown_run(run),
        ),
{
    let ghost shown = ansi_run_views(runs@).map_values(|run: AnsiRunView| shown_run(run));
    let mut out: Vec<Span> = Vec::new();
    let mut i: usize = 0;
    assert(style::span_views(out@) =~= shown.take(0));
    while i < runs.len()
        invariant
            i <= runs@.len(),
            shown == ansi_run_views(runs@).map_values(|run: AnsiRunView| shown_run(run)),
            style::span_views(out@) == shown.take(i as int),
        decreases runs@.len() - i,
    {
        let run = &runs[i];
        let span = Span::styled(
            run.content.clone(),
            Style {
                fg: color_named(&run.fg),
                bg: color_named(&run.bg),
                add_modifier: run.add_modifier,
                sub_modifier: run.sub_modifier,
            },
        );
        proof {
            style::lemma_spans_push(out@, span);
            assert(shown[i as int] == span@);
            assert(shown.take(i + 1) =~= shown.take(i as int).push(span@));
        }
        out.push(span);
        i = i + 1;
    }
    assert(shown.take(shown.len() as int) =~= shown);
    out
}

/// The room that markdown is given: never less than three columns, nor more than
/// a screen can have.
pub open spec fn markdown_room(width: usize) -> usize {
    if width < 3 {
        3
    } else if width > u16::MAX {
        u16::MAX as usize
    } else {
        width
    }
}

/// Whether markdown with these links is formatted as `ansi`, in this room: with
/// a margin of two columns around code, and code in a dark grey.
pub closed spec fn formatted(links: Seq<char>, room: usize, ansi: Seq<char>) -> bool {
    exists|skin: termimad::MadSkin, markdown: &str, out: String|
        {
            &&& #[trigger] call_ensures(format_markdown, (&skin, markdown, room), out)
            &&& call_ensures(preview_skin, (Side::Left, 2usize, 18u8, None::<u8>), skin)
            &&& markdown@ == links
            &&& out@ == ansi
        }
}

/// Whether markdown is shown as `lines`, in a preview of some width: its links
/// are written out, it is formatted, and the result is shown. Where a list has
/// no room, it is shown as it is written.
pub open spec fn shows_markdown(
    markdown: Seq<char>,
    width: usize,
    lines: Seq<Seq<style::SpanView>>,
) -> bool {
    let links = plain_links(markdown);
    if lists::lists_fit(links, markdown_room(width)) {
        exists|ansi: Seq<char>|
            formatted(links, markdown_room(width), ansi) && lines == #[trigger] ansi_lines(ansi)
    } else {
        lines == plain_text_lines(links)
    }
}

/// Markdown for a preview of some width. What the formatted text is depends on
/// the environment.
pub fn render_markdown_text(markdown: &str, width: usize) -> (out: Text)
    ensures
        shows_markdown(markdown@, width, out@),
{
    let links = markdown_links_for_terminal(markdown);
    let room: usize = if width < 3 {
        3
    } else if width > u16::MAX as usize {
        u16::MAX as usize
    } else {
        width
    };
    if !lists::check_lists(links.as_str(), room) {
        return plain_text(links.as_str());
    }
    let skin = preview_skin(Side::Left, 2, 18, None);
    let ansi = format_markdown(&skin, links.as_str(), room);
    assert(formatted(plain_links(markdown@), room, ansi@));
    ansi_text(ansi.as_str())
}

/// A line of metadata: a label, and a value between backquotes.
pub open spec fn metadata(label: Seq<char>, value: Seq<style::SpanView>, theme: Theme) -> Seq<
    style::SpanView,
> {
    seq![
        style::styled_span(label.push(' '), theme.chrome),
        style::raw_span(seq!['`']),
    ] + value + seq![style::raw_span(seq!['`'])]
}

fn backquote() -> (span: Span)
    ensures
        span@ == style::raw_span(seq!['`']),
{
    let mut s = String::new();
    s.push('`');
    assert(s@ =~= seq!['`']);
    Span::raw(s)
}

/// A line of metadata.
fn metadata_line(label: &str, value: Vec<Span>, theme: &Theme) -> (spans: Vec<Span>)
    ensures
        style::span_views(spans@) == metadata(label@, style::span_views(value@), *theme),
{
    let mut shown_label = label.to_owned();
    shown_label.push(' ');
    let mut out: Vec<Span> = Vec::new();
    out.push(Span::styled(shown_label, theme.chrome));
    out.push(backquote());
    let ghost head = out@;
    let mut value = value;
    let ghost middle = value@;
    out.append(&mut value);
    out.push(backquote());
    assert(style::span_views(out@) =~= metadata(label@, style::span_views(middle), *theme));
    out
}

/// The line between the parts of a preview.
pub open spec fn divider(theme: Theme) -> Seq<style::SpanView> {
    seq![style::styled_span("---"@, theme.divider)]
}

fn divider_line(theme: &Theme) -> (spans: Vec<Span>)
    ensures
        style::span_views(spans@) == divider(*theme),
{
    let mut out: Vec<Span> = Vec::new();
    out.push(Span::styled("---".to_owned(), theme.divider));
    assert(style::span_views(out@) =~= divider(*theme));
    out
}

/// A text with what a query matched in a field marked.
pub open spec fn field_runs(
    s: Seq<char>,
    terms: Seq<search::TermView>,
    field: QueryField,
    base: Style,
    mark: Style,
) -> Seq<style::SpanView> {
    highlight::runs_of(
        highlight::marked_chars(s, highlight::marks_of(terms, Some(field), s), base, mark),
    )
}

/// A text with what a query matched in a field marked.
pub fn field_spans(
    s: &str,
    scorer: &mut FuzzyScorer,
    patterns: &Vec<HighlightPattern>,
    field: QueryField,
    base: Style,
    mark: Style,
) -> (spans: Vec<Span>)
    ensures
        style::span_views(spans@) == field_runs(
            s@,
            highlight::pattern_views(patterns@),
            field,
            base,
            mark,
        ),
{
    let places = highlight::mark_positions(scorer, patterns, Some(field), s);
    highlight::highlighted_spans(s, &places, base, mark)
}

/// The dot between values; none before the first.
pub open spec fn dot(first: bool) -> Seq<style::SpanView> {
    if first {
        Seq::empty()
    } else {
        seq![style::raw_span(" · "@)]
    }
}

/// The tags of a snippet, each between backquotes.
pub open spec fn tag_runs(tags: Seq<Seq<char>>, terms: Seq<search::TermView>, theme: Theme) -> Seq<
    style::SpanView,
>
    decreases tags.len(),
{
    if tags.len() == 0 {
        Seq::empty()
    } else {
        tag_runs(tags.drop_last(), terms, theme) + dot(tags.len() == 1) + seq![
            style::raw_span(seq!['`']),
        ] + field_runs(
            tags.last(),
            terms,
            QueryField::Tag,
            Style::plain(),
            theme.fuzzy_highlight,
        ) + seq![style::raw_span(seq!['`'])]
    }
}

/// The names of variables, each between backquotes.
pub open spec fn variable_runs(names: Seq<Seq<char>>) -> Seq<style::SpanView>
    decreases names.len(),
{
    if names.len() == 0 {
        Seq::empty()
    } else {
        variable_runs(names.drop_last()) + dot(names.len() == 1) + seq![
            style::raw_span(seq!['`']),
            style::raw_span(names.last()),
            style::raw_span(seq!['`']),
        ]
    }
}

fn tag_spans(
    tags: &Vec<String>,
    scorer: &mut FuzzyScorer,
    patterns: &Vec<HighlightPattern>,
    theme: &Theme,
) -> (spans: Vec<Span>)
    ensures
        style::span_views(spans@) == tag_runs(
            text::texts(tags@),
            highlight::pattern_views(patterns@),
            *theme,
        ),
{
    let ghost all = text::texts(tags@);
    let ghost terms = highlight::pattern_views(patterns@);
    let mut out: Vec<Span> = Vec::new();
    let mut i: usize = 0;
    assert(all.take(0) =~= Seq::<Seq<char>>::empty());
    assert(style::span_views(out@) =~= Seq::<style::SpanView>::empty());
    while i < tags.len()
        invariant
            i <= tags@.len(),
            all == text::texts(tags@),
            terms == highlight::pattern_views(patterns@),
            style::span_views(out@) == tag_runs(all.take(i as int), terms, *theme),
        decreases tags@.len() - i,
    {
        assert(all.take(i + 1).drop_last() =~= all.take(i as int));
        assert(all.take(i + 1).last() == tags@[i as int]@);
        let ghost before = style::span_views(out@);
        if i > 0 {
            out.push(Span::raw(" · ".to_owned()));
        }
        out.push(backquote());
        let ghost head = out@;
        let mut spans = field_spans(
            tags[i].as_str(),
            scorer,
            patterns,
            QueryField::Tag,
            Style::default(),
            theme.fuzzy_highlight,
        );
        let ghost middle = spans@;
        out.append(&mut spans);
        out.push(backquote());
        assert(style::span_views(head) =~= before + dot(i == 0) + seq![
            style::raw_span(seq!['`']),
        ]);
        assert(style::span_views(out@) =~= style::span_views(head) + style::span_views(middle)
            + seq![style::raw_span(seq!['`'])]);
        i = i + 1;
    }
    assert(all.take(all.len() as int) =~= all);
    out
}

fn variable_spans(variables: &Vec<Variable>) -> (spans: Vec<Span>)
    ensures
        style::span_views(spans@) == variable_runs(
            template::variable_names(domain::variable_views(variables@)),
        ),
{
    let ghost all = template::variable_names(domain::variable_views(variables@));
    let mut out: Vec<Span> = Vec::new();
    let mut i: usize = 0;
    assert(all.take(0) =~= Seq::<Seq<char>>::empty());
    assert(style::span_views(out@) =~= Seq::<style::SpanView>::empty());
    while i < variables.len()
        invariant
            i <= variables@.len(),
            all == template::variable_names(domain::variable_views(variables@)),
            style::span_views(out@) == variable_runs(all.take(i as int)),
        decreases variables@.len() - i,
    {
        assert(all.take(i + 1).drop_last() =~= all.take(i as int));
        assert(all.take(i + 1).last() == variables@[i as int].name@);
        let ghost before = style::span_views(out@);
        if i > 0 {
            out.push(Span::raw(" · ".to_owned()));
        }
        out.push(backquote());
        out.push(Span::raw(variables[i].name.clone()));
        out.push(backquote());
        assert(style::span_views(out@) =~= before + dot(i == 0) + seq![
            style::raw_span(seq!['`']),
            style::raw_span(variables@[i as int].name@),
            style::raw_span(seq!['`']),
        ]);
        i = i + 1;
    }
    assert(all.take(all.len() as int) =~= all);
    out
}

/// The first lines of a snippet's preview: its name, and what else is known
/// of it.
pub open spec fn preview_head(entry: index::EntryView, theme: Theme, terms: Seq<search::TermView>) -> Seq<
    Seq<style::SpanView>,
> {
    let mark = theme.fuzzy_highlight;
    let title = seq![style::styled_span("▍ "@, mark)] + field_runs(
        entry.snippet.name,
        terms,
        QueryField::Name,
        theme.emphasis,
        mark,
    );
    let path = metadata(
        "path"@,
        field_runs(
            index::display_path(entry.relative_path),
            terms,
            QueryField::Path,
            Style::plain(),
            mark,
        ),
        theme,
    );
    let lang = match entry.snippet.language {
        Some(language) => seq![metadata("lang"@, seq![style::raw_span(language)], theme)],
        None => Seq::empty(),
    };
    let tags = if entry.frontmatter.tags.len() > 0 {
        seq![metadata("tags"@, tag_runs(entry.frontmatter.tags, terms, theme), theme)]
    } else {
        Seq::empty()
    };
    let names = template::variable_names(template::first_of_each(entry.snippet.variables));
    let vars = if names.len() > 0 {
        seq![metadata("vars"@, variable_runs(names), theme)]
    } else {
        Seq::empty()
    };
    seq![title, Seq::empty(), path] + lang + tags + vars + seq![Seq::<style::SpanView>::empty()]
}

/// The lines of a description in a preview; none where there is none.
pub open spec fn preview_description(
    description: Option<Seq<Seq<style::SpanView>>>,
    theme: Theme,
    terms: Seq<search::TermView>,
) -> Seq<Seq<style::SpanView>> {
    match description {
        None => Seq::empty(),
        Some(lines) => seq![divider(theme), Seq::empty()] + highlight::marked_text(
            lines,
            highlight::marks_of(
                terms,
                None,
                highlight::letters(highlight::styled_chars(lines)),
            ),
            theme.fuzzy_highlight,
        ) + seq![Seq::<style::SpanView>::empty()],
    }
}

/// The code of a snippet in a preview.
pub open spec fn preview_body(body: Seq<char>, theme: Theme, terms: Seq<search::TermView>) -> Seq<
    Seq<style::SpanView>,
> {
    seq![divider(theme)] + highlight::marked_text(
        shell::shell_lines(body),
        highlight::marks_of(terms, Some(QueryField::Body), body),
        theme.fuzzy_highlight,
    )
}

/// The preview of a snippet, given its rendered description where it has one:
/// what is known of it, its description, and its code.
pub open spec fn preview_lines(
    entry: index::EntryView,
    description: Option<Seq<Seq<style::SpanView>>>,
    theme: Theme,
    terms: Seq<search::TermView>,
) -> Seq<Seq<style::SpanView>> {
    preview_head(entry, theme, terms) + preview_description(description, theme, terms)
        + preview_body(entry.snippet.body, theme, terms)
}

fn head_text(
    snippet: &IndexedSnippet,
    theme: &Theme,
    patterns: &Vec<HighlightPattern>,
    scorer: &mut FuzzyScorer,
) -> (out: Text)
    ensures
        out@ == preview_head(snippet@, *theme, highlight::pattern_views(patterns@)),
{
    let ghost terms = highlight::pattern_views(patterns@);
    let ghost whole = preview_head(snippet@, *theme, terms);
    let mut out = Text::new();
    let mut title: Vec<Span> = Vec::new();
    title.push(Span::styled("▍ ".to_owned(), theme.fuzzy_highlight));
    let ghost front = title@;
    let mut name = field_spans(
        snippet.name(),
        scorer,
        patterns,
        QueryField::Name,
        theme.emphasis,
        theme.fuzzy_highlight,
    );
    let ghost name_spans = name@;
    title.append(&mut name);
    assert(style::span_views(title@) =~= style::span_views(front) + style::span_views(name_spans));
    assert(style::span_views(front) =~= seq![style::styled_span("▍ "@, theme.fuzzy_highlight)]);
    out.push(title);
    let blank: Vec<Span> = Vec::new();
    assert(style::span_views(blank@) =~= Seq::<style::SpanView>::empty());
    out.push(blank);
    let path = snippet.relative_path_display();
    let path_spans = field_spans(
        path.as_str(),
        scorer,
        patterns,
        QueryField::Path,
        Style::default(),
        theme.fuzzy_highlight,
    );
    out.push(metadata_line("path", path_spans, theme));
    let ghost three = out@;
    assert(three =~= seq![whole[0], whole[1], whole[2]]);
    match snippet.language() {
        Some(language) => {
            let mut value: Vec<Span> = Vec::new();
            value.push(Span::raw(language.to_owned()));
            assert(style::span_views(value@) =~= seq![style::raw_span(language@)]);
            out.push(metadata_line("lang", value, theme));
        },
        None => {},
    }
    let ghost lang = match snippet@.snippet.language {
        Some(language) => seq![metadata("lang"@, seq![style::raw_span(language)], *theme)],
        None => Seq::empty(),
    };
    let ghost four = out@;
    assert(four =~= three + lang);
    let tags = snippet.tags();
    assert(text::texts(tags@).len() == tags@.len());
    if tags.len() > 0 {
        let spans = tag_spans(tags, scorer, patterns, theme);
        out.push(metadata_line("tags", spans, theme));
    }
    let ghost tag_line = if snippet@.frontmatter.tags.len() > 0 {
        seq![metadata("tags"@, tag_runs(snippet@.frontmatter.tags, terms, *theme), *theme)]
    } else {
        Seq::empty()
    };
    let ghost five = out@;
    assert(five =~= four + tag_line);
    let variables = template::unique_variables(&snippet.snippet.variables);
    let ghost names = template::variable_names(
        template::first_of_each(snippet@.snippet.variables),
    );
    assert(names.len() == variables@.len());
    if variables.len() > 0 {
        let spans = variable_spans(&variables);
        out.push(metadata_line("vars", spans, theme));
    }
    let ghost var_line = if names.len() > 0 {
        seq![metadata("vars"@, variable_runs(names), *theme)]
    } else {
        Seq::empty()
    };
    assert(out@ =~= five + var_line);
    let blank: Vec<Span> = Vec::new();
    assert(style::span_views(blank@) =~= Seq::<style::SpanView>::empty());
    out.push(blank);
    assert(out@ =~= whole);
    out
}

/// The lines of a rendered description.
pub open spec fn description_lines(description: Option<Text>) -> Option<
    Seq<Seq<style::SpanView>>,
> {
    match description {
        Some(t) => Some(t@),
        None => None,
    }
}

/// The preview of a snippet, given its rendered description where it has one.
pub fn snippet_preview(
    snippet: &IndexedSnippet,
    description: Option<Text>,
    theme: &Theme,
    patterns: &Vec<HighlightPattern>,
    scorer: &mut FuzzyScorer,
) -> (out: Text)
    ensures
        out@ == preview_lines(
            snippet@,
            description_lines(description),
            *theme,
            highlight::pattern_views(patterns@),
        ),
{
    let ghost terms = highlight::pattern_views(patterns@);
    let ghost described = description_lines(description);
    let mut out = head_text(snippet, theme, patterns, scorer);
    let ghost head = out@;
    match description {
        Some(rendered) => {
            out.push(divider_line(theme));
            let blank: Vec<Span> = Vec::new();
            assert(style::span_views(blank@) =~= Seq::<style::SpanView>::empty());
            out.push(blank);
            let display = highlight::text_plain(&rendered);
            let places = highlight::mark_positions(scorer, patterns, None, display.as_str());
            out.extend(highlight::highlight_text(rendered, &places, theme.fuzzy_highlight));
            let blank: Vec<Span> = Vec::new();
            assert(style::span_views(blank@) =~= Seq::<style::SpanView>::empty());
            out.push(blank);
        },
        None => {},
    }
    assert(out@ =~= head + preview_description(described, *theme, terms));
    let ghost middle = out@;
    out.push(divider_line(theme));
    let body = shell::highlight_shell(snippet.body());
    let places = highlight::mark_positions(
        scorer,
        patterns,
        Some(QueryField::Body),
        snippet.body(),
    );
    out.extend(highlight::highlight_text(body, &places, theme.fuzzy_highlight));
    assert(out@ =~= middle + preview_body(snippet@.snippet.body, *theme, terms));
    out
}

/// The preview of a snippet, for a preview of some width.
pub fn render_snippet_preview_text(
    snippet: &IndexedSnippet,
    width: usize,
    theme: &Theme,
    patterns: &Vec<HighlightPattern>,
    scorer: &mut FuzzyScorer,
) -> (out: Text)
    ensures
        shows_snippet(snippet@, width, *theme, highlight::pattern_views(patterns@), out@),
{
    let description = text::trim(snippet.description());
    if description.as_str().is_empty() {
        return snippet_preview(snippet, None, theme, patterns, scorer);
    }
    let rendered = render_markdown_text(description.as_str(), width);
    let ghost lines = rendered@;
    let out = snippet_preview(snippet, Some(rendered), theme, patterns, scorer);
    out
}

/// Whether `lines` preview a snippet, in a preview of some width.
pub open spec fn shows_snippet(
    entry: index::EntryView,
    width: usize,
    theme: Theme,
    terms: Seq<search::TermView>,
    lines: Seq<Seq<style::SpanView>>,
) -> bool {
    if text::trim_of(entry.snippet.description).len() == 0 {
        lines == preview_lines(entry, None, theme, terms)
    } else {
        exists|rendered: Seq<Seq<style::SpanView>>|
            {
                &&& #[trigger] shows_markdown(
                    text::trim_of(entry.snippet.description),
                    width,
                    rendered,
                )
                &&& lines == preview_lines(entry, Some(rendered), theme, terms)
            }
    }
}

/// Whether `lines` show a preview, in some width.
pub open spec fn shows(
    shown: PreviewView,
    width: usize,
    theme: Theme,
    terms: Seq<search::TermView>,
    lines: Seq<Seq<style::SpanView>>,
) -> bool {
    match shown {
        PreviewView::Snippet(entry) => shows_snippet(entry, width, theme, terms, lines),
        PreviewView::Markdown(markdown) => shows_markdown(markdown, width, lines),
        PreviewView::Empty => lines == plain_text_lines("No selection"@),
    }
}

/// What the preview shows, for a preview of some width.
pub fn picker_preview_text(
    preview: PickerPreview<'_>,
    width: usize,
    patterns: &Vec<HighlightPattern>,
    scorer: &mut FuzzyScorer,
    theme: &Theme,
) -> (out: Text)
    ensures
        shows(preview@, width, *theme, highlight::pattern_views(patterns@), out@),
{
    match preview {
        PickerPreview::Snippet(snippet) => render_snippet_preview_text(
            snippet,
            width,
            theme,
            patterns,
            scorer,
        ),
        PickerPreview::Markdown(markdown) => render_markdown_text(markdown.as_str(), width),
        PickerPreview::Empty => plain_text("No selection"),
    }
}

/// The lines of markdown for a directory's children.
pub open spec fn child_list(names: Seq<Seq<char>>) -> Seq<char>
    decreases names.len(),
{
    if names.len() == 0 {
        Seq::empty()
    } else {
        child_list(names.drop_last()) + "- `"@ + names.last() + "/`\n"@
    }
}

/// The lines of markdown for snippets.
pub open spec fn name_list(names: Seq<Seq<char>>) -> Seq<char>
    decreases names.len(),
{
    if names.len() == 0 {
        Seq::empty()
    } else {
        name_list(names.drop_last()) + "- "@ + names.last() + "\n"@
    }
}

/// The names of the snippets of a node.
pub open spec fn snippet_names(snippets: Seq<browse::BrowseSnippetView>) -> Seq<Seq<char>> {
    snippets.map_values(|s: browse::BrowseSnippetView| s.name)
}

/// Markdown for a directory or file: its name, its path and what it holds.
pub open spec fn container_markdown(name: Seq<char>, path: Seq<Seq<char>>, node: DirNode) -> Seq<
    char,
> {
    "# "@ + name + "/\n\n"@ + "**path** `/"@ + text::join_of(path, "/"@) + "/`\n\n---\n\n"@ + (
    if node.children@.len() == 0 && node.snippets@.len() == 0 {
        "_(empty)_\n"@
    } else {
        child_list(browse::child_names(node)) + name_list(
            snippet_names(browse::snippet_views(node.snippets@)),
        )
    })
}

/// Markdown for a directory or file.
pub fn container_preview_markdown(name: &str, path: &Vec<String>, node: &DirNode) -> (md: String)
    ensures
        md@ == container_markdown(name@, text::texts(path@), *node),
{
    let mut md = "# ".to_owned();
    md.append(name);
    md.append("/\n\n");
    md.append("**path** `/");
    let joined = text::join_texts(path, "/");
    md.append(joined.as_str());
    md.append("/`\n\n---\n\n");
    if node.children.len() == 0 && node.snippets.len() == 0 {
        md.append("_(empty)_\n");
        return md;
    }
    let ghost head = md@;
    let ghost names = browse::child_names(*node);
    let mut i: usize = 0;
    assert(names.take(0) =~= Seq::<Seq<char>>::empty());
    assert(md@ =~= head + child_list(names.take(0)));
    while i < node.children.len()
        invariant
            i <= node.children@.len(),
            names == browse::child_names(*node),
            md@ == head + child_list(names.take(i as int)),
        decreases node.children@.len() - i,
    {
        assert(names.take(i + 1).drop_last() =~= names.take(i as int));
        assert(names.take(i + 1).last() == node.children@[i as int].0@);
        let ghost before = child_list(names.take(i as int));
        md.append("- `");
        md.append(node.children[i].0.as_str());
        md.append("/`\n");
        assert(md@ =~= head + (before + "- `"@ + node.children@[i as int].0@ + "/`\n"@));
        i = i + 1;
    }
    assert(names.take(names.len() as int) =~= names);
    let ghost middle = md@;
    let ghost snippets = snippet_names(browse::snippet_views(node.snippets@));
    let mut j: usize = 0;
    assert(snippets.take(0) =~= Seq::<Seq<char>>::empty());
    assert(md@ =~= middle + name_list(snippets.take(0)));
    while j < node.snippets.len()
        invariant
            j <= node.snippets@.len(),
            snippets == snippet_names(browse::snippet_views(node.snippets@)),
            md@ == middle + name_list(snippets.take(j as int)),
        decreases node.snippets@.len() - j,
    {
        assert(snippets.take(j + 1).drop_last() =~= snippets.take(j as int));
        assert(snippets.take(j + 1).last() == node.snippets@[j as int].name@);
        let ghost before = name_list(snippets.take(j as int));
        md.append("- ");
        md.append(node.snippets[j].name.as_str());
        md.append("\n");
        assert(md@ =~= middle + (before + "- "@ + node.snippets@[j as int].name@ + "\n"@));
        j = j + 1;
    }
    assert(snippets.take(snippets.len() as int) =~= snippets);
    assert(md@ =~= container_markdown(name@, text::texts(path@), *node));
    md
}

/// A link is shown as its label, with the address in brackets behind it, and what
/// stands before and behind the link stays.
pub proof fn law_links_are_written_out(
    a: Seq<char>,
    label: Seq<char>,
    url: Seq<char>,
    b: Seq<char>,
)
    requires
        !a.contains('['),
        !label.contains(']'),
        !url.contains(')'),
        label.len() > 0,
        url.len() > 0,
    ensures
        ({
            let s = a + seq!['['] + label + seq![']', '('] + url + seq![')'] + b;
            &&& label != url ==> plain_links(s) == a + (label + " ("@ + url + seq![')'])
                + plain_links(b)
            &&& label == url ==> plain_links(s) == a + label + plain_links(b)
        }),
{
    let s = a + seq!['['] + label + seq![']', '('] + url + seq![')'] + b;
    let open = a.len() as int;
    let close = open + 1 + label.len();
    let end = close + 2 + url.len();
    assert forall|i: int| 0 <= i < a.len() implies a[i] != '[' by {
        assert(a.contains(a[i]));
    }
    let behind = label + seq![']', '('] + url + seq![')'] + b;
    assert(s =~= a + seq!['['] + behind);
    text::lemma_find_first(a, '[', behind, 0);
    let front = a + seq!['['] + label;
    let tail = seq!['('] + url + seq![')'] + b;
    assert(s =~= front + seq![']'] + tail);
    assert forall|i: int| open + 1 <= i < front.len() implies front[i] != ']' by {
        assert(label[i - open - 1] == front[i]);
        assert(label.contains(label[i - open - 1]));
    }
    text::lemma_find_first(front, ']', tail, open + 1);
    assert(s.subrange(close, close + 2) =~= seq![']', '(']);
    assert(text::stands_at(s, seq![']', '('], close));
    let head = front + seq![']', '('] + url;
    assert(s =~= head + seq![')'] + b);
    assert forall|i: int| close + 2 <= i < head.len() implies head[i] != ')' by {
        assert(url[i - close - 2] == head[i]);
        assert(url.contains(url[i - close - 2]));
    }
    text::lemma_find_first(head, ')', b, close + 2);
    assert(s.take(open) =~= a);
    assert(s.subrange(open + 1, close) =~= label);
    assert(s.subrange(close + 2, end) =~= url);
    assert(s.skip(end + 1) =~= b);
}

/// Markdown without brackets is left as it is.
pub proof fn law_text_without_links_stays(s: Seq<char>)
    requires
        !s.contains('['),
    ensures
        plain_links(s) == s,
{
    assert forall|i: int| 0 <= i < s.len() implies s[i] != '[' by {
        assert(s.contains(s[i]));
    }
    text::lemma_find_nothing(s, '[', 0);
}

} // verus!
