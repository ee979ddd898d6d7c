//! Rows of the picker and the lines around them.

use vstd::prelude::*;
use crate::config::Theme;
use crate::execute::app::ListPosition;
use crate::execute::render::highlight;
use crate::execute::render::highlight::HighlightPattern;
use crate::execute::render::preview;
use crate::fuzzy::FuzzyScorer;
use crate::index;
use crate::index::IndexedSnippet;
use crate::search;
use crate::search::QueryField;
use crate::style;
use crate::style::{Span, Style, Text};
use crate::text;

verus! {

broadcast use vstd::string::group_string_axioms;

/// A character, `n` times.
pub open spec fn repeated(c: char, n: nat) -> Seq<char> {
    Seq::new(n, |i: int| c)
}

/// A character, `n` times.
pub fn repeat(c: char, n: usize) -> (out: String)
    ensures
        out@ == repeated(c, n as nat),
{
    let mut out = String::new();
    let mut i: usize = 0;
    while i < n
        invariant
            i <= n,
            out@ == repeated(c, i as nat),
        decreases n - i,
    {
        out.push(c);
        i = i + 1;
        assert(out@ =~= repeated(c, i as nat));
    }
    out
}

/// How many digits `n` has in decimal.
pub fn digits(n: usize) -> (count: usize)
    ensures
        count == text::decimal(n as nat).len(),
{
    let shown = text::decimal_text(n as u64);
    text::chars_of(shown.as_str()).len()
}

/// `n` in decimal with blanks in front, up to a width.
pub open spec fn right_aligned(n: nat, width: nat) -> Seq<char> {
    let shown = text::decimal(n);
    repeated(
        ' ',
        if shown.len() < width {
            (width - shown.len()) as nat
        } else {
            0
        },
    ) + shown
}

/// A row of a list: a marker where it is highlighted, its number, and what it
/// shows. Numbers start at one and are as wide as that of the last row.
pub open spec fn numbered(
    theme: Theme,
    idx: int,
    total: nat,
    selected: int,
    content: Seq<style::SpanView>,
) -> Seq<style::SpanView> {
    let number = right_aligned((idx + 1) as nat, text::decimal(total).len()) + "  "@;
    (if idx == selected {
        seq![
            style::styled_span("▌ "@, theme.selected_marker),
            style::styled_span(number, theme.selected_item),
        ]
    } else {
        seq![style::raw_span("  "@), style::styled_span(number, theme.chrome)]
    }) + content
}

/// A row of a list.
pub fn snippet_list_line(
    theme: &Theme,
    idx: usize,
    total: usize,
    selected: usize,
    content: Vec<Span>,
) -> (spans: Vec<Span>)
    requires
        idx < total,
    ensures
        style::span_views(spans@) == numbered(
            *theme,
            idx as int,
            total as nat,
            selected as int,
            style::span_views(content@),
        ),
{
    let width = digits(total);
    let own = digits(idx + 1);
    let mut number = repeat(
        ' ',
        if own < width {
            width - own
        } else {
            0
        },
    );
    let shown = text::decimal_text((idx + 1) as u64);
    number.append(shown.as_str());
    assert(number@ == right_aligned((idx + 1) as nat, width as nat));
    number.append("  ");
    let mut out: Vec<Span> = Vec::new();
    if idx == selected {
        out.push(Span::styled("▌ ".to_owned(), theme.selected_marker));
        out.push(Span::styled(number, theme.selected_item));
    } else {
        out.push(Span::raw("  ".to_owned()));
        out.push(Span::styled(number, theme.chrome));
    }
    let mut content = content;
    let ghost shown = content@;
    out.append(&mut content);
    assert(style::span_views(out@) =~= numbered(
        *theme,
        idx as int,
        total as nat,
        selected as int,
        style::span_views(shown),
    ));
    out
}

/// How many rows stay empty above a list that stands at the bottom.
pub open spec fn padding_of(height: u16, total: nat) -> nat {
    if total < height {
        (height - total) as nat
    } else {
        0
    }
}

/// The rows of a list that stands at the bottom of its area: the first is the
/// lowest, and empty rows fill the top.
pub open spec fn bottom_up(
    theme: Theme,
    contents: Seq<Seq<style::SpanView>>,
    selected: int,
    height: u16,
) -> Seq<Seq<style::SpanView>> {
    let total = contents.len();
    Seq::new(padding_of(height, total), |i: int| Seq::<style::SpanView>::empty()) + Seq::new(
        total,
        |k: int|
            numbered(theme, total - 1 - k, total, selected, contents[total - 1 - k]),
    )
}

/// The row of such a list that shows the highlighted one.
pub open spec fn visual_row(height: u16, total: nat, selected: int) -> int {
    padding_of(height, total) + (if total >= 1 && selected < total {
        total - 1 - selected
    } else {
        0
    })
}

/// What runs a list's rows show.
pub open spec fn content_views(contents: Seq<Vec<Span>>) -> Seq<Seq<style::SpanView>> {
    contents.map_values(|c: Vec<Span>| style::span_views(c@))
}

/// The rows of a list that stands at the bottom of its area.
pub fn bottom_rows(theme: &Theme, contents: Vec<Vec<Span>>, selected: usize, height: u16) -> (rows:
    Text)
    ensures
        rows@ == bottom_up(*theme, content_views(contents@), selected as int, height),
{
    let total = contents.len();
    let ghost shown = content_views(contents@);
    let ghost whole = bottom_up(*theme, shown, selected as int, height);
    let padding: usize = if total < height as usize {
        height as usize - total
    } else {
        0
    };
    let mut rows = Text::new();
    let mut i: usize = 0;
    assert(rows@ =~= whole.take(0));
    while i < padding
        invariant
            i <= padding,
            padding == padding_of(height, shown.len()),
            whole == bottom_up(*theme, shown, selected as int, height),
            rows@ == whole.take(i as int),
        decreases padding - i,
    {
        let blank: Vec<Span> = Vec::new();
        assert(style::span_views(blank@) =~= whole[i as int]);
        rows.push(blank);
        assert(whole.take(i + 1) =~= whole.take(i as int).push(whole[i as int]));
        i = i + 1;
    }
    let mut contents = contents;
    let mut left: usize = total;
    while left > 0
        invariant
            left <= total,
            total == shown.len(),
            contents@.len() == left,
            content_views(contents@) == shown.take(left as int),
            padding == padding_of(height, shown.len()),
            whole == bottom_up(*theme, shown, selected as int, height),
            rows@ == whole.take(padding + (total - left)),
        decreases left,
    {
        let ghost all = contents@;
        let popped = contents.pop();
        let content = match popped {
            Some(content) => content,
            None => Vec::new(),
        };
        left = left - 1;
        assert(shown.take(left + 1)[left as int] == style::span_views(all[left as int]@));
        assert(style::span_views(content@) == shown[left as int]);
        assert(content_views(contents@) =~= shown.take(left as int));
        let line = snippet_list_line(theme, left, total, selected, content);
        let ghost at = padding + (total - left - 1);
        assert(whole[at] == style::span_views(line@));
        rows.push(line);
        assert(whole.take(at + 1) =~= whole.take(at).push(whole[at]));
    }
    assert(whole.take(whole.len() as int) =~= whole);
    rows
}

/// Where a list of `items` rows is scrolled to: no further than its end.
pub open spec fn clamped_offset(offset: usize, items: nat, height: u16) -> usize {
    let last = if items > height {
        (items - height) as nat
    } else {
        0
    };
    if offset > last {
        last as usize
    } else {
        offset
    }
}

/// Keeps a list from being scrolled past its end.
pub fn clamp_list_offset(position: &mut ListPosition, items_len: usize, height: u16)
    ensures
        final(position).offset == clamped_offset(old(position).offset, items_len as nat, height),
        final(position).selected == old(position).selected,
{
    let last: usize = items_len.saturating_sub(height as usize);
    if position.offset > last {
        position.offset = last;
    }
}

/// The line of a list's number of matches and mode, with dashes to the right
/// edge and a joint where the line of the preview meets it.
pub open spec fn dashes(used: nat, width: u16, joint: Option<u16>) -> Seq<char> {
    let room = if used < width {
        (width - used) as nat
    } else {
        0
    };
    match joint {
        Some(column) if used <= column && column < used + room => repeated(
            '─',
            (column - used) as nat,
        ).push('┴') + repeated('─', (used + room - column - 1) as nat),
        _ => repeated('─', room),
    }
}

fn dash_text(used: usize, width: u16, joint: Option<u16>) -> (out: String)
    ensures
        out@ == dashes(used as nat, width, joint),
{
    let room: usize = (width as usize).saturating_sub(used);
    match joint {
        Some(column) => {
            let column: usize = column as usize;
            if used <= column && column - used < room {
                let mut out = repeat('─', column - used);
                out.push('┴');
                let rest = repeat('─', room - (column - used) - 1);
                out.append(rest.as_str());
                return out;
            }
        },
        None => {},
    }
    repeat('─', room)
}

/// The header of the picker: a line with the count and the mode, and a line
/// with what was typed.
pub open spec fn header_lines(
    theme: Theme,
    prompt: Seq<char>,
    stats: Seq<char>,
    mode: Seq<char>,
    width: u16,
    divider: u16,
) -> Seq<Seq<style::SpanView>> {
    let prefix = "["@ + stats + "] ─ "@;
    let label = "[ "@ + mode + " ]"@;
    seq![
        seq![
            style::styled_span(prefix, theme.divider),
            style::styled_span(label, theme.emphasis),
            style::styled_span(
                seq![' '] + dashes(prefix.len() + label.len() + 1, width, Some(divider)),
                theme.divider,
            ),
        ],
        seq![style::raw_span("> "@), style::styled_span(prompt, theme.emphasis)],
    ]
}

fn bracketed(open: &str, s: &str, close: &str) -> (out: String)
    ensures
        out@ == open@ + s@ + close@,
{
    let mut out = open.to_owned();
    out.append(s);
    out.append(close);
    out
}

/// A blank, and dashes from behind two texts and a blank to the right edge.
fn dashes_behind(a: &String, b: &String, width: u16, joint: Option<u16>) -> (out: String)
    ensures
        out@ == seq![' '] + dashes(a@.len() + b@.len() + 1, width, joint),
{
    let first: usize = text::chars_of(a.as_str()).len();
    let second: usize = text::chars_of(b.as_str()).len();
    let used: usize = first.saturating_add(second).saturating_add(1);
    let line = dash_text(used, width, joint);
    assert(line@ =~= dashes(a@.len() + b@.len() + 1, width, joint));
    let mut out = String::new();
    out.push(' ');
    out.append(line.as_str());
    assert(out@ =~= seq![' '] + line@);
    out
}

/// The header of the picker.
pub fn select_header(
    theme: &Theme,
    prompt: &str,
    stats: &str,
    mode: &str,
    width: u16,
    divider_col: u16,
) -> (lines: Text)
    ensures
        lines@ == header_lines(*theme, prompt@, stats@, mode@, width, divider_col),
{
    let ghost whole = header_lines(*theme, prompt@, stats@, mode@, width, divider_col);
    let prefix = bracketed("[", stats, "] ─ ");
    let label = bracketed("[ ", mode, " ]");
    let right = dashes_behind(&prefix, &label, width, Some(divider_col));
    let mut status: Vec<Span> = Vec::new();
    status.push(Span::styled(prefix, theme.divider));
    status.push(Span::styled(label, theme.emphasis));
    status.push(Span::styled(right, theme.divider));
    let mut typed: Vec<Span> = Vec::new();
    typed.push(Span::raw("> ".to_owned()));
    typed.push(Span::styled(prompt.to_owned(), theme.emphasis));
    assert(style::span_views(status@) =~= whole[0]);
    assert(style::span_views(typed@) =~= whole[1]);
    let mut lines = Text::new();
    lines.push(status);
    lines.push(typed);
    assert(lines@ =~= whole);
    lines
}

/// The line below a prompt's command: which variable is asked for, with dashes
/// to the right edge.
pub open spec fn status_runs(theme: Theme, idx: nat, total: nat, label: Seq<char>, width: u16) -> Seq<
    style::SpanView,
> {
    let prefix = "["@ + (text::decimal(idx) + "/"@ + text::decimal(total)) + "] ─ "@;
    let name = "[ "@ + label + " ]"@;
    seq![
        style::raw_span(prefix),
        style::styled_span(name, theme.emphasis),
        style::raw_span(seq![' '] + dashes(prefix.len() + name.len() + 1, width, None)),
    ]
}

/// The line below a prompt's command.
pub fn prompt_status_line(theme: &Theme, idx: usize, total: usize, label: &str, width: u16) -> (spans:
    Vec<Span>)
    ensures
        style::span_views(spans@) == status_runs(
            *theme,
            idx as nat,
            total as nat,
            label@,
            width,
        ),
{
    let mut place = text::decimal_text(idx as u64);
    let of = text::decimal_text(total as u64);
    place.append("/");
    place.append(of.as_str());
    let prefix = bracketed("[", place.as_str(), "] ─ ");
    let name = bracketed("[ ", label, " ]");
    let right = dashes_behind(&prefix, &name, width, None);
    let mut out: Vec<Span> = Vec::new();
    out.push(Span::raw(prefix));
    out.push(Span::styled(name, theme.emphasis));
    out.push(Span::raw(right));
    assert(style::span_views(out@) =~= status_runs(
        *theme,
        idx as nat,
        total as nat,
        label@,
        width,
    ));
    out
}

/// What a row of fuzzy search shows: the name of a snippet, its file and its
/// language, with what the query matched marked.
pub open spec fn fuzzy_row(
    theme: Theme,
    entry: index::EntryView,
    terms: Seq<search::TermView>,
    selected: bool,
) -> Seq<style::SpanView> {
    let base = if selected {
        theme.selected_item
    } else {
        Style::plain()
    };
    preview::field_runs(entry.snippet.name, terms, QueryField::Name, base, theme.fuzzy_highlight)
        + seq![style::styled_span("  ["@, base)] + preview::field_runs(
        index::display_path(entry.relative_path),
        terms,
        QueryField::Path,
        base,
        theme.fuzzy_highlight,
    ) + (match entry.snippet.language {
        Some(language) => seq![style::styled_span(" · "@ + language, theme.chrome)],
        None => Seq::empty(),
    }) + seq![style::styled_span("]"@, base)]
}

/// What a row of fuzzy search shows.
pub fn fuzzy_snippet_row_spans(
    theme: &Theme,
    snippet: &IndexedSnippet,
    patterns: &Vec<HighlightPattern>,
    scorer: &mut FuzzyScorer,
    selected: bool,
) -> (spans: Vec<Span>)
    ensures
        style::span_views(spans@) == fuzzy_row(
            *theme,
            snippet@,
            highlight::pattern_views(patterns@),
            selected,
        ),
{
    let base = if selected {
        theme.selected_item
    } else {
        Style::default()
    };
    let mut spans = preview::field_spans(
        snippet.name(),
        scorer,
        patterns,
        QueryField::Name,
        base,
        theme.fuzzy_highlight,
    );
    let ghost name = spans@;
    spans.push(Span::styled("  [".to_owned(), base));
    let path = snippet.relative_path_display();
    let mut file = preview::field_spans(
        path.as_str(),
        scorer,
        patterns,
        QueryField::Path,
        base,
        theme.fuzzy_highlight,
    );
    let ghost file_spans = file@;
    spans.append(&mut file);
    let ghost front = spans@;
    assert(style::span_views(front) =~= style::span_views(name) + seq![
        style::styled_span("  ["@, base),
    ] + style::span_views(file_spans));
    match snippet.language() {
        Some(language) => {
            let mut shown = " · ".to_owned();
            shown.append(language);
            spans.push(Span::styled(shown, theme.chrome));
        },
        None => {},
    }
    spans.push(Span::styled("]".to_owned(), base));
    assert(style::span_views(spans@) =~= fuzzy_row(
        *theme,
        snippet@,
        highlight::pattern_views(patterns@),
        selected,
    ));
    spans
}

/// The first row of a list stands lowest, each further one above it, and empty rows
/// fill the top.
pub proof fn law_first_row_is_lowest(
    theme: Theme,
    contents: Seq<Seq<style::SpanView>>,
    selected: int,
    height: u16,
    k: int,
)
    requires
        0 <= k < contents.len(),
    ensures
        ({
            let rows = bottom_up(theme, contents, selected, height);
            let at = rows.len() - 1 - k;
            &&& rows.len() == (if contents.len() < height {
                height as int
            } else {
                contents.len() as int
            })
            &&& rows[at].len() == contents[k].len() + 2
            &&& rows[at].skip(2) == contents[k]
            &&& visual_row(height, contents.len(), k) == at
            &&& k == selected <==> rows[at][1].style == theme.selected_item && rows[at][0].content
                == "▌ "@
            &&& forall|i: int| 0 <= i < rows.len() - contents.len() ==> (#[trigger] rows[i]).len() == 0
        }),
{
    reveal_strlit("▌ ");
    reveal_strlit("  ");
    assert("▌ "@[0] != "  "@[0]);
    let rows = bottom_up(theme, contents, selected, height);
    let at = rows.len() - 1 - k;
    let row = numbered(theme, k, contents.len(), selected, contents[k]);
    assert(rows[at] == row);
    assert(row.skip(2) =~= contents[k]);
}

/// A list is scrolled no further than to its last screen.
pub proof fn law_lists_end_at_the_bottom(offset: usize, items: nat, height: u16)
    requires
        items <= usize::MAX,
    ensures
        clamped_offset(offset, items, height) <= offset,
        items >= height ==> clamped_offset(offset, items, height) + height <= items,
        items < height ==> clamped_offset(offset, items, height) == 0,
        offset + height <= items ==> clamped_offset(offset, items, height) == offset,
{
}

/// Dashes reach to the right edge.
pub proof fn law_dashes_reach_the_edge(used: nat, width: u16, joint: Option<u16>)
    requires
        used <= width,
    ensures
        used + dashes(used, width, joint).len() == width,
        joint is Some && used <= joint->0 < width ==> dashes(used, width, joint)[joint->0 - used]
            == '┴',
{
}

} // verus!
