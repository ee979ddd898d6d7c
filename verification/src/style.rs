//! Colours, styles and styled text.

use vstd::prelude::*;
use crate::text;

verus! {

broadcast use vstd::string::group_string_axioms;

/// A terminal colour.
#[derive(Debug, Clone, Copy, PartialEq, Eq, Structural)]
pub enum Color {
    Reset,
    Black,
    Red,
    Green,
    Yellow,
    Blue,
    Magenta,
    Cyan,
    Gray,
    DarkGray,
    LightRed,
    LightGreen,
    LightYellow,
    LightBlue,
    LightMagenta,
    LightCyan,
    White,
    Rgb(u8, u8, u8),
    Indexed(u8),
}

/// Bold text.
pub const BOLD: u16 = 1;

/// Faint text.
pub const DIM: u16 = 2;

/// Text with foreground and background exchanged.
pub const REVERSED: u16 = 64;

/// How text is shown: colours where they are set, modifiers added and
/// modifiers taken away.
#[derive(Debug, Clone, Copy, PartialEq, Eq, Structural)]
pub struct Style {
    pub fg: Option<Color>,
    pub bg: Option<Color>,
    pub add_modifier: u16,
    pub sub_modifier: u16,
}

impl Style {
    /// The style that changes nothing.
    pub open spec fn plain() -> Style {
        Style { fg: None, bg: None, add_modifier: 0, sub_modifier: 0 }
    }

    /// The style with a foreground.
    pub open spec fn with_fg(self, color: Color) -> Style {
        Style { fg: Some(color), ..self }
    }

    /// The style with a background.
    pub open spec fn with_bg(self, color: Color) -> Style {
        Style { bg: Some(color), ..self }
    }

    /// The style with modifiers added.
    pub open spec fn with_modifier(self, modifier: u16) -> Style {
        Style {
            add_modifier: self.add_modifier | modifier,
            sub_modifier: self.sub_modifier & !modifier,
            ..self
        }
    }

    /// The style with another laid over it: what the other sets wins.
    pub open spec fn patched(self, other: Style) -> Style {
        Style {
            fg: if other.fg is Some {
                other.fg
            } else {
                self.fg
            },
            bg: if other.bg is Some {
                other.bg
            } else {
                self.bg
            },
            add_modifier: (self.add_modifier & !other.sub_modifier) | other.add_modifier,
            sub_modifier: (self.sub_modifier & !other.add_modifier) | other.sub_modifier,
        }
    }

    /// The style with a foreground.
    pub fn fg(self, color: Color) -> (style: Style)
        ensures
            style == self.with_fg(color),
    {
        Style { fg: Some(color), ..self }
    }

    /// The style with a background.
    pub fn bg(self, color: Color) -> (style: Style)
        ensures
            style == self.with_bg(color),
    {
        Style { bg: Some(color), ..self }
    }

    /// The style with modifiers added.
    pub fn add_modifier(self, modifier: u16) -> (style: Style)
        ensures
            style == self.with_modifier(modifier),
    {
        Style {
            add_modifier: self.add_modifier | modifier,
            sub_modifier: self.sub_modifier & !modifier,
            ..self
        }
    }

    /// The style with another laid over it.
    pub fn patch(self, other: Style) -> (style: Style)
        ensures
            style == self.patched(other),
    {
        Style {
            fg: if other.fg.is_some() {
                other.fg
            } else {
                self.fg
            },
            bg: if other.bg.is_some() {
                other.bg
            } else {
                self.bg
            },
            add_modifier: (self.add_modifier & !other.sub_modifier) | other.add_modifier,
            sub_modifier: (self.sub_modifier & !other.add_modifier) | other.sub_modifier,
        }
    }

    /// Whether two styles are the same.
    pub fn same(self, other: Style) -> (yes: bool)
        ensures
            yes == (self == other),
    {
        self == other
    }
}

impl Default for Style {
    /// The style that changes nothing.
    fn default() -> (style: Self)
        ensures
            style == Style::plain(),
    {
        Style { fg: None, bg: None, add_modifier: 0, sub_modifier: 0 }
    }
}

/// A run of text in one style.
#[derive(Debug, PartialEq, Eq)]
pub struct Span {
    pub content: String,
    pub style: Style,
}

/// What a [`Span`] holds.
pub struct SpanView {
    pub content: Seq<char>,
    pub style: Style,
}

impl View for Span {
    type V = SpanView;

    open spec fn view(&self) -> SpanView {
        SpanView { content: self.content@, style: self.style }
    }
}

impl Span {
    /// A run of text in the style that changes nothing.
    pub fn raw(content: String) -> (span: Span)
        ensures
            span@ == raw_span(content@),
    {
        Span { content, style: Style::default() }
    }

    /// A run of text in a style.
    pub fn styled(content: String, style: Style) -> (span: Span)
        ensures
            span@ == (SpanView { content: content@, style }),
    {
        Span { content, style }
    }
}

/// A run of text in the style that changes nothing.
pub open spec fn raw_span(content: Seq<char>) -> SpanView {
    SpanView { content, style: Style::plain() }
}

/// A run of text in a style.
pub open spec fn styled_span(content: Seq<char>, style: Style) -> SpanView {
    SpanView { content, style }
}

/// What the runs of a line hold.
pub open spec fn span_views(spans: Seq<Span>) -> Seq<SpanView> {
    spans.map_values(|s: Span| s@)
}

pub proof fn lemma_spans_push(spans: Seq<Span>, span: Span)
    ensures
        span_views(spans.push(span)) == span_views(spans).push(span@),
{
    assert(span_views(spans.push(span)) =~= span_views(spans).push(span@));
}

/// One line of styled text.
#[derive(Debug, PartialEq, Eq)]
pub struct Line {
    pub spans: Vec<Span>,
}

/// The lines of a styled text as runs.
pub open spec fn line_views(lines: Seq<Line>) -> Seq<Seq<SpanView>> {
    lines.map_values(|l: Line| span_views(l.spans@))
}

pub proof fn lemma_lines_push(lines: Seq<Line>, line: Line)
    ensures
        line_views(lines.push(line)) == line_views(lines).push(span_views(line.spans@)),
{
    assert(line_views(lines.push(line)) =~= line_views(lines).push(span_views(line.spans@)));
}

/// Styled text: lines of runs.
#[derive(Debug, PartialEq, Eq)]
pub struct Text {
    pub lines: Vec<Line>,
}

impl View for Text {
    type V = Seq<Seq<SpanView>>;

    open spec fn view(&self) -> Seq<Seq<SpanView>> {
        line_views(self.lines@)
    }
}

impl Text {
    /// No lines.
    pub fn new() -> (text: Text)
        ensures
            text@ == Seq::<Seq<SpanView>>::empty(),
    {
        let text = Text { lines: Vec::new() };
        assert(text@ =~= Seq::<Seq<SpanView>>::empty());
        text
    }

    /// Puts a line behind the others.
    pub fn push(&mut self, spans: Vec<Span>)
        ensures
            final(self)@ == old(self)@.push(span_views(spans@)),
    {
        let line = Line { spans };
        proof {
            lemma_lines_push(self.lines@, line);
        }
        self.lines.push(line);
    }

    /// Puts the lines of `other` behind the others.
    pub fn extend(&mut self, other: Text)
        ensures
            final(self)@ == old(self)@ + other@,
    {
        let Text { lines } = other;
        let mut lines = lines;
        let ghost before = self.lines@;
        let ghost more = lines@;
        self.lines.append(&mut lines);
        assert(line_views(before + more) =~= line_views(before) + line_views(more));
    }
}

/// The characters of a line.
pub open spec fn plain_line(spans: Seq<SpanView>) -> Seq<char>
    decreases spans.len(),
{
    if spans.len() == 0 {
        Seq::empty()
    } else {
        plain_line(spans.drop_last()) + spans.last().content
    }
}

/// The characters of a text, with a newline between lines.
pub open spec fn plain_text(lines: Seq<Seq<SpanView>>) -> Seq<char>
    decreases lines.len(),
{
    if lines.len() == 0 {
        Seq::empty()
    } else if lines.len() == 1 {
        plain_line(lines[0])
    } else {
        plain_text(lines.drop_last()).push('\n') + plain_line(lines.last())
    }
}

/// A style laid over another one wins where it sets a colour.
pub proof fn law_upper_style_wins(lower: Style, upper: Style)
    ensures
        upper.fg is Some ==> lower.patched(upper).fg == upper.fg,
        upper.fg is None ==> lower.patched(upper).fg == lower.fg,
        upper.bg is Some ==> lower.patched(upper).bg == upper.bg,
        upper.bg is None ==> lower.patched(upper).bg == lower.bg,
{
}

/// The characters of runs are those of each run, one behind the other.
pub proof fn law_runs_stand_one_behind_the_other(a: Seq<SpanView>, b: Seq<SpanView>, run: SpanView)
    ensures
        plain_line(a + b) == plain_line(a) + plain_line(b),
        plain_line(seq![run]) == run.content,
    decreases b.len(),
{
    reveal_with_fuel(plain_line, 2);
    assert(seq![run].drop_last() =~= Seq::<SpanView>::empty());
    assert(plain_line(seq![run]) =~= run.content);
    if b.len() > 0 {
        law_runs_stand_one_behind_the_other(a, b.drop_last(), run);
        assert((a + b).drop_last() =~= a + b.drop_last());
        assert(plain_line(a + b) =~= plain_line(a) + plain_line(b));
    } else {
        assert(a + b =~= a);
        assert(plain_line(a) + plain_line(b) =~= plain_line(a));
    }
}

} // verus!
