//! Marks for what a query matched, laid over plain and over styled text.

use vstd::prelude::*;
use crate::fuzzy;
use crate::fuzzy::{FuzzyScorer, Pattern};
use crate::line_edit;
use crate::needle;
use crate::search;
use crate::search::QueryField;
use crate::style;
use crate::style::{Line, Span, Style, Text};
use crate::text;

verus! {

broadcast use vstd::string::group_string_axioms;

/// A part of a query, parsed, and the field that it marks where it does not
/// mark every field.
pub struct HighlightPattern {
    pub field: Option<QueryField>,
    pub pattern: Pattern,
}

/// The parts of a query behind patterns.
pub open spec fn pattern_views(patterns: Seq<HighlightPattern>) -> Seq<search::TermView> {
    patterns.map_values(
        |p: HighlightPattern| search::TermView { field: p.field, value: p.pattern@ },
    )
}

/// The patterns of a query.
pub fn compile_highlight_patterns(query: &str) -> (patterns: Vec<HighlightPattern>)
    requires
        search::fits(query@),
    ensures
        pattern_views(patterns@) == search::terms_of(query@),
{
    let terms = search::highlight_terms(query);
    let ghost all = search::terms_of(query@);
    let mut out: Vec<HighlightPattern> = Vec::new();
    let mut i: usize = 0;
    assert(pattern_views(out@) =~= all.take(0));
    while i < terms.len()
        invariant
            i <= terms@.len(),
            search::fits(query@),
            all == search::terms_of(query@),
            all == search::term_views(terms@),
            pattern_views(out@) == all.take(i as int),
        decreases terms@.len() - i,
    {
        proof {
            assert(all[i as int] == terms@[i as int]@);
            assert(all.take(i + 1) =~= all.take(i as int).push(all[i as int]));
        }
        let pattern = HighlightPattern {
            field: terms[i].field,
            pattern: fuzzy::build_pattern(terms[i].value.as_str()),
        };
        let ghost before = out@;
        out.push(pattern);
        assert(pattern_views(out@) =~= pattern_views(before).push(all[i as int]));
        i = i + 1;
    }
    assert(all.take(all.len() as int) =~= all);
    out
}

/// Whether a pattern marks a field.
pub open spec fn applies(term: search::TermView, field: Option<QueryField>) -> bool {
    term.field is None || term.field == field
}

/// Whether a place of a text is marked by one of the patterns.
pub open spec fn marks(
    terms: Seq<search::TermView>,
    field: Option<QueryField>,
    haystack: Seq<char>,
    place: u32,
) -> bool {
    exists|i: int|
        {
            &&& 0 <= i < terms.len()
            &&& applies(#[trigger] terms[i], field)
            &&& fuzzy::places_in(terms[i].value, haystack) is Some
            &&& fuzzy::places_in(terms[i].value, haystack)->0.contains(place)
        }
}

/// Whether places go up.
pub open spec fn increasing(places: Seq<usize>) -> bool {
    forall|i: int, j: int| 0 <= i < j < places.len() ==> places[i] < places[j]
}

/// Whether the places are those that the patterns mark, in order.
pub open spec fn marked_places(
    places: Seq<usize>,
    terms: Seq<search::TermView>,
    field: Option<QueryField>,
    haystack: Seq<char>,
) -> bool {
    &&& increasing(places)
    &&& forall|place: u32|
        #[trigger] marks(terms, field, haystack, place) ==> places.contains(place as usize)
    &&& forall|k: int|
        0 <= k < places.len() ==> #[trigger] places[k] <= u32::MAX && marks(
            terms,
            field,
            haystack,
            places[k] as u32,
        )
}

/// The places that the patterns mark, in order.
pub open spec fn places_of(
    terms: Seq<search::TermView>,
    field: Option<QueryField>,
    haystack: Seq<char>,
) -> Seq<usize> {
    choose|places: Seq<usize>| marked_places(places, terms, field, haystack)
}

/// The places that the patterns mark. In a text that is too long for the
/// matcher none are.
pub open spec fn marks_of(
    terms: Seq<search::TermView>,
    field: Option<QueryField>,
    haystack: Seq<char>,
) -> Seq<usize> {
    if needle::short_enough(haystack) {
        places_of(terms, field, haystack)
    } else {
        Seq::empty()
    }
}

proof fn lemma_increasing_unique(a: Seq<usize>, b: Seq<usize>)
    requires
        increasing(a),
        increasing(b),
        forall|x: usize| #[trigger] a.contains(x) <==> b.contains(x),
    ensures
        a == b,
    decreases a.len(),
{
    if a.len() == 0 {
        if b.len() > 0 {
            assert(b.contains(b[0]));
            assert(a.contains(b[0]));
        }
        assert(a =~= b);
    } else {
        assert(a.contains(a[0]));
        let x = a.last();
        assert(a.contains(x));
        let k = b.index_of(x);
        assert(b[k] == x);
        if k < b.len() - 1 {
            let y = b.last();
            assert(b.contains(y));
            assert(a.contains(y));
            let j = a.index_of(y);
            assert(a[j] == y);
            assert(x < y);
        }
        assert(b.last() == x);
        assert forall|z: usize| #[trigger]
            a.drop_last().contains(z) <==> b.drop_last().contains(z) by {
            if a.drop_last().contains(z) {
                let j = a.drop_last().index_of(z);
                assert(a[j] == z);
                assert(a.contains(z));
                let m = b.index_of(z);
                assert(b[m] == z);
                assert(a[j] < a[a.len() - 1]);
                assert(b.drop_last()[m] == z);
            }
            if b.drop_last().contains(z) {
                let j = b.drop_last().index_of(z);
                assert(b[j] == z);
                assert(b.contains(z));
                assert(a.contains(z));
                let m = a.index_of(z);
                assert(a[m] == z);
                assert(b[j] < b[b.len() - 1]);
                assert(a.drop_last()[m] == z);
            }
        }
        lemma_increasing_unique(a.drop_last(), b.drop_last());
        assert(a =~= a.drop_last().push(x));
        assert(b =~= b.drop_last().push(x));
    }
}

/// There is one list of the places that the patterns mark.
proof fn lemma_places_unique(
    places: Seq<usize>,
    terms: Seq<search::TermView>,
    field: Option<QueryField>,
    haystack: Seq<char>,
)
    requires
        marked_places(places, terms, field, haystack),
    ensures
        places == places_of(terms, field, haystack),
{
    let other = places_of(terms, field, haystack);
    assert(marked_places(other, terms, field, haystack));
    assert forall|x: usize| #[trigger] places.contains(x) <==> other.contains(x) by {
        if places.contains(x) {
            let k = places.index_of(x);
            assert(places[k] == x);
            assert(other.contains((x as u32) as usize));
        }
        if other.contains(x) {
            let k = other.index_of(x);
            assert(other[k] == x);
            assert(places.contains((x as u32) as usize));
        }
    }
    lemma_increasing_unique(places, other);
}

/// Puts `place` into places that go up, unless it is there.
fn add_place(places: &mut Vec<usize>, place: usize)
    requires
        increasing(old(places)@),
    ensures
        increasing(final(places)@),
        forall|x: usize| #[trigger]
            final(places)@.contains(x) <==> old(places)@.contains(x) || x == place,
{
    let ghost before = places@;
    let mut at: usize = 0;
    while at < places.len() && places[at] < place
        invariant
            at <= places@.len(),
            places@ == before,
            forall|j: int| 0 <= j < at ==> places@[j] < place,
        decreases places@.len() - at,
    {
        at = at + 1;
    }
    if at < places.len() && places[at] == place {
        assert(before.contains(before[at as int]));
        return ;
    }
    places.insert(at, place);
    proof {
        let now = places@;
        assert(now =~= before.insert(at as int, place));
        assert(now[at as int] == place);
        assert forall|x: usize| #[trigger] now.contains(x) <==> before.contains(x) || x == place by {
            if before.contains(x) {
                let k = before.index_of(x);
                if k < at {
                    assert(now[k] == x);
                } else {
                    assert(now[k + 1] == x);
                }
            }
            if now.contains(x) {
                let k = now.index_of(x);
                if k < at {
                    assert(before[k] == x);
                } else if k > at {
                    assert(before[k - 1] == x);
                }
            }
        }
    }
}

/// The places of a text that the patterns mark, each once and in order.
pub fn match_positions(
    scorer: &mut FuzzyScorer,
    patterns: &Vec<HighlightPattern>,
    field: Option<QueryField>,
    haystack: &str,
) -> (places: Vec<usize>)
    requires
        needle::short_enough(haystack@),
    ensures
        marked_places(places@, pattern_views(patterns@), field, haystack@),
        places@ == places_of(pattern_views(patterns@), field, haystack@),
{
    let ghost terms = pattern_views(patterns@);
    let mut out: Vec<usize> = Vec::new();
    let mut i: usize = 0;
    assert(terms.take(0) =~= Seq::<search::TermView>::empty());
    while i < patterns.len()
        invariant
            i <= patterns@.len(),
            needle::short_enough(haystack@),
            terms == pattern_views(patterns@),
            marked_places(out@, terms.take(i as int), field, haystack@),
        decreases patterns@.len() - i,
    {
        let ghost seen = terms.take(i as int);
        let ghost more = terms.take(i + 1);
        let ghost term = terms[i as int];
        let ghost start = out@;
        assert(more[i as int] == term);
        assert(term == (search::TermView {
            field: patterns@[i as int].field,
            value: patterns@[i as int].pattern@,
        }));
        let pattern = &patterns[i];
        let relevant = match pattern.field {
            None => true,
            Some(f) => match field {
                Some(g) => f == g,
                None => false,
            },
        };
        assert(relevant == applies(term, field));
        let ghost mut found_all: Seq<u32> = Seq::empty();
        if relevant {
            match scorer.indices(&pattern.pattern, haystack) {
                Some(found) => {
                    proof {
                        found_all = fuzzy::places_in(term.value, haystack@)->0;
                    }
                    let mut k: usize = 0;
                    while k < found.len()
                        invariant
                            k <= found@.len(),
                            increasing(out@),
                            forall|x: usize| #[trigger]
                                out@.contains(x) <==> start.contains(x) || found@.take(
                                    k as int,
                                ).contains(x),
                        decreases found@.len() - k,
                    {
                        let ghost was = out@;
                        add_place(&mut out, found[k]);
                        proof {
                            assert forall|x: usize| #[trigger]
                                out@.contains(x) <==> start.contains(x) || found@.take(
                                    k + 1,
                                ).contains(x) by {
                                assert(was.contains(x) <==> start.contains(x) || found@.take(
                                    k as int,
                                ).contains(x));
                                assert(found@.take(k + 1)[k as int] == found@[k as int]);
                                if found@.take(k as int).contains(x) {
                                    let j = found@.take(k as int).index_of(x);
                                    assert(found@.take(k + 1)[j] == x);
                                }
                                if found@.take(k + 1).contains(x) {
                                    let j = found@.take(k + 1).index_of(x);
                                    if j < k {
                                        assert(found@.take(k as int)[j] == x);
                                    }
                                }
                            }
                        }
                        k = k + 1;
                    }
                    assert(found@.take(found@.len() as int) =~= found@);
                    proof {
                        assert forall|x: usize| #[trigger] found@.contains(x) <==> x <= u32::MAX
                            && found_all.contains(x as u32) by {
                            if found@.contains(x) {
                                let j = found@.index_of(x);
                                assert(found@[j] == x);
                            }
                            if x <= u32::MAX && found_all.contains(x as u32) {
                                assert(found@.contains((x as u32) as usize));
                            }
                        }
                    }
                },
                None => {},
            }
        }
        proof {
            let hit = applies(term, field) && fuzzy::places_in(term.value, haystack@) is Some;
            assert forall|place: u32| #[trigger] marks(more, field, haystack@, place) <==> (marks(
                seen,
                field,
                haystack@,
                place,
            ) || (hit && found_all.contains(place))) by {
                if marks(more, field, haystack@, place) {
                    let j = choose|j: int|
                        {
                            &&& 0 <= j < more.len()
                            &&& applies(#[trigger] more[j], field)
                            &&& fuzzy::places_in(more[j].value, haystack@) is Some
                            &&& fuzzy::places_in(more[j].value, haystack@)->0.contains(place)
                        };
                    if j < i {
                        assert(seen[j] == more[j]);
                    }
                }
                if marks(seen, field, haystack@, place) {
                    let j = choose|j: int|
                        {
                            &&& 0 <= j < seen.len()
                            &&& applies(#[trigger] seen[j], field)
                            &&& fuzzy::places_in(seen[j].value, haystack@) is Some
                            &&& fuzzy::places_in(seen[j].value, haystack@)->0.contains(place)
                        };
                    assert(more[j] == seen[j]);
                }
            }
            assert forall|place: u32| #[trigger]
                marks(more, field, haystack@, place) implies out@.contains(place as usize) by {
                if marks(seen, field, haystack@, place) {
                    assert(start.contains(place as usize));
                }
            }
            assert forall|k: int| 0 <= k < out@.len() implies #[trigger] out@[k] <= u32::MAX
                && marks(more, field, haystack@, out@[k] as u32) by {
                let x = out@[k];
                assert(out@.contains(x));
                if start.contains(x) {
                    let j = start.index_of(x);
                    assert(start[j] <= u32::MAX);
                    assert(marks(seen, field, haystack@, x as u32));
                }
            }
        }
        i = i + 1;
    }
    assert(terms.take(terms.len() as int) =~= terms);
    proof {
        lemma_places_unique(out@, terms, field, haystack@);
    }
    out
}

/// The places of a text that the patterns mark; none in a text that is too
/// long for the matcher.
pub fn mark_positions(
    scorer: &mut FuzzyScorer,
    patterns: &Vec<HighlightPattern>,
    field: Option<QueryField>,
    haystack: &str,
) -> (places: Vec<usize>)
    ensures
        places@ == marks_of(pattern_views(patterns@), field, haystack@),
        increasing(places@),
{
    if line_edit::byte_count(haystack) as u64 > u32::MAX as u64 {
        return Vec::new();
    }
    match_positions(scorer, patterns, field, haystack)
}

/// A character and its style.
#[derive(Debug, Clone, Copy, PartialEq, Eq)]
pub struct StyledChar {
    pub ch: char,
    pub style: Style,
}

/// A character in a style.
pub open spec fn styled_char(ch: char, style: Style) -> StyledChar {
    StyledChar { ch, style }
}

/// The runs of a line after one character more: it extends the last run where
/// that has the same style.
pub open spec fn run_with(runs: Seq<style::SpanView>, c: StyledChar) -> Seq<style::SpanView> {
    if runs.len() > 0 && runs.last().style == c.style {
        runs.drop_last().push(style::styled_span(runs.last().content.push(c.ch), c.style))
    } else {
        runs.push(style::styled_span(seq![c.ch], c.style))
    }
}

/// The runs that characters make: neighbours of one style stand together.
pub open spec fn runs_of(chars: Seq<StyledChar>) -> Seq<style::SpanView>
    decreases chars.len(),
{
    if chars.len() == 0 {
        Seq::empty()
    } else {
        run_with(runs_of(chars.drop_last()), chars.last())
    }
}

/// The characters of a text, those at the places in `places` marked.
pub open spec fn marked_chars(s: Seq<char>, places: Seq<usize>, base: Style, mark: Style) -> Seq<
    StyledChar,
> {
    Seq::new(
        s.len(),
        |i: int|
            styled_char(
                s[i],
                if i <= usize::MAX && places.contains(i as usize) {
                    base.patched(mark)
                } else {
                    base
                },
            ),
    )
}

/// Adds a character to the runs of a line.
fn push_char(spans: &mut Vec<Span>, c: StyledChar)
    ensures
        style::span_views(final(spans)@) == run_with(style::span_views(old(spans)@), c),
{
    let n: usize = spans.len();
    let ghost before = style::span_views(spans@);
    if n > 0 && spans[n - 1].style.same(c.style) {
        assert(before.last() == spans@[n - 1]@);
        let mut content = String::new();
        std::mem::swap(&mut content, &mut spans[n - 1].content);
        content.push(c.ch);
        std::mem::swap(&mut content, &mut spans[n - 1].content);
        assert(style::span_views(spans@) =~= run_with(before, c));
    } else {
        let mut content = String::new();
        content.push(c.ch);
        assert(content@ =~= seq![c.ch]);
        let span = Span::styled(content, c.style);
        proof {
            if n > 0 {
                assert(before.last() == spans@[n - 1]@);
            }
            style::lemma_spans_push(spans@, span);
        }
        spans.push(span);
    }
}

/// A text as runs, its characters at `indices` marked.
pub fn highlighted_spans(s: &str, indices: &Vec<usize>, base_style: Style, highlight_style: Style) -> (spans:
    Vec<Span>)
    requires
        increasing(indices@),
    ensures
        style::span_views(spans@) == runs_of(
            marked_chars(s@, indices@, base_style, highlight_style),
        ),
{
    let chars = text::chars_of(s);
    let ghost all = marked_chars(s@, indices@, base_style, highlight_style);
    assert(all.len() == s@.len());
    let marked_style = base_style.patch(highlight_style);
    let mut out: Vec<Span> = Vec::new();
    let mut next: usize = 0;
    let mut i: usize = 0;
    assert(all.take(0) =~= Seq::<StyledChar>::empty());
    assert(style::span_views(out@) =~= Seq::<style::SpanView>::empty());
    while i < chars.len()
        invariant
            i <= chars@.len(),
            chars@ == s@,
            increasing(indices@),
            next <= indices@.len(),
            forall|k: int| 0 <= k < next ==> indices@[k] < i,
            next < indices@.len() ==> indices@[next as int] >= i,
            marked_style == base_style.patched(highlight_style),
            all == marked_chars(s@, indices@, base_style, highlight_style),
            all.len() == s@.len(),
            style::span_views(out@) == runs_of(all.take(i as int)),
        decreases chars@.len() - i,
    {
        let hit = next < indices.len() && indices[next] == i;
        proof {
            if indices@.contains(i) {
                let k = indices@.index_of(i);
                assert(indices@[k] == i);
                assert(k >= next);
                if k > next {
                    assert(indices@[next as int] < indices@[k]);
                }
            }
            if hit {
                assert(indices@[next as int] == i);
                assert(indices@.contains(i));
            }
            assert(hit == indices@.contains(i));
            assert(all.take(i + 1).drop_last() =~= all.take(i as int));
            assert(all.take(i + 1).last() == all[i as int]);
        }
        push_char(
            &mut out,
            StyledChar {
                ch: chars[i],
                style: if hit {
                    marked_style
                } else {
                    base_style
                },
            },
        );
        if hit {
            proof {
                if next + 1 < indices@.len() {
                    assert(indices@[next as int] < indices@[next + 1]);
                }
            }
            next = next + 1;
        }
        i = i + 1;
    }
    assert(all.take(all.len() as int) =~= all);
    out
}

/// The characters of a run.
pub open spec fn span_chars(span: style::SpanView) -> Seq<StyledChar> {
    span.content.map_values(|c: char| styled_char(c, span.style))
}

/// The characters of a line.
pub open spec fn line_chars(spans: Seq<style::SpanView>) -> Seq<StyledChar>
    decreases spans.len(),
{
    if spans.len() == 0 {
        Seq::empty()
    } else {
        line_chars(spans.drop_last()) + span_chars(spans.last())
    }
}

/// The newline between two lines.
pub open spec fn newline() -> StyledChar {
    StyledChar { ch: '\n', style: Style::plain() }
}

/// The characters of a text, with a newline between lines.
pub open spec fn styled_chars(lines: Seq<Seq<style::SpanView>>) -> Seq<StyledChar>
    decreases lines.len(),
{
    if lines.len() == 0 {
        Seq::empty()
    } else if lines.len() == 1 {
        line_chars(lines[0])
    } else {
        styled_chars(lines.drop_last()).push(newline()) + line_chars(lines.last())
    }
}

/// The lines of a text after one character more.
pub open spec fn lines_with(lines: Seq<Seq<style::SpanView>>, c: StyledChar) -> Seq<
    Seq<style::SpanView>,
> {
    if c.ch == '\n' {
        lines.push(Seq::empty())
    } else {
        lines.drop_last().push(run_with(lines.last(), c))
    }
}

/// The lines that characters make.
pub open spec fn rebuilt(chars: Seq<StyledChar>) -> Seq<Seq<style::SpanView>>
    decreases chars.len(),
{
    if chars.len() == 0 {
        seq![Seq::empty()]
    } else {
        lines_with(rebuilt(chars.drop_last()), chars.last())
    }
}

/// The characters with the one at `place` marked, unless it is a newline or
/// there is none.
pub open spec fn mark_at(chars: Seq<StyledChar>, place: usize, mark: Style) -> Seq<StyledChar> {
    if place < chars.len() && chars[place as int].ch != '\n' {
        chars.update(
            place as int,
            StyledChar {
                style: chars[place as int].style.patched(mark),
                ..chars[place as int]
            },
        )
    } else {
        chars
    }
}

/// The characters with those at `places` marked.
pub open spec fn mark_all(chars: Seq<StyledChar>, places: Seq<usize>, mark: Style) -> Seq<
    StyledChar,
>
    decreases places.len(),
{
    if places.len() == 0 {
        chars
    } else {
        mark_at(mark_all(chars, places.drop_last(), mark), places.last(), mark)
    }
}

/// A text with the characters at `places` marked over their own style.
pub open spec fn marked_text(
    lines: Seq<Seq<style::SpanView>>,
    places: Seq<usize>,
    mark: Style,
) -> Seq<Seq<style::SpanView>> {
    if places.len() == 0 {
        lines
    } else {
        rebuilt(mark_all(styled_chars(lines), places, mark))
    }
}

/// Adds the characters of a run.
fn push_span_chars(chars: &mut Vec<StyledChar>, span: &Span)
    ensures
        final(chars)@ == old(chars)@ + span_chars(span@),
{
    let content = text::chars_of(span.content.as_str());
    let ghost start = chars@;
    let ghost all = span_chars(span@);
    assert(all.len() == content@.len());
    let mut i: usize = 0;
    assert(chars@ =~= start + all.take(0));
    while i < content.len()
        invariant
            i <= content@.len(),
            content@ == span@.content,
            all == span_chars(span@),
            all.len() == content@.len(),
            chars@ == start + all.take(i as int),
        decreases content@.len() - i,
    {
        let c = StyledChar { ch: content[i], style: span.style };
        assert(all[i as int] == c);
        assert(all.take(i + 1) =~= all.take(i as int).push(c));
        assert((start + all.take(i as int)).push(c) =~= start + all.take(i + 1));
        chars.push(c);
        i = i + 1;
    }
    assert(all.take(all.len() as int) =~= all);
}

/// Adds the characters of a line.
fn push_line_chars(chars: &mut Vec<StyledChar>, spans: &Vec<Span>)
    ensures
        final(chars)@ == old(chars)@ + line_chars(style::span_views(spans@)),
{
    let ghost start = chars@;
    let ghost all = style::span_views(spans@);
    let mut i: usize = 0;
    assert(all.take(0) =~= Seq::<style::SpanView>::empty());
    assert(chars@ =~= start + line_chars(all.take(0)));
    while i < spans.len()
        invariant
            i <= spans@.len(),
            all == style::span_views(spans@),
            chars@ == start + line_chars(all.take(i as int)),
        decreases spans@.len() - i,
    {
        assert(all.take(i + 1).drop_last() =~= all.take(i as int));
        assert(all.take(i + 1).last() == spans@[i as int]@);
        assert(start + line_chars(all.take(i as int)) + span_chars(spans@[i as int]@) =~= start
            + line_chars(all.take(i + 1)));
        push_span_chars(chars, &spans[i]);
        i = i + 1;
    }
    assert(all.take(all.len() as int) =~= all);
}

/// The characters of a text, with a newline between lines.
pub fn text_to_styled_chars(t: &Text) -> (chars: Vec<StyledChar>)
    ensures
        chars@ == styled_chars(t@),
{
    let ghost all = t@;
    let mut out: Vec<StyledChar> = Vec::new();
    let mut i: usize = 0;
    while i < t.lines.len()
        invariant
            i <= t.lines@.len(),
            all == style::line_views(t.lines@),
            i == 0 ==> out@ == Seq::<StyledChar>::empty(),
            i > 0 ==> out@ == styled_chars(all.take(i as int)),
        decreases t.lines@.len() - i,
    {
        let ghost line = style::span_views(t.lines@[i as int].spans@);
        assert(all[i as int] == line);
        assert(all.take(i + 1).drop_last() =~= all.take(i as int));
        assert(all.take(i + 1).last() == line);
        if i > 0 {
            out.push(StyledChar { ch: '\n', style: Style::default() });
        } else {
            assert(Seq::<StyledChar>::empty() + line_chars(line) =~= line_chars(line));
        }
        push_line_chars(&mut out, &t.lines[i].spans);
        i = i + 1;
    }
    assert(all.take(all.len() as int) =~= all);
    out
}

/// The text that characters make.
pub fn styled_chars_to_text(chars: &Vec<StyledChar>) -> (t: Text)
    ensures
        t@ == rebuilt(chars@),
{
    let mut lines: Vec<Line> = Vec::new();
    lines.push(Line { spans: Vec::new() });
    assert(style::span_views(lines@[0].spans@) =~= Seq::<style::SpanView>::empty());
    assert(style::line_views(lines@) =~= seq![Seq::<style::SpanView>::empty()]);
    let mut i: usize = 0;
    assert(chars@.take(0) =~= Seq::<StyledChar>::empty());
    while i < chars.len()
        invariant
            i <= chars@.len(),
            lines@.len() > 0,
            style::line_views(lines@) == rebuilt(chars@.take(i as int)),
        decreases chars@.len() - i,
    {
        assert(chars@.take(i + 1).drop_last() =~= chars@.take(i as int));
        assert(chars@.take(i + 1).last() == chars@[i as int]);
        let ghost before = style::line_views(lines@);
        let c = chars[i];
        if c.ch == '\n' {
            let line = Line { spans: Vec::new() };
            proof {
                style::lemma_lines_push(lines@, line);
                assert(style::span_views(line.spans@) =~= Seq::<style::SpanView>::empty());
            }
            lines.push(line);
        } else {
            let last: usize = lines.len() - 1;
            assert(before.last() == style::span_views(lines@[last as int].spans@));
            let mut line = Line { spans: Vec::new() };
            std::mem::swap(&mut line, &mut lines[last]);
            push_char(&mut line.spans, c);
            std::mem::swap(&mut line, &mut lines[last]);
            assert(style::line_views(lines@) =~= lines_with(before, c));
        }
        i = i + 1;
    }
    assert(chars@.take(chars@.len() as int) =~= chars@);
    Text { lines }
}

/// Characters without their styles.
pub open spec fn letters(chars: Seq<StyledChar>) -> Seq<char> {
    chars.map_values(|c: StyledChar| c.ch)
}

/// The characters of a text without their styles.
pub fn text_plain(t: &Text) -> (plain: String)
    ensures
        plain@ == letters(styled_chars(t@)),
{
    let chars = text_to_styled_chars(t);
    let ghost all = letters(chars@);
    let mut out = String::new();
    let mut i: usize = 0;
    assert(out@ =~= all.take(0));
    while i < chars.len()
        invariant
            i <= chars@.len(),
            all == letters(chars@),
            out@ == all.take(i as int),
        decreases chars@.len() - i,
    {
        assert(all.take(i + 1) =~= all.take(i as int).push(all[i as int]));
        out.push(chars[i].ch);
        i = i + 1;
    }
    assert(all.take(all.len() as int) =~= all);
    out
}

/// A text with the characters at `indices` marked over their own style.
pub fn highlight_text(t: Text, indices: &Vec<usize>, highlight_style: Style) -> (out: Text)
    ensures
        out@ == marked_text(t@, indices@, highlight_style),
{
    if indices.len() == 0 {
        return t;
    }
    let mut chars = text_to_styled_chars(&t);
    let ghost start = chars@;
    let mut i: usize = 0;
    assert(indices@.take(0) =~= Seq::<usize>::empty());
    while i < indices.len()
        invariant
            i <= indices@.len(),
            chars@ == mark_all(start, indices@.take(i as int), highlight_style),
        decreases indices@.len() - i,
    {
        assert(indices@.take(i + 1).drop_last() =~= indices@.take(i as int));
        assert(indices@.take(i + 1).last() == indices@[i as int]);
        let place: usize = indices[i];
        if place < chars.len() && chars[place].ch != '\n' {
            let c = chars[place];
            chars.set(place, StyledChar { ch: c.ch, style: c.style.patch(highlight_style) });
        }
        i = i + 1;
    }
    assert(indices@.take(indices@.len() as int) =~= indices@);
    styled_chars_to_text(&chars)
}

proof fn lemma_run_with(runs: Seq<style::SpanView>, c: StyledChar)
    ensures
        line_chars(run_with(runs, c)) == line_chars(runs).push(c),
{
    let now = run_with(runs, c);
    if runs.len() > 0 && runs.last().style == c.style {
        let content = runs.last().content;
        assert(now.drop_last() =~= runs.drop_last());
        assert(span_chars(now.last()) =~= span_chars(runs.last()).push(c));
        assert(line_chars(now) =~= line_chars(runs).push(c));
    } else {
        assert(now.drop_last() =~= runs);
        assert(span_chars(now.last()) =~= seq![c]);
        assert(line_chars(now) =~= line_chars(runs).push(c));
    }
}

/// The runs of characters hold those characters, each in its style.
pub proof fn law_runs_hold_the_characters(chars: Seq<StyledChar>)
    ensures
        line_chars(runs_of(chars)) == chars,
    decreases chars.len(),
{
    if chars.len() > 0 {
        law_runs_hold_the_characters(chars.drop_last());
        lemma_run_with(runs_of(chars.drop_last()), chars.last());
        assert(chars.drop_last().push(chars.last()) =~= chars);
    }
}

proof fn lemma_lines_with(lines: Seq<Seq<style::SpanView>>, c: StyledChar)
    requires
        lines.len() > 0,
    ensures
        lines_with(lines, c).len() > 0,
        letters(styled_chars(lines_with(lines, c))) == letters(styled_chars(lines)).push(c.ch),
{
    let now = lines_with(lines, c);
    let before = styled_chars(lines);
    if c.ch == '\n' {
        assert(now.drop_last() =~= lines);
        assert(styled_chars(now) =~= before.push(newline()));
    } else {
        lemma_run_with(lines.last(), c);
        assert(now.drop_last() =~= lines.drop_last());
        assert(styled_chars(now) =~= before.push(c));
    }
    assert(letters(styled_chars(now)) =~= letters(before).push(c.ch));
}

proof fn lemma_rebuilt(chars: Seq<StyledChar>)
    ensures
        rebuilt(chars).len() > 0,
        letters(styled_chars(rebuilt(chars))) == letters(chars),
    decreases chars.len(),
{
    reveal_with_fuel(line_chars, 2);
    if chars.len() == 0 {
        assert(letters(styled_chars(rebuilt(chars))) =~= letters(chars));
    } else {
        lemma_rebuilt(chars.drop_last());
        lemma_lines_with(rebuilt(chars.drop_last()), chars.last());
        assert(letters(chars) =~= letters(chars.drop_last()).push(chars.last().ch));
    }
}

proof fn lemma_mark_all(chars: Seq<StyledChar>, places: Seq<usize>, mark: Style)
    ensures
        letters(mark_all(chars, places, mark)) == letters(chars),
    decreases places.len(),
{
    if places.len() > 0 {
        lemma_mark_all(chars, places.drop_last(), mark);
        let before = mark_all(chars, places.drop_last(), mark);
        assert(letters(mark_at(before, places.last(), mark)) =~= letters(before));
    }
}

/// Marks change no character of a text.
pub proof fn law_marks_keep_the_text(
    lines: Seq<Seq<style::SpanView>>,
    places: Seq<usize>,
    mark: Style,
)
    ensures
        letters(styled_chars(marked_text(lines, places, mark))) == letters(styled_chars(lines)),
{
    if places.len() > 0 {
        lemma_mark_all(styled_chars(lines), places, mark);
        lemma_rebuilt(mark_all(styled_chars(lines), places, mark));
    }
}

/// A part of a query that searches one field marks nothing in the texts of another.
pub proof fn law_operators_mark_their_field_only(
    terms: Seq<search::TermView>,
    field: QueryField,
    haystack: Seq<char>,
    place: u32,
)
    requires
        forall|i: int|
            0 <= i < terms.len() ==> (#[trigger] terms[i]).field is Some && terms[i].field != Some(
                field,
            ),
    ensures
        !marks(terms, Some(field), haystack, place),
        !marks(terms, None, haystack, place),
{
}

/// A part of a query that searches everything, or the field at hand, marks what it
/// matched.
pub proof fn law_matches_are_marked(
    terms: Seq<search::TermView>,
    field: Option<QueryField>,
    haystack: Seq<char>,
    place: u32,
    i: int,
)
    requires
        0 <= i < terms.len(),
        terms[i].field is None || terms[i].field == field,
        fuzzy::places_in(terms[i].value, haystack) is Some,
        fuzzy::places_in(terms[i].value, haystack)->0.contains(place),
    ensures
        marks(terms, field, haystack, place),
{
    assert(applies(terms[i], field));
}

/// The characters at the marked places are marked over the style of the text, and
/// the others have that style.
pub proof fn law_marked_characters(
    s: Seq<char>,
    places: Seq<usize>,
    base: Style,
    mark: Style,
    i: int,
)
    requires
        0 <= i < s.len() <= usize::MAX,
    ensures
        ({
            let shown = marked_chars(s, places, base, mark);
            &&& shown.len() == s.len()
            &&& shown[i].ch == s[i]
            &&& places.contains(i as usize) ==> shown[i].style == base.patched(mark)
            &&& !places.contains(i as usize) ==> shown[i].style == base
        }),
{
}

/// Marking changes the style of characters at the marked places alone.
pub proof fn law_other_characters_stay(
    chars: Seq<StyledChar>,
    places: Seq<usize>,
    mark: Style,
    i: int,
)
    requires
        0 <= i < chars.len() <= usize::MAX,
        !places.contains(i as usize),
    ensures
        mark_all(chars, places, mark).len() == chars.len(),
        mark_all(chars, places, mark)[i] == chars[i],
    decreases places.len(),
{
    if places.len() > 0 {
        let front = places.drop_last();
        if front.contains(i as usize) {
            let k = front.index_of(i as usize);
            assert(places[k] == i as usize);
        }
        assert(places[places.len() - 1] == places.last());
        assert(places.contains(places.last()));
        law_other_characters_stay(chars, front, mark, i);
    }
}

} // verus!
