//! Snippet bodies as templates: literal text and `<@name[:source]>`
//! placeholders, filled with values, shown with styles, and measured for the
//! place of the cursor.

use vstd::prelude::*;
use crate::command_template;
use crate::command_template::Fragment;
use crate::config::Theme;
use crate::domain;
use crate::domain::{Variable, VariableSource};
use crate::style;
use crate::style::{Line, Span, Style, Text};
use crate::text;
use crate::text_map::TextMap;

verus! {

broadcast use vstd::string::group_string_axioms;

/// One piece of a template.
#[derive(Debug, PartialEq, Eq)]
pub enum Segment {
    Literal(String),
    Placeholder {
        /// The variable's name.
        name: String,
        /// The placeholder as written.
        raw: String,
    },
}

/// What a [`Segment`] holds.
pub enum SegmentView {
    Literal(Seq<char>),
    Placeholder { name: Seq<char>, raw: Seq<char> },
}

impl View for Segment {
    type V = SegmentView;

    open spec fn view(&self) -> SegmentView {
        match self {
            Segment::Literal(text) => SegmentView::Literal(text@),
            Segment::Placeholder { name, raw } => SegmentView::Placeholder {
                name: name@,
                raw: raw@,
            },
        }
    }
}

/// What the pieces of a list hold.
pub open spec fn segment_views(segments: Seq<Segment>) -> Seq<SegmentView> {
    segments.map_values(|s: Segment| s@)
}

proof fn lemma_segments_push(segments: Seq<Segment>, s: Segment)
    ensures
        segment_views(segments.push(s)) == segment_views(segments).push(s@),
{
    assert(segment_views(segments.push(s)) =~= segment_views(segments).push(s@));
}

/// The `>` at or behind `from` that closes a placeholder. One that closes a
/// nested `<#...>` reference does not count.
pub open spec fn close_from(s: Seq<char>, from: int) -> Option<int>
    decreases s.len() - from,
{
    if from < 0 || from >= s.len() {
        None
    } else if s[from] == '>' {
        Some(from)
    } else if text::stands_at(s, seq!['<', '#'], from) {
        match text::find_from(s, seq!['>'], from + 2) {
            Some(end) if from < end < s.len() => close_from(s, end + 1),
            _ => None,
        }
    } else {
        close_from(s, from + 1)
    }
}

/// Finds the `>` at or behind `from` that closes a placeholder.
fn find_close(chars: &Vec<char>, from: usize) -> (found: Option<usize>)
    ensures
        match found {
            Some(at) => close_from(chars@, from as int) == Some(at as int) && from <= at < chars@.len(),
            None => close_from(chars@, from as int) is None,
        },
{
    let opener: Vec<char> = vec!['<', '#'];
    let close: Vec<char> = vec!['>'];
    assert(opener@ =~= seq!['<', '#']);
    assert(close@ =~= seq!['>']);
    let mut i: usize = from;
    while i < chars.len()
        invariant
            opener@ == seq!['<', '#'],
            close@ == seq!['>'],
            from <= i,
            close_from(chars@, i as int) == close_from(chars@, from as int),
        decreases chars@.len() - i,
    {
        if chars[i] == '>' {
            return Some(i);
        }
        if text::is_at(chars, &opener, i) {
            let inner = text::find_chars(chars, &close, i + 2);
            proof {
                text::lemma_find_from(chars@, close@, i + 2);
            }
            match inner {
                Some(end) => {
                    i = end + 1;
                },
                None => {
                    return None;
                },
            }
        } else {
            i = i + 1;
        }
    }
    None
}

/// What stands before the first colon.
pub open spec fn before_colon(inner: Seq<char>) -> Seq<char> {
    match text::find_from(inner, seq![':'], 0) {
        Some(at) => inner.take(at),
        None => inner,
    }
}

/// The name of a placeholder; `None` where what stands there is no name.
pub open spec fn placeholder_name_of(inner: Seq<char>) -> Option<Seq<char>> {
    let name = text::trim_of(before_colon(inner));
    if command_template::is_variable_name(name) {
        Some(name)
    } else {
        None
    }
}

/// The name of a placeholder.
fn placeholder_name(inner: &Vec<char>) -> (name: Option<Vec<char>>)
    ensures
        match name {
            Some(n) => placeholder_name_of(inner@) == Some(n@),
            None => placeholder_name_of(inner@) is None,
        },
{
    let colon: Vec<char> = vec![':'];
    assert(colon@ =~= seq![':']);
    let found = text::find_chars(inner, &colon, 0);
    proof {
        text::lemma_find_from(inner@, colon@, 0);
    }
    let head = match found {
        Some(at) => {
            let head = text::sub_chars(inner, 0, at);
            assert(head@ =~= inner@.take(at as int));
            head
        },
        None => {
            let head = text::sub_chars(inner, 0, inner.len());
            assert(head@ =~= inner@);
            head
        },
    };
    let name = text::trim_chars(&head);
    if command_template::variable_name(&name) {
        Some(name)
    } else {
        None
    }
}

/// The end of the placeholder that `s` begins with, and its name.
pub open spec fn placeholder_at_start(s: Seq<char>) -> Option<(int, Seq<char>)> {
    if text::stands_at(s, seq!['<', '@'], 0) {
        match close_from(s, 2) {
            Some(end) if 2 <= end < s.len() => match placeholder_name_of(s.subrange(2, end)) {
                Some(name) => Some((end, name)),
                None => None,
            },
            _ => None,
        }
    } else {
        None
    }
}

/// The literal piece of a text, where there is any text.
pub open spec fn literal_piece(literal: Seq<char>) -> Seq<SegmentView> {
    if literal.len() == 0 {
        Seq::empty()
    } else {
        seq![SegmentView::Literal(literal)]
    }
}

/// The pieces of `s`, where `literal` is the text since the last placeholder.
/// What is no placeholder stays in the text around it.
pub open spec fn segments_from(s: Seq<char>, literal: Seq<char>) -> Seq<SegmentView>
    decreases s.len(),
{
    if s.len() == 0 {
        literal_piece(literal)
    } else {
        match placeholder_at_start(s) {
            Some((end, name)) => literal_piece(literal).push(
                SegmentView::Placeholder { name, raw: s.take(end + 1) },
            ) + segments_from(s.skip(end + 1), Seq::empty()),
            None => segments_from(s.skip(1), literal.push(s[0])),
        }
    }
}

/// The pieces of a template.
pub open spec fn segments_of(template: Seq<char>) -> Seq<SegmentView> {
    segments_from(template, Seq::empty())
}

proof fn lemma_close_shift(s: Seq<char>, at: int, from: int)
    requires
        0 <= at <= s.len(),
        0 <= from,
    ensures
        match close_from(s, at + from) {
            Some(end) => close_from(s.skip(at), from) == Some(end - at),
            None => close_from(s.skip(at), from) is None,
        },
    decreases s.len() - at - from,
{
    let rest = s.skip(at);
    if at + from < s.len() {
        assert(rest[from] == s[at + from]);
        text::lemma_stands_shift(s, seq!['<', '#'], at, from);
        if s[at + from] != '>' {
            if text::stands_at(s, seq!['<', '#'], at + from) {
                text::lemma_find_shift(s, seq!['>'], at, from + 2);
                text::lemma_find_from(s, seq!['>'], at + from + 2);
                match text::find_from(s, seq!['>'], at + from + 2) {
                    Some(end) => {
                        lemma_close_shift(s, at, end - at + 1);
                    },
                    None => {},
                }
            } else {
                lemma_close_shift(s, at, from + 1);
            }
        }
    }
}

/// Splits a template into literal text and placeholders.
pub fn template_segments(template: &str) -> (segments: Vec<Segment>)
    ensures
        segment_views(segments@) == segments_of(template@),
{
    let chars = text::chars_of(template);
    let opener: Vec<char> = vec!['<', '@'];
    assert(opener@ =~= seq!['<', '@']);
    let mut out: Vec<Segment> = Vec::new();
    let mut literal: Vec<char> = Vec::new();
    let mut i: usize = 0;
    assert(chars@.skip(0) =~= chars@);
    assert(literal@ =~= Seq::<char>::empty());
    assert(segment_views(out@) + segments_of(template@) =~= segments_of(template@));
    while i < chars.len()
        invariant
            i <= chars@.len(),
            chars@ == template@,
            opener@ == seq!['<', '@'],
            segment_views(out@) + segments_from(chars@.skip(i as int), literal@) == segments_of(
                template@,
            ),
        decreases chars@.len() - i,
    {
        let ghost s = chars@.skip(i as int);
        proof {
            text::lemma_stands_shift(chars@, opener@, i as int, 0);
        }
        let mut found: Option<(usize, Vec<char>)> = None;
        if text::is_at(&chars, &opener, i) {
            proof {
                lemma_close_shift(chars@, i as int, 2);
            }
            match find_close(&chars, i + 2) {
                Some(end) => {
                    let inner = text::sub_chars(&chars, i + 2, end);
                    assert(s.subrange(2, end - i) =~= inner@);
                    match placeholder_name(&inner) {
                        Some(name) => {
                            found = Some((end, name));
                        },
                        None => {},
                    }
                },
                None => {},
            }
        }
        match found {
            Some((end, name)) => {
                let ghost before = segment_views(out@);
                let ghost lit = literal@;
                assert(placeholder_at_start(s) == Some((end - i, name@)));
                if literal.len() > 0 {
                    let segment = Segment::Literal(text::string_of(&literal));
                    proof {
                        lemma_segments_push(out@, segment);
                    }
                    out.push(segment);
                    literal = Vec::new();
                }
                assert(literal@ =~= Seq::<char>::empty());
                assert(segment_views(out@) =~= before + literal_piece(lit));
                let raw = text::string_from(&chars, i, end + 1);
                assert(raw@ =~= s.take(end - i + 1));
                let segment = Segment::Placeholder { name: text::string_of(&name), raw };
                proof {
                    lemma_segments_push(out@, segment);
                    assert(s.skip(end - i + 1) =~= chars@.skip(end + 1));
                    let rest = segments_from(chars@.skip(end + 1), Seq::empty());
                    assert((before + literal_piece(lit)).push(segment@) + rest =~= before + (
                    literal_piece(lit).push(segment@) + rest));
                }
                out.push(segment);
                i = end + 1;
            },
            None => {
                assert(placeholder_at_start(s) is None);
                assert(s.skip(1) =~= chars@.skip(i + 1));
                literal.push(chars[i]);
                i = i + 1;
            },
        }
    }
    if literal.len() > 0 {
        let segment = Segment::Literal(text::string_of(&literal));
        proof {
            lemma_segments_push(out@, segment);
            assert(segment_views(out@).push(segment@) =~= segment_views(out@) + literal_piece(
                literal@,
            ));
        }
        out.push(segment);
    } else {
        assert(segment_views(out@) + literal_piece(literal@) =~= segment_views(out@));
    }
    out
}

/// What a piece becomes: a placeholder whose variable has a value becomes the
/// value, any other stays as written.
pub open spec fn filled(segment: SegmentView, values: Map<Seq<char>, Seq<char>>) -> Seq<char> {
    match segment {
        SegmentView::Literal(text) => text,
        SegmentView::Placeholder { name, raw } => if values.contains_key(name) {
            values[name]
        } else {
            raw
        },
    }
}

/// What the pieces become, one behind the other.
pub open spec fn filled_all(segments: Seq<SegmentView>, values: Map<Seq<char>, Seq<char>>) -> Seq<char>
    decreases segments.len(),
{
    if segments.len() == 0 {
        Seq::empty()
    } else {
        filled_all(segments.drop_last(), values) + filled(segments.last(), values)
    }
}

/// Fills a template with values. Placeholders without a value stay as
/// written.
pub fn render_command(template: &str, values: &TextMap<String>) -> (out: String)
    ensures
        out@ == filled_all(segments_of(template@), values.texts()),
{
    let segments = template_segments(template);
    let ghost views = segment_views(segments@);
    let mut out = String::new();
    let mut i: usize = 0;
    assert(views.take(0) =~= Seq::<SegmentView>::empty());
    while i < segments.len()
        invariant
            i <= segments@.len(),
            views == segment_views(segments@),
            out@ == filled_all(views.take(i as int), values.texts()),
        decreases segments@.len() - i,
    {
        assert(views.take(i + 1).drop_last() =~= views.take(i as int));
        assert(views.take(i + 1).last() == segments@[i as int]@);
        match &segments[i] {
            Segment::Literal(text) => {
                out.append(text.as_str());
            },
            Segment::Placeholder { name, raw } => match values.get(name.as_str()) {
                Some(value) => {
                    out.append(value.as_str());
                },
                None => {
                    out.append(raw.as_str());
                },
            },
        }
        i = i + 1;
    }
    assert(views.take(views.len() as int) =~= views);
    out
}

/// A piece as written.
pub open spec fn written(segment: SegmentView) -> Seq<char> {
    match segment {
        SegmentView::Literal(text) => text,
        SegmentView::Placeholder { name: _, raw } => raw,
    }
}

proof fn lemma_filled_concat(
    a: Seq<SegmentView>,
    b: Seq<SegmentView>,
    values: Map<Seq<char>, Seq<char>>,
)
    ensures
        filled_all(a + b, values) == filled_all(a, values) + filled_all(b, values),
    decreases b.len(),
{
    if b.len() == 0 {
        assert(a + b =~= a);
        assert(filled_all(a, values) + filled_all(b, values) =~= filled_all(a, values));
    } else {
        assert((a + b).drop_last() =~= a + b.drop_last());
        lemma_filled_concat(a, b.drop_last(), values);
        assert(filled_all(a + b, values) =~= filled_all(a, values) + filled_all(b, values));
    }
}

/// Whether a piece stays as written: it is no placeholder of a variable that
/// has a value.
pub open spec fn unfilled(segment: SegmentView, values: Map<Seq<char>, Seq<char>>) -> bool {
    match segment {
        SegmentView::Literal(_) => true,
        SegmentView::Placeholder { name, raw: _ } => !values.contains_key(name),
    }
}

/// Whether every piece stays as written.
pub open spec fn all_unfilled(segments: Seq<SegmentView>, values: Map<Seq<char>, Seq<char>>) -> bool {
    forall|i: int| 0 <= i < segments.len() ==> unfilled(#[trigger] segments[i], values)
}

proof fn lemma_unfilled(s: Seq<char>, literal: Seq<char>, values: Map<Seq<char>, Seq<char>>)
    requires
        all_unfilled(segments_from(s, literal), values),
    ensures
        filled_all(segments_from(s, literal), values) == literal + s,
    decreases s.len(),
{
    reveal_with_fuel(filled_all, 2);
    let segments = segments_from(s, literal);
    if s.len() == 0 {
        assert(literal + s =~= literal);
        if literal.len() > 0 {
            assert(segments.drop_last() =~= Seq::<SegmentView>::empty());
            assert(Seq::<char>::empty() + literal =~= literal);
        } else {
            assert(literal =~= Seq::<char>::empty());
        }
    } else {
        match placeholder_at_start(s) {
            Some((end, name)) => {
                let piece = SegmentView::Placeholder { name, raw: s.take(end + 1) };
                let head = literal_piece(literal).push(piece);
                let rest = segments_from(s.skip(end + 1), Seq::empty());
                assert(segments == head + rest);
                assert forall|i: int| 0 <= i < rest.len() implies unfilled(
                    #[trigger] rest[i],
                    values,
                ) by {
                    assert(segments[head.len() + i] == rest[i]);
                }
                lemma_unfilled(s.skip(end + 1), Seq::empty(), values);
                lemma_filled_concat(head, rest, values);
                assert(segments[head.len() - 1] == piece);
                assert(unfilled(piece, values));
                assert(head.drop_last() =~= literal_piece(literal));
                assert(filled_all(literal_piece(literal), values) =~= literal) by {
                    if literal.len() > 0 {
                        assert(literal_piece(literal).drop_last() =~= Seq::<SegmentView>::empty());
                        assert(Seq::<char>::empty() + literal =~= literal);
                    }
                }
                assert(filled_all(head, values) =~= literal + s.take(end + 1));
                assert(Seq::<char>::empty() + s.skip(end + 1) =~= s.skip(end + 1));
                assert(literal + s.take(end + 1) + s.skip(end + 1) =~= literal + s);
            },
            None => {
                lemma_unfilled(s.skip(1), literal.push(s[0]), values);
                assert(literal.push(s[0]) + s.skip(1) =~= literal + s);
            },
        }
    }
}

/// A template none of whose variables has a value renders to itself.
pub proof fn law_unfilled_template_is_kept(template: Seq<char>, values: Map<Seq<char>, Seq<char>>)
    requires
        all_unfilled(segments_of(template), values),
    ensures
        filled_all(segments_of(template), values) == template,
{
    lemma_unfilled(template, Seq::empty(), values);
    assert(Seq::<char>::empty() + template =~= template);
}

/// The pieces as written make up the template again.
pub proof fn law_pieces_make_up_the_template(template: Seq<char>)
    ensures
        filled_all(segments_of(template), Map::empty()) == template,
        forall|s: SegmentView| #[trigger] filled(s, Map::empty()) == written(s),
{
    law_unfilled_template_is_kept(template, Map::empty());
}

/// The source written behind a placeholder's name.
pub open spec fn source_of(inner: Seq<char>) -> domain::VariableSourceView {
    match text::find_from(inner, seq![':'], 0) {
        None => domain::VariableSourceView::Free,
        Some(at) => {
            let source = inner.skip(at + 1);
            if source.len() > 0 && source[0] == '?' {
                domain::VariableSourceView::Default(default_fragments(source.skip(1)))
            } else if source.len() > 0 && source[0] == '@' {
                domain::VariableSourceView::Hint(source.skip(1))
            } else {
                domain::VariableSourceView::Command(source)
            }
        },
    }
}

/// The template of a default; text with malformed references is literal.
pub open spec fn default_fragments(text: Seq<char>) -> Seq<command_template::FragmentView> {
    match command_template::parse_of(text) {
        Ok(fragments) => fragments,
        Err(_) => seq![command_template::FragmentView::Literal(text)],
    }
}

/// The variable of a piece, where it is a placeholder.
pub open spec fn variable_of(segment: SegmentView) -> Option<domain::VariableView> {
    match segment {
        SegmentView::Literal(_) => None,
        SegmentView::Placeholder { name, raw } => Some(
            domain::VariableView { name, source: source_of(raw.subrange(2, raw.len() - 1)) },
        ),
    }
}

/// The variables of the pieces in order.
pub open spec fn variables_of(segments: Seq<SegmentView>) -> Seq<domain::VariableView>
    decreases segments.len(),
{
    if segments.len() == 0 {
        Seq::empty()
    } else {
        let before = variables_of(segments.drop_last());
        match variable_of(segments.last()) {
            Some(v) => before.push(v),
            None => before,
        }
    }
}

fn parse_source(inner: &Vec<char>) -> (source: VariableSource)
    ensures
        source@ == source_of(inner@),
{
    let colon: Vec<char> = vec![':'];
    assert(colon@ =~= seq![':']);
    let n: usize = inner.len();
    let found = text::find_chars(inner, &colon, 0);
    proof {
        text::lemma_find_from(inner@, colon@, 0);
    }
    match found {
        None => VariableSource::Free,
        Some(at) => {
            let source = text::sub_chars(inner, at + 1, n);
            assert(source@ =~= inner@.skip(at + 1));
            if source.len() > 0 && source[0] == '?' {
                let body = text::string_from(&source, 1, source.len());
                assert(body@ =~= source@.skip(1));
                match command_template::parse_command_template(body.as_str()) {
                    Ok(template) => VariableSource::Default(template),
                    Err(_) => {
                        let mut template: Vec<Fragment> = Vec::new();
                        template.push(Fragment::Literal(body));
                        assert(command_template::fragments(template@) =~= default_fragments(body@));
                        VariableSource::Default(template)
                    },
                }
            } else if source.len() > 0 && source[0] == '@' {
                let hint = text::string_from(&source, 1, source.len());
                assert(hint@ =~= source@.skip(1));
                VariableSource::Hint(hint)
            } else {
                VariableSource::Command(text::string_of(&source))
            }
        },
    }
}

proof fn lemma_raw_is_long(s: Seq<char>, literal: Seq<char>)
    ensures
        forall|i: int|
            0 <= i < segments_from(s, literal).len() ==> (#[trigger] segments_from(s, literal)[i] matches SegmentView::Placeholder {
                name: _,
                raw,
            } ==> raw.len() >= 3),
    decreases s.len(),
{
    if s.len() > 0 {
        match placeholder_at_start(s) {
            Some((end, name)) => {
                let head = literal_piece(literal).push(
                    SegmentView::Placeholder { name, raw: s.take(end + 1) },
                );
                let rest = segments_from(s.skip(end + 1), Seq::empty());
                lemma_raw_is_long(s.skip(end + 1), Seq::empty());
                assert forall|i: int| 0 <= i < (head + rest).len() implies (#[trigger] (head
                    + rest)[i] matches SegmentView::Placeholder { name: _, raw } ==> raw.len() >= 3) by {
                    if i >= head.len() {
                        assert((head + rest)[i] == rest[i - head.len()]);
                    }
                }
            },
            None => {
                lemma_raw_is_long(s.skip(1), literal.push(s[0]));
            },
        }
    }
}

/// The variables of a snippet body in the order in which they appear.
pub fn parse_variables(body: &str) -> (variables: Vec<Variable>)
    ensures
        domain::variable_views(variables@) == variables_of(segments_of(body@)),
{
    let segments = template_segments(body);
    let ghost views = segment_views(segments@);
    let mut out: Vec<Variable> = Vec::new();
    let mut i: usize = 0;
    proof {
        lemma_raw_is_long(body@, Seq::empty());
    }
    assert(views.take(0) =~= Seq::<SegmentView>::empty());
    assert(domain::variable_views(out@) =~= Seq::<domain::VariableView>::empty());
    while i < segments.len()
        invariant
            i <= segments@.len(),
            views == segment_views(segments@),
            forall|k: int|
                0 <= k < views.len() ==> (#[trigger] views[k] matches SegmentView::Placeholder {
                    name: _,
                    raw,
                } ==> raw.len() >= 3),
            domain::variable_views(out@) == variables_of(views.take(i as int)),
        decreases segments@.len() - i,
    {
        assert(views.take(i + 1).drop_last() =~= views.take(i as int));
        assert(views.take(i + 1).last() == segments@[i as int]@);
        match &segments[i] {
            Segment::Literal(_) => {},
            Segment::Placeholder { name, raw } => {
                assert(views[i as int] == segments@[i as int]@);
                let chars = text::chars_of(raw.as_str());
                let inner = text::sub_chars(&chars, 2, chars.len() - 1);
                let variable = Variable { name: name.clone(), source: parse_source(&inner) };
                let ghost before = out@;
                out.push(variable);
                assert(domain::variable_views(out@) =~= domain::variable_views(before).push(
                    variable@,
                ));
            },
        }
        i = i + 1;
    }
    assert(views.take(views.len() as int) =~= views);
    out
}

/// The names of variables.
pub open spec fn variable_names(variables: Seq<domain::VariableView>) -> Seq<Seq<char>> {
    variables.map_values(|v: domain::VariableView| v.name)
}

/// The variables without those whose name came before.
pub open spec fn first_of_each(variables: Seq<domain::VariableView>) -> Seq<domain::VariableView>
    decreases variables.len(),
{
    if variables.len() == 0 {
        Seq::empty()
    } else {
        let before = first_of_each(variables.drop_last());
        if variable_names(before).contains(variables.last().name) {
            before
        } else {
            before.push(variables.last())
        }
    }
}

/// The variables without those whose name came before: one who is asked for
/// a value is asked once.
pub fn unique_variables(variables: &Vec<Variable>) -> (out: Vec<Variable>)
    ensures
        domain::variable_views(out@) == first_of_each(domain::variable_views(variables@)),
{
    let ghost views = domain::variable_views(variables@);
    let mut out: Vec<Variable> = Vec::new();
    let mut i: usize = 0;
    assert(views.take(0) =~= Seq::<domain::VariableView>::empty());
    assert(domain::variable_views(out@) =~= Seq::<domain::VariableView>::empty());
    while i < variables.len()
        invariant
            i <= variables@.len(),
            views == domain::variable_views(variables@),
            domain::variable_views(out@) == first_of_each(views.take(i as int)),
        decreases variables@.len() - i,
    {
        assert(views.take(i + 1).drop_last() =~= views.take(i as int));
        assert(views.take(i + 1).last() == variables@[i as int]@);
        if !has_variable(&out, variables[i].name.as_str()) {
            let ghost before = out@;
            let copy = variables[i].clone();
            out.push(copy);
            assert(domain::variable_views(out@) =~= domain::variable_views(before).push(copy@));
        }
        i = i + 1;
    }
    assert(views.take(views.len() as int) =~= views);
    out
}

fn has_variable(variables: &Vec<Variable>, name: &str) -> (yes: bool)
    ensures
        yes == variable_names(domain::variable_views(variables@)).contains(name@),
{
    let ghost names = variable_names(domain::variable_views(variables@));
    let mut i: usize = 0;
    while i < variables.len()
        invariant
            i <= variables@.len(),
            names == variable_names(domain::variable_views(variables@)),
            forall|j: int| 0 <= j < i ==> #[trigger] names[j] != name@,
        decreases variables@.len() - i,
    {
        assert(names[i as int] == variables@[i as int].name@);
        if text::same_text(variables[i].name.as_str(), name) {
            return true;
        }
        i = i + 1;
    }
    false
}

/// No name is asked for twice, and every name is asked for.
pub proof fn law_each_variable_is_asked_once(variables: Seq<domain::VariableView>)
    ensures
        variable_names(first_of_each(variables)).no_duplicates(),
        forall|i: int|
            0 <= i < variables.len() ==> variable_names(first_of_each(variables)).contains(
                #[trigger] variables[i].name,
            ),
    decreases variables.len(),
{
    if variables.len() > 0 {
        let front = variables.drop_last();
        law_each_variable_is_asked_once(front);
        let before = variable_names(first_of_each(front));
        let after = variable_names(first_of_each(variables));
        if !before.contains(variables.last().name) {
            assert(after =~= before.push(variables.last().name));
            assert(after[before.len() as int] == variables.last().name);
        }
        assert forall|i: int| 0 <= i < variables.len() implies after.contains(
            #[trigger] variables[i].name,
        ) by {
            if i < front.len() {
                assert(front[i] == variables[i]);
                let k = before.index_of(front[i].name);
                assert(after[k] == front[i].name);
            }
        }
    }
}

/// Text in one style.
pub struct StyledChunk {
    pub text: String,
    pub style: Style,
}

/// How a piece is shown: text and style. The placeholder being edited stands
/// out; while it is empty a hint is shown in its place where there is one.
pub open spec fn shown(
    segment: SegmentView,
    values: Map<Seq<char>, Seq<char>>,
    active: Option<Seq<char>>,
    hint: Option<Seq<char>>,
    theme: Theme,
) -> style::SpanView {
    match segment {
        SegmentView::Literal(text) => style::raw_span(text),
        SegmentView::Placeholder { name, raw } => {
            let is_active = active == Some(name);
            let is_empty = !values.contains_key(name) || values[name].len() == 0;
            if is_active && is_empty && hint is Some {
                style::styled_span(hint->0, theme.placeholder)
            } else if values.contains_key(name) {
                style::styled_span(
                    values[name],
                    if is_active {
                        theme.active_prompt
                    } else {
                        Style::plain()
                    },
                )
            } else {
                style::styled_span(
                    raw,
                    if is_active {
                        theme.active_prompt
                    } else {
                        theme.placeholder
                    },
                )
            }
        },
    }
}

/// The lines after `part` was put behind the last of them.
pub open spec fn with_part(lines: Seq<Seq<style::SpanView>>, part: Seq<char>, style: Style) -> Seq<
    Seq<style::SpanView>,
> {
    if part.len() == 0 {
        lines
    } else {
        lines.drop_last().push(lines.last().push(style::styled_span(part, style)))
    }
}

/// The lines after parts were put behind them, each but the first on a line of
/// its own.
pub open spec fn with_parts(
    lines: Seq<Seq<style::SpanView>>,
    parts: Seq<Seq<char>>,
    style: Style,
) -> Seq<Seq<style::SpanView>>
    decreases parts.len(),
{
    if parts.len() == 0 {
        lines
    } else if parts.len() == 1 {
        with_part(lines, parts[0], style)
    } else {
        with_part(
            with_parts(lines, parts.drop_last(), style).push(Seq::empty()),
            parts.last(),
            style,
        )
    }
}

/// The lines that runs of text make, broken at newlines.
pub open spec fn lines_of(chunks: Seq<style::SpanView>) -> Seq<Seq<style::SpanView>>
    decreases chunks.len(),
{
    if chunks.len() == 0 {
        seq![Seq::empty()]
    } else {
        with_parts(
            lines_of(chunks.drop_last()),
            text::split_of(chunks.last().content, '\n'),
            chunks.last().style,
        )
    }
}

proof fn lemma_with_parts_nonempty(
    lines: Seq<Seq<style::SpanView>>,
    parts: Seq<Seq<char>>,
    style: Style,
)
    requires
        lines.len() > 0,
    ensures
        with_parts(lines, parts, style).len() > 0,
    decreases parts.len(),
{
    if parts.len() > 1 {
        lemma_with_parts_nonempty(lines, parts.drop_last(), style);
    }
}

/// The runs that chunks stand for.
pub open spec fn chunk_views(chunks: Seq<StyledChunk>) -> Seq<style::SpanView> {
    chunks.map_values(|c: StyledChunk| style::styled_span(c.text@, c.style))
}

/// Puts `part` behind the last line.
fn append_part(lines: &mut Vec<Line>, part: &str, style: Style)
    requires
        old(lines)@.len() > 0,
    ensures
        style::line_views(final(lines)@) == with_part(style::line_views(old(lines)@), part@, style),
        final(lines)@.len() == old(lines)@.len(),
{
    if part.is_empty() {
        return ;
    }
    let ghost before = style::line_views(lines@);
    let last: usize = lines.len() - 1;
    let mut line = Line { spans: Vec::new() };
    std::mem::swap(&mut line, &mut lines[last]);
    let ghost old_spans = line.spans@;
    let span = Span { content: part.to_owned(), style };
    line.spans.push(span);
    proof {
        style::lemma_spans_push(old_spans, span);
    }
    std::mem::swap(&mut line, &mut lines[last]);
    assert(style::line_views(lines@) =~= before.drop_last().push(
        before.last().push(style::styled_span(part@, style)),
    ));
}

/// The lines that chunks of text make, broken at newlines.
pub fn styled_text(chunks: &Vec<StyledChunk>) -> (out: Text)
    ensures
        out@ == lines_of(chunk_views(chunks@)),
{
    let ghost views = chunk_views(chunks@);
    let mut lines: Vec<Line> = Vec::new();
    lines.push(Line { spans: Vec::new() });
    assert(views.take(0) =~= Seq::<style::SpanView>::empty());
    assert(style::line_views(lines@)[0] =~= Seq::<style::SpanView>::empty());
    assert(style::line_views(lines@) =~= lines_of(views.take(0)));
    let mut i: usize = 0;
    while i < chunks.len()
        invariant
            i <= chunks@.len(),
            views == chunk_views(chunks@),
            style::line_views(lines@) == lines_of(views.take(i as int)),
            lines@.len() > 0,
        decreases chunks@.len() - i,
    {
        let chunk = &chunks[i];
        let ghost start = style::line_views(lines@);
        assert(views.take(i + 1).drop_last() =~= views.take(i as int));
        assert(views.take(i + 1).last() == style::styled_span(chunk.text@, chunk.style));
        let parts = text::split_text(chunk.text.as_str(), '\n');
        let ghost all = text::texts(parts@);
        proof {
            text::lemma_split_nonempty(chunk.text@, '\n');
        }
        append_part(&mut lines, parts[0].as_str(), chunk.style);
        assert(all.take(1) =~= seq![all[0]]);
        let mut k: usize = 1;
        while k < parts.len()
            invariant
                1 <= k <= parts@.len(),
                all == text::texts(parts@),
                start.len() > 0,
                style::line_views(lines@) == with_parts(start, all.take(k as int), chunk.style),
                lines@.len() > 0,
            decreases parts@.len() - k,
        {
            let line = Line { spans: Vec::new() };
            proof {
                style::lemma_lines_push(lines@, line);
                assert(style::span_views(line.spans@) =~= Seq::<style::SpanView>::empty());
            }
            lines.push(line);
            append_part(&mut lines, parts[k].as_str(), chunk.style);
            assert(all.take(k + 1).drop_last() =~= all.take(k as int));
            assert(all.take(k + 1).last() == parts@[k as int]@);
            k = k + 1;
        }
        assert(all.take(all.len() as int) =~= all);
        i = i + 1;
    }
    assert(views.take(views.len() as int) =~= views);
    Text { lines }
}

/// The runs shown for the pieces.
pub open spec fn shown_all(
    segments: Seq<SegmentView>,
    values: Map<Seq<char>, Seq<char>>,
    active: Option<Seq<char>>,
    hint: Option<Seq<char>>,
    theme: Theme,
) -> Seq<style::SpanView> {
    segments.map_values(|s: SegmentView| shown(s, values, active, hint, theme))
}

/// A template as shown while its variables are filled.
pub fn render_command_text(
    template: &str,
    values: &TextMap<String>,
    active_variable: Option<&str>,
    hint: Option<&str>,
    theme: &Theme,
) -> (out: Text)
    ensures
        out@ == lines_of(
            shown_all(
                segments_of(template@),
                values.texts(),
                crate::config::str_view(active_variable),
                crate::config::str_view(hint),
                *theme,
            ),
        ),
{
    let segments = template_segments(template);
    let ghost views = segment_views(segments@);
    let ghost active = crate::config::str_view(active_variable);
    let ghost ghost_hint = crate::config::str_view(hint);
    let ghost all = shown_all(views, values.texts(), active, ghost_hint, *theme);
    let mut chunks: Vec<StyledChunk> = Vec::new();
    let mut i: usize = 0;
    assert(chunk_views(chunks@) =~= all.take(0));
    while i < segments.len()
        invariant
            i <= segments@.len(),
            views == segment_views(segments@),
            active == crate::config::str_view(active_variable),
            ghost_hint == crate::config::str_view(hint),
            all == shown_all(views, values.texts(), active, ghost_hint, *theme),
            chunk_views(chunks@) == all.take(i as int),
        decreases segments@.len() - i,
    {
        assert(views[i as int] == segments@[i as int]@);
        let chunk = match &segments[i] {
            Segment::Literal(text) => StyledChunk { text: text.clone(), style: Style::default() },
            Segment::Placeholder { name, raw } => {
                let is_active = match active_variable {
                    Some(a) => text::same_text(a, name.as_str()),
                    None => false,
                };
                match values.get(name.as_str()) {
                    Some(value) => {
                        if is_active && value.as_str().is_empty() && hint.is_some() {
                            StyledChunk { text: hint.unwrap().to_owned(), style: theme.placeholder }
                        } else {
                            StyledChunk {
                                text: value.clone(),
                                style: if is_active {
                                    theme.active_prompt
                                } else {
                                    Style::default()
                                },
                            }
                        }
                    },
                    None => {
                        if is_active && hint.is_some() {
                            StyledChunk { text: hint.unwrap().to_owned(), style: theme.placeholder }
                        } else {
                            StyledChunk {
                                text: raw.clone(),
                                style: if is_active {
                                    theme.active_prompt
                                } else {
                                    theme.placeholder
                                },
                            }
                        }
                    },
                }
            },
        };
        let ghost before = chunks@;
        chunks.push(chunk);
        assert(chunk_views(chunks@) =~= chunk_views(before).push(
            style::styled_span(chunk.text@, chunk.style),
        ));
        assert(all.take(i + 1) =~= all.take(i as int).push(all[i as int]));
        i = i + 1;
    }
    assert(all.take(all.len() as int) =~= all);
    styled_text(&chunks)
}

/// Column and row behind `text`, where it starts at a column and row.
pub open spec fn advanced(from: (nat, nat), text: Seq<char>) -> (nat, nat)
    decreases text.len(),
{
    if text.len() == 0 {
        from
    } else {
        let before = advanced(from, text.drop_last());
        if text.last() == '\n' {
            (0, before.1 + 1)
        } else {
            (before.0 + 1, before.1)
        }
    }
}

/// Where the cursor stands: behind the value of the active variable, or where
/// its placeholder begins; behind everything where there is no such variable.
pub open spec fn cursor_of(
    segments: Seq<SegmentView>,
    values: Map<Seq<char>, Seq<char>>,
    active: Seq<char>,
    from: (nat, nat),
) -> (nat, nat)
    decreases segments.len(),
{
    if segments.len() == 0 {
        from
    } else {
        match segments[0] {
            SegmentView::Placeholder { name, raw: _ } if name == active => if values.contains_key(
                name,
            ) {
                advanced(from, values[name])
            } else {
                from
            },
            _ => cursor_of(
                segments.skip(1),
                values,
                active,
                advanced(from, filled(segments[0], values)),
            ),
        }
    }
}

/// A count as a screen coordinate; what does not fit becomes the largest.
pub open spec fn screen(n: nat) -> u16 {
    if n <= u16::MAX {
        n as u16
    } else {
        u16::MAX
    }
}

/// A count as a screen coordinate.
pub fn to_screen(n: u64) -> (out: u16)
    ensures
        out == screen(n as nat),
{
    if n <= u16::MAX as u64 {
        n as u16
    } else {
        u16::MAX
    }
}

/// Moves a column and row behind `text`. Counts stop at the largest number.
fn advance_cursor(col: u64, row: u64, text: &str) -> (out: (u64, u64))
    requires
        col <= 0xffff_ffff,
        row <= 0xffff_ffff,
    ensures
        capped(advanced((col as nat, row as nat), text@)) == (out.0 as nat, out.1 as nat),
        out.0 <= 0xffff_ffff,
        out.1 <= 0xffff_ffff,
{
    let chars = text::chars_of(text);
    let ghost from = (col as nat, row as nat);
    let mut c: u64 = col;
    let mut r: u64 = row;
    let mut i: usize = 0;
    assert(chars@.take(0) =~= Seq::<char>::empty());
    while i < chars.len()
        invariant
            i <= chars@.len(),
            chars@ == text@,
            c <= 0xffff_ffff,
            r <= 0xffff_ffff,
            capped(advanced(from, chars@.take(i as int))) == (c as nat, r as nat),
        decreases chars@.len() - i,
    {
        assert(chars@.take(i + 1).drop_last() =~= chars@.take(i as int));
        if chars[i] == '\n' {
            c = 0;
            if r < 0xffff_ffff {
                r = r + 1;
            }
        } else if c < 0xffff_ffff {
            c = c + 1;
        }
        i = i + 1;
    }
    assert(chars@.take(chars@.len() as int) =~= text@);
    (c, r)
}

/// A column and row, each at most the largest number that is counted to.
spec fn capped(at: (nat, nat)) -> (nat, nat) {
    (
        if at.0 <= 0xffff_ffff {
            at.0
        } else {
            0xffff_ffff
        },
        if at.1 <= 0xffff_ffff {
            at.1
        } else {
            0xffff_ffff
        },
    )
}

proof fn lemma_capped_advance(from: (nat, nat), text: Seq<char>)
    ensures
        capped(advanced(capped(from), text)) == capped(advanced(from, text)),
    decreases text.len(),
{
    if text.len() > 0 {
        lemma_capped_advance(from, text.drop_last());
    }
}

proof fn lemma_capped_cursor(
    segments: Seq<SegmentView>,
    values: Map<Seq<char>, Seq<char>>,
    active: Seq<char>,
    from: (nat, nat),
)
    ensures
        capped(cursor_of(segments, values, active, capped(from))) == capped(
            cursor_of(segments, values, active, from),
        ),
    decreases segments.len(),
{
    if segments.len() > 0 {
        match segments[0] {
            SegmentView::Placeholder { name, raw: _ } if name == active => {
                if values.contains_key(name) {
                    lemma_capped_advance(from, values[name]);
                }
            },
            _ => {
                let piece = filled(segments[0], values);
                lemma_capped_advance(from, piece);
                lemma_capped_cursor(segments.skip(1), values, active, advanced(from, piece));
                lemma_capped_cursor(segments.skip(1), values, active, advanced(capped(from), piece));
            },
        }
    }
}

/// Column and row of the cursor in a template whose active variable is being
/// edited.
pub fn cursor_in_template(template: &str, values: &TextMap<String>, active_variable: &str) -> (at: (
    u16,
    u16,
))
    ensures
        ({
            let exact = cursor_of(segments_of(template@), values.texts(), active_variable@, (0, 0));
            at == (screen(exact.0), screen(exact.1))
        }),
{
    let segments = template_segments(template);
    let ghost views = segment_views(segments@);
    let ghost exact = cursor_of(views, values.texts(), active_variable@, (0, 0));
    let mut col: u64 = 0;
    let mut row: u64 = 0;
    let mut i: usize = 0;
    assert(views.skip(0) =~= views);
    while i < segments.len()
        invariant
            i <= segments@.len(),
            views == segment_views(segments@),
            views == segments_of(template@),
            exact == cursor_of(views, values.texts(), active_variable@, (0, 0)),
            col <= 0xffff_ffff,
            row <= 0xffff_ffff,
            capped(
                cursor_of(
                    views.skip(i as int),
                    values.texts(),
                    active_variable@,
                    (col as nat, row as nat),
                ),
            ) == capped(exact),
        decreases segments@.len() - i,
    {
        let ghost rest = views.skip(i as int);
        assert(rest[0] == segments@[i as int]@);
        assert(rest.skip(1) =~= views.skip(i + 1));
        match &segments[i] {
            Segment::Literal(text) => {
                let next = advance_cursor(col, row, text.as_str());
                proof {
                    lemma_capped_cursor(
                        views.skip(i + 1),
                        values.texts(),
                        active_variable@,
                        advanced((col as nat, row as nat), text@),
                    );
                }
                col = next.0;
                row = next.1;
            },
            Segment::Placeholder { name, raw } => {
                if text::same_text(name.as_str(), active_variable) {
                    let ghost from = (col as nat, row as nat);
                    assert(rest[0] == SegmentView::Placeholder { name: name@, raw: raw@ });
                    match values.get(name.as_str()) {
                        Some(value) => {
                            let next = advance_cursor(col, row, value.as_str());
                            assert(cursor_of(rest, values.texts(), active_variable@, from) == advanced(
                                from,
                                value@,
                            ));
                            col = next.0;
                            row = next.1;
                        },
                        None => {
                            assert(cursor_of(rest, values.texts(), active_variable@, from) == from);
                        },
                    }
                    return (to_screen(col), to_screen(row));
                }
                let piece = match values.get(name.as_str()) {
                    Some(value) => value.as_str(),
                    None => raw.as_str(),
                };
                let next = advance_cursor(col, row, piece);
                proof {
                    lemma_capped_cursor(
                        views.skip(i + 1),
                        values.texts(),
                        active_variable@,
                        advanced((col as nat, row as nat), piece@),
                    );
                }
                col = next.0;
                row = next.1;
            },
        }
        i = i + 1;
    }
    (to_screen(col), to_screen(row))
}

/// The style of the placeholder being edited.
pub fn active_prompt_style(theme: &Theme) -> (style: Style)
    ensures
        style == theme.active_prompt,
{
    theme.active_prompt
}

/// The style of placeholders that are not filled.
pub fn placeholder_prompt_style(theme: &Theme) -> (style: Style)
    ensures
        style == theme.placeholder,
{
    theme.placeholder
}

proof fn lemma_close_plain(s: Seq<char>, from: int, end: int)
    requires
        0 <= from <= end < s.len(),
        s[end] == '>',
        forall|i: int| from <= i < end ==> s[i] != '>',
        forall|i: int| from <= i < end ==> !text::stands_at(s, seq!['<', '#'], i),
    ensures
        close_from(s, from) == Some(end),
    decreases end - from,
{
    if from < end {
        lemma_close_plain(s, from + 1, end);
    }
}

proof fn lemma_literal_in_front(before: Seq<char>, s: Seq<char>, literal: Seq<char>)
    requires
        !text::occurs(before, seq!['<', '@']),
        s.len() > 0 ==> s[0] != '@',
    ensures
        segments_from(before + s, literal) == segments_from(s, literal + before),
    decreases before.len(),
{
    let all = before + s;
    if before.len() == 0 {
        assert(all =~= s);
        assert(literal + before =~= literal);
    } else {
        let rest = before.skip(1);
        if text::stands_at(all, seq!['<', '@'], 0) {
            let two = all.subrange(0, 2);
            assert(two[0] == '<' && two[1] == '@');
            assert(all[0] == '<' && all[1] == '@');
            if before.len() >= 2 {
                assert(before.subrange(0, 2) =~= seq!['<', '@']);
                assert(text::stands_at(before, seq!['<', '@'], 0));
            } else {
                assert(s[0] == '@');
            }
        }
        assert forall|k: int| !text::stands_at(rest, seq!['<', '@'], k) by {
            if 0 <= k {
                text::lemma_stands_shift(before, seq!['<', '@'], 1, k);
            }
        }
        lemma_literal_in_front(rest, s, literal.push(before[0]));
        assert(all.skip(1) =~= rest + s);
        assert(literal.push(before[0]) + rest =~= literal + before);
    }
}

/// What stands in a placeholder: a name, and a colon and a source where there is
/// one.
pub open spec fn placeholder_inner(name: Seq<char>, source: Option<Seq<char>>) -> Seq<char> {
    match source {
        None => name,
        Some(source) => name + seq![':'] + source,
    }
}

/// A placeholder as written.
pub open spec fn placeholder_text(name: Seq<char>, source: Option<Seq<char>>) -> Seq<char> {
    seq!['<', '@'] + placeholder_inner(name, source) + seq!['>']
}

/// Whether a source can stand in a placeholder: it holds nothing that closes it
/// and no reference.
pub open spec fn is_plain_source(source: Seq<char>) -> bool {
    !source.contains('>') && !text::occurs(source, seq!['<', '#'])
}

proof fn lemma_placeholder_segments(
    before: Seq<char>,
    name: Seq<char>,
    source: Option<Seq<char>>,
    rest: Seq<char>,
)
    requires
        !text::occurs(before, seq!['<', '@']),
        command_template::is_variable_name(name),
        source matches Some(s) ==> is_plain_source(s),
    ensures
        segments_of(before + placeholder_text(name, source) + rest) == literal_piece(before).push(
            SegmentView::Placeholder { name, raw: placeholder_text(name, source) },
        ) + segments_of(rest),
        find_colon(name, source),
{
    let inner = placeholder_inner(name, source);
    let raw = placeholder_text(name, source);
    let s = raw + rest;
    let end = inner.len() as int + 2;
    assert(before + raw + rest =~= before + s);
    lemma_literal_in_front(before, s, Seq::empty());
    assert(Seq::<char>::empty() + before =~= before);
    assert(s.subrange(0, 2) =~= seq!['<', '@']);
    assert(text::stands_at(s, seq!['<', '@'], 0));
    assert forall|i: int| 0 <= i < name.len() implies command_template::is_name_char_of(name[i]) by {}
    assert forall|i: int| 2 <= i < end implies s[i] != '>' && !text::stands_at(
        s,
        seq!['<', '#'],
        i,
    ) by {
        assert(s[i] == inner[i - 2]);
        if i - 2 >= name.len() {
            if let Some(src) = source {
                if i - 2 > name.len() {
                    let k = i - 2 - name.len() - 1;
                    assert(s[i] == src[k]);
                    assert(src.contains(src[k]));
                    if text::stands_at(s, seq!['<', '#'], i) {
                        let two = s.subrange(i, i + 2);
                        assert(two[0] == '<' && two[1] == '#');
                        assert(s[i + 1] == '#');
                        if k + 1 < src.len() {
                            assert(src[k + 1] == '#');
                            assert(src.subrange(k, k + 2) =~= seq!['<', '#']);
                            assert(text::stands_at(src, seq!['<', '#'], k));
                        } else {
                            assert(s[i + 1] == '>');
                        }
                    }
                } else if text::stands_at(s, seq!['<', '#'], i) {
                    assert(s.subrange(i, i + 2)[0] == '<');
                }
            }
        } else {
            assert(command_template::is_name_char_of(name[i - 2]));
            if text::stands_at(s, seq!['<', '#'], i) {
                assert(s.subrange(i, i + 2)[0] == '<');
            }
        }
    }
    assert(s[end as int] == '>');
    lemma_close_plain(s, 2, end as int);
    assert(s.subrange(2, end as int) =~= inner);
    assert(s.take(end + 1) =~= raw);
    assert(s.skip(end + 1) =~= rest);
    assert(command_template::is_name_char_of(name[0]));
    assert(command_template::is_name_char_of(name[name.len() - 1]));
    text::law_trimmed_text_stays(name);
    assert forall|i: int| 0 <= i < name.len() implies name[i] != ':' by {
        assert(command_template::is_name_char_of(name[i]));
    }
    match source {
        None => {
            text::lemma_find_nothing(name, ':', 0);
        },
        Some(src) => {
            text::lemma_find_first(name, ':', src, 0);
            assert(inner.take(name.len() as int) =~= name);
        },
    }
    assert(placeholder_name_of(inner) == Some(name));
}

spec fn find_colon(name: Seq<char>, source: Option<Seq<char>>) -> bool {
    text::find_from(placeholder_inner(name, source), seq![':'], 0) == (match source {
        None => None::<int>,
        Some(_) => Some(name.len() as int),
    })
}

/// A placeholder becomes the value of its variable, whatever its source is. The
/// text before it stays, and so does a placeholder without a value.
pub proof fn law_placeholders_become_values(
    before: Seq<char>,
    name: Seq<char>,
    source: Option<Seq<char>>,
    rest: Seq<char>,
    values: Map<Seq<char>, Seq<char>>,
)
    requires
        !text::occurs(before, seq!['<', '@']),
        command_template::is_variable_name(name),
        source matches Some(s) ==> is_plain_source(s),
    ensures
        filled_all(segments_of(before + placeholder_text(name, source) + rest), values) == before
            + (if values.contains_key(name) {
            values[name]
        } else {
            placeholder_text(name, source)
        }) + filled_all(segments_of(rest), values),
{
    reveal_with_fuel(filled_all, 3);
    lemma_placeholder_segments(before, name, source, rest);
    let raw = placeholder_text(name, source);
    let piece = SegmentView::Placeholder { name, raw };
    let head = literal_piece(before).push(piece);
    lemma_filled_concat(head, segments_of(rest), values);
    assert(head.drop_last() =~= literal_piece(before));
    assert(filled_all(literal_piece(before), values) =~= before) by {
        if before.len() > 0 {
            assert(literal_piece(before).drop_last() =~= Seq::<SegmentView>::empty());
            assert(Seq::<char>::empty() + before =~= before);
        }
    }
}

proof fn lemma_variables_concat(a: Seq<SegmentView>, b: Seq<SegmentView>)
    ensures
        variables_of(a + b) == variables_of(a) + variables_of(b),
    decreases b.len(),
{
    if b.len() == 0 {
        assert(a + b =~= a);
        assert(variables_of(a) + variables_of(b) =~= variables_of(a));
    } else {
        assert((a + b).drop_last() =~= a + b.drop_last());
        lemma_variables_concat(a, b.drop_last());
        assert(variables_of(a + b) =~= variables_of(a) + variables_of(b));
    }
}

proof fn lemma_placeholder_variable(
    before: Seq<char>,
    name: Seq<char>,
    source: Option<Seq<char>>,
    rest: Seq<char>,
)
    requires
        !text::occurs(before, seq!['<', '@']),
        command_template::is_variable_name(name),
        source matches Some(s) ==> is_plain_source(s),
    ensures
        variables_of(segments_of(before + placeholder_text(name, source) + rest)) == seq![
            domain::VariableView { name, source: source_of(placeholder_inner(name, source)) },
        ] + variables_of(segments_of(rest)),
{
    reveal_with_fuel(variables_of, 3);
    lemma_placeholder_segments(before, name, source, rest);
    let raw = placeholder_text(name, source);
    let piece = SegmentView::Placeholder { name, raw };
    let head = literal_piece(before).push(piece);
    lemma_variables_concat(head, segments_of(rest));
    assert(raw.subrange(2, raw.len() - 1) =~= placeholder_inner(name, source));
    assert(head.drop_last() =~= literal_piece(before));
    if before.len() > 0 {
        assert(literal_piece(before).drop_last() =~= Seq::<SegmentView>::empty());
        assert(variables_of(literal_piece(before)) =~= Seq::<domain::VariableView>::empty());
    }
    assert(variables_of(head) =~= seq![variable_of(piece)->0]);
}

/// A placeholder with a name alone is a variable without a source.
pub proof fn law_bare_placeholders_are_free(before: Seq<char>, name: Seq<char>, rest: Seq<char>)
    requires
        !text::occurs(before, seq!['<', '@']),
        command_template::is_variable_name(name),
    ensures
        variables_of(segments_of(before + seq!['<', '@'] + name + seq!['>'] + rest)) == seq![
            domain::VariableView { name, source: domain::VariableSourceView::Free },
        ] + variables_of(segments_of(rest)),
{
    lemma_placeholder_variable(before, name, None, rest);
    lemma_placeholder_segments(before, name, None, rest);
    assert(before + seq!['<', '@'] + name + seq!['>'] + rest =~= before + placeholder_text(
        name,
        None,
    ) + rest);
}

/// All that stands behind `:?` up to the closing `>` is the default of the
/// variable, colons included.
pub proof fn law_defaults_reach_to_the_end(
    before: Seq<char>,
    name: Seq<char>,
    default: Seq<char>,
    rest: Seq<char>,
    confirmed: Map<Seq<char>, Seq<char>>,
)
    requires
        !text::occurs(before, seq!['<', '@']),
        command_template::is_variable_name(name),
        is_plain_source(default),
    ensures
        ({
            let body = before + seq!['<', '@'] + name + seq![':', '?'] + default + seq!['>'] + rest;
            let all = variables_of(segments_of(body));
            &&& all.len() == 1 + variables_of(segments_of(rest)).len()
            &&& all.skip(1) == variables_of(segments_of(rest))
            &&& all[0].name == name
            &&& all[0].source matches domain::VariableSourceView::Default(fragments)
                && command_template::render_of(fragments, confirmed) == Ok::<Seq<char>, Seq<char>>(
                default,
            )
        }),
{
    let source = seq!['?'] + default;
    lemma_source_stays_plain('?', default);
    lemma_placeholder_variable(before, name, Some(source), rest);
    lemma_placeholder_segments(before, name, Some(source), rest);
    let body = before + seq!['<', '@'] + name + seq![':', '?'] + default + seq!['>'] + rest;
    assert(body =~= before + placeholder_text(name, Some(source)) + rest);
    let inner = placeholder_inner(name, Some(source));
    assert(inner.skip(name.len() as int + 1) =~= source);
    assert(source.skip(1) =~= default);
    command_template::law_plain_text_renders_to_itself(default, confirmed);
    let all = variables_of(segments_of(body));
    assert(all.skip(1) =~= variables_of(segments_of(rest)));
}

proof fn lemma_source_stays_plain(c: char, source: Seq<char>)
    requires
        is_plain_source(source),
        c != '>',
        c != '<',
    ensures
        is_plain_source(seq![c] + source),
{
    let all = seq![c] + source;
    assert forall|i: int| 0 <= i < all.len() implies all[i] != '>' by {
        if i > 0 {
            assert(source.contains(source[i - 1]));
        }
    }
    assert forall|i: int| !text::stands_at(all, seq!['<', '#'], i) by {
        if text::stands_at(all, seq!['<', '#'], i) {
            let two = all.subrange(i, i + 2);
            assert(two[0] == '<');
            assert(all[i] == '<');
            assert(source.subrange(i - 1, i + 1) =~= two);
            assert(text::stands_at(source, seq!['<', '#'], i - 1));
        }
    }
}

/// What stands behind `:@` is the hint of the variable. What stands behind `:` and
/// begins with neither `?` nor `@` is the command that lists its suggestions.
pub proof fn law_hints_and_commands_reach_to_the_end(
    before: Seq<char>,
    name: Seq<char>,
    source: Seq<char>,
    rest: Seq<char>,
)
    requires
        !text::occurs(before, seq!['<', '@']),
        command_template::is_variable_name(name),
        is_plain_source(source),
    ensures
        variables_of(
            segments_of(before + seq!['<', '@'] + name + seq![':', '@'] + source + seq!['>'] + rest),
        ) == seq![
            domain::VariableView { name, source: domain::VariableSourceView::Hint(source) },
        ] + variables_of(segments_of(rest)),
        source.len() == 0 || (source[0] != '?' && source[0] != '@') ==> variables_of(
            segments_of(before + seq!['<', '@'] + name + seq![':'] + source + seq!['>'] + rest),
        ) == seq![
            domain::VariableView { name, source: domain::VariableSourceView::Command(source) },
        ] + variables_of(segments_of(rest)),
{
    let hint = seq!['@'] + source;
    lemma_source_stays_plain('@', source);
    lemma_placeholder_variable(before, name, Some(hint), rest);
    lemma_placeholder_segments(before, name, Some(hint), rest);
    assert(before + seq!['<', '@'] + name + seq![':', '@'] + source + seq!['>'] + rest =~= before
        + placeholder_text(name, Some(hint)) + rest);
    assert(placeholder_inner(name, Some(hint)).skip(name.len() as int + 1) =~= hint);
    assert(hint.skip(1) =~= source);
    lemma_placeholder_variable(before, name, Some(source), rest);
    lemma_placeholder_segments(before, name, Some(source), rest);
    assert(before + seq!['<', '@'] + name + seq![':'] + source + seq!['>'] + rest =~= before
        + placeholder_text(name, Some(source)) + rest);
    assert(placeholder_inner(name, Some(source)).skip(name.len() as int + 1) =~= source);
}

/// Text without `<@` has no variables, and stays as it is.
pub proof fn law_plain_text_has_no_variables(s: Seq<char>, values: Map<Seq<char>, Seq<char>>)
    requires
        !text::occurs(s, seq!['<', '@']),
    ensures
        variables_of(segments_of(s)) == Seq::<domain::VariableView>::empty(),
        filled_all(segments_of(s), values) == s,
{
    reveal_with_fuel(variables_of, 2);
    reveal_with_fuel(filled_all, 2);
    let empty = Seq::<char>::empty();
    lemma_literal_in_front(s, empty, empty);
    assert(s + empty =~= s);
    assert(empty + s =~= s);
    assert(segments_of(s) == literal_piece(s));
    if s.len() > 0 {
        assert(literal_piece(s).drop_last() =~= Seq::<SegmentView>::empty());
        assert(variables_of(literal_piece(s)) =~= Seq::<domain::VariableView>::empty());
        assert(filled_all(literal_piece(s), values) =~= s);
    } else {
        assert(s =~= empty);
    }
}

/// The variable that is asked for is the first of its name.
pub proof fn law_first_of_a_name_is_asked_for(variables: Seq<domain::VariableView>, i: int)
    requires
        0 <= i < first_of_each(variables).len(),
    ensures
        exists|k: int|
            {
                &&& 0 <= k < variables.len()
                &&& #[trigger] variables[k] == first_of_each(variables)[i]
                &&& forall|j: int| 0 <= j < k ==> (#[trigger] variables[j]).name != variables[k].name
            },
    decreases variables.len(),
{
    let front = variables.drop_last();
    let before = first_of_each(front);
    if i < before.len() {
        law_first_of_a_name_is_asked_for(front, i);
        let k = choose|k: int|
            {
                &&& 0 <= k < front.len()
                &&& #[trigger] front[k] == before[i]
                &&& forall|j: int| 0 <= j < k ==> (#[trigger] front[j]).name != front[k].name
            };
        assert(variables[k] == first_of_each(variables)[i]);
        assert forall|j: int| 0 <= j < k implies (#[trigger] variables[j]).name
            != variables[k].name by {
            assert(front[j] == variables[j]);
        }
    } else {
        let k = variables.len() - 1;
        law_each_variable_is_asked_once(front);
        assert(variables[k] == first_of_each(variables)[i]);
        assert forall|j: int| 0 <= j < k implies (#[trigger] variables[j]).name
            != variables[k].name by {
            assert(front[j] == variables[j]);
            assert(variable_names(before).contains(front[j].name));
        }
    }
}

proof fn lemma_advanced(from: (nat, nat), a: Seq<char>, b: Seq<char>)
    ensures
        advanced(from, a + b) == advanced(advanced(from, a), b),
    decreases b.len(),
{
    if b.len() > 0 {
        assert((a + b).drop_last() =~= a + b.drop_last());
        lemma_advanced(from, a, b.drop_last());
    } else {
        assert(a + b =~= a);
    }
}

/// A text without newlines goes as many columns to the right as it has characters,
/// and a newline goes to the start of the next row.
pub proof fn law_columns_and_rows(from: (nat, nat), a: Seq<char>, b: Seq<char>)
    requires
        !b.contains('\n'),
    ensures
        advanced(from, b) == (from.0 + b.len(), from.1),
        advanced(from, a + seq!['\n'] + b) == (b.len(), advanced(from, a).1 + 1),
    decreases b.len(),
{
    if b.len() > 0 {
        let front = b.drop_last();
        assert(b[b.len() - 1] == b.last());
        assert(b.contains(b.last()));
        if front.contains('\n') {
            let k = front.index_of('\n');
            assert(b[k] == '\n');
        }
        law_columns_and_rows(from, a, front);
        assert((a + seq!['\n'] + b).drop_last() =~= a + seq!['\n'] + front);
    } else {
        assert((a + seq!['\n'] + b).drop_last() =~= a);
    }
}

/// The cursor stands behind the value of the variable that is edited, in the command
/// as it is filled so far.
pub proof fn law_cursor_stands_behind_the_value(
    segments: Seq<SegmentView>,
    values: Map<Seq<char>, Seq<char>>,
    active: Seq<char>,
    from: (nat, nat),
    k: int,
)
    requires
        0 <= k < segments.len(),
        segments[k] matches SegmentView::Placeholder { name, raw } && name == active,
        forall|i: int|
            0 <= i < k ==> !(#[trigger] segments[i] matches SegmentView::Placeholder { name, raw }
                && name == active),
    ensures
        cursor_of(segments, values, active, from) == advanced(
            from,
            filled_all(segments.take(k), values) + (if values.contains_key(active) {
                values[active]
            } else {
                Seq::empty()
            }),
        ),
    decreases k,
{
    let value = if values.contains_key(active) {
        values[active]
    } else {
        Seq::empty()
    };
    if k == 0 {
        assert(segments.take(0) =~= Seq::<SegmentView>::empty());
        assert(filled_all(segments.take(0), values) + value =~= value);
    } else {
        let rest = segments.skip(1);
        let here = filled(segments[0], values);
        assert(!(segments[0] matches SegmentView::Placeholder { name, raw } && name == active));
        assert forall|i: int| 0 <= i < k - 1 implies !(
        #[trigger] rest[i] matches SegmentView::Placeholder { name, raw } && name == active) by {
            assert(rest[i] == segments[i + 1]);
        }
        law_cursor_stands_behind_the_value(rest, values, active, advanced(from, here), k - 1);
        lemma_filled_front(segments.take(k), values);
        assert(segments.take(k).skip(1) =~= rest.take(k - 1));
        assert(filled_all(segments.take(k), values) + value =~= here + (filled_all(
            rest.take(k - 1),
            values,
        ) + value));
        lemma_advanced(from, here, filled_all(rest.take(k - 1), values) + value);
    }
}

proof fn lemma_filled_front(segments: Seq<SegmentView>, values: Map<Seq<char>, Seq<char>>)
    requires
        segments.len() > 0,
    ensures
        filled_all(segments, values) == filled(segments[0], values) + filled_all(
            segments.skip(1),
            values,
        ),
    decreases segments.len(),
{
    if segments.len() > 1 {
        lemma_filled_front(segments.drop_last(), values);
        assert(segments.drop_last().skip(1) =~= segments.skip(1).drop_last());
        assert(segments.skip(1).last() == segments.last());
        assert(filled_all(segments, values) =~= filled(segments[0], values) + filled_all(
            segments.skip(1),
            values,
        ));
    } else {
        assert(segments.drop_last() =~= Seq::<SegmentView>::empty());
        assert(segments.skip(1) =~= Seq::<SegmentView>::empty());
        assert(filled_all(segments, values) =~= filled(segments[0], values) + filled_all(
            segments.skip(1),
            values,
        ));
    }
}

/// While variables are asked for, the command is shown as it is filled so far. Only
/// where the variable that is edited has nothing yet and a hint, the hint is shown.
pub proof fn law_shown_command_is_the_filled_one(
    segment: SegmentView,
    values: Map<Seq<char>, Seq<char>>,
    active: Option<Seq<char>>,
    hint: Option<Seq<char>>,
    theme: Theme,
)
    ensures
        ({
            let run = shown(segment, values, active, hint, theme);
            match segment {
                SegmentView::Literal(text) => run.content == text,
                SegmentView::Placeholder { name, raw } => {
                    let blank = !values.contains_key(name) || values[name].len() == 0;
                    &&& active == Some(name) && blank && hint is Some ==> run.content == hint->0
                    &&& !(active == Some(name) && blank && hint is Some) ==> run.content == filled(
                        segment,
                        values,
                    )
                    &&& active == Some(name) && !blank ==> run.style == theme.active_prompt
                },
            }
        }),
{
}

proof fn lemma_part_is_added(lines: Seq<Seq<style::SpanView>>, part: Seq<char>, style: Style)
    requires
        lines.len() > 0,
    ensures
        with_part(lines, part, style).len() == lines.len(),
        style::plain_text(with_part(lines, part, style)) == style::plain_text(lines) + part,
{
    let after = with_part(lines, part, style);
    if part.len() == 0 {
        assert(style::plain_text(lines) + part =~= style::plain_text(lines));
    } else {
        let run = style::styled_span(part, style);
        let last = lines.last();
        assert(last.push(run).drop_last() =~= last);
        assert(after.drop_last() =~= lines.drop_last());
        assert(style::plain_line(after.last()) == style::plain_line(last) + part);
        assert(style::plain_text(after) =~= style::plain_text(lines) + part);
    }
}

proof fn lemma_parts_are_added(
    lines: Seq<Seq<style::SpanView>>,
    parts: Seq<Seq<char>>,
    style: Style,
)
    requires
        lines.len() > 0,
        parts.len() > 0,
    ensures
        with_parts(lines, parts, style).len() > 0,
        style::plain_text(with_parts(lines, parts, style)) == style::plain_text(lines)
            + text::join_of(parts, seq!['\n']),
    decreases parts.len(),
{
    if parts.len() == 1 {
        lemma_part_is_added(lines, parts[0], style);
    } else {
        let front = parts.drop_last();
        lemma_parts_are_added(lines, front, style);
        let before = with_parts(lines, front, style);
        let opened = before.push(Seq::empty());
        assert(opened.drop_last() =~= before);
        let none = Seq::<style::SpanView>::empty();
        assert(style::plain_line(none) =~= Seq::<char>::empty());
        assert(style::plain_text(opened) =~= style::plain_text(before).push('\n'));
        lemma_part_is_added(opened, parts.last(), style);
        assert(style::plain_text(with_parts(lines, parts, style)) =~= style::plain_text(lines)
            + text::join_of(parts, seq!['\n']));
    }
}

/// Breaking runs into lines keeps their characters.
pub proof fn law_lines_keep_the_text(chunks: Seq<style::SpanView>)
    ensures
        lines_of(chunks).len() > 0,
        style::plain_text(lines_of(chunks)) == style::plain_line(chunks),
    decreases chunks.len(),
{
    if chunks.len() > 0 {
        let last = chunks.last();
        law_lines_keep_the_text(chunks.drop_last());
        text::lemma_split_nonempty(last.content, '\n');
        text::law_join_undoes_split(last.content, '\n');
        lemma_parts_are_added(
            lines_of(chunks.drop_last()),
            text::split_of(last.content, '\n'),
            last.style,
        );
    } else {
        let none = Seq::<style::SpanView>::empty();
        assert(style::plain_line(none) =~= Seq::<char>::empty());
        assert(style::plain_text(lines_of(chunks)) =~= style::plain_line(chunks));
    }
}

} // verus!
