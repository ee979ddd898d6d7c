//! What tags mode shows.

use vstd::prelude::*;
use crate::execute::render::rows;
use crate::execute::tags;
use crate::execute::tags::{TagListEntry, TagSnippetEntry};
use crate::index;
use crate::index::TagKey;
use crate::style;
use crate::style::Span;
use crate::text;

verus! {

broadcast use vstd::string::group_string_axioms;

/// What stands in front of the text typed below a tag.
pub open spec fn prompt_prefix(tag: index::TagKeyView) -> Seq<char> {
    "tag: "@ + tags::label_of(tag) + " > "@
}

fn tags_prompt_prefix(tag: &TagKey) -> (out: String)
    ensures
        out@ == prompt_prefix(tag@),
{
    let mut out = "tag: ".to_owned();
    out.append(tags::tag_label(tag));
    out.append(" > ");
    out
}

/// The text typed below a tag, with the tag in front; none at the tag list.
pub fn tags_prompt(tag: Option<&TagKey>, drill_filter: &str) -> (out: Option<String>)
    ensures
        text::optional_text(out) == (match tag {
            Some(t) => Some(prompt_prefix(t@) + drill_filter@),
            None => None,
        }),
{
    match tag {
        Some(t) => {
            let mut out = tags_prompt_prefix(t);
            out.append(drill_filter);
            Some(out)
        },
        None => None,
    }
}

/// How many columns stand in front of the text typed below a tag.
pub fn tags_prompt_prefix_len(tag: &TagKey) -> (n: usize)
    ensures
        n == prompt_prefix(tag@).len(),
{
    let prefix = tags_prompt_prefix(tag);
    text::chars_of(prefix.as_str()).len()
}

/// The line above the snippets of a tag.
pub open spec fn heading_of(tag: index::TagKeyView) -> Seq<char> {
    "tag: "@ + tags::label_of(tag)
}

/// The line above the snippets of a tag.
pub fn tag_heading(tag: &TagKey) -> (out: String)
    ensures
        out@ == heading_of(tag@),
{
    let mut out = "tag: ".to_owned();
    out.append(tags::tag_label(tag));
    out
}

/// A row of the tag list: the tag, and how many snippets carry it.
pub open spec fn tag_line(row: tags::TagRow) -> Seq<char> {
    (match row.key {
        index::TagKeyView::Untagged => tags::label_of(row.key),
        index::TagKeyView::Tag(_) => row.label,
    }) + " ("@ + text::decimal(row.count) + ")"@
}

/// What the rows of the tag list show.
pub open spec fn tag_contents(list: Seq<tags::TagRow>) -> Seq<Seq<style::SpanView>> {
    list.map_values(|row: tags::TagRow| seq![style::raw_span(tag_line(row))])
}

/// What the rows below a tag show.
pub open spec fn drill_contents(list: Seq<tags::SnippetRow>) -> Seq<Seq<style::SpanView>> {
    list.map_values(|row: tags::SnippetRow| seq![style::raw_span(row.name)])
}

fn one_run(s: String) -> (spans: Vec<Span>)
    ensures
        style::span_views(spans@) == seq![style::raw_span(s@)],
{
    let mut out: Vec<Span> = Vec::new();
    out.push(Span::raw(s));
    assert(style::span_views(out@) =~= seq![style::raw_span(s@)]);
    out
}

/// What the rows of the tag list show.
pub fn tag_row_contents(list: &Vec<TagListEntry>) -> (contents: Vec<Vec<Span>>)
    ensures
        rows::content_views(contents@) == tag_contents(tags::tag_row_views(list@)),
{
    let ghost whole = tag_contents(tags::tag_row_views(list@));
    let mut out: Vec<Vec<Span>> = Vec::new();
    let mut i: usize = 0;
    assert(rows::content_views(out@) =~= whole.take(0));
    while i < list.len()
        invariant
            i <= list@.len(),
            whole == tag_contents(tags::tag_row_views(list@)),
            rows::content_views(out@) == whole.take(i as int),
        decreases list@.len() - i,
    {
        let entry = &list[i];
        let mut shown = match entry.key {
            TagKey::Untagged => tags::tag_label(&entry.key).to_owned(),
            TagKey::Tag(_) => entry.label.clone(),
        };
        shown.append(" (");
        let count = text::decimal_text(entry.count as u64);
        shown.append(count.as_str());
        shown.append(")");
        assert(shown@ == tag_line(list@[i as int]@));
        let ghost before = out@;
        let spans = one_run(shown);
        assert(whole[i as int] == style::span_views(spans@));
        out.push(spans);
        assert(rows::content_views(out@) =~= rows::content_views(before).push(whole[i as int]));
        assert(whole.take(i + 1) =~= whole.take(i as int).push(whole[i as int]));
        i = i + 1;
    }
    assert(whole.take(whole.len() as int) =~= whole);
    out
}

/// What the rows below a tag show.
pub fn drill_row_contents(list: &Vec<TagSnippetEntry>) -> (contents: Vec<Vec<Span>>)
    ensures
        rows::content_views(contents@) == drill_contents(tags::snippet_row_views(list@)),
{
    let ghost whole = drill_contents(tags::snippet_row_views(list@));
    let mut out: Vec<Vec<Span>> = Vec::new();
    let mut i: usize = 0;
    assert(rows::content_views(out@) =~= whole.take(0));
    while i < list.len()
        invariant
            i <= list@.len(),
            whole == drill_contents(tags::snippet_row_views(list@)),
            rows::content_views(out@) == whole.take(i as int),
        decreases list@.len() - i,
    {
        let ghost before = out@;
        let spans = one_run(list[i].name.clone());
        assert(whole[i as int] == style::span_views(spans@));
        out.push(spans);
        assert(rows::content_views(out@) =~= rows::content_views(before).push(whole[i as int]));
        assert(whole.take(i + 1) =~= whole.take(i as int).push(whole[i as int]));
        i = i + 1;
    }
    assert(whole.take(whole.len() as int) =~= whole);
    out
}

} // verus!
