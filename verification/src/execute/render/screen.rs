//! The picker and the prompt as they are drawn.

use vstd::prelude::*;
use crate::browse;
use crate::browse::{BrowseEntry, DirNode};
use crate::config::Theme;
use crate::domain;
use crate::domain::SnippetId;
use crate::execute::app;
use crate::execute::app::{ExecutionApp, ListPosition, NavigationMode};
use crate::execute::browse as tree_mode;
use crate::execute::prompt;
use crate::execute::prompt::PromptState;
use crate::execute::render::help;
use crate::execute::render::highlight;
use crate::execute::render::highlight::HighlightPattern;
use crate::execute::render::layout;
use crate::execute::render::layout::{PromptLayout, Rect, SelectLayout};
use crate::execute::render::preview;
use crate::execute::render::preview::PickerPreview;
use crate::execute::render::rows;
use crate::execute::render::tags as tag_view;
use crate::execute::suggestions::SuggestionProvider;
use crate::execute::tags;
use crate::execute::tags::TagListEntry;
use crate::execute::template;
use crate::fuzzy::FuzzyScorer;
use crate::index;
use crate::index::TagKey;
use crate::search;
use crate::style;
use crate::style::{Span, Text};
use crate::text;

verus! {

broadcast use vstd::string::group_string_axioms;

/// A file name without its ending for markdown.
pub open spec fn stem_of(name: Seq<char>) -> Seq<char> {
    if name.len() >= 3 && name.skip(name.len() - 3) == ".md"@ {
        name.take(name.len() - 3)
    } else {
        name
    }
}

/// A file name without its ending for markdown.
pub fn stem(name: &str) -> (out: String)
    ensures
        out@ == stem_of(name@),
{
    proof {
        reveal_strlit(".md");
    }
    if text::ends_with_text(name, ".md") {
        let chars = text::chars_of(name);
        text::string_from(&chars, 0, chars.len() - 3)
    } else {
        name.to_owned()
    }
}

/// A row of browse mode: a snippet by its name, a file by its stem and a
/// directory with a slash, both with the number of snippets below.
pub open spec fn browse_label(row: browse::BrowseEntryView, dir: Option<DirNode>) -> Seq<char> {
    match row {
        browse::BrowseEntryView::Snippet(s) => s.name,
        browse::BrowseEntryView::Directory(name) => {
            let child = match dir {
                Some(d) => browse::child_of(d.children@, name),
                None => None,
            };
            match child {
                Some(c) => if c.children@.len() == 0 {
                    stem_of(name) + " ("@ + text::decimal(c.recursive_count as nat) + ")"@
                } else {
                    name + "/ ("@ + text::decimal(c.recursive_count as nat) + ")"@
                },
                None => name + "/ ("@ + text::decimal(0) + ")"@,
            }
        },
    }
}

/// A row of browse mode.
pub fn browse_row_label(row: &BrowseEntry, dir: Option<&DirNode>) -> (label: String)
    ensures
        label@ == browse_label(
            row@,
            (match dir {
                Some(d) => Some(*d),
                None => None,
            }),
        ),
{
    match row {
        BrowseEntry::Snippet(s) => s.name.clone(),
        BrowseEntry::Directory(name) => {
            let child = match dir {
                Some(d) => d.child(name.as_str()),
                None => None,
            };
            let mut count: usize = 0;
            let mut out;
            match child {
                Some(c) => {
                    count = c.recursive_count;
                    if c.children.len() == 0 {
                        out = stem(name.as_str());
                        out.append(" (");
                    } else {
                        out = name.clone();
                        out.append("/ (");
                    }
                },
                None => {
                    out = name.clone();
                    out.append("/ (");
                },
            }
            let shown = text::decimal_text(count as u64);
            out.append(shown.as_str());
            out.append(")");
            out
        },
    }
}

/// What the rows of browse mode show.
pub open spec fn browse_contents(list: Seq<browse::BrowseEntryView>, dir: Option<DirNode>) -> Seq<
    Seq<style::SpanView>,
> {
    list.map_values(
        |row: browse::BrowseEntryView| seq![style::raw_span(browse_label(row, dir))],
    )
}

fn browse_row_contents(list: &Vec<BrowseEntry>, dir: Option<&DirNode>) -> (contents: Vec<Vec<Span>>)
    ensures
        rows::content_views(contents@) == browse_contents(
            browse::row_views(list@),
            (match dir {
                Some(d) => Some(*d),
                None => None,
            }),
        ),
{
    let ghost node = match dir {
        Some(d) => Some(*d),
        None => None,
    };
    let ghost whole = browse_contents(browse::row_views(list@), node);
    let mut out: Vec<Vec<Span>> = Vec::new();
    let mut i: usize = 0;
    assert(rows::content_views(out@) =~= whole.take(0));
    while i < list.len()
        invariant
            i <= list@.len(),
            node == (match dir {
                Some(d) => Some(*d),
                None => None,
            }),
            whole == browse_contents(browse::row_views(list@), node),
            rows::content_views(out@) == whole.take(i as int),
        decreases list@.len() - i,
    {
        let ghost before = out@;
        let mut spans: Vec<Span> = Vec::new();
        spans.push(Span::raw(browse_row_label(&list[i], dir)));
        assert(style::span_views(spans@) =~= whole[i as int]);
        out.push(spans);
        assert(rows::content_views(out@) =~= rows::content_views(before).push(whole[i as int]));
        assert(whole.take(i + 1) =~= whole.take(i as int).push(whole[i as int]));
        i = i + 1;
    }
    assert(whole.take(whole.len() as int) =~= whole);
    out
}

/// What a row of fuzzy search shows; nothing where the index has no such
/// snippet.
pub open spec fn hit_row(
    theme: Theme,
    entry: Option<index::EntryView>,
    terms: Seq<search::TermView>,
    selected: bool,
) -> Seq<style::SpanView> {
    match entry {
        Some(e) => rows::fuzzy_row(theme, e, terms, selected),
        None => Seq::empty(),
    }
}

/// What the rows of fuzzy search show.
pub open spec fn fuzzy_contents(
    theme: Theme,
    entries: Seq<index::EntryView>,
    hits: Seq<Seq<char>>,
    terms: Seq<search::TermView>,
    selected: int,
) -> Seq<Seq<style::SpanView>> {
    Seq::new(
        hits.len(),
        |i: int| hit_row(theme, index::entry_of(entries, hits[i]), terms, i == selected),
    )
}

/// The row that the list of the current mode highlights.
pub open spec fn chosen_row<P>(app: ExecutionApp<P>) -> int {
    match app.nav_mode {
        NavigationMode::Fuzzy => app::row_or_first(app.fuzzy@.selection),
        NavigationMode::Browse => app::row_or_first(app.browse@.top().selection),
        NavigationMode::Tags => app::row_or_first(app.tags@.top().selection),
    }
}

/// Whether the index knows no tags.
pub open spec fn only_untagged<P>(app: ExecutionApp<P>) -> bool {
    app.tag_index.keys().len() == 1 && app.tag_index.ids(index::TagKeyView::Untagged) is Some
}

/// What the rows of the list show. `None` for a list of tags where there are
/// none.
pub open spec fn list_contents<P>(
    app: ExecutionApp<P>,
    hits: Seq<Seq<char>>,
    terms: Seq<search::TermView>,
) -> Option<Seq<Seq<style::SpanView>>> {
    match app.nav_mode {
        NavigationMode::Fuzzy => Some(
            fuzzy_contents(app.theme, app.index@, hits, terms, chosen_row(app)),
        ),
        NavigationMode::Browse => Some(
            browse_contents(
                tree_mode::rows_of(app.browse@, app.tree),
                browse::node_at(app.tree.root_node(), app.browse@.path),
            ),
        ),
        NavigationMode::Tags => if tags::drilled(app.tags@) is Some {
            Some(
                tag_view::drill_contents(
                    tags::drill_list(app.index@, app.tag_index, app.tags@),
                ),
            )
        } else if only_untagged(app) {
            None
        } else {
            Some(tag_view::tag_contents(tags::tag_list(app.tag_index, app.tags@)))
        },
    }
}

/// The text typed in the current mode, with what stands in front of it.
pub open spec fn typed_text<P>(app: ExecutionApp<P>) -> Seq<char> {
    match app.nav_mode {
        NavigationMode::Fuzzy => app.fuzzy@.query,
        NavigationMode::Browse => browse::shown_path(app.browse@.path)
            + app.browse@.top().filter,
        NavigationMode::Tags => match tags::drilled(app.tags@) {
            Some(tag) => tag_view::prompt_prefix(tag) + tags::drill_filter_of(app.tags@),
            None => tags::list_filter(app.tags@),
        },
    }
}

/// A count, and what it is out of.
pub open spec fn out_of(n: nat, total: nat) -> Seq<char> {
    text::decimal(n) + "/"@ + text::decimal(total)
}

/// How many rows match in the current mode.
pub open spec fn stats_text<P>(app: ExecutionApp<P>, hits: nat) -> Seq<char> {
    match app.nav_mode {
        NavigationMode::Fuzzy => out_of(hits, app.index@.len()),
        NavigationMode::Browse => text::decimal(tree_mode::rows_of(app.browse@, app.tree).len()),
        NavigationMode::Tags => if tags::drilled(app.tags@) is Some {
            text::decimal(tags::drill_list(app.index@, app.tag_index, app.tags@).len())
        } else {
            out_of(
                tags::tag_list(app.tag_index, app.tags@).len(),
                app.tag_index.keys().len(),
            )
        },
    }
}

/// The name of a mode.
pub open spec fn mode_name(mode: NavigationMode) -> Seq<char> {
    match mode {
        NavigationMode::Fuzzy => "Fuzzy"@,
        NavigationMode::Browse => "Browse"@,
        NavigationMode::Tags => "Tags"@,
    }
}

/// The names of the snippets among `ids` that the index has.
pub open spec fn found_names(entries: Seq<index::EntryView>, ids: Seq<Seq<char>>) -> Seq<Seq<char>>
    decreases ids.len(),
{
    if ids.len() == 0 {
        Seq::empty()
    } else {
        let before = found_names(entries, ids.drop_last());
        match index::entry_of(entries, ids.last()) {
            Some(entry) => before.push(entry.snippet.name),
            None => before,
        }
    }
}

/// Markdown for a tag: its label, how many snippets carry it, and their names.
pub open spec fn tag_markdown(
    entries: Seq<index::EntryView>,
    key: index::TagKeyView,
    ids: Seq<Seq<char>>,
) -> Seq<char> {
    "# "@ + tags::label_of(key) + " ("@ + text::decimal(ids.len()) + ")\n\n---\n\n"@ + (
    if ids.len() == 0 {
        "_(no snippets)_\n"@
    } else {
        preview::name_list(found_names(entries, ids))
    })
}

/// The preview of the highlighted tag.
pub open spec fn tag_preview<P>(app: ExecutionApp<P>) -> preview::PreviewView {
    let list = tags::tag_list(app.tag_index, app.tags@);
    let row = app::row_or_first(tags::list_row(app.tags@));
    if row >= list.len() {
        preview::PreviewView::Empty
    } else {
        match app.tag_index.ids(list[row].key) {
            Some(ids) => preview::PreviewView::Markdown(
                tag_markdown(app.index@, list[row].key, ids),
            ),
            None => preview::PreviewView::Empty,
        }
    }
}

/// The preview of a snippet; none where there is none.
pub open spec fn entry_preview(entry: Option<index::EntryView>) -> preview::PreviewView {
    match entry {
        Some(e) => preview::PreviewView::Snippet(e),
        None => preview::PreviewView::Empty,
    }
}

/// The preview of the highlighted row of browse mode.
pub open spec fn node_preview<P>(app: ExecutionApp<P>) -> preview::PreviewView {
    let list = tree_mode::rows_of(app.browse@, app.tree);
    let row = app::row_or_first(app.browse@.top().selection);
    if row >= list.len() {
        preview::PreviewView::Empty
    } else {
        match list[row] {
            browse::BrowseEntryView::Snippet(s) => entry_preview(
                index::entry_of(app.index@, s.id),
            ),
            browse::BrowseEntryView::Directory(name) => {
                let path = app.browse@.path.push(name);
                match browse::node_at(app.tree.root_node(), path) {
                    Some(node) => preview::PreviewView::Markdown(
                        preview::container_markdown(name, path, node),
                    ),
                    None => preview::PreviewView::Empty,
                }
            },
        }
    }
}

/// What the preview shows.
pub open spec fn preview_of<P>(app: ExecutionApp<P>, hits: Seq<Seq<char>>) -> preview::PreviewView {
    match app.nav_mode {
        NavigationMode::Fuzzy => entry_preview(app::fuzzy_choice(app.index@, hits, app.fuzzy@)),
        NavigationMode::Browse => node_preview(app),
        NavigationMode::Tags => if tags::drilled(app.tags@) is Some {
            entry_preview(app::tag_choice(app.index@, app.tag_index, app.tags@))
        } else {
            tag_preview(app)
        },
    }
}

/// Whether a directory is highlighted in browse mode.
pub open spec fn directory_chosen<P>(app: ExecutionApp<P>) -> bool {
    let list = tree_mode::rows_of(app.browse@, app.tree);
    let row = app::row_or_first(app.browse@.top().selection);
    app.nav_mode == NavigationMode::Browse && row < list.len() && list[row] is Directory
}

/// The last line of the picker: the message, or the keys.
pub open spec fn footer_text<P>(app: ExecutionApp<P>) -> Seq<char> {
    match app@.status {
        Some(status) => status,
        None => help::help_of(
            help::select_items(
                app.keymap,
                app.nav_mode,
                tags::drilled(app.tags@) is Some,
                directory_chosen(app),
            ),
        ),
    }
}

/// Where the cursor stands in the picker; nowhere in browse mode.
pub open spec fn picker_cursor<P>(app: ExecutionApp<P>, header: Rect) -> Option<(u16, u16)> {
    let column = match app.nav_mode {
        NavigationMode::Fuzzy => Some(app.fuzzy@.column()),
        NavigationMode::Browse => None,
        NavigationMode::Tags => match tags::drilled(app.tags@) {
            Some(tag) => Some(tag_view::prompt_prefix(tag).len() + app.tags@.top().column()),
            None => Some(app.tags@.top().column()),
        },
    };
    match column {
        Some(c) => Some(
            (
                template::screen((header.x + 2 + c) as nat),
                template::screen((header.y + 1) as nat),
            ),
        ),
        None => None,
    }
}

/// The area inside the line to the left of the preview.
pub open spec fn preview_inside(area: Rect) -> Rect {
    Rect {
        x: template::screen((area.x + 1) as nat),
        y: area.y,
        width: layout::less(area.width, 1),
        height: area.height,
    }
}

/// The picker as it is drawn.
pub struct SelectScreen {
    /// The two lines with the count, the mode and what was typed.
    pub header: Text,
    /// Where the line of the preview meets the upper border.
    pub junction: (u16, u16),
    /// The line above the list, where a tag was entered.
    pub heading: Option<String>,
    /// The rows of the list. `None` where a note stands in its place.
    pub rows: Option<Text>,
    pub preview_area: Rect,
    pub preview: Text,
    pub footer: String,
    pub cursor: Option<(u16, u16)>,
}

/// Where a list stands once it is drawn. In tags mode an empty list has no
/// highlighted row.
pub open spec fn list_position(
    before: ListPosition,
    mode: NavigationMode,
    total: nat,
    selected: int,
    height: u16,
) -> ListPosition {
    ListPosition {
        offset: rows::clamped_offset(
            before.offset,
            rows::padding_of(height, total) + total,
            height,
        ),
        selected: if mode == NavigationMode::Tags && total == 0 {
            None
        } else {
            Some(rows::visual_row(height, total, selected) as usize)
        },
    }
}

/// The position of a mode's list after the picker was drawn: it changes in the
/// current mode alone, and only where there are rows.
pub open spec fn drawn_position<P>(
    app: ExecutionApp<P>,
    mode: NavigationMode,
    before: ListPosition,
    contents: Option<Seq<Seq<style::SpanView>>>,
    height: u16,
) -> ListPosition {
    if app.nav_mode != mode || contents is None {
        before
    } else {
        list_position(before, mode, contents->0.len(), chosen_row(app), height)
    }
}

/// The parts of a query that are marked: none but in fuzzy search.
pub open spec fn marked_terms<P>(app: ExecutionApp<P>) -> Seq<search::TermView> {
    if app.nav_mode == NavigationMode::Fuzzy {
        search::terms_of(app.fuzzy@.query)
    } else {
        Seq::empty()
    }
}

/// Whether what drawing does not change is the same in both.
pub open spec fn same_session<P>(a: ExecutionApp<P>, b: ExecutionApp<P>) -> bool {
    &&& a.index == b.index
    &&& a.tree == b.tree
    &&& a.tag_index == b.tag_index
    &&& a.cwd == b.cwd
    &&& a.provider == b.provider
    &&& a.theme == b.theme
    &&& a.initial_buffer == b.initial_buffer
    &&& a.keymap == b.keymap
}

fn count_out_of(n: usize, total: usize) -> (out: String)
    ensures
        out@ == out_of(n as nat, total as nat),
{
    let mut out = text::decimal_text(n as u64);
    out.append("/");
    let of = text::decimal_text(total as u64);
    out.append(of.as_str());
    out
}

/// A coordinate so many cells behind another.
fn cell_behind(at: u16, cells: usize) -> (out: u16)
    ensures
        out == template::screen((at + cells) as nat),
{
    template::to_screen((at as u64).saturating_add(cells as u64))
}

fn row_or_first(selection: Option<usize>) -> (row: usize)
    ensures
        row == app::row_or_first(selection),
{
    match selection {
        Some(row) => row,
        None => 0,
    }
}

impl<P: SuggestionProvider> ExecutionApp<P> {
    /// What the rows of fuzzy search show.
    fn fuzzy_row_contents(
        &self,
        hits: &Vec<SnippetId>,
        patterns: &Vec<HighlightPattern>,
        scorer: &mut FuzzyScorer,
        selected: usize,
    ) -> (contents: Vec<Vec<Span>>)
        ensures
            rows::content_views(contents@) == fuzzy_contents(
                self.theme,
                self.index@,
                domain::id_texts(hits@),
                highlight::pattern_views(patterns@),
                selected as int,
            ),
    {
        let ghost ids = domain::id_texts(hits@);
        let ghost terms = highlight::pattern_views(patterns@);
        let ghost whole = fuzzy_contents(self.theme, self.index@, ids, terms, selected as int);
        let mut out: Vec<Vec<Span>> = Vec::new();
        let mut i: usize = 0;
        assert(rows::content_views(out@) =~= whole.take(0));
        while i < hits.len()
            invariant
                i <= hits@.len(),
                ids == domain::id_texts(hits@),
                terms == highlight::pattern_views(patterns@),
                whole == fuzzy_contents(self.theme, self.index@, ids, terms, selected as int),
                rows::content_views(out@) == whole.take(i as int),
            decreases hits@.len() - i,
        {
            assert(ids[i as int] == hits@[i as int]@);
            let ghost before = out@;
            let spans = match self.index.get(&hits[i]) {
                Some(entry) => rows::fuzzy_snippet_row_spans(
                    &self.theme,
                    entry,
                    patterns,
                    scorer,
                    i == selected,
                ),
                None => Vec::new(),
            };
            assert(style::span_views(spans@) =~= whole[i as int]);
            out.push(spans);
            assert(rows::content_views(out@) =~= rows::content_views(before).push(
                whole[i as int],
            ));
            assert(whole.take(i + 1) =~= whole.take(i as int).push(whole[i as int]));
            i = i + 1;
        }
        assert(whole.take(whole.len() as int) =~= whole);
        out
    }

    /// The row that the list of the current mode highlights.
    fn selected_row(&self) -> (row: usize)
        requires
            self@.wf(),
        ensures
            row == chosen_row(*self),
    {
        match self.nav_mode {
            NavigationMode::Fuzzy => row_or_first(self.fuzzy.selected()),
            NavigationMode::Browse => row_or_first(self.browse.selection()),
            NavigationMode::Tags => if self.tags.drill().is_some() {
                row_or_first(self.tags.drill_selection())
            } else {
                row_or_first(self.tags.list_selection())
            },
        }
    }

    /// What the rows of the list show.
    fn row_contents(
        &self,
        hits: &Vec<SnippetId>,
        patterns: &Vec<HighlightPattern>,
        scorer: &mut FuzzyScorer,
    ) -> (contents: Option<Vec<Vec<Span>>>)
        requires
            self@.wf(),
        ensures
            match contents {
                Some(c) => list_contents(
                    *self,
                    domain::id_texts(hits@),
                    highlight::pattern_views(patterns@),
                ) == Some(rows::content_views(c@)),
                None => list_contents(
                    *self,
                    domain::id_texts(hits@),
                    highlight::pattern_views(patterns@),
                ) is None,
            },
    {
        match self.nav_mode {
            NavigationMode::Fuzzy => {
                let selected = self.selected_row();
                Some(self.fuzzy_row_contents(hits, patterns, scorer, selected))
            },
            NavigationMode::Browse => {
                let visible = self.browse.visible(&self.tree);
                let dir = self.tree.get(self.browse.path());
                Some(browse_row_contents(&visible, dir))
            },
            NavigationMode::Tags => if self.tags.drill().is_some() {
                let list = self.visible_tag_snippets();
                Some(tag_view::drill_row_contents(&list))
            } else {
                let keys = self.tag_index.key_list();
                assert(keys@.map_values(|k: TagKey| k@).len() == keys@.len());
                if keys.len() == 1 && self.tag_index.contains_key(&TagKey::Untagged) {
                    None
                } else {
                    let list = self.visible_tags();
                    Some(tag_view::tag_row_contents(&list))
                }
            },
        }
    }

    /// The text typed in the current mode.
    fn typed(&self) -> (out: String)
        requires
            self@.wf(),
        ensures
            out@ == typed_text(*self),
    {
        match self.nav_mode {
            NavigationMode::Fuzzy => self.fuzzy.query.clone(),
            NavigationMode::Browse => {
                let mut out = self.browse.path_display();
                out.append(self.browse.input());
                out
            },
            NavigationMode::Tags => match tag_view::tags_prompt(
                self.tags.drill(),
                self.tags.drill_filter(),
            ) {
                Some(out) => out,
                None => self.tags.filter().to_owned(),
            },
        }
    }

    /// How many rows match in the current mode.
    fn stats(&self, hits: &Vec<SnippetId>) -> (out: String)
        requires
            self@.wf(),
        ensures
            out@ == stats_text(*self, hits@.len()),
    {
        match self.nav_mode {
            NavigationMode::Fuzzy => count_out_of(hits.len(), self.index.len()),
            NavigationMode::Browse => {
                let visible = self.browse.visible(&self.tree);
                assert(browse::row_views(visible@).len() == visible@.len());
                text::decimal_text(visible.len() as u64)
            },
            NavigationMode::Tags => if self.tags.drill().is_some() {
                let list = self.visible_tag_snippets();
                assert(tags::snippet_row_views(list@).len() == list@.len());
                text::decimal_text(list.len() as u64)
            } else {
                let list = self.visible_tags();
                assert(tags::tag_row_views(list@).len() == list@.len());
                let keys = self.tag_index.key_list();
                assert(keys@.map_values(|k: TagKey| k@).len() == keys@.len());
                count_out_of(list.len(), keys.len())
            },
        }
    }

    /// The preview of the highlighted tag.
    pub fn tag_list_preview(&self, visible: &Vec<TagListEntry>) -> (shown: PickerPreview<'_>)
        requires
            self@.wf(),
            tags::tag_row_views(visible@) == tags::tag_list(self.tag_index, self.tags@),
        ensures
            shown@ == tag_preview(*self),
    {
        let row = row_or_first(self.tags.list_selection());
        let ghost list = tags::tag_row_views(visible@);
        assert(list.len() == visible@.len());
        if row >= visible.len() {
            return PickerPreview::Empty;
        }
        let entry = &visible[row];
        assert(list[row as int] == entry@);
        let ids = match self.tag_index.get(&entry.key) {
            Some(ids) => ids,
            None => {
                return PickerPreview::Empty;
            },
        };
        let ghost all = domain::id_texts(ids@);
        let mut md = "# ".to_owned();
        md.append(tags::tag_label(&entry.key));
        md.append(" (");
        let count = text::decimal_text(ids.len() as u64);
        md.append(count.as_str());
        md.append(")\n\n---\n\n");
        if ids.len() == 0 {
            md.append("_(no snippets)_\n");
            assert(md@ == tag_markdown(self.index@, entry.key@, all));
            return PickerPreview::Markdown(md);
        }
        let ghost head = md@;
        let mut i: usize = 0;
        assert(all.take(0) =~= Seq::<Seq<char>>::empty());
        assert(md@ =~= head + preview::name_list(found_names(self.index@, all.take(0))));
        while i < ids.len()
            invariant
                i <= ids@.len(),
                all == domain::id_texts(ids@),
                md@ == head + preview::name_list(found_names(self.index@, all.take(i as int))),
            decreases ids@.len() - i,
        {
            assert(all.take(i + 1).drop_last() =~= all.take(i as int));
            assert(all.take(i + 1).last() == ids@[i as int]@);
            let ghost before = found_names(self.index@, all.take(i as int));
            match self.index.get(&ids[i]) {
                Some(snippet) => {
                    md.append("- ");
                    md.append(snippet.name());
                    md.append("\n");
                    assert(before.push(snippet@.snippet.name).drop_last() =~= before);
                    assert(md@ =~= head + (preview::name_list(before) + "- "@
                        + snippet@.snippet.name + "\n"@));
                },
                None => {},
            }
            i = i + 1;
        }
        assert(all.take(all.len() as int) =~= all);
        assert(md@ =~= tag_markdown(self.index@, entry.key@, all));
        PickerPreview::Markdown(md)
    }

    /// The preview of the highlighted row of browse mode.
    pub fn browse_preview(&self, visible: &Vec<BrowseEntry>) -> (shown: PickerPreview<'_>)
        requires
            self@.wf(),
            browse::row_views(visible@) == tree_mode::rows_of(self.browse@, self.tree),
        ensures
            shown@ == node_preview(*self),
    {
        let row = row_or_first(self.browse.selection());
        let ghost list = browse::row_views(visible@);
        assert(list.len() == visible@.len());
        if row >= visible.len() {
            return PickerPreview::Empty;
        }
        assert(list[row as int] == visible@[row as int]@);
        match &visible[row] {
            BrowseEntry::Snippet(s) => match self.index.get(&s.id) {
                Some(snippet) => PickerPreview::Snippet(snippet),
                None => PickerPreview::Empty,
            },
            BrowseEntry::Directory(name) => {
                let mut path = text::copy_texts(self.browse.path());
                let ghost before = path@;
                path.push(name.clone());
                assert(text::texts(path@) =~= text::texts(before).push(name@));
                match self.tree.get(&path) {
                    Some(node) => PickerPreview::Markdown(
                        preview::container_preview_markdown(name.as_str(), &path, node),
                    ),
                    None => PickerPreview::Empty,
                }
            },
        }
    }

    /// What the preview shows.
    pub fn picker_preview(&self, hits: &Vec<SnippetId>) -> (shown: PickerPreview<'_>)
        requires
            self@.wf(),
        ensures
            shown@ == preview_of(*self, domain::id_texts(hits@)),
    {
        match self.nav_mode {
            NavigationMode::Fuzzy => match self.selected_fuzzy_snippet(hits) {
                Some(snippet) => PickerPreview::Snippet(snippet),
                None => PickerPreview::Empty,
            },
            NavigationMode::Browse => {
                let visible = self.browse.visible(&self.tree);
                self.browse_preview(&visible)
            },
            NavigationMode::Tags => if self.tags.drill().is_some() {
                match self.selected_tag_snippet() {
                    Some(snippet) => PickerPreview::Snippet(snippet),
                    None => PickerPreview::Empty,
                }
            } else {
                let visible = self.visible_tags();
                self.tag_list_preview(&visible)
            },
        }
    }

    /// The last line of the picker.
    pub fn select_footer(&self) -> (out: String)
        requires
            self@.wf(),
        ensures
            out@ == footer_text(*self),
    {
        match &self.status {
            Some(status) => status.clone(),
            None => {
                let mut directory = false;
                match self.nav_mode {
                    NavigationMode::Browse => {
                        let visible = self.browse.visible(&self.tree);
                        let row = row_or_first(self.browse.selection());
                        let ghost list = browse::row_views(visible@);
                        assert(list.len() == visible@.len());
                        if row < visible.len() {
                            assert(list[row as int] == visible@[row as int]@);
                            directory = match &visible[row] {
                                BrowseEntry::Directory(_) => true,
                                BrowseEntry::Snippet(_) => false,
                            };
                        }
                    },
                    _ => {},
                }
                self.select_help(directory)
            },
        }
    }

    /// Where the cursor stands in the picker.
    fn select_cursor(&self, header: Rect) -> (at: Option<(u16, u16)>)
        requires
            self@.wf(),
        ensures
            at == picker_cursor(*self, header),
    {
        let mut in_front: usize = 0;
        let column: usize = match self.nav_mode {
            NavigationMode::Fuzzy => self.fuzzy.cursor_col(),
            NavigationMode::Browse => {
                return None;
            },
            NavigationMode::Tags => match self.tags.drill() {
                Some(tag) => {
                    in_front = tag_view::tags_prompt_prefix_len(tag);
                    self.tags.drill_cursor_col()
                },
                None => self.tags.cursor_col(),
            },
        };
        Some(
            (
                cell_behind(header.x, in_front.saturating_add(column).saturating_add(2)),
                cell_behind(header.y, 1),
            ),
        )
    }

    /// The line above the list, where a tag was entered.
    fn list_heading(&self) -> (heading: Option<String>)
        requires
            self@.wf(),
        ensures
            text::optional_text(heading) == heading_text(*self),
    {
        match self.nav_mode {
            NavigationMode::Tags => match self.tags.drill() {
                Some(tag) => Some(tag_view::tag_heading(tag)),
                None => None,
            },
            _ => None,
        }
    }

    /// The patterns of a query that are marked.
    fn marked_patterns(&self) -> (patterns: Vec<HighlightPattern>)
        requires
            self.nav_mode == NavigationMode::Fuzzy ==> search::fits(self.fuzzy@.query),
        ensures
            highlight::pattern_views(patterns@) == marked_terms(*self),
    {
        match self.nav_mode {
            NavigationMode::Fuzzy => highlight::compile_highlight_patterns(
                self.fuzzy.query.as_str(),
            ),
            _ => {
                let none: Vec<HighlightPattern> = Vec::new();
                assert(highlight::pattern_views(none@) =~= Seq::<search::TermView>::empty());
                none
            },
        }
    }

    /// Draws the picker into its areas. The position of the list and of the
    /// preview are kept from going past the end.
    pub fn render_select(
        &mut self,
        hits: &Vec<SnippetId>,
        outer: Rect,
        areas: SelectLayout,
    ) -> (screen: SelectScreen)
        requires
            old(self)@.wf(),
            old(self).nav_mode == NavigationMode::Fuzzy ==> search::fits(old(self).fuzzy@.query),
        ensures
            screen.header@ == rows::header_lines(
                old(self).theme,
                typed_text(*old(self)),
                stats_text(*old(self), hits@.len()),
                mode_name(old(self).nav_mode),
                areas.header.width,
                layout::less(areas.preview.x, areas.header.x as nat),
            ),
            screen.junction == (areas.preview.x, outer.y),
            text::optional_text(screen.heading) == heading_text(*old(self)),
            match screen.rows {
                Some(shown) => list_contents(
                    *old(self),
                    domain::id_texts(hits@),
                    marked_terms(*old(self)),
                ) is Some && shown@ == rows::bottom_up(
                    old(self).theme,
                    list_contents(
                        *old(self),
                        domain::id_texts(hits@),
                        marked_terms(*old(self)),
                    )->0,
                    chosen_row(*old(self)),
                    areas.list.height,
                ),
                None => list_contents(
                    *old(self),
                    domain::id_texts(hits@),
                    marked_terms(*old(self)),
                ) is None,
            },
            screen.preview_area == preview_inside(areas.preview),
            preview::shows(
                preview_of(*old(self), domain::id_texts(hits@)),
                preview_inside(areas.preview).width as usize,
                old(self).theme,
                marked_terms(*old(self)),
                screen.preview@,
            ),
            screen.footer@ == footer_text(*old(self)),
            screen.cursor == picker_cursor(*old(self), areas.header),
            same_session(*old(self), *final(self)),
            final(self)@ == (app::AppView {
                preview_scroll: layout::at_most(
                    old(self).preview_scroll,
                    layout::last_scroll(
                        template::screen(screen.preview@.len()),
                        preview_inside(areas.preview).height,
                    ),
                ),
                ..old(self)@
            }),
            final(self).fuzzy_list == drawn_position(
                *old(self),
                NavigationMode::Fuzzy,
                old(self).fuzzy_list,
                list_contents(*old(self), domain::id_texts(hits@), marked_terms(*old(self))),
                areas.list.height,
            ),
            final(self).browse_list == drawn_position(
                *old(self),
                NavigationMode::Browse,
                old(self).browse_list,
                list_contents(*old(self), domain::id_texts(hits@), marked_terms(*old(self))),
                areas.list.height,
            ),
            final(self).tags_list == drawn_position(
                *old(self),
                NavigationMode::Tags,
                old(self).tags_list,
                list_contents(*old(self), domain::id_texts(hits@), marked_terms(*old(self))),
                areas.list.height,
            ),
    {
        let patterns = self.marked_patterns();
        let mut scorer = FuzzyScorer::new();
        let ghost ids = domain::id_texts(hits@);
        let ghost before = *self;
        let prompt = self.typed();
        let stats = self.stats(hits);
        let mode = match self.nav_mode {
            NavigationMode::Fuzzy => "Fuzzy",
            NavigationMode::Browse => "Browse",
            NavigationMode::Tags => "Tags",
        };
        let header = rows::select_header(
            &self.theme,
            prompt.as_str(),
            stats.as_str(),
            mode,
            areas.header.width,
            areas.preview.x.saturating_sub(areas.header.x),
        );
        let heading = self.list_heading();
        let selected = self.selected_row();
        let contents = self.row_contents(hits, &patterns, &mut scorer);
        let preview_area = Rect {
            x: cell_behind(areas.preview.x, 1),
            y: areas.preview.y,
            width: areas.preview.width.saturating_sub(1),
            height: areas.preview.height,
        };
        let preview = preview::picker_preview_text(
            self.picker_preview(hits),
            preview_area.width as usize,
            &patterns,
            &mut scorer,
            &self.theme,
        );
        let footer = self.select_footer();
        let cursor = self.select_cursor(areas.header);
        let lines = template::to_screen(preview.lines.len() as u64);
        let last: u16 = lines.saturating_sub(preview_area.height);
        let rows = match contents {
            Some(contents) => {
                let total = contents.len();
                let height = areas.list.height;
                assert(rows::content_views(contents@).len() == total);
                let shown = rows::bottom_rows(&self.theme, contents, selected, height);
                let padding: usize = (height as usize).saturating_sub(total);
                let visual: usize = padding + total.saturating_sub(1).saturating_sub(selected);
                assert(visual == rows::visual_row(height, total as nat, selected as int));
                let items = padding + total;
                match self.nav_mode {
                    NavigationMode::Fuzzy => {
                        rows::clamp_list_offset(&mut self.fuzzy_list, items, height);
                        self.fuzzy_list.selected = Some(visual);
                    },
                    NavigationMode::Browse => {
                        rows::clamp_list_offset(&mut self.browse_list, items, height);
                        self.browse_list.selected = Some(visual);
                    },
                    NavigationMode::Tags => {
                        rows::clamp_list_offset(&mut self.tags_list, items, height);
                        self.tags_list.selected = if total > 0 {
                            Some(visual)
                        } else {
                            None
                        };
                    },
                }
                Some(shown)
            },
            None => None,
        };
        if self.preview_scroll > last {
            self.preview_scroll = last;
        }
        SelectScreen {
            header,
            junction: (areas.preview.x, outer.y),
            heading,
            rows,
            preview_area,
            preview,
            footer,
            cursor,
        }
    }
}

/// The line above the list, where a tag was entered.
pub open spec fn heading_text<P>(app: ExecutionApp<P>) -> Option<Seq<char>> {
    if app.nav_mode == NavigationMode::Tags {
        match tags::drilled(app.tags@) {
            Some(tag) => Some(tag_view::heading_of(tag)),
            None => None,
        }
    } else {
        None
    }
}

/// The command shown while a variable is being edited; nothing where the index
/// has no such snippet.
pub open spec fn command_text(
    entries: Seq<index::EntryView>,
    p: prompt::PromptView,
    theme: Theme,
) -> Seq<Seq<style::SpanView>> {
    match index::entry_of(entries, p.snippet_id) {
        Some(entry) => template::lines_of(
            template::shown_all(
                template::segments_of(entry.snippet.body),
                app::shown_values(p),
                Some(p.current().name),
                p.hint,
                theme,
            ),
        ),
        None => Seq::empty(),
    }
}

/// Column and row of the cursor in the command.
pub open spec fn command_cursor(entries: Seq<index::EntryView>, p: prompt::PromptView) -> (u16, u16) {
    match index::entry_of(entries, p.snippet_id) {
        Some(entry) => {
            let exact = template::cursor_of(
                template::segments_of(entry.snippet.body),
                app::shown_values(p),
                p.current().name,
                (0, 0),
            );
            (template::screen(exact.0), template::screen(exact.1))
        },
        None => (0, 0),
    }
}

/// How many suggestions are visible; `None` where the variable has none at all.
pub open spec fn visible_count(p: prompt::PromptView) -> Option<u16> {
    if p.suggestions.len() == 0 {
        None
    } else {
        Some(template::screen(p.visible().len()))
    }
}

/// The rows of a list that stands at the top of its area.
pub open spec fn top_down(theme: Theme, items: Seq<Seq<char>>, selected: int) -> Seq<
    Seq<style::SpanView>,
> {
    Seq::new(
        items.len(),
        |i: int|
            rows::numbered(theme, i, items.len(), selected, seq![style::raw_span(items[i])]),
    )
}

fn top_rows(theme: &Theme, items: &Vec<String>, selected: usize) -> (shown: Text)
    ensures
        shown@ == top_down(*theme, text::texts(items@), selected as int),
{
    let ghost all = text::texts(items@);
    let ghost whole = top_down(*theme, all, selected as int);
    let mut out = Text::new();
    let mut i: usize = 0;
    assert(out@ =~= whole.take(0));
    while i < items.len()
        invariant
            i <= items@.len(),
            all == text::texts(items@),
            whole == top_down(*theme, all, selected as int),
            out@ == whole.take(i as int),
        decreases items@.len() - i,
    {
        let mut content: Vec<Span> = Vec::new();
        content.push(Span::raw(items[i].clone()));
        assert(style::span_views(content@) =~= seq![style::raw_span(all[i as int])]);
        let line = rows::snippet_list_line(theme, i, items.len(), selected, content);
        assert(style::span_views(line@) == whole[i as int]);
        out.push(line);
        assert(whole.take(i + 1) =~= whole.take(i as int).push(whole[i as int]));
        i = i + 1;
    }
    assert(whole.take(whole.len() as int) =~= whole);
    out
}

/// What the status line of a prompt says: an error, or the variable's name.
pub open spec fn prompt_label(p: prompt::PromptView) -> Seq<char> {
    match p.error {
        Some(error) => error,
        None => p.current().name,
    }
}

/// Where the cursor stands in the prompt; nowhere where the index has no such
/// snippet.
pub open spec fn prompt_cursor(
    entries: Seq<index::EntryView>,
    p: prompt::PromptView,
    area: Rect,
    scroll: u16,
) -> Option<(u16, u16)> {
    let at = command_cursor(entries, p);
    if index::entry_of(entries, p.snippet_id) is Some {
        Some(
            (
                template::screen((area.x + at.0) as nat),
                template::screen((area.y + layout::less(at.1, scroll as nat)) as nat),
            ),
        )
    } else {
        None
    }
}

/// The prompt as it is drawn.
pub struct PromptScreen {
    pub command: Text,
    /// How many lines the command is scrolled down.
    pub scroll: u16,
    pub status: Vec<Span>,
    /// The rows of the suggestions. `None` where the variable has none at all.
    pub suggestions: Option<Text>,
    /// The highlighted row of the suggestions.
    pub selected: Option<usize>,
    pub cursor: Option<(u16, u16)>,
    pub footer: String,
}

impl<P: SuggestionProvider> ExecutionApp<P> {
    /// The command shown while a variable is being edited.
    pub fn prompt_preview_text(&self, p: &PromptState) -> (out: Text)
        requires
            p@.wf(),
        ensures
            out@ == command_text(self.index@, p@, self.theme),
    {
        let snippet = match self.index.get(&p.snippet_id) {
            Some(snippet) => snippet,
            None => {
                return Text::new();
            },
        };
        let values = app::prompt_values(p);
        let hint = match &p.hint {
            Some(hint) => Some(hint.as_str()),
            None => None,
        };
        template::render_command_text(
            snippet.body(),
            &values,
            Some(p.current_variable().name.as_str()),
            hint,
            &self.theme,
        )
    }

    /// Divides the screen of a prompt.
    pub fn prompt_areas(&self, p: &PromptState, outer: Rect) -> (areas: PromptLayout)
        requires
            p@.wf(),
        ensures
            layout::prompt_parts(
                outer,
                template::screen(command_text(self.index@, p@, self.theme).len()),
                visible_count(p@),
                areas,
            ),
    {
        let command = self.prompt_preview_text(p);
        assert(command@.len() == command.lines@.len());
        let lines = template::to_screen(command.lines.len() as u64);
        assert(text::texts(p.suggestions@).len() == p.suggestions@.len());
        if p.suggestions.len() == 0 {
            return layout::prompt_layout(outer, lines, None);
        }
        let visible = p.visible_suggestions();
        assert(text::texts(visible@).len() == visible@.len());
        layout::prompt_layout(outer, lines, Some(template::to_screen(visible.len() as u64)))
    }

    /// Column and row of the cursor in the command.
    fn cursor_in_command(&self, p: &PromptState) -> (at: (u16, u16))
        requires
            p@.wf(),
        ensures
            at == command_cursor(self.index@, p@),
    {
        match self.index.get(&p.snippet_id) {
            Some(snippet) => {
                let values = app::prompt_values(p);
                template::cursor_in_template(
                    snippet.body(),
                    &values,
                    p.current_variable().name.as_str(),
                )
            },
            None => (0, 0),
        }
    }

    /// Draws the prompt into its areas.
    pub fn render_prompt(&self, p: &PromptState, areas: PromptLayout) -> (screen: PromptScreen)
        requires
            p@.wf(),
        ensures
            screen.command@ == command_text(self.index@, p@, self.theme),
            screen.scroll == layout::command_scroll(
                command_cursor(self.index@, p@).1,
                template::screen(command_text(self.index@, p@, self.theme).len()),
                areas.command.height,
            ),
            style::span_views(screen.status@) == rows::status_runs(
                self.theme,
                (p@.index + 1) as nat,
                p@.variables.len(),
                prompt_label(p@),
                areas.status.width,
            ),
            match screen.suggestions {
                Some(shown) => p@.suggestions.len() > 0 && shown@ == top_down(
                    self.theme,
                    p@.visible(),
                    app::row_or_first(p@.selection),
                ),
                None => p@.suggestions.len() == 0,
            },
            screen.selected == p@.selection,
            screen.cursor == prompt_cursor(self.index@, p@, areas.command, screen.scroll),
            screen.footer@ == help::help_of(help::prompt_items(self.keymap)),
    {
        let command = self.prompt_preview_text(p);
        assert(command@.len() == command.lines@.len());
        let lines = template::to_screen(command.lines.len() as u64);
        let at = self.cursor_in_command(p);
        let scroll = layout::scroll_command(at.1, lines, areas.command.height);
        let variable = p.current_variable();
        let label = match &p.error {
            Some(error) => error.as_str(),
            None => variable.name.as_str(),
        };
        assert(p@.variables.len() == p.variables@.len());
        let total = p.variables.len();
        assert(p.index < total);
        let status = rows::prompt_status_line(
            &self.theme,
            p.index + 1,
            total,
            label,
            areas.status.width,
        );
        assert(text::texts(p.suggestions@).len() == p.suggestions@.len());
        let suggestions = if p.suggestions.len() > 0 {
            let visible = p.visible_suggestions();
            Some(top_rows(&self.theme, &visible, row_or_first(p.selection)))
        } else {
            None
        };
        let cursor = match self.index.get(&p.snippet_id) {
            Some(_) => Some(
                (
                    cell_behind(areas.command.x, at.0 as usize),
                    cell_behind(areas.command.y, at.1.saturating_sub(scroll) as usize),
                ),
            ),
            None => None,
        };
        PromptScreen {
            command,
            scroll,
            status,
            suggestions,
            selected: p.selection,
            cursor,
            footer: self.prompt_help(),
        }
    }
}

/// The preview shows the highlighted snippet.
pub proof fn law_preview_follows_the_choice<P>(
    app: ExecutionApp<P>,
    hits: Seq<Seq<char>>,
    entry: index::EntryView,
)
    requires
        app::picker_choice(app, hits) == Some(entry),
        app.nav_mode == NavigationMode::Tags ==> app.tags@.path.len() > 0,
    ensures
        preview_of(app, hits) == preview::PreviewView::Snippet(entry),
{
}

/// The ending of markdown files is not shown, any other ending is.
pub proof fn law_endings_are_not_shown(name: Seq<char>)
    ensures
        stem_of(name + seq!['.', 'm', 'd']) == name,
        name.len() < 3 || name[name.len() - 3] != '.' || name[name.len() - 2] != 'm' || name[name.len()
            - 1] != 'd' ==> stem_of(name) == name,
{
    reveal_strlit(".md");
    let ending = seq!['.', 'm', 'd'];
    assert(".md"@ =~= ending);
    let whole = name + ending;
    assert(whole.skip(whole.len() - 3) =~= ending);
    assert(whole.take(whole.len() - 3) =~= name);
    if name.len() >= 3 {
        let tail = name.skip(name.len() - 3);
        assert(tail[0] == name[name.len() - 3]);
        assert(tail[1] == name[name.len() - 2]);
        assert(tail[2] == name[name.len() - 1]);
    }
}

/// Each suggestion stands on a row of its own, the first at the top, and the
/// highlighted one is marked.
pub proof fn law_suggestions_stand_top_down(
    theme: Theme,
    items: Seq<Seq<char>>,
    selected: int,
    i: int,
)
    requires
        0 <= i < items.len(),
    ensures
        ({
            let rows = top_down(theme, items, selected);
            &&& rows.len() == items.len()
            &&& rows[i].len() == 3
            &&& rows[i].last().content == items[i]
            &&& i == selected ==> rows[i][1].style == theme.selected_item
            &&& i != selected ==> rows[i][1].style == theme.chrome
        }),
{
}

} // verus!
