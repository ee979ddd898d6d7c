//! Tags mode: a list of tags, and below each tag the snippets that carry it.

use vstd::prelude::*;
use crate::domain;
use crate::domain::SnippetId;
use crate::index;
use crate::index::{SnippetIndex, TagIndex, TagKey};
use crate::line_edit;
use crate::text;
use super::tree_picker;
use super::tree_picker::TreePicker;

verus! {

broadcast use vstd::string::group_string_axioms;

/// Tags mode state: a picker with the tag list at its root and the snippets of
/// the chosen tag below.
pub struct TagsState {
    pub picker: TreePicker<TagKey>,
}

/// The state of the picker.
pub type TagPicker = tree_picker::PickerView<index::TagKeyView>;

impl View for TagsState {
    type V = TagPicker;

    open spec fn view(&self) -> TagPicker {
        self.picker@
    }
}

/// The tag that was entered.
pub open spec fn drilled(state: TagPicker) -> Option<index::TagKeyView> {
    if state.path.len() > 0 {
        Some(state.path[0])
    } else {
        None
    }
}

/// The filter of the tag list; empty below a tag.
pub open spec fn list_filter(state: TagPicker) -> Seq<char> {
    if state.path.len() == 0 {
        state.top().filter
    } else {
        Seq::empty()
    }
}

/// The filter below a tag; empty at the tag list.
pub open spec fn drill_filter_of(state: TagPicker) -> Seq<char> {
    if state.path.len() > 0 {
        state.top().filter
    } else {
        Seq::empty()
    }
}

/// The highlighted row of the tag list; none below a tag.
pub open spec fn list_row(state: TagPicker) -> Option<usize> {
    if state.path.len() == 0 {
        state.top().selection
    } else {
        None
    }
}

/// The highlighted row below a tag; none at the tag list.
pub open spec fn drill_row(state: TagPicker) -> Option<usize> {
    if state.path.len() > 0 {
        state.top().selection
    } else {
        None
    }
}

/// The state with the highlight of the current level moved.
pub open spec fn moved(state: TagPicker, delta: int, len: int) -> TagPicker {
    state.with_top(
        state.top().selecting(line_edit::moved_selection(state.top().selection, delta, len)),
    )
}

/// The state with another row of the current level highlighted.
pub open spec fn selecting(state: TagPicker, selection: Option<usize>) -> TagPicker {
    state.with_top(state.top().selecting(selection))
}

/// A row of the tag list.
#[derive(Debug, PartialEq, Eq)]
pub struct TagListEntry {
    pub key: TagKey,
    pub label: String,
    /// How many snippets carry the tag.
    pub count: usize,
}

/// What a [`TagListEntry`] holds.
pub struct TagRow {
    pub key: index::TagKeyView,
    pub label: Seq<char>,
    pub count: nat,
}

impl View for TagListEntry {
    type V = TagRow;

    open spec fn view(&self) -> TagRow {
        TagRow { key: self.key@, label: self.label@, count: self.count as nat }
    }
}

/// What the rows of the tag list hold.
pub open spec fn tag_row_views(rows: Seq<TagListEntry>) -> Seq<TagRow> {
    rows.map_values(|r: TagListEntry| r@)
}

/// The keys of the rows of the tag list.
pub open spec fn tag_row_keys(rows: Seq<TagRow>) -> Seq<Option<index::TagKeyView>> {
    rows.map_values(|r: TagRow| Some(r.key))
}

/// A row below a tag.
#[derive(Debug, PartialEq, Eq)]
pub struct TagSnippetEntry {
    pub id: SnippetId,
    pub name: String,
}

/// What a [`TagSnippetEntry`] holds.
pub struct SnippetRow {
    pub id: Seq<char>,
    pub name: Seq<char>,
}

impl View for TagSnippetEntry {
    type V = SnippetRow;

    open spec fn view(&self) -> SnippetRow {
        SnippetRow { id: self.id@, name: self.name@ }
    }
}

/// What the rows below a tag hold.
pub open spec fn snippet_row_views(rows: Seq<TagSnippetEntry>) -> Seq<SnippetRow> {
    rows.map_values(|r: TagSnippetEntry| r@)
}

/// How a tag is shown.
pub open spec fn label_of(key: index::TagKeyView) -> Seq<char> {
    match key {
        index::TagKeyView::Tag(tag) => tag,
        index::TagKeyView::Untagged => "(untagged)"@,
    }
}

/// Whether a tag's label holds the filter.
pub open spec fn passes(key: index::TagKeyView, filter: Seq<char>) -> bool {
    filter.len() == 0 || text::occurs(label_of(key), filter)
}

/// The rows for the tags among `keys` that pass the filter.
pub open spec fn tag_rows(tags: TagIndex, keys: Seq<index::TagKeyView>, filter: Seq<char>) -> Seq<
    TagRow,
>
    decreases keys.len(),
{
    if keys.len() == 0 {
        Seq::empty()
    } else {
        let before = tag_rows(tags, keys.drop_last(), filter);
        let key = keys.last();
        if passes(key, filter) && tags.ids(key) is Some {
            before.push(TagRow { key, label: label_of(key), count: tags.ids(key)->0.len() })
        } else {
            before
        }
    }
}

/// The rows of the tag list.
pub open spec fn tag_list(tags: TagIndex, state: TagPicker) -> Seq<TagRow> {
    tag_rows(tags, tags.keys(), list_filter(state))
}

/// The rows for the snippets among `ids` whose name holds the filter, letter
/// case aside.
pub open spec fn snippet_rows(
    entries: Seq<index::EntryView>,
    ids: Seq<Seq<char>>,
    filter: Seq<char>,
) -> Seq<SnippetRow>
    decreases ids.len(),
{
    if ids.len() == 0 {
        Seq::empty()
    } else {
        let before = snippet_rows(entries, ids.drop_last(), filter);
        match index::entry_of(entries, ids.last()) {
            None => before,
            Some(entry) => if filter.len() == 0 || text::occurs(
                text::lowercase(entry.snippet.name),
                text::lowercase(filter),
            ) {
                before.push(SnippetRow { id: ids.last(), name: entry.snippet.name })
            } else {
                before
            },
        }
    }
}

/// The rows below the tag that was entered.
pub open spec fn drill_list(
    entries: Seq<index::EntryView>,
    tags: TagIndex,
    state: TagPicker,
) -> Seq<SnippetRow> {
    match drilled(state) {
        None => Seq::empty(),
        Some(key) => match tags.ids(key) {
            None => Seq::empty(),
            Some(ids) => snippet_rows(entries, ids, drill_filter_of(state)),
        },
    }
}

/// How a tag is shown.
pub fn tag_label(key: &TagKey) -> (label: &str)
    ensures
        label@ == label_of(key@),
{
    match key {
        TagKey::Tag(tag) => tag.as_str(),
        TagKey::Untagged => "(untagged)",
    }
}

/// Whether a tag's label holds the filter.
pub fn tag_matches_filter(key: &TagKey, filter: &str) -> (yes: bool)
    ensures
        yes == passes(key@, filter@),
{
    filter.is_empty() || text::contains_text(tag_label(key), filter)
}

/// The rows of the tag list.
pub fn visible_tags(tags: &TagIndex, state: &TagsState) -> (rows: Vec<TagListEntry>)
    requires
        state@.wf(),
    ensures
        tag_row_views(rows@) == tag_list(*tags, state@),
        tags.lists_groups(),
{
    let filter = state.filter();
    let keys = tags.key_list();
    let ghost all = tags.keys();
    let mut out: Vec<TagListEntry> = Vec::new();
    let mut i: usize = 0;
    assert(all.take(0) =~= Seq::<index::TagKeyView>::empty());
    assert(tag_row_views(out@) =~= Seq::<TagRow>::empty());
    while i < keys.len()
        invariant
            i <= keys@.len(),
            keys@.map_values(|k: TagKey| k@) == all,
            filter@ == list_filter(state@),
            tag_row_views(out@) == tag_rows(*tags, all.take(i as int), filter@),
        decreases keys@.len() - i,
    {
        assert(all.take(i + 1).drop_last() =~= all.take(i as int));
        assert(all[i as int] == keys@[i as int]@);
        assert(all.take(i + 1).last() == keys@[i as int]@);
        let key = &keys[i];
        if tag_matches_filter(key, filter) {
            match tags.get(key) {
                Some(ids) => {
                    let row = TagListEntry {
                        key: key.clone(),
                        label: tag_label(key).to_owned(),
                        count: ids.len(),
                    };
                    let ghost before = out@;
                    out.push(row);
                    assert(tag_row_views(out@) =~= tag_row_views(before).push(row@));
                },
                None => {},
            }
        }
        i = i + 1;
    }
    assert(all.take(all.len() as int) =~= all);
    out
}

/// The rows below the tag that was entered.
pub fn visible_tag_snippets(index: &SnippetIndex, tags: &TagIndex, state: &TagsState) -> (rows: Vec<
    TagSnippetEntry,
>)
    requires
        state@.wf(),
    ensures
        snippet_row_views(rows@) == drill_list(index@, *tags, state@),
{
    let mut out: Vec<TagSnippetEntry> = Vec::new();
    assert(snippet_row_views(out@) =~= Seq::<SnippetRow>::empty());
    let tag = match state.drill() {
        Some(tag) => tag,
        None => {
            return out;
        },
    };
    let ids = match tags.get(tag) {
        Some(ids) => ids,
        None => {
            return out;
        },
    };
    let filter = state.drill_filter();
    let needle = text::to_lowercase(filter);
    let ghost all = domain::id_texts(ids@);
    let mut i: usize = 0;
    assert(all.take(0) =~= Seq::<Seq<char>>::empty());
    while i < ids.len()
        invariant
            i <= ids@.len(),
            all == domain::id_texts(ids@),
            filter@ == drill_filter_of(state@),
            needle@ == text::lowercase(filter@),
            snippet_row_views(out@) == snippet_rows(index@, all.take(i as int), filter@),
        decreases ids@.len() - i,
    {
        assert(all.take(i + 1).drop_last() =~= all.take(i as int));
        assert(all.take(i + 1).last() == ids@[i as int]@);
        match index.get(&ids[i]) {
            Some(entry) => {
                let lower = text::to_lowercase(entry.name());
                if filter.is_empty() || text::contains_text(lower.as_str(), needle.as_str()) {
                    let row = TagSnippetEntry { id: ids[i].clone(), name: entry.name().to_owned() };
                    let ghost before = out@;
                    out.push(row);
                    assert(snippet_row_views(out@) =~= snippet_row_views(before).push(row@));
                }
            },
            None => {},
        }
        i = i + 1;
    }
    assert(all.take(all.len() as int) =~= all);
    out
}

impl Default for TagsState {
    /// At the tag list, with nothing typed.
    fn default() -> (state: Self)
        ensures
            state@ == TagPicker::root(),
            state@.wf(),
    {
        TagsState { picker: TreePicker::new() }
    }
}

impl TagsState {
    /// At the tag list, with nothing typed.
    pub fn new() -> (state: Self)
        ensures
            state@ == TagPicker::root(),
            state@.wf(),
    {
        TagsState { picker: TreePicker::new() }
    }

    /// The tag that was entered.
    pub fn drill(&self) -> (tag: Option<&TagKey>)
        ensures
            match tag {
                Some(key) => drilled(self@) == Some(key@),
                None => drilled(self@) is None,
            },
    {
        let path = self.picker.path();
        if path.len() > 0 {
            assert(tree_picker::key_views(path@)[0] == path@[0]@);
            Some(&path[0])
        } else {
            None
        }
    }

    /// The filter of the tag list; empty below a tag.
    pub fn filter(&self) -> (s: &str)
        requires
            self@.wf(),
        ensures
            s@ == list_filter(self@),
    {
        if self.picker.depth() == 0 {
            self.picker.filter()
        } else {
            let empty = "";
            proof {
                reveal_strlit("");
            }
            assert(empty@ =~= Seq::<char>::empty());
            empty
        }
    }

    /// The highlighted row of the tag list; none below a tag.
    pub fn list_selection(&self) -> (row: Option<usize>)
        requires
            self@.wf(),
        ensures
            row == list_row(self@),
    {
        if self.picker.depth() == 0 {
            self.picker.selection()
        } else {
            None
        }
    }

    /// The filter below a tag; empty at the tag list.
    pub fn drill_filter(&self) -> (s: &str)
        requires
            self@.wf(),
        ensures
            s@ == drill_filter_of(self@),
    {
        if self.picker.depth() > 0 {
            self.picker.filter()
        } else {
            let empty = "";
            proof {
                reveal_strlit("");
            }
            assert(empty@ =~= Seq::<char>::empty());
            empty
        }
    }

    /// The highlighted row below a tag; none at the tag list.
    pub fn drill_selection(&self) -> (row: Option<usize>)
        requires
            self@.wf(),
        ensures
            row == drill_row(self@),
    {
        if self.picker.depth() > 0 {
            self.picker.selection()
        } else {
            None
        }
    }

    /// Types `c`.
    pub fn type_char(&mut self, c: char)
        requires
            old(self)@.wf(),
        ensures
            final(self)@ == old(self)@.with_top(old(self)@.top().typed(c)),
            final(self)@.wf(),
    {
        self.picker.type_char(c);
    }

    /// Deletes the character before the cursor; whether there was one.
    pub fn backspace(&mut self) -> (changed: bool)
        requires
            old(self)@.wf(),
        ensures
            final(self)@ == old(self)@.with_top(old(self)@.top().erased()),
            final(self)@.wf(),
            changed == (old(self)@.top().cursor > 0),
            !changed ==> final(self)@ == old(self)@,
    {
        self.picker.input_backspace()
    }

    /// Moves the cursor one character to the left.
    pub fn cursor_left(&mut self)
        requires
            old(self)@.wf(),
        ensures
            final(self)@ == old(self)@.with_top(old(self)@.top().left()),
            final(self)@.wf(),
    {
        self.picker.cursor_left();
    }

    /// Moves the cursor one character to the right.
    pub fn cursor_right(&mut self)
        requires
            old(self)@.wf(),
        ensures
            final(self)@ == old(self)@.with_top(old(self)@.top().right()),
            final(self)@.wf(),
    {
        self.picker.cursor_right();
    }

    /// Moves the highlight within `visible_len` rows.
    pub fn move_cursor(&mut self, delta: i32, visible_len: usize)
        requires
            old(self)@.wf(),
        ensures
            final(self)@ == moved(old(self)@, delta as int, visible_len as int),
            final(self)@.wf(),
    {
        self.picker.move_selection(delta, visible_len);
    }

    /// Types `c` below a tag.
    pub fn type_drill_char(&mut self, c: char)
        requires
            old(self)@.wf(),
        ensures
            final(self)@ == old(self)@.with_top(old(self)@.top().typed(c)),
            final(self)@.wf(),
    {
        self.picker.type_char(c);
    }

    /// Deletes the character before the cursor below a tag; whether there was
    /// one.
    pub fn drill_backspace(&mut self) -> (changed: bool)
        requires
            old(self)@.wf(),
        ensures
            final(self)@ == old(self)@.with_top(old(self)@.top().erased()),
            final(self)@.wf(),
            changed == (old(self)@.top().cursor > 0),
            !changed ==> final(self)@ == old(self)@,
    {
        self.picker.input_backspace()
    }

    /// Moves the cursor below a tag one character to the left.
    pub fn drill_cursor_left(&mut self)
        requires
            old(self)@.wf(),
        ensures
            final(self)@ == old(self)@.with_top(old(self)@.top().left()),
            final(self)@.wf(),
    {
        self.picker.cursor_left();
    }

    /// Moves the cursor below a tag one character to the right.
    pub fn drill_cursor_right(&mut self)
        requires
            old(self)@.wf(),
        ensures
            final(self)@ == old(self)@.with_top(old(self)@.top().right()),
            final(self)@.wf(),
    {
        self.picker.cursor_right();
    }

    /// How many characters stand before the cursor.
    pub fn cursor_col(&self) -> (col: usize)
        requires
            self@.wf(),
        ensures
            col == self@.top().column(),
    {
        self.picker.cursor_col()
    }

    /// How many characters stand before the cursor below a tag.
    pub fn drill_cursor_col(&self) -> (col: usize)
        requires
            self@.wf(),
        ensures
            col == self@.top().column(),
    {
        self.picker.cursor_col()
    }

    /// Enters `tag`, where no tag is entered.
    pub fn enter_drill(&mut self, tag: TagKey)
        requires
            old(self)@.wf(),
        ensures
            final(self)@ == (if old(self)@.path.len() == 0 {
                old(self)@.descended(tag@)
            } else {
                old(self)@
            }),
            final(self)@.wf(),
    {
        if self.picker.depth() == 0 {
            self.picker.descend(tag);
        }
    }

    /// Goes back to the tag list; whether a tag was entered.
    pub fn exit_drill(&mut self) -> (changed: bool)
        requires
            old(self)@.wf(),
        ensures
            final(self)@ == old(self)@.ascended(),
            final(self)@.wf(),
            changed == (old(self)@.path.len() > 0),
    {
        self.picker.ascend().is_some()
    }

    /// After [`exit_drill`](Self::exit_drill): highlights the tag that was
    /// left.
    pub fn restore_after_drill_exit(&mut self, visible: &Vec<TagListEntry>)
        requires
            old(self)@.wf(),
        ensures
            final(self)@ == old(self)@.restored(tag_row_keys(tag_row_views(visible@))),
            final(self)@.wf(),
    {
        let ghost before = self@;
        let ghost views = tag_row_views(visible@);
        let key_of = |row: &TagListEntry| -> (key: Option<TagKey>)
            ensures
                tree_picker::key_view(key) == Some(row@.key),
            { Some(row.key.clone()) };
        self.picker.restore_selection(visible, key_of);
        proof {
            let keys = choose|keys: Seq<Option<index::TagKeyView>>|
                {
                    &&& keys.len() == visible@.len()
                    &&& forall|i: int|
                        0 <= i < keys.len() ==> tree_picker::has_key(
                            key_of,
                            visible@[i],
                            #[trigger] keys[i],
                        )
                    &&& self@ == #[trigger] before.restored(keys)
                };
            assert(keys =~= tag_row_keys(views)) by {
                assert forall|i: int| 0 <= i < keys.len() implies keys[i] == tag_row_keys(
                    views,
                )[i] by {
                    assert(tree_picker::has_key(key_of, visible@[i], keys[i]));
                    assert(views[i] == visible@[i]@);
                }
            }
        }
    }

    /// Highlights a row of the tag list, where no tag is entered.
    pub fn set_list_selection(&mut self, selection: Option<usize>)
        requires
            old(self)@.wf(),
        ensures
            final(self)@ == (if old(self)@.path.len() == 0 {
                selecting(old(self)@, selection)
            } else {
                old(self)@
            }),
            final(self)@.wf(),
    {
        if self.picker.depth() == 0 {
            self.picker.set_selection(selection);
        }
    }

    /// Highlights a row below a tag, where one is entered.
    pub fn set_drill_selection(&mut self, selection: Option<usize>)
        requires
            old(self)@.wf(),
        ensures
            final(self)@ == (if old(self)@.path.len() > 0 {
                selecting(old(self)@, selection)
            } else {
                old(self)@
            }),
            final(self)@.wf(),
    {
        if self.picker.depth() > 0 {
            self.picker.set_selection(selection);
        }
    }

    /// Sets the filter of the current level, with the cursor at its end.
    pub fn set_filter(&mut self, filter: String)
        requires
            old(self)@.wf(),
        ensures
            final(self)@ == old(self)@.with_top(old(self)@.top().filtered(filter@)),
            final(self)@.wf(),
    {
        let ghost before = self@;
        self.picker.current_mut().set_filter(filter);
        assert(self@.wf()) by {
            assert forall|i: int| 0 <= i < self@.frames.len() implies (
            #[trigger] self@.frames[i]).wf() by {
                if i < self@.frames.len() - 1 {
                    assert(self@.frames[i] == before.frames[i]);
                }
            }
        }
    }
}

/// The state after the tag that was entered was left and its row highlighted.
pub open spec fn left_drill(tags: TagIndex, state: TagPicker) -> TagPicker {
    if state.path.len() == 0 {
        state
    } else {
        let list = state.ascended();
        list.restored(tag_row_keys(tag_list(tags, list)))
    }
}

/// Leaves the tag that was entered and highlights its row.
pub fn leave_drill(tags: &TagIndex, state: &mut TagsState)
    requires
        old(state)@.wf(),
    ensures
        final(state)@ == left_drill(*tags, old(state)@),
        final(state)@.wf(),
{
    if !state.exit_drill() {
        return ;
    }
    let visible = visible_tags(tags, state);
    state.restore_after_drill_exit(&visible);
}

/// Entering the tag of a row and leaving it again highlights that row.
pub proof fn law_leaving_highlights_the_tag(tags: TagIndex, state: TagPicker, row: int)
    requires
        state.wf(),
        state.path.len() == 0,
        0 <= row < tag_list(tags, state).len() <= usize::MAX,
        forall|j: int|
            0 <= j < row ==> (#[trigger] tag_list(tags, state)[j]).key != tag_list(
                tags,
                state,
            )[row].key,
    ensures
        left_drill(tags, state.descended(tag_list(tags, state)[row].key)).top().selection == Some(
            row as usize,
        ),
        left_drill(tags, state.descended(tag_list(tags, state)[row].key)).top().filter
            == state.top().filter,
{
    let rows = tag_list(tags, state);
    let key = rows[row].key;
    let keys = tag_row_keys(rows);
    let back = state.descended(key).ascended();
    tree_picker::law_ascend_undoes_descend(state, key);
    assert(list_filter(back) == list_filter(state));
    assert(tag_list(tags, back) == rows);
    assert forall|j: int| 0 <= j < row implies keys[j] != Some(key) by {
        assert(rows[j].key != key);
    }
    tree_picker::law_return_highlights_the_child(state, key, keys, row);
}

/// Whether a text holds another.
pub open spec fn holds(whole: Seq<char>, part: Seq<char>) -> bool {
    exists|a: Seq<char>, b: Seq<char>| whole == #[trigger] (a + part + b)
}

/// A tag is listed if and only if snippets are kept under it and its label holds
/// what was typed, and the number beside it is the number of its snippets.
pub proof fn law_listed_tags_hold_what_was_typed(
    tags: TagIndex,
    state: TagPicker,
    key: index::TagKeyView,
)
    requires
        state.path.len() == 0,
        tags.lists_groups(),
    ensures
        (exists|i: int|
            0 <= i < tag_list(tags, state).len() && (#[trigger] tag_list(tags, state)[i]).key == key)
            <==> tags.ids(key) is Some && (state.top().filter.len() == 0 || holds(
            label_of(key),
            state.top().filter,
        )),
        forall|i: int|
            0 <= i < tag_list(tags, state).len() ==> {
                let row = #[trigger] tag_list(tags, state)[i];
                &&& tags.ids(row.key) is Some
                &&& row.count == tags.ids(row.key)->0.len()
                &&& row.key matches index::TagKeyView::Tag(tag) ==> row.label == tag
                &&& row.key is Untagged ==> row.label == "(untagged)"@
            },
        tag_list(tags, state).len() <= tags.keys().len(),
        state.top().filter.len() == 0 ==> tag_list(tags, state).len() == tags.keys().len(),
{
    text::law_occurrence(label_of(key), state.top().filter);
    assert forall|i: int| 0 <= i < tags.keys().len() implies tags.ids(
        #[trigger] tags.keys()[i],
    ) is Some by {
        assert(tags.keys().contains(tags.keys()[i]));
    }
    lemma_tag_rows(tags, tags.keys(), state.top().filter, key);
}

proof fn lemma_tag_rows(
    tags: TagIndex,
    keys: Seq<index::TagKeyView>,
    filter: Seq<char>,
    key: index::TagKeyView,
)
    requires
        forall|i: int| 0 <= i < keys.len() ==> tags.ids(#[trigger] keys[i]) is Some,
    ensures
        (exists|i: int|
            0 <= i < tag_rows(tags, keys, filter).len() && (#[trigger] tag_rows(
                tags,
                keys,
                filter,
            )[i]).key == key) <==> keys.contains(key) && passes(key, filter),
        forall|i: int|
            0 <= i < tag_rows(tags, keys, filter).len() ==> {
                let row = #[trigger] tag_rows(tags, keys, filter)[i];
                &&& tags.ids(row.key) is Some
                &&& row.count == tags.ids(row.key)->0.len()
                &&& row.label == label_of(row.key)
            },
        tag_rows(tags, keys, filter).len() <= keys.len(),
        filter.len() == 0 ==> tag_rows(tags, keys, filter).len() == keys.len(),
    decreases keys.len(),
{
    let rows = tag_rows(tags, keys, filter);
    if keys.len() > 0 {
        let front = keys.drop_last();
        let before = tag_rows(tags, front, filter);
        assert forall|i: int| 0 <= i < front.len() implies tags.ids(#[trigger] front[i]) is Some by {
            assert(front[i] == keys[i]);
        }
        lemma_tag_rows(tags, front, filter, key);
        assert(tags.ids(keys[keys.len() - 1]) is Some);
        assert forall|i: int| 0 <= i < rows.len() implies ({
            let row = #[trigger] rows[i];
            &&& tags.ids(row.key) is Some
            &&& row.count == tags.ids(row.key)->0.len()
            &&& row.label == label_of(row.key)
        }) by {
            if i < before.len() {
                assert(rows[i] == before[i]);
            }
        }
        if exists|i: int| 0 <= i < rows.len() && (#[trigger] rows[i]).key == key {
            let i = choose|i: int| 0 <= i < rows.len() && (#[trigger] rows[i]).key == key;
            if i < before.len() {
                assert(before[i].key == key);
                let k = front.index_of(key);
                assert(keys[k] == key);
            } else {
                assert(keys[keys.len() - 1] == key);
            }
        }
        if keys.contains(key) && passes(key, filter) {
            if front.contains(key) {
                let i = choose|i: int| 0 <= i < before.len() && (#[trigger] before[i]).key == key;
                assert(rows[i].key == key);
            } else {
                let k = keys.index_of(key);
                if k < front.len() {
                    assert(front[k] == key);
                }
                assert(rows[rows.len() - 1].key == key);
            }
        }
    }
}

/// Below a tag stand the snippets that are kept under it and whose names hold what
/// was typed, letter case aside, and no others.
pub proof fn law_listed_snippets_hold_what_was_typed(
    entries: Seq<index::EntryView>,
    tags: TagIndex,
    state: TagPicker,
    id: Seq<char>,
)
    requires
        state.path.len() > 0,
    ensures
        (exists|i: int|
            0 <= i < drill_list(entries, tags, state).len() && (#[trigger] drill_list(
                entries,
                tags,
                state,
            )[i]).id == id) <==> {
            &&& tags.ids(state.path[0]) is Some
            &&& tags.ids(state.path[0])->0.contains(id)
            &&& index::entry_of(entries, id) is Some
            &&& state.top().filter.len() == 0 || holds(
                text::lowercase(index::entry_of(entries, id)->0.snippet.name),
                text::lowercase(state.top().filter),
            )
        },
        forall|i: int|
            0 <= i < drill_list(entries, tags, state).len() ==> {
                let row = #[trigger] drill_list(entries, tags, state)[i];
                index::entry_of(entries, row.id) is Some && row.name == index::entry_of(
                    entries,
                    row.id,
                )->0.snippet.name
            },
{
    if tags.ids(state.path[0]) is Some {
        text::law_occurrence(
            text::lowercase(index::entry_of(entries, id)->0.snippet.name),
            text::lowercase(state.top().filter),
        );
        lemma_snippet_rows(entries, tags.ids(state.path[0])->0, state.top().filter, id);
    }
}

proof fn lemma_snippet_rows(
    entries: Seq<index::EntryView>,
    ids: Seq<Seq<char>>,
    filter: Seq<char>,
    id: Seq<char>,
)
    ensures
        (exists|i: int|
            0 <= i < snippet_rows(entries, ids, filter).len() && (#[trigger] snippet_rows(
                entries,
                ids,
                filter,
            )[i]).id == id) <==> {
            &&& ids.contains(id)
            &&& index::entry_of(entries, id) is Some
            &&& filter.len() == 0 || text::occurs(
                text::lowercase(index::entry_of(entries, id)->0.snippet.name),
                text::lowercase(filter),
            )
        },
        forall|i: int|
            0 <= i < snippet_rows(entries, ids, filter).len() ==> {
                let row = #[trigger] snippet_rows(entries, ids, filter)[i];
                index::entry_of(entries, row.id) is Some && row.name == index::entry_of(
                    entries,
                    row.id,
                )->0.snippet.name
            },
    decreases ids.len(),
{
    let rows = snippet_rows(entries, ids, filter);
    if ids.len() > 0 {
        let front = ids.drop_last();
        let before = snippet_rows(entries, front, filter);
        lemma_snippet_rows(entries, front, filter, id);
        assert forall|i: int| 0 <= i < rows.len() implies ({
            let row = #[trigger] rows[i];
            index::entry_of(entries, row.id) is Some && row.name == index::entry_of(
                entries,
                row.id,
            )->0.snippet.name
        }) by {
            if i < before.len() {
                assert(rows[i] == before[i]);
            }
        }
        if exists|i: int| 0 <= i < rows.len() && (#[trigger] rows[i]).id == id {
            let i = choose|i: int| 0 <= i < rows.len() && (#[trigger] rows[i]).id == id;
            if i < before.len() {
                assert(before[i].id == id);
                let k = front.index_of(id);
                assert(ids[k] == id);
            } else {
                assert(ids[ids.len() - 1] == id);
            }
        }
        if ids.contains(id) && index::entry_of(entries, id) is Some && (filter.len() == 0
            || text::occurs(
            text::lowercase(index::entry_of(entries, id)->0.snippet.name),
            text::lowercase(filter),
        )) {
            if front.contains(id) {
                let i = choose|i: int| 0 <= i < before.len() && (#[trigger] before[i]).id == id;
                assert(rows[i].id == id);
            } else {
                let k = ids.index_of(id);
                if k < front.len() {
                    assert(front[k] == id);
                }
                assert(rows[rows.len() - 1].id == id);
            }
        }
    }
}

} // verus!
