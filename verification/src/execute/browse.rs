//! Browse mode: a tree picker over the browse tree. Each level has its own
//! filter and remembers the child it was left for, so that going back up finds
//! everything as it was.

use vstd::prelude::*;
use crate::browse;
use crate::browse::{BrowseEntry, BrowseTree};
use crate::domain::SnippetId;
use crate::line_edit;
use crate::text;
use super::tree_picker;
use super::tree_picker::TreePicker;

verus! {

broadcast use vstd::string::group_string_axioms;

/// Browse mode state.
pub struct BrowseState {
    pub picker: TreePicker<String>,
}

/// The state of the picker.
pub type Picker = tree_picker::PickerView<Seq<char>>;

impl View for BrowseState {
    type V = Picker;

    open spec fn view(&self) -> Picker {
        self.picker@
    }
}

/// The rows shown at the current level.
pub open spec fn rows_of(state: Picker, tree: BrowseTree) -> Seq<browse::BrowseEntryView> {
    browse::visible_of(browse::node_at(tree.root_node(), state.path), state.top().filter)
}

/// The key of each row that can be entered.
pub open spec fn row_keys(rows: Seq<browse::BrowseEntryView>) -> Seq<Option<Seq<char>>> {
    rows.map_values(
        |row: browse::BrowseEntryView|
            match row {
                browse::BrowseEntryView::Directory(name) => Some(name),
                browse::BrowseEntryView::Snippet(_) => None,
            },
    )
}

/// The state after the current level was left and the row of the node that
/// was left highlighted.
pub open spec fn climbed(state: Picker, tree: BrowseTree) -> Picker {
    if state.path.len() == 0 {
        state
    } else {
        let parent = state.ascended();
        parent.restored(row_keys(rows_of(parent, tree)))
    }
}

/// The state after one step back: while something is typed, the character before
/// the cursor is deleted; once nothing is, the current level is left.
pub open spec fn backed(state: Picker, tree: BrowseTree) -> Picker {
    if state.top().filter.len() == 0 {
        climbed(state, tree)
    } else {
        state.with_top(state.top().erased())
    }
}

/// The state after completion: the only matching child is entered; of several
/// the common front becomes the filter where it is longer.
pub open spec fn completed(state: Picker, tree: BrowseTree) -> Picker {
    match browse::node_at(tree.root_node(), state.path) {
        None => state,
        Some(node) => {
            let names = browse::matching_names(browse::child_names(node), state.top().filter);
            if names.len() == 0 {
                state
            } else if names.len() == 1 {
                state.descended(names[0])
            } else if line_edit::byte_len(browse::common_prefix(names)) > line_edit::byte_len(
                state.top().filter,
            ) {
                state.with_top(
                    state.top().filtered(browse::common_prefix(names)).selecting(Some(0)),
                )
            } else {
                state
            }
        },
    }
}

/// Whether completion changes anything.
pub open spec fn can_complete(state: Picker, tree: BrowseTree) -> bool {
    match browse::node_at(tree.root_node(), state.path) {
        None => false,
        Some(node) => {
            let names = browse::matching_names(browse::child_names(node), state.top().filter);
            names.len() == 1 || (names.len() > 1 && line_edit::byte_len(
                browse::common_prefix(names),
            ) > line_edit::byte_len(state.top().filter))
        },
    }
}

/// The state after levels were left until the path exists in the tree.
pub open spec fn trimmed(state: Picker, tree: BrowseTree) -> Picker
    decreases state.path.len(),
{
    if state.path.len() == 0 || browse::node_at(tree.root_node(), state.path) is Some {
        state
    } else {
        trimmed(state.ascended(), tree)
    }
}

/// A picker at the end of a path, with nothing typed and nothing remembered.
pub open spec fn fresh_at(names: Seq<Seq<char>>) -> Picker {
    tree_picker::PickerView {
        frames: Seq::new(
            names.len() + 1,
            |i: int| tree_picker::FrameView::<Seq<char>>::fresh(),
        ),
        path: names,
    }
}

impl BrowseState {
    /// At the root, with nothing typed.
    pub fn new() -> (state: Self)
        ensures
            state@ == Picker::root(),
            state@.wf(),
    {
        BrowseState { picker: TreePicker::new() }
    }

    /// The names on the way to the current level.
    pub fn path(&self) -> (path: &Vec<String>)
        ensures
            text::texts(path@) == self@.path,
    {
        let path = self.picker.path();
        assert(text::texts(path@) =~= tree_picker::key_views(path@));
        path
    }

    /// The filter typed at the current level.
    pub fn input(&self) -> (s: &str)
        requires
            self@.wf(),
        ensures
            s@ == self@.top().filter,
    {
        self.picker.filter()
    }

    /// The highlighted row.
    pub fn selection(&self) -> (selection: Option<usize>)
        requires
            self@.wf(),
        ensures
            selection == self@.top().selection,
    {
        self.picker.selection()
    }

    /// Highlights a row.
    pub fn set_selection(&mut self, selection: Option<usize>)
        requires
            old(self)@.wf(),
        ensures
            final(self)@ == old(self)@.with_top(old(self)@.top().selecting(selection)),
            final(self)@.wf(),
    {
        self.picker.set_selection(selection);
    }

    /// The path as shown.
    pub fn path_display(&self) -> (out: String)
        ensures
            out@ == browse::shown_path(self@.path),
    {
        browse::show_path(self.path())
    }

    /// Types `c`.
    pub fn type_char(&mut self, c: char)
        requires
            old(self)@.wf(),
        ensures
            final(self)@ == old(self)@.with_top(old(self)@.top().typed(c)),
            final(self)@.wf(),
    {
        self.picker.type_char(c);
    }

    /// Moves the cursor one character to the left.
    pub fn cursor_left(&mut self)
        requires
            old(self)@.wf(),
        ensures
            final(self)@.wf(),
            final(self)@ == old(self)@.with_top(old(self)@.top().left()),
            final(self)@.top().column() == if old(self)@.top().column() == 0 {
                0
            } else {
                old(self)@.top().column() - 1
            },
    {
        self.picker.cursor_left();
    }

    /// Moves the cursor one character to the right.
    pub fn cursor_right(&mut self)
        requires
            old(self)@.wf(),
        ensures
            final(self)@.wf(),
            final(self)@ == old(self)@.with_top(old(self)@.top().right()),
            final(self)@.top().column() == if old(self)@.top().column()
                == old(self)@.top().filter.len() {
                old(self)@.top().column()
            } else {
                old(self)@.top().column() + 1
            },
    {
        self.picker.cursor_right();
    }

    /// Deletes the character before the cursor; where nothing is typed, leaves
    /// the current level. Says whether anything changed.
    pub fn backspace(&mut self, tree: &BrowseTree) -> (changed: bool)
        requires
            old(self)@.wf(),
        ensures
            final(self)@.wf(),
            changed == if old(self)@.top().filter.len() == 0 {
                old(self)@.path.len() > 0
            } else {
                old(self)@.top().cursor > 0
            },
            final(self)@ == backed(old(self)@, *tree),
    {
        if self.picker.filter().is_empty() {
            return self.ascend(tree);
        }
        self.picker.input_backspace()
    }

    /// Leaves the current level and highlights the node that was left. Says
    /// whether there was a level to leave.
    pub fn ascend(&mut self, tree: &BrowseTree) -> (changed: bool)
        requires
            old(self)@.wf(),
        ensures
            final(self)@.wf(),
            changed == (old(self)@.path.len() > 0),
            final(self)@ == climbed(old(self)@, *tree),
    {
        if self.picker.ascend().is_none() {
            return false;
        }
        let ghost parent = self@;
        let rows = self.visible(tree);
        let ghost views = browse::row_views(rows@);
        let key_of = |row: &BrowseEntry| -> (key: Option<String>)
            ensures
                tree_picker::key_view(key) == match row@ {
                    browse::BrowseEntryView::Directory(name) => Some(name),
                    browse::BrowseEntryView::Snippet(_) => None,
                },
            {
                match row {
                    BrowseEntry::Directory(name) => Some(name.clone()),
                    BrowseEntry::Snippet(_) => None,
                }
            };
        self.picker.restore_selection(&rows, key_of);
        proof {
            let keys = choose|keys: Seq<Option<Seq<char>>>|
                {
                    &&& keys.len() == rows@.len()
                    &&& forall|i: int|
                        0 <= i < keys.len() ==> tree_picker::has_key(
                            key_of,
                            rows@[i],
                            #[trigger] keys[i],
                        )
                    &&& self@ == #[trigger] parent.restored(keys)
                };
            assert(keys =~= row_keys(views)) by {
                assert forall|i: int| 0 <= i < keys.len() implies keys[i] == row_keys(views)[i] by {
                    assert(tree_picker::has_key(key_of, rows@[i], keys[i]));
                    assert(views[i] == rows@[i]@);
                }
            }
        }
        true
    }

    /// Goes back to the root with nothing typed.
    pub fn reset(&mut self)
        ensures
            final(self)@ == Picker::root(),
            final(self)@.wf(),
    {
        self.picker.reset();
    }

    /// Leaves levels until the path exists in `tree`.
    pub fn trim_missing_path(&mut self, tree: &BrowseTree)
        requires
            old(self)@.wf(),
        ensures
            final(self)@.wf(),
            final(self)@ == trimmed(old(self)@, *tree),
    {
        let ghost start = self@;
        loop
            invariant
                self@.wf(),
                trimmed(self@, *tree) == trimmed(start, *tree),
            ensures
                self@.wf(),
                self@ == trimmed(start, *tree),
            decreases self@.path.len(),
        {
            if self.path().len() == 0 {
                break;
            }
            if tree.get(self.path()).is_some() {
                break;
            }
            let _ = self.picker.ascend();
        }
    }

    /// The rows shown at the current level, filtered by what was typed.
    pub fn visible(&self, tree: &BrowseTree) -> (rows: Vec<BrowseEntry>)
        requires
            self@.wf(),
        ensures
            browse::row_views(rows@) == rows_of(self@, *tree),
    {
        browse::visible_rows(tree.get(self.path()), self.picker.filter())
    }

    /// Completes the filter against the children's names. Says whether
    /// anything changed.
    pub fn tab_complete(&mut self, tree: &BrowseTree) -> (changed: bool)
        requires
            old(self)@.wf(),
        ensures
            final(self)@.wf(),
            final(self)@ == completed(old(self)@, *tree),
            changed == can_complete(old(self)@, *tree),
    {
        match tree.get(self.path()) {
            None => false,
            Some(node) => {
                let names = browse::matching_children(node, self.picker.filter());
                if names.len() == 0 {
                    false
                } else if names.len() == 1 {
                    assert(text::texts(names@)[0] == names@[0]@);
                    self.picker.descend(names[0].clone());
                    true
                } else {
                    let common = browse::longest_common_prefix(&names);
                    if line_edit::byte_count(common.as_str()) > line_edit::byte_count(
                        self.picker.filter(),
                    ) {
                        let ghost before = self@;
                        {
                            let frame = self.picker.current_mut();
                            frame.set_filter(common);
                            frame.selection = Some(0);
                        }
                        assert(self@.wf()) by {
                            assert forall|i: int| 0 <= i < self@.frames.len() implies (
                            #[trigger] self@.frames[i]).wf() by {
                                if i < self@.frames.len() - 1 {
                                    assert(self@.frames[i] == before.frames[i]);
                                }
                            }
                        }
                        true
                    } else {
                        false
                    }
                }
            },
        }
    }

    /// Enters the highlighted child, or gives the id of the highlighted
    /// snippet.
    pub fn activate(&mut self, tree: &BrowseTree) -> (chosen: Option<SnippetId>)
        requires
            old(self)@.wf(),
        ensures
            final(self)@.wf(),
            ({
                let rows = rows_of(old(self)@, *tree);
                let at = browse::selected_row(old(self)@.top().selection);
                if at >= rows.len() {
                    chosen is None && final(self)@ == old(self)@
                } else {
                    match rows[at as int] {
                        browse::BrowseEntryView::Directory(name) => chosen is None && final(self)@
                            == old(self)@.descended(name),
                        browse::BrowseEntryView::Snippet(s) => {
                            &&& chosen is Some
                            &&& chosen->0@ == s.id
                            &&& final(self)@ == old(self)@
                        },
                    }
                }
            }),
    {
        let rows = self.visible(tree);
        let at: usize = match self.picker.selection() {
            Some(row) => row,
            None => 0,
        };
        if at >= rows.len() {
            return None;
        }
        assert(browse::row_views(rows@)[at as int] == rows@[at as int]@);
        match &rows[at] {
            BrowseEntry::Directory(name) => {
                self.picker.descend(name.clone());
                None
            },
            BrowseEntry::Snippet(s) => Some(s.id.clone()),
        }
    }

    /// Moves the highlighted row by `delta` within `visible_len` rows.
    pub fn move_cursor(&mut self, delta: i32, visible_len: usize)
        requires
            old(self)@.wf(),
        ensures
            final(self)@ == old(self)@.with_top(
                old(self)@.top().selecting(
                    line_edit::moved_selection(
                        old(self)@.top().selection,
                        delta as int,
                        visible_len as int,
                    ),
                ),
            ),
            final(self)@.wf(),
    {
        self.picker.move_selection(delta, visible_len);
    }

    /// Goes to the end of a path, with nothing typed at any level and no
    /// child remembered.
    pub fn set_path(&mut self, segments: Vec<String>)
        ensures
            final(self)@ == fresh_at(text::texts(segments@)),
            final(self)@.wf(),
    {
        self.picker.reset();
        let ghost names = text::texts(segments@);
        let mut i: usize = 0;
        while i < segments.len()
            invariant
                i <= segments@.len(),
                names == text::texts(segments@),
                self@.wf(),
                self@.path == names.take(i as int),
                forall|k: int|
                    0 <= k < self@.frames.len() ==> (#[trigger] self@.frames[k]).filter.len() == 0
                        && self@.frames[k].cursor == 0 && self@.frames[k].selection == Some(0usize),
                self@.top().descended_from is None,
            decreases segments@.len() - i,
        {
            let ghost before = self@;
            self.picker.descend(segments[i].clone());
            proof {
                assert(self@.path =~= names.take(i + 1));
                assert forall|k: int| 0 <= k < self@.frames.len() implies (
                #[trigger] self@.frames[k]).filter.len() == 0 && self@.frames[k].cursor == 0
                    && self@.frames[k].selection == Some(0usize) by {
                    if k < before.frames.len() - 1 {
                        assert(self@.frames[k] == before.frames[k]);
                    } else if k == before.frames.len() - 1 {
                        assert(self@.frames[k].filter == before.frames[k].filter);
                    }
                }
            }
            i = i + 1;
        }
        let ghost deep = self@;
        {
            let frames = self.picker.frames_mut();
            let n: usize = frames.len();
            let ghost start = frames@;
            let mut k: usize = 0;
            while k < n
                invariant
                    k <= n == frames@.len(),
                    frames@.len() == start.len(),
                    forall|j: int| k <= j < n ==> #[trigger] frames@[j] == start[j],
                    forall|j: int|
                        0 <= j < k ==> (#[trigger] frames@[j]).filter == start[j].filter
                            && frames@[j].cursor == start[j].cursor && frames@[j].selection
                            == start[j].selection && frames@[j].descended_from is None,
                decreases n - k,
            {
                frames[k].descended_from = None;
                k = k + 1;
            }
            proof {
                assert forall|j: int| 0 <= j < n implies tree_picker::frame_views(frames@)[j]
                    == tree_picker::FrameView::<Seq<char>>::fresh() by {
                    assert(deep.frames[j] == start[j]@);
                    assert(start[j]@.filter =~= Seq::<char>::empty());
                    assert(frames@[j].descended_from is None);
                }
                assert(tree_picker::frame_views(frames@) =~= fresh_at(names).frames);
            }
        }
        assert(names.take(names.len() as int) =~= names);
        assert(self@ == fresh_at(names));
        proof {
            line_edit::lemma_start_is_boundary(Seq::empty());
        }
    }

    /// Sets the filter of the current level.
    pub fn set_input(&mut self, input: String)
        requires
            old(self)@.wf(),
        ensures
            final(self)@ == old(self)@.with_top(old(self)@.top().filtered(input@)),
            final(self)@.wf(),
    {
        let ghost before = self@;
        self.picker.current_mut().set_filter(input);
        assert forall|i: int| 0 <= i < self@.frames.len() implies (#[trigger] self@.frames[i]).wf() by {
            if i < self@.frames.len() - 1 {
                assert(self@.frames[i] == before.frames[i]);
            }
        }
    }
}

/// Going up from a node that was entered through its row gives back the
/// parent's filter, with that row highlighted.
pub proof fn law_going_up_returns_to_the_row(state: Picker, tree: BrowseTree, row: int)
    requires
        state.wf(),
        0 <= row < rows_of(state, tree).len() <= usize::MAX,
        row_keys(rows_of(state, tree))[row] is Some,
        forall|j: int|
            0 <= j < row ==> row_keys(rows_of(state, tree))[j] != row_keys(rows_of(state, tree))[row],
    ensures
        ({
            let entered = state.descended(row_keys(rows_of(state, tree))[row]->0);
            let back = climbed(entered, tree);
            &&& back.path == state.path
            &&& back.top().filter == state.top().filter
            &&& back.top().selection == Some(row as usize)
        }),
{
    let keys = row_keys(rows_of(state, tree));
    let key = keys[row]->0;
    tree_picker::law_ascend_undoes_descend(state, key);
    tree_picker::law_return_highlights_the_child(state, key, keys, row);
}

/// A step back leaves no level while something is typed.
pub proof fn law_typed_text_goes_first(state: Picker, tree: BrowseTree)
    requires
        state.top().filter.len() > 0,
    ensures
        backed(state, tree).path == state.path,
{
}

/// After leaving levels the path exists in the tree, and only levels at its
/// end were left.
pub proof fn law_trimmed_path_exists(state: Picker, tree: BrowseTree)
    requires
        state.wf(),
    ensures
        browse::node_at(tree.root_node(), trimmed(state, tree).path) is Some,
        trimmed(state, tree).path.is_prefix_of(state.path),
        trimmed(state, tree).wf(),
    decreases state.path.len(),
{
    if state.path.len() != 0 && browse::node_at(tree.root_node(), state.path) is None {
        assert(state.ascended().wf());
        law_trimmed_path_exists(state.ascended(), tree);
    }
}

/// Completion enters the only child whose name begins with what was typed. Of
/// several it types their common front where that is longer, and stays. Where
/// there is none nothing changes.
pub proof fn law_completion_goes_as_far_as_it_is_clear(
    state: Picker,
    tree: BrowseTree,
    node: browse::DirNode,
)
    requires
        state.wf(),
        browse::node_at(tree.root_node(), state.path) == Some(node),
    ensures
        ({
            let names = browse::matching_names(browse::child_names(node), state.top().filter);
            let front = browse::common_prefix(names);
            let after = completed(state, tree);
            &&& names.len() == 0 ==> after == state
            &&& names.len() == 1 ==> after.path == state.path + seq![names[0]]
                && after.top().filter.len() == 0 && after.top().selection == Some(0usize)
            &&& names.len() > 1 ==> after.path == state.path
            &&& names.len() > 1 && line_edit::byte_len(front) > line_edit::byte_len(
                state.top().filter,
            ) ==> after.top().filter == front && after.top().cursor == line_edit::byte_len(front)
            &&& names.len() > 1 && line_edit::byte_len(front) <= line_edit::byte_len(
                state.top().filter,
            ) ==> after == state
        }),
{
    let names = browse::matching_names(browse::child_names(node), state.top().filter);
    if names.len() == 1 {
        assert(state.path.push(names[0]) =~= state.path + seq![names[0]]);
    }
}

/// Going back deletes the last character before the cursor while something is
/// typed, and else leaves the node for the one above it.
pub proof fn law_going_back_leaves_the_node(state: Picker, tree: BrowseTree)
    requires
        state.wf(),
    ensures
        state.top().filter.len() == 0 && state.path.len() > 0 ==> backed(state, tree).path
            == state.path.take(state.path.len() - 1),
        state.top().filter.len() == 0 && state.path.len() == 0 ==> backed(state, tree) == state,
        state.top().filter.len() > 0 && state.top().cursor == line_edit::byte_len(
            state.top().filter,
        ) ==> backed(state, tree).top().filter == state.top().filter.take(
            state.top().filter.len() - 1,
        ),
{
    let filter = state.top().filter;
    let empty = Seq::<char>::empty();
    if filter.len() > 0 {
        assert(filter =~= filter + empty);
        if state.top().cursor == line_edit::byte_len(filter) {
            tree_picker::law_filter_is_edited_at_the_cursor(state.top(), ' ', filter, empty);
            assert(filter.drop_last() + empty =~= filter.take(filter.len() - 1));
        }
    }
    if state.path.len() > 0 {
        assert(state.path.drop_last() =~= state.path.take(state.path.len() - 1));
    }
}

} // verus!
