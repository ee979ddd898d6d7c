//! Tree-shaped picker state shared by the browse and tags modes.
//!
//! A [`TreePicker`] is a stack of [`LevelFrame`]s; the topmost frame is the
//! level that the user types and selects at. Descending pushes a new frame and
//! records on the parent frame which child was entered. Ascending pops the top
//! frame and leaves the parent's filter and cursor as they were.

use vstd::prelude::*;
use crate::index::TagKey;
use crate::line_edit;
use crate::text;

verus! {

broadcast use vstd::string::group_string_axioms;

/// What the levels of a picker are named by.
pub trait PickKey: View + Sized {
    /// A copy of the key.
    fn copy_key(&self) -> (key: Self)
        ensures
            key@ == self@,
    ;

    /// Whether two keys are the same.
    fn same_key(&self, other: &Self) -> (yes: bool)
        ensures
            yes == (self@ == other@),
    ;
}

impl PickKey for String {
    fn copy_key(&self) -> (key: Self) {
        self.clone()
    }

    fn same_key(&self, other: &Self) -> (yes: bool) {
        text::same_text(self.as_str(), other.as_str())
    }
}

impl PickKey for TagKey {
    fn copy_key(&self) -> (key: Self) {
        self.clone()
    }

    fn same_key(&self, other: &Self) -> (yes: bool) {
        self.same(other)
    }
}

/// What an optional key holds.
pub open spec fn key_view<K: View>(key: Option<K>) -> Option<K::V> {
    match key {
        Some(k) => Some(k@),
        None => None,
    }
}

/// What the keys of a list hold.
pub open spec fn key_views<K: View>(keys: Seq<K>) -> Seq<K::V> {
    keys.map_values(|k: K| k@)
}

/// One level of a picker.
pub struct LevelFrame<K> {
    /// Filter typed at this level.
    pub filter: String,
    /// Byte offset of the insertion cursor within `filter`.
    pub cursor: usize,
    /// Highlighted row of the visible list.
    pub selection: Option<usize>,
    /// Key of the child that was last entered from this level.
    pub descended_from: Option<K>,
}

/// What a [`LevelFrame`] holds.
pub struct FrameView<V> {
    pub filter: Seq<char>,
    pub cursor: int,
    pub selection: Option<usize>,
    pub descended_from: Option<V>,
}

impl<K: View> View for LevelFrame<K> {
    type V = FrameView<K::V>;

    open spec fn view(&self) -> FrameView<K::V> {
        FrameView {
            filter: self.filter@,
            cursor: self.cursor as int,
            selection: self.selection,
            descended_from: key_view(self.descended_from),
        }
    }
}

impl<V> FrameView<V> {
    /// A level that was just opened.
    pub open spec fn fresh() -> FrameView<V> {
        FrameView { filter: Seq::empty(), cursor: 0, selection: Some(0), descended_from: None }
    }

    /// Whether the cursor stands between characters of the filter.
    pub open spec fn wf(self) -> bool {
        line_edit::is_boundary(self.filter, self.cursor)
    }

    /// How many characters stand before the cursor.
    pub open spec fn column(self) -> int {
        line_edit::column_of(self.filter, self.cursor)
    }

    /// The level after `c` was typed.
    pub open spec fn typed(self, c: char) -> FrameView<V> {
        FrameView {
            filter: self.filter.insert(self.column(), c),
            cursor: self.cursor + line_edit::utf8_len(c),
            selection: Some(0),
            descended_from: self.descended_from,
        }
    }

    /// The level after the character before the cursor was deleted.
    pub open spec fn erased(self) -> FrameView<V> {
        if self.cursor == 0 {
            self
        } else {
            FrameView {
                filter: self.filter.remove(self.column() - 1),
                cursor: self.cursor - line_edit::utf8_len(self.filter[self.column() - 1]),
                selection: Some(0),
                descended_from: self.descended_from,
            }
        }
    }

    /// The level with the cursor one character to the left.
    pub open spec fn left(self) -> FrameView<V> {
        FrameView { cursor: line_edit::left_cursor(self.filter, self.cursor), ..self }
    }

    /// The level with the cursor one character to the right.
    pub open spec fn right(self) -> FrameView<V> {
        FrameView { cursor: line_edit::right_cursor(self.filter, self.cursor), ..self }
    }

    /// The level with another row highlighted.
    pub open spec fn selecting(self, selection: Option<usize>) -> FrameView<V> {
        FrameView { selection, ..self }
    }

    /// The level with a filter that was set, the cursor at its end.
    pub open spec fn filtered(self, filter: Seq<char>) -> FrameView<V> {
        FrameView { filter, cursor: line_edit::byte_len(filter) as int, ..self }
    }
}

impl<K: View> LevelFrame<K> {
    /// A level that was just opened.
    pub fn new() -> (frame: Self)
        ensures
            frame@ == FrameView::<K::V>::fresh(),
            frame@.wf(),
    {
        proof {
            line_edit::lemma_start_is_boundary(Seq::empty());
        }
        LevelFrame { filter: String::new(), cursor: 0, selection: Some(0), descended_from: None }
    }

    /// Types `c` at the cursor.
    fn type_char(&mut self, c: char)
        requires
            old(self)@.wf(),
        ensures
            final(self)@ == old(self)@.typed(c),
            final(self)@.wf(),
            final(self)@.column() == old(self)@.column() + 1,
    {
        let new = line_edit::insert_char(self.filter.as_str(), self.cursor, c);
        self.filter = new.0;
        self.cursor = new.1;
        self.selection = Some(0);
    }

    /// Deletes the character before the cursor.
    fn erase(&mut self) -> (changed: bool)
        requires
            old(self)@.wf(),
        ensures
            final(self)@ == old(self)@.erased(),
            final(self)@.wf(),
            changed == (old(self)@.cursor > 0),
    {
        match line_edit::remove_before(self.filter.as_str(), self.cursor) {
            None => false,
            Some(new) => {
                self.filter = new.0;
                self.cursor = new.1;
                self.selection = Some(0);
                true
            },
        }
    }

    /// Sets the filter and puts the cursor at its end.
    pub fn set_filter(&mut self, filter: String)
        ensures
            final(self)@ == old(self)@.filtered(filter@),
            final(self)@.wf(),
    {
        self.cursor = line_edit::end_of(filter.as_str());
        self.filter = filter;
    }
}

/// A stack of levels. `path` holds the keys that were entered, one for each
/// level above the root.
pub struct TreePicker<K> {
    frames: Vec<LevelFrame<K>>,
    path: Vec<K>,
}

/// What a [`TreePicker`] holds.
pub struct PickerView<V> {
    pub frames: Seq<FrameView<V>>,
    pub path: Seq<V>,
}

/// What the levels of a stack hold.
pub open spec fn frame_views<K: View>(frames: Seq<LevelFrame<K>>) -> Seq<FrameView<K::V>> {
    frames.map_values(|f: LevelFrame<K>| f@)
}

impl<K: View> View for TreePicker<K> {
    type V = PickerView<K::V>;

    closed spec fn view(&self) -> PickerView<K::V> {
        PickerView { frames: frame_views(self.frames@), path: key_views(self.path@) }
    }
}

impl<V> PickerView<V> {
    /// The root level alone.
    pub open spec fn root() -> PickerView<V> {
        PickerView { frames: seq![FrameView::fresh()], path: Seq::empty() }
    }

    /// There is one level more than keys entered, and each cursor stands
    /// between characters.
    pub open spec fn wf(self) -> bool {
        &&& self.frames.len() == self.path.len() + 1
        &&& forall|i: int| 0 <= i < self.frames.len() ==> (#[trigger] self.frames[i]).wf()
    }

    /// The current level.
    pub open spec fn top(self) -> FrameView<V> {
        self.frames.last()
    }

    /// The picker with another current level.
    pub open spec fn with_top(self, frame: FrameView<V>) -> PickerView<V> {
        PickerView { frames: self.frames.drop_last().push(frame), path: self.path }
    }

    /// The picker after `key` was entered.
    pub open spec fn descended(self, key: V) -> PickerView<V> {
        PickerView {
            frames: self.frames.drop_last().push(
                FrameView { descended_from: Some(key), ..self.top() },
            ).push(FrameView::fresh()),
            path: self.path.push(key),
        }
    }

    /// The picker after the current level was left.
    pub open spec fn ascended(self) -> PickerView<V> {
        if self.path.len() == 0 {
            self
        } else {
            PickerView { frames: self.frames.drop_last(), path: self.path.drop_last() }
        }
    }

    /// The picker after the row of the child that was left was highlighted:
    /// its row among `keys`, else the first.
    pub open spec fn restored(self, keys: Seq<Option<V>>) -> PickerView<V> {
        self.with_top(
            FrameView {
                selection: Some(row_of(keys, self.top().descended_from)),
                descended_from: None,
                ..self.top()
            },
        )
    }
}

/// Whether `key_of` may give a key that holds `view` for `item`.
pub open spec fn has_key<T, K: View, F: Fn(&T) -> Option<K>>(
    key_of: F,
    item: T,
    view: Option<K::V>,
) -> bool {
    exists|key: Option<K>| #[trigger] call_ensures(key_of, (&item,), key) && key_view(key) == view
}

/// The first row whose key is `target`; row 0 where there is none.
pub open spec fn row_of<V>(keys: Seq<Option<V>>, target: Option<V>) -> usize {
    if target is Some && keys.contains(target) {
        first_row(keys, target, 0) as usize
    } else {
        0
    }
}

/// The first row at or behind `from` whose key is `target`.
pub open spec fn first_row<V>(keys: Seq<Option<V>>, target: Option<V>, from: int) -> int
    decreases keys.len() - from,
{
    if from < 0 || from >= keys.len() || keys[from] == target {
        from
    } else {
        first_row(keys, target, from + 1)
    }
}

/// `first_row` is the least row with the key.
proof fn lemma_first_row<V>(keys: Seq<Option<V>>, target: Option<V>, from: int, at: int)
    requires
        0 <= from <= at < keys.len(),
        keys[at] == target,
        forall|j: int| from <= j < at ==> keys[j] != target,
    ensures
        first_row(keys, target, from) == at,
    decreases at - from,
{
    if from < at {
        lemma_first_row(keys, target, from + 1, at);
    }
}

impl<K: View> Default for TreePicker<K> {
    /// The root level alone.
    fn default() -> (picker: Self)
        ensures
            picker@ == PickerView::<K::V>::root(),
            picker@.wf(),
    {
        let mut frames: Vec<LevelFrame<K>> = Vec::new();
        frames.push(LevelFrame::new());
        let picker = TreePicker { frames, path: Vec::new() };
        assert(picker@.frames =~= PickerView::<K::V>::root().frames);
        assert(picker@.path =~= Seq::<K::V>::empty());
        picker
    }
}

impl<K: PickKey> TreePicker<K> {
    /// The root level alone.
    pub fn new() -> (picker: Self)
        ensures
            picker@ == PickerView::<K::V>::root(),
            picker@.wf(),
    {
        TreePicker::default()
    }

    /// How many levels lie above the current one.
    pub fn depth(&self) -> (n: usize)
        ensures
            n == self@.path.len(),
    {
        self.path.len()
    }

    /// The keys that were entered, outermost first.
    pub fn path(&self) -> (path: &Vec<K>)
        ensures
            key_views(path@) == self@.path,
    {
        &self.path
    }

    /// The levels, outermost first.
    pub fn frames(&self) -> (frames: &Vec<LevelFrame<K>>)
        ensures
            frame_views(frames@) == self@.frames,
    {
        &self.frames
    }

    /// The current level.
    pub fn current(&self) -> (frame: &LevelFrame<K>)
        requires
            self@.wf(),
        ensures
            frame@ == self@.top(),
    {
        &self.frames[self.frames.len() - 1]
    }

    /// The current level, to be changed.
    pub fn current_mut(&mut self) -> (frame: &mut LevelFrame<K>)
        requires
            old(self)@.wf(),
        ensures
            frame@ == old(self)@.top(),
            final(self)@ == old(self)@.with_top(final(frame)@),
    {
        let last: usize = self.frames.len() - 1;
        let frame = &mut self.frames[last];
        proof {
            assert(frame_views(old(self).frames@.update(last as int, *final(frame))) =~= frame_views(
                old(self).frames@,
            ).drop_last().push(final(frame)@));
        }
        frame
    }

    /// The levels, to be changed.
    pub fn frames_mut(&mut self) -> (frames: &mut [LevelFrame<K>])
        ensures
            frame_views(frames@) == old(self)@.frames,
            frame_views(final(frames)@) == final(self)@.frames,
            final(self)@.path == old(self)@.path,
    {
        self.frames.as_mut_slice()
    }

    /// The filter of the current level.
    pub fn filter(&self) -> (s: &str)
        requires
            self@.wf(),
        ensures
            s@ == self@.top().filter,
    {
        self.current().filter.as_str()
    }

    /// The byte offset of the cursor of the current level.
    pub fn cursor(&self) -> (cursor: usize)
        requires
            self@.wf(),
        ensures
            cursor == self@.top().cursor,
    {
        self.current().cursor
    }

    /// The highlighted row of the current level.
    pub fn selection(&self) -> (selection: Option<usize>)
        requires
            self@.wf(),
        ensures
            selection == self@.top().selection,
    {
        self.current().selection
    }

    /// Highlights a row of the current level.
    pub fn set_selection(&mut self, selection: Option<usize>)
        requires
            old(self)@.wf(),
        ensures
            final(self)@ == old(self)@.with_top(old(self)@.top().selecting(selection)),
            final(self)@.wf(),
    {
        let frame = self.current_mut();
        frame.selection = selection;
    }

    /// How many characters stand before the cursor of the current level.
    pub fn cursor_col(&self) -> (col: usize)
        requires
            self@.wf(),
        ensures
            col == self@.top().column(),
            col <= self@.top().filter.len(),
    {
        let frame = self.current();
        line_edit::column(frame.filter.as_str(), frame.cursor)
    }

    /// Types `c` at the cursor of the current level.
    pub fn type_char(&mut self, c: char)
        requires
            old(self)@.wf(),
        ensures
            final(self)@ == old(self)@.with_top(old(self)@.top().typed(c)),
            final(self)@.wf(),
    {
        self.current_mut().type_char(c);
    }

    /// Deletes the character before the cursor of the current level. Says
    /// whether there was one.
    pub fn input_backspace(&mut self) -> (changed: bool)
        requires
            old(self)@.wf(),
        ensures
            final(self)@ == old(self)@.with_top(old(self)@.top().erased()),
            final(self)@.wf(),
            changed == (old(self)@.top().cursor > 0),
            !changed ==> final(self)@ == old(self)@,
    {
        let changed = self.current_mut().erase();
        assert(!changed ==> self@.frames =~= old(self)@.frames);
        changed
    }

    /// Moves the cursor one character to the left.
    pub fn cursor_left(&mut self)
        requires
            old(self)@.wf(),
        ensures
            final(self)@.wf(),
            final(self)@ == old(self)@.with_top(old(self)@.top().left()),
            final(self)@.top().column() == if old(self)@.top().column() == 0 {
                0
            } else {
                old(self)@.top().column() - 1
            },
    {
        let frame = self.current_mut();
        frame.cursor = line_edit::left_of(frame.filter.as_str(), frame.cursor);
    }

    /// Moves the cursor one character to the right.
    pub fn cursor_right(&mut self)
        requires
            old(self)@.wf(),
        ensures
            final(self)@.wf(),
            final(self)@ == old(self)@.with_top(old(self)@.top().right()),
            final(self)@.top().column() == if old(self)@.top().column()
                == old(self)@.top().filter.len() {
                old(self)@.top().column()
            } else {
                old(self)@.top().column() + 1
            },
    {
        let frame = self.current_mut();
        frame.cursor = line_edit::right_of(frame.filter.as_str(), frame.cursor);
    }

    /// Moves the highlighted row by `delta` within `visible_len` rows.
    pub fn move_selection(&mut self, delta: i32, visible_len: usize)
        requires
            old(self)@.wf(),
        ensures
            final(self)@ == old(self)@.with_top(
                old(self)@.top().selecting(
                    line_edit::moved_selection(
                        old(self)@.top().selection,
                        delta as int,
                        visible_len as int,
                    ),
                ),
            ),
            final(self)@.wf(),
    {
        let frame = self.current_mut();
        frame.selection = line_edit::move_selection(frame.selection, delta, visible_len);
    }

    /// Enters `key`. The current level keeps its filter and remembers the
    /// key; a fresh level is put on top.
    pub fn descend(&mut self, key: K)
        requires
            old(self)@.wf(),
        ensures
            final(self)@ == old(self)@.descended(key@),
            final(self)@.wf(),
    {
        let ghost before = self@;
        let remembered = key.copy_key();
        {
            let frame = self.current_mut();
            frame.descended_from = Some(remembered);
        }
        let ghost middle = self@;
        self.path.push(key);
        self.frames.push(LevelFrame::new());
        proof {
            assert(self@.frames =~= middle.frames.push(FrameView::fresh()));
            assert(self@.path =~= before.path.push(key@));
            line_edit::lemma_start_is_boundary(Seq::empty());
            assert forall|i: int| 0 <= i < self@.frames.len() implies (#[trigger] self@.frames[i]).wf() by {
                if i < before.frames.len() - 1 {
                    assert(self@.frames[i] == before.frames[i]);
                } else if i == before.frames.len() - 1 {
                    assert(self@.frames[i].filter == before.frames[i].filter);
                    assert(before.frames[i].wf());
                }
            }
        }
    }

    /// Leaves the current level. Gives the key that was left, or `None` at
    /// the root.
    pub fn ascend(&mut self) -> (left: Option<K>)
        requires
            old(self)@.wf(),
        ensures
            final(self)@ == old(self)@.ascended(),
            final(self)@.wf(),
            match left {
                Some(key) => old(self)@.path.len() > 0 && key@ == old(self)@.path.last(),
                None => old(self)@.path.len() == 0,
            },
    {
        if self.path.len() == 0 {
            return None;
        }
        let ghost before = self@;
        let _ = self.frames.pop();
        let left = self.path.pop();
        proof {
            assert(self@.frames =~= before.frames.drop_last());
            assert(self@.path =~= before.path.drop_last());
        }
        left
    }

    /// After [`ascend`](Self::ascend): highlights the row of `visible` whose
    /// key is that of the child that was left, else the first row.
    pub fn restore_selection<T, F: Fn(&T) -> Option<K>>(&mut self, visible: &Vec<T>, key_of: F)
        requires
            old(self)@.wf(),
            forall|i: int| 0 <= i < visible@.len() ==> call_requires(key_of, (&#[trigger] visible@[i],)),
        ensures
            final(self)@.wf(),
            exists|keys: Seq<Option<K::V>>|
                {
                    &&& keys.len() == visible@.len()
                    &&& forall|i: int|
                        0 <= i < keys.len() ==> has_key(key_of, visible@[i], #[trigger] keys[i])
                    &&& final(self)@ == #[trigger] old(self)@.restored(keys)
                },
    {
        let ghost before = self@;
        let mut keys: Vec<Option<K>> = Vec::new();
        let ghost mut seen: Seq<Option<K::V>> = Seq::empty();
        let mut i: usize = 0;
        while i < visible.len()
            invariant
                i <= visible@.len(),
                keys@.len() == i,
                seen.len() == i,
                forall|j: int| 0 <= j < visible@.len() ==> call_requires(key_of, (&#[trigger] visible@[j],)),
                forall|j: int| 0 <= j < i ==> #[trigger] seen[j] == key_view(keys@[j]),
                forall|j: int| 0 <= j < i ==> has_key(key_of, visible@[j], #[trigger] seen[j]),
            decreases visible@.len() - i,
        {
            let key = key_of(&visible[i]);
            proof {
                assert(call_ensures(key_of, (&visible@[i as int],), key));
                assert(has_key(key_of, visible@[i as int], key_view(key)));
                seen = seen.push(key_view(key));
            }
            keys.push(key);
            i = i + 1;
        }
        let frame = self.current_mut();
        let mut target: Option<K> = None;
        std::mem::swap(&mut target, &mut frame.descended_from);
        let mut row: usize = 0;
        match &target {
            None => {},
            Some(wanted) => {
                let mut j: usize = 0;
                let mut found: bool = false;
                while j < keys.len() && !found
                    invariant
                        j <= keys@.len(),
                        keys@.len() == seen.len(),
                        forall|k: int| 0 <= k < seen.len() ==> #[trigger] seen[k] == key_view(keys@[k]),
                        forall|k: int| 0 <= k < j ==> #[trigger] seen[k] != Some(wanted@),
                        found ==> j < keys@.len() && seen[j as int] == Some(wanted@),
                    decreases keys@.len() - j + (if found {
                        0int
                    } else {
                        1int
                    }),
                {
                    let matches = match &keys[j] {
                        Some(key) => key.same_key(wanted),
                        None => false,
                    };
                    assert(seen[j as int] == key_view(keys@[j as int]));
                    if matches {
                        found = true;
                    } else {
                        j = j + 1;
                    }
                }
                if found {
                    proof {
                        lemma_first_row(seen, Some(wanted@), 0, j as int);
                        assert(seen.contains(Some(wanted@)));
                    }
                    row = j;
                } else {
                    assert(!seen.contains(Some(wanted@)));
                }
            },
        }
        frame.selection = Some(row);
        proof {
            assert(row == row_of(seen, before.top().descended_from));
            assert(self@ == before.restored(seen));
        }
    }

    /// Goes back to the root with an empty filter.
    pub fn reset(&mut self)
        ensures
            final(self)@ == PickerView::<K::V>::root(),
            final(self)@.wf(),
    {
        let new = TreePicker::new();
        *self = new;
    }
}

/// Leaving a level that was entered gives back the level that it was entered
/// from: filter, cursor and highlighted row are as before.
pub proof fn law_ascend_undoes_descend<V>(picker: PickerView<V>, key: V)
    requires
        picker.wf(),
    ensures
        ({
            let back = picker.descended(key).ascended();
            &&& back.path == picker.path
            &&& back.frames.drop_last() == picker.frames.drop_last()
            &&& back.top().filter == picker.top().filter
            &&& back.top().cursor == picker.top().cursor
            &&& back.top().selection == picker.top().selection
            &&& back.top().descended_from == Some(key)
        }),
{
    let back = picker.descended(key).ascended();
    assert(back.path =~= picker.path);
    assert(back.frames.drop_last() =~= picker.frames.drop_last());
}

/// After entering a visible child and leaving it again, its row is the
/// highlighted one.
pub proof fn law_return_highlights_the_child<V>(
    picker: PickerView<V>,
    key: V,
    keys: Seq<Option<V>>,
    row: int,
)
    requires
        picker.wf(),
        0 <= row < keys.len() <= usize::MAX,
        keys[row] == Some(key),
        forall|j: int| 0 <= j < row ==> keys[j] != Some(key),
    ensures
        picker.descended(key).ascended().restored(keys).top().selection == Some(row as usize),
{
    law_ascend_undoes_descend(picker, key);
    lemma_first_row(keys, Some(key), 0, row);
    assert(keys.contains(Some(key)));
}

/// Deleting undoes typing at the current level, but for the highlighted row.
pub proof fn law_erase_undoes_typing<V>(frame: FrameView<V>, c: char)
    requires
        frame.wf(),
    ensures
        frame.typed(c).erased() == frame.selecting(Some(0)),
{
    line_edit::law_delete_undoes_typing(frame.filter, frame.cursor, c);
    assert(frame.typed(c).erased().filter =~= frame.filter);
}

/// Typing puts the character between the text before the cursor and the text
/// behind it, with the cursor behind it; deleting takes the last character of the
/// text before the cursor. Either way the first row is highlighted.
pub proof fn law_filter_is_edited_at_the_cursor<V>(
    frame: FrameView<V>,
    c: char,
    a: Seq<char>,
    b: Seq<char>,
)
    requires
        frame.filter == a + b,
        frame.cursor == line_edit::byte_len(a),
    ensures
        frame.typed(c).filter == a + seq![c] + b,
        frame.typed(c).cursor == line_edit::byte_len(a + seq![c]),
        frame.typed(c).selection == Some(0usize),
        a.len() > 0 ==> frame.erased().filter == a.drop_last() + b,
        a.len() > 0 ==> frame.erased().cursor == line_edit::byte_len(a.drop_last()),
        a.len() > 0 ==> frame.erased().selection == Some(0usize),
        a.len() == 0 ==> frame.erased() == frame,
        frame.left().filter == frame.filter,
        frame.right().filter == frame.filter,
        a.len() > 0 ==> frame.left().cursor == line_edit::byte_len(a.drop_last()),
        b.len() > 0 ==> frame.right().cursor == line_edit::byte_len(a + seq![b[0]]),
{
    let s = frame.filter;
    let col = a.len() as int;
    assert(s.take(col) =~= a);
    assert(line_edit::stands_behind(s, frame.cursor, col));
    line_edit::lemma_one_column(s, frame.cursor, col);
    line_edit::law_cursor_goes_by_characters(s, frame.cursor);
    assert(s.insert(col, c) =~= a + seq![c] + b);
    assert((a + seq![c]).drop_last() =~= a);
    if a.len() > 0 {
        assert(s.remove(col - 1) =~= a.drop_last() + b);
        assert(s[col - 1] == a.last());
    } else {
        assert(frame.cursor == 0);
    }
    if b.len() > 0 {
        assert(s[col] == b[0]);
        assert((a + seq![b[0]]).drop_last() =~= a);
    }
}

/// Entering a key opens a level below it with nothing typed and its first row
/// highlighted; the levels above stay as they are.
pub proof fn law_entering_opens_a_fresh_level<V>(picker: PickerView<V>, key: V)
    requires
        picker.wf(),
    ensures
        picker.descended(key).path == picker.path + seq![key],
        picker.descended(key).top().filter.len() == 0,
        picker.descended(key).top().cursor == 0,
        picker.descended(key).top().selection == Some(0usize),
        forall|i: int|
            0 <= i < picker.frames.len() ==> (#[trigger] picker.descended(key).frames[i]).filter
                == picker.frames[i].filter && picker.descended(key).frames[i].selection
                == picker.frames[i].selection,
{
    assert(picker.path.push(key) =~= picker.path + seq![key]);
    let after = picker.descended(key);
    assert forall|i: int| 0 <= i < picker.frames.len() implies (#[trigger] after.frames[i]).filter
        == picker.frames[i].filter && after.frames[i].selection == picker.frames[i].selection by {
        if i == picker.frames.len() - 1 {
            assert(picker.top() == picker.frames[i]);
        }
    }
}

} // verus!
