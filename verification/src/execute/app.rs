//! The state of an interactive session and what keys do to it.

use vstd::prelude::*;
use crate::browse;
use crate::browse::{BrowseEntry, BrowseTree};
use crate::config::Theme;
use crate::domain;
use crate::domain::SnippetId;
use crate::execute;
use crate::execute::ExecutionOutcome;
use crate::execute::browse as tree_mode;
use crate::execute::browse::BrowseState;
use crate::execute::prompt;
use crate::execute::prompt::{PromptState, PromptTransition};
use crate::execute::suggestions::SuggestionProvider;
use crate::execute::tags;
use crate::execute::tags::{TagListEntry, TagSnippetEntry, TagsState};
use crate::execute::template;
use crate::execute::tree_picker;
use crate::fuzzy;
use crate::fuzzy::FuzzyState;
use crate::index;
use crate::index::{IndexedSnippet, SnippetIndex, TagIndex};
use crate::keybinds;
use crate::keybinds::{
    BrowseAction, ExecuteKeymap, FuzzyAction, KeyEvent, SelectAction, TagsAction,
};
use crate::line_edit;
use crate::text;

verus! {

broadcast use vstd::string::group_string_axioms;

/// How the picker is navigated. One key rotates through the modes.
#[derive(Debug, Clone, Copy, PartialEq, Eq, Structural)]
pub enum NavigationMode {
    /// Typing filters and ranks snippets.
    Fuzzy,
    /// A tree of directories and files.
    Browse,
    /// A list of tags, and the snippets of a tag.
    Tags,
}

/// The mode that comes next.
pub open spec fn next_mode(mode: NavigationMode) -> NavigationMode {
    match mode {
        NavigationMode::Fuzzy => NavigationMode::Browse,
        NavigationMode::Browse => NavigationMode::Tags,
        NavigationMode::Tags => NavigationMode::Fuzzy,
    }
}

/// Rotating three times leads back to the first mode, and no fewer.
pub proof fn law_modes_rotate(mode: NavigationMode)
    ensures
        next_mode(next_mode(next_mode(mode))) == mode,
        next_mode(mode) != mode,
        next_mode(next_mode(mode)) != mode,
{
}

/// The screens.
pub enum Screen {
    /// The picker.
    Select,
    /// The prompt for the variables of the chosen snippet.
    Prompt(PromptState),
}

/// What a [`Screen`] holds.
pub enum ScreenView {
    Select,
    Prompt(prompt::PromptView),
}

impl View for Screen {
    type V = ScreenView;

    open spec fn view(&self) -> ScreenView {
        match self {
            Screen::Select => ScreenView::Select,
            Screen::Prompt(p) => ScreenView::Prompt(p@),
        }
    }
}

/// What follows from a key.
#[derive(Debug, PartialEq, Eq)]
pub enum AppEvent {
    /// The session goes on.
    Continue,
    /// The user wants to edit a snippet.
    EditSnippet(SnippetId),
    /// The session ends without a result.
    Cancelled,
    /// The session ends with a command.
    Completed(ExecutionOutcome),
}

/// What an [`AppEvent`] holds.
pub enum EventView {
    Continue,
    EditSnippet(Seq<char>),
    Cancelled,
    Completed(execute::OutcomeView),
}

impl View for AppEvent {
    type V = EventView;

    open spec fn view(&self) -> EventView {
        match self {
            AppEvent::Continue => EventView::Continue,
            AppEvent::EditSnippet(id) => EventView::EditSnippet(id@),
            AppEvent::Cancelled => EventView::Cancelled,
            AppEvent::Completed(outcome) => EventView::Completed(outcome@),
        }
    }
}

/// Which part of a list is on screen.
#[derive(Debug, Clone, Copy, PartialEq, Eq)]
pub struct ListPosition {
    /// The first row on screen.
    pub offset: usize,
    /// The highlighted row.
    pub selected: Option<usize>,
}

impl ListPosition {
    /// At the top, with no row highlighted.
    pub open spec fn start() -> ListPosition {
        ListPosition { offset: 0, selected: None }
    }
}

/// The state of a session. `P` supplies suggestions for variables.
pub struct ExecutionApp<P> {
    pub index: SnippetIndex,
    pub tree: BrowseTree,
    pub tag_index: TagIndex,
    /// The directory in which suggestions are looked for.
    pub cwd: String,
    pub provider: P,
    pub screen: Screen,
    pub nav_mode: NavigationMode,
    pub fuzzy: FuzzyState,
    pub browse: BrowseState,
    pub tags: TagsState,
    /// A message for the last line.
    pub status: Option<String>,
    /// How many lines the preview is scrolled down.
    pub preview_scroll: u16,
    pub fuzzy_list: ListPosition,
    pub browse_list: ListPosition,
    pub tags_list: ListPosition,
    pub theme: Theme,
    /// Text of the shell's command line, which goes into the first variable.
    pub initial_buffer: Option<String>,
    pub keymap: ExecuteKeymap,
}

/// The part of a session that keys change.
#[verifier::ext_equal]
pub struct AppView {
    pub screen: ScreenView,
    pub nav_mode: NavigationMode,
    pub fuzzy: fuzzy::FuzzyView,
    pub browse: tree_mode::Picker,
    pub tags: tags::TagPicker,
    pub status: Option<Seq<char>>,
    pub preview_scroll: u16,
}

impl<P> View for ExecutionApp<P> {
    type V = AppView;

    open spec fn view(&self) -> AppView {
        AppView {
            screen: self.screen@,
            nav_mode: self.nav_mode,
            fuzzy: self.fuzzy@,
            browse: self.browse@,
            tags: self.tags@,
            status: text::optional_text(self.status),
            preview_scroll: self.preview_scroll,
        }
    }
}

impl AppView {
    /// With the preview at its top.
    pub open spec fn unscrolled(self) -> AppView {
        AppView { preview_scroll: 0, ..self }
    }

    /// With a message, or none.
    pub open spec fn saying(self, status: Option<Seq<char>>) -> AppView {
        AppView { status, ..self }
    }

    /// With another state of fuzzy search.
    pub open spec fn with_fuzzy(self, state: fuzzy::FuzzyView) -> AppView {
        AppView { fuzzy: state, ..self }
    }

    /// With another state of browse mode.
    pub open spec fn with_browse(self, state: tree_mode::Picker) -> AppView {
        AppView { browse: state, ..self }
    }

    /// With another state of tags mode.
    pub open spec fn with_tags(self, state: tags::TagPicker) -> AppView {
        AppView { tags: state, ..self }
    }

    /// Whether every cursor stands between characters and a prompt has a
    /// variable to edit.
    pub open spec fn wf(self) -> bool {
        &&& self.fuzzy.wf()
        &&& self.browse.wf()
        &&& self.tags.wf()
        &&& self.screen matches ScreenView::Prompt(p) ==> p.wf()
    }
}

/// The row that counts as highlighted: the first where none was chosen.
pub open spec fn row_or_first(selection: Option<usize>) -> int {
    match selection {
        Some(row) => row as int,
        None => 0,
    }
}

/// The snippet highlighted in fuzzy search.
pub open spec fn fuzzy_choice(
    entries: Seq<index::EntryView>,
    hits: Seq<Seq<char>>,
    state: fuzzy::FuzzyView,
) -> Option<index::EntryView> {
    let row = row_or_first(state.selection);
    if row < hits.len() {
        index::entry_of(entries, hits[row])
    } else {
        None
    }
}

/// The snippet highlighted in browse mode.
pub open spec fn browse_choice(
    entries: Seq<index::EntryView>,
    tree: BrowseTree,
    state: tree_mode::Picker,
) -> Option<index::EntryView> {
    let rows = tree_mode::rows_of(state, tree);
    let row = row_or_first(state.top().selection);
    if row < rows.len() {
        match rows[row] {
            browse::BrowseEntryView::Snippet(s) => index::entry_of(entries, s.id),
            browse::BrowseEntryView::Directory(_) => None,
        }
    } else {
        None
    }
}

/// The snippet highlighted below a tag.
pub open spec fn tag_choice(
    entries: Seq<index::EntryView>,
    tag_index: TagIndex,
    state: tags::TagPicker,
) -> Option<index::EntryView> {
    let rows = tags::drill_list(entries, tag_index, state);
    let row = row_or_first(tags::drill_row(state));
    if row < rows.len() {
        index::entry_of(entries, rows[row].id)
    } else {
        None
    }
}

/// The prompt of a snippet before its first variable is set up.
pub open spec fn fresh_prompt(entry: index::EntryView) -> prompt::PromptView {
    prompt::PromptView {
        snippet_id: entry.snippet.id,
        variables: template::first_of_each(entry.snippet.variables),
        local_variables: entry.frontmatter.variables,
        index: 0,
        values: Map::empty(),
        input: Seq::empty(),
        suggestions: Seq::empty(),
        error: None,
        selection: None,
        hint: None,
        default_value: None,
        dirty: Set::empty(),
        seeded_from_buffer: false,
        cache: Seq::empty(),
    }
}

/// The prompt with the shell's command line as its input, where there is one.
pub open spec fn seeded(p: prompt::PromptView, buffer: Option<Seq<char>>) -> prompt::PromptView {
    match buffer {
        Some(input) => prompt::PromptView { input, seeded_from_buffer: true, ..p },
        None => p,
    }
}

/// The state and what follows.
pub struct Effect {
    pub view: AppView,
    pub event: EventView,
}

/// The state, with the session going on.
pub open spec fn goes_on(view: AppView) -> Effect {
    Effect { view, event: EventView::Continue }
}

/// Whether `after` is what choosing a snippet leads to: its prompt, or its
/// command at once where it has no variables.
pub open spec fn started<P: SuggestionProvider>(
    app: ExecutionApp<P>,
    id: Seq<char>,
    before: AppView,
    after: Effect,
) -> bool {
    match index::entry_of(app.index@, id) {
        None => after == goes_on(before),
        Some(entry) => if template::first_of_each(entry.snippet.variables).len() == 0 {
            after == (Effect {
                view: before,
                event: EventView::Completed(
                    execute::OutcomeView {
                        snippet_id: id,
                        command: entry.snippet.body,
                        consumed_buffer: false,
                    },
                ),
            })
        } else {
            exists|fresh: PromptState, loaded: prompt::PromptView|
                {
                    &&& fresh@ == fresh_prompt(entry)
                    &&& #[trigger] prompt::load_of(
                        &app.provider,
                        fresh,
                        app.cwd@,
                        fresh@,
                        loaded,
                    )
                    &&& after == goes_on(
                        (AppView {
                            screen: ScreenView::Prompt(
                                seeded(loaded, text::optional_text(app.initial_buffer)),
                            ),
                            status: loaded.error,
                            ..before
                        }),
                    )
                }
        },
    }
}

/// Whether `after` is what a key does in fuzzy search.
pub open spec fn fuzzy_effect<P: SuggestionProvider>(
    app: ExecutionApp<P>,
    hits: Seq<Seq<char>>,
    key: KeyEvent,
    after: Effect,
) -> bool {
    let before = app@;
    let state = before.fuzzy;
    let n = hits.len() as int;
    match keybinds::action_of(app.keymap.fuzzy.bindings@, key.chord) {
        Some(FuzzyAction::Accept) => match fuzzy_choice(app.index@, hits, state) {
            Some(entry) => started(app, entry.snippet.id, before.saying(None), after),
            None => after == goes_on(before),
        },
        Some(FuzzyAction::Backspace) => after == goes_on(
            before.with_fuzzy(state.erased()).unscrolled(),
        ),
        Some(FuzzyAction::CursorLeft) => after == goes_on(before.with_fuzzy(state.left())),
        Some(FuzzyAction::CursorRight) => after == goes_on(before.with_fuzzy(state.right())),
        Some(FuzzyAction::MoveUp) => after == goes_on(
            before.with_fuzzy(state.moved(1, n)).unscrolled(),
        ),
        Some(FuzzyAction::MoveDown) => after == goes_on(
            before.with_fuzzy(state.moved(-1, n)).unscrolled(),
        ),
        Some(FuzzyAction::PageUp) => after == goes_on(
            before.with_fuzzy(
                if n > 0 {
                    state.selecting(Some((n - 1) as usize))
                } else {
                    state
                },
            ).unscrolled(),
        ),
        Some(FuzzyAction::PageDown) => after == goes_on(
            before.with_fuzzy(
                if n > 0 {
                    state.selecting(Some(0))
                } else {
                    state
                },
            ).unscrolled(),
        ),
        None => after == goes_on(
            match key.typed() {
                Some(c) => before.with_fuzzy(state.typed(c)).unscrolled(),
                None => before,
            },
        ),
    }
}

/// The state of browse mode with another row highlighted.
pub open spec fn browse_selecting(
    state: tree_mode::Picker,
    selection: Option<usize>,
) -> tree_mode::Picker {
    state.with_top(state.top().selecting(selection))
}

/// Whether `after` is what a key does in browse mode.
pub open spec fn browse_effect<P: SuggestionProvider>(
    app: ExecutionApp<P>,
    key: KeyEvent,
    after: Effect,
) -> bool {
    let before = app@;
    let state = before.browse;
    let rows = tree_mode::rows_of(state, app.tree);
    let n = rows.len() as int;
    match keybinds::action_of(app.keymap.browse.bindings@, key.chord) {
        Some(BrowseAction::AcceptOrOpen) => {
            let at = browse::selected_row(state.top().selection);
            if at >= n {
                after == goes_on(before.unscrolled())
            } else {
                match rows[at as int] {
                    browse::BrowseEntryView::Directory(name) => after == goes_on(
                        before.with_browse(state.descended(name)).unscrolled(),
                    ),
                    browse::BrowseEntryView::Snippet(s) => started(
                        app,
                        s.id,
                        before.saying(None),
                        after,
                    ),
                }
            }
        },
        Some(BrowseAction::Backspace) => after == goes_on(
            before.with_browse(tree_mode::backed(state, app.tree)).unscrolled(),
        ),
        Some(BrowseAction::Complete) => after == goes_on(
            before.with_browse(tree_mode::completed(state, app.tree)).unscrolled(),
        ),
        Some(BrowseAction::CursorLeft) => after == goes_on(
            before.with_browse(state.with_top(state.top().left())),
        ),
        Some(BrowseAction::CursorRight) => after == goes_on(
            before.with_browse(state.with_top(state.top().right())),
        ),
        Some(BrowseAction::MoveUp) => after == goes_on(
            before.with_browse(
                browse_selecting(
                    state,
                    line_edit::moved_selection(state.top().selection, 1, n),
                ),
            ).unscrolled(),
        ),
        Some(BrowseAction::MoveDown) => after == goes_on(
            before.with_browse(
                browse_selecting(
                    state,
                    line_edit::moved_selection(state.top().selection, -1, n),
                ),
            ).unscrolled(),
        ),
        Some(BrowseAction::PageUp) => after == goes_on(
            before.with_browse(
                if n > 0 {
                    browse_selecting(state, Some((n - 1) as usize))
                } else {
                    state
                },
            ).unscrolled(),
        ),
        Some(BrowseAction::PageDown) => after == goes_on(
            before.with_browse(
                if n > 0 {
                    browse_selecting(state, Some(0))
                } else {
                    state
                },
            ).unscrolled(),
        ),
        None => after == goes_on(
            match key.typed() {
                Some(c) => before.with_browse(state.with_top(state.top().typed(c))).unscrolled(),
                None => before,
            },
        ),
    }
}

/// Whether `after` is what a key does in tags mode.
pub open spec fn tags_effect<P: SuggestionProvider>(
    app: ExecutionApp<P>,
    key: KeyEvent,
    after: Effect,
) -> bool {
    let before = app@;
    let state = before.tags;
    let below = tags::drilled(state) is Some;
    let tag_rows = tags::tag_list(app.tag_index, state);
    let n = if below {
        tags::drill_list(app.index@, app.tag_index, state).len() as int
    } else {
        tag_rows.len() as int
    };
    match keybinds::action_of(app.keymap.tags.bindings@, key.chord) {
        Some(TagsAction::AcceptOrDrill) => if below {
            match tag_choice(app.index@, app.tag_index, state) {
                Some(entry) => started(app, entry.snippet.id, before.saying(None), after),
                None => after == goes_on(before),
            }
        } else {
            let at = row_or_first(tags::list_row(state));
            after == goes_on(
                if at < n {
                    before.with_tags(state.descended(tag_rows[at].key)).unscrolled().saying(None)
                } else {
                    before
                },
            )
        },
        Some(TagsAction::Backspace) => after == goes_on(
            before.with_tags(
                if below && state.top().filter.len() == 0 {
                    tags::left_drill(app.tag_index, state)
                } else {
                    state.with_top(state.top().erased())
                },
            ).unscrolled(),
        ),
        Some(TagsAction::CursorLeft) => after == goes_on(
            before.with_tags(state.with_top(state.top().left())),
        ),
        Some(TagsAction::CursorRight) => after == goes_on(
            before.with_tags(state.with_top(state.top().right())),
        ),
        Some(TagsAction::MoveUp) => after == goes_on(
            before.with_tags(tags::moved(state, 1, n)).unscrolled(),
        ),
        Some(TagsAction::MoveDown) => after == goes_on(
            before.with_tags(tags::moved(state, -1, n)).unscrolled(),
        ),
        Some(TagsAction::PageUp) => after == goes_on(
            before.with_tags(
                if n > 0 {
                    tags::selecting(state, Some((n - 1) as usize))
                } else {
                    state
                },
            ).unscrolled(),
        ),
        Some(TagsAction::PageDown) => after == goes_on(
            before.with_tags(
                if n > 0 {
                    tags::selecting(state, Some(0))
                } else {
                    state
                },
            ).unscrolled(),
        ),
        Some(TagsAction::ReturnToTags) => after == goes_on(
            if below {
                before.with_tags(tags::left_drill(app.tag_index, state)).unscrolled()
            } else {
                before
            },
        ),
        None => after == goes_on(
            match key.typed() {
                Some(c) => before.with_tags(state.with_top(state.top().typed(c))).unscrolled(),
                None => before,
            },
        ),
    }
}

/// The snippet highlighted in the picker.
pub open spec fn picker_choice<P>(app: ExecutionApp<P>, hits: Seq<Seq<char>>) -> Option<
    index::EntryView,
> {
    match app.nav_mode {
        NavigationMode::Fuzzy => fuzzy_choice(app.index@, hits, app.fuzzy@),
        NavigationMode::Browse => browse_choice(app.index@, app.tree, app.browse@),
        NavigationMode::Tags => tag_choice(app.index@, app.tag_index, app.tags@),
    }
}

/// The snippet that is highlighted, or whose variables are being filled.
pub open spec fn choice<P>(app: ExecutionApp<P>, hits: Seq<Seq<char>>) -> Option<index::EntryView> {
    match app.screen {
        Screen::Select => picker_choice(app, hits),
        Screen::Prompt(p) => index::entry_of(app.index@, p@.snippet_id),
    }
}

/// Whether `after` is what a key does in the picker. What holds in every mode
/// comes first.
pub open spec fn select_effect<P: SuggestionProvider>(
    app: ExecutionApp<P>,
    hits: Seq<Seq<char>>,
    key: KeyEvent,
    after: Effect,
) -> bool {
    let before = app@;
    match keybinds::action_of(app.keymap.select.bindings@, key.chord) {
        Some(SelectAction::CancelOrBack) => after == (if app.nav_mode == NavigationMode::Tags
            && tags::drilled(before.tags) is Some {
            goes_on(before.with_tags(tags::left_drill(app.tag_index, before.tags)).unscrolled())
        } else if app.nav_mode == NavigationMode::Browse && before.browse.path.len() > 0 {
            goes_on(
                before.with_browse(
                    tree_mode::climbed(before.browse, app.tree),
                ).unscrolled().saying(None),
            )
        } else {
            Effect { view: before.saying(Some("cancelled"@)), event: EventView::Cancelled }
        }),
        Some(SelectAction::CycleMode) => after == goes_on(
            (AppView {
                nav_mode: next_mode(app.nav_mode),
                ..before
            }).unscrolled().saying(None),
        ),
        Some(SelectAction::Edit) => after == (match picker_choice(app, hits) {
            Some(entry) => Effect {
                view: before.saying(None),
                event: EventView::EditSnippet(entry.snippet.id),
            },
            None => goes_on(before),
        }),
        Some(SelectAction::PreviewDown) => after == goes_on(
            (AppView {
                preview_scroll: if before.preview_scroll + 3 > u16::MAX {
                    u16::MAX
                } else {
                    (before.preview_scroll + 3) as u16
                },
                ..before
            }),
        ),
        Some(SelectAction::PreviewUp) => after == goes_on(
            (AppView {
                preview_scroll: if before.preview_scroll < 3 {
                    0
                } else {
                    (before.preview_scroll - 3) as u16
                },
                ..before
            }),
        ),
        None => match app.nav_mode {
            NavigationMode::Fuzzy => fuzzy_effect(app, hits, key, after),
            NavigationMode::Browse => browse_effect(app, key, after),
            NavigationMode::Tags => tags_effect(app, key, after),
        },
    }
}

/// The state and what follows, after a step of the prompt.
pub open spec fn prompt_result(before: AppView, step: prompt::Step) -> Effect {
    Effect {
        view: AppView {
            screen: match step.next {
                prompt::TransitionView::ToSelect => ScreenView::Select,
                _ => ScreenView::Prompt(step.prompt),
            },
            status: step.status,
            ..before
        },
        event: match step.next {
            prompt::TransitionView::Completed(outcome) => EventView::Completed(outcome),
            _ => EventView::Continue,
        },
    }
}

/// Whether a key cancels the session in any case.
pub open spec fn cancels(key: KeyEvent) -> bool {
    key.chord.control && key.chord.code == keybinds::KeyCode::Char('c')
}

/// Whether `after` is what a key does. Releases of keys do nothing.
pub open spec fn key_effect<P: SuggestionProvider>(
    app: ExecutionApp<P>,
    hits: Seq<Seq<char>>,
    key: KeyEvent,
    after: Effect,
) -> bool {
    let before = app@;
    if key.release {
        after == goes_on(before)
    } else if cancels(key) {
        after == (Effect {
            view: (AppView { screen: ScreenView::Select, ..before }).saying(Some("cancelled"@)),
            event: EventView::Cancelled,
        })
    } else {
        match app.screen {
            Screen::Select => select_effect(app, hits, key, after),
            Screen::Prompt(p) => exists|step: prompt::Step| #[trigger]
                prompt::key_step(
                    &app.provider,
                    p,
                    app.cwd@,
                    app.index@,
                    app.keymap.prompt.bindings@,
                    key,
                    before.status,
                    step,
                ) && after == prompt_result(before, step),
        }
    }
}

/// Whether what keys do not change is the same in both.
pub open spec fn same_setting<P>(a: ExecutionApp<P>, b: ExecutionApp<P>) -> bool {
    &&& a.index == b.index
    &&& a.tree == b.tree
    &&& a.tag_index == b.tag_index
    &&& a.cwd == b.cwd
    &&& a.provider == b.provider
    &&& a.theme == b.theme
    &&& a.initial_buffer == b.initial_buffer
    &&& a.keymap == b.keymap
    &&& a.fuzzy_list == b.fuzzy_list
    &&& a.browse_list == b.browse_list
    &&& a.tags_list == b.tags_list
}

/// The row of the first of `ids` that is `wanted`.
pub open spec fn place_of(ids: Seq<Option<Seq<char>>>, wanted: Option<Seq<char>>) -> Option<int>
    decreases ids.len(),
{
    if ids.len() == 0 || wanted is None {
        None
    } else if ids[0] == wanted {
        Some(0)
    } else {
        match place_of(ids.skip(1), wanted) {
            Some(i) => Some(i + 1),
            None => None,
        }
    }
}

/// The row to highlight after the list has changed: that of the preferred
/// snippet, or the one highlighted before as far as the list reaches.
pub open spec fn restored_row(
    ids: Seq<Option<Seq<char>>>,
    wanted: Option<Seq<char>>,
    selection: Option<usize>,
) -> Option<usize> {
    if ids.len() == 0 {
        None
    } else {
        match place_of(ids, wanted) {
            Some(at) => Some(at as usize),
            None => Some(
                if row_or_first(selection) < ids.len() {
                    row_or_first(selection) as usize
                } else {
                    (ids.len() - 1) as usize
                },
            ),
        }
    }
}

/// The ids of the rows of browse mode that are snippets.
pub open spec fn row_ids(rows: Seq<browse::BrowseEntryView>) -> Seq<Option<Seq<char>>> {
    rows.map_values(
        |row: browse::BrowseEntryView|
            match row {
                browse::BrowseEntryView::Snippet(s) => Some(s.id),
                browse::BrowseEntryView::Directory(_) => None,
            },
    )
}

/// Ids, each of which is there.
pub open spec fn present(ids: Seq<Seq<char>>) -> Seq<Option<Seq<char>>> {
    ids.map_values(|id: Seq<char>| Some(id))
}

/// No ids, for rows that are not looked up by one.
pub open spec fn anonymous(n: nat) -> Seq<Option<Seq<char>>> {
    Seq::new(n, |i: int| None::<Seq<char>>)
}

/// An id as a text.
pub open spec fn id_view(id: Option<&SnippetId>) -> Option<Seq<char>> {
    match id {
        Some(i) => Some(i@),
        None => None,
    }
}

/// The picker after the index was replaced: a tag that is gone is left, a path
/// that is gone is trimmed, and the highlight of the current mode is restored.
pub open spec fn reindexed(
    before: AppView,
    entries: Seq<index::EntryView>,
    tree: BrowseTree,
    tag_index: TagIndex,
    hits: Seq<Seq<char>>,
    wanted: Option<Seq<char>>,
) -> AppView {
    let tag_state = match tags::drilled(before.tags) {
        Some(tag) if tag_index.ids(tag) is None => before.tags.ascended(),
        _ => before.tags,
    };
    let base = AppView { screen: ScreenView::Select, tags: tag_state, ..before };
    match before.nav_mode {
        NavigationMode::Fuzzy => base.with_fuzzy(
            before.fuzzy.selecting(
                restored_row(present(hits), wanted, before.fuzzy.selection),
            ),
        ),
        NavigationMode::Browse => {
            let state = tree_mode::trimmed(before.browse, tree);
            base.with_browse(
                browse_selecting(
                    state,
                    restored_row(
                        row_ids(tree_mode::rows_of(state, tree)),
                        wanted,
                        state.top().selection,
                    ),
                ),
            )
        },
        NavigationMode::Tags => base.with_tags(
            tags::selecting(
                tag_state,
                restored_row(
                    anonymous(
                        if tags::drilled(tag_state) is Some {
                            tags::drill_list(entries, tag_index, tag_state).len()
                        } else {
                            tags::tag_list(tag_index, tag_state).len()
                        },
                    ),
                    None,
                    tag_state.top().selection,
                ),
            ),
        ),
    }
}

/// The values shown while a variable is being edited: its own is that of the
/// input, where there is one.
pub open spec fn shown_values(p: prompt::PromptView) -> Map<Seq<char>, Seq<char>> {
    if p.value().len() > 0 {
        p.values.insert(p.current().name, p.value())
    } else {
        p.values
    }
}

/// The values shown while a variable is being edited.
pub fn prompt_values(p: &PromptState) -> (values: crate::text_map::TextMap<String>)
    requires
        p@.wf(),
    ensures
        values.texts() == shown_values(p@),
{
    let mut values = p.values.copy();
    let value = p.current_value();
    if !value.as_str().is_empty() {
        values.insert(p.current_variable().name.clone(), value);
    }
    assert(values.texts() =~= shown_values(p@));
    values
}

/// The row of the first of `ids` that is `wanted`.
fn find_row(ids: &Vec<Option<SnippetId>>, wanted: Option<&SnippetId>) -> (row: Option<usize>)
    ensures
        match row {
            Some(at) => place_of(optional_ids(ids@), id_view(wanted)) == Some(at as int) && at
                < ids@.len(),
            None => place_of(optional_ids(ids@), id_view(wanted)) is None,
        },
{
    let id = match wanted {
        Some(id) => id,
        None => {
            return None;
        },
    };
    let ghost all = optional_ids(ids@);
    let mut i: usize = 0;
    assert(all.skip(0) =~= all);
    while i < ids.len()
        invariant
            i <= ids@.len(),
            all == optional_ids(ids@),
            id_view(wanted) == Some(id@),
            place_of(all, Some(id@)) == (match place_of(all.skip(i as int), Some(id@)) {
                Some(at) => Some(at + i),
                None => None,
            }),
        decreases ids@.len() - i,
    {
        let ghost rest = all.skip(i as int);
        assert(rest[0] == all[i as int]);
        assert(rest.skip(1) =~= all.skip(i + 1));
        let hit = match &ids[i] {
            Some(other) => other.same(id),
            None => false,
        };
        assert(hit == (rest[0] == Some(id@)));
        if hit {
            return Some(i);
        }
        i = i + 1;
    }
    None
}

/// Optional ids as texts.
pub open spec fn optional_ids(ids: Seq<Option<SnippetId>>) -> Seq<Option<Seq<char>>> {
    ids.map_values(
        |id: Option<SnippetId>|
            match id {
                Some(i) => Some(i@),
                None => None,
            },
    )
}

/// The row to highlight after the list has changed.
fn restore_row(
    ids: &Vec<Option<SnippetId>>,
    wanted: Option<&SnippetId>,
    selection: Option<usize>,
) -> (row: Option<usize>)
    ensures
        row == restored_row(optional_ids(ids@), id_view(wanted), selection),
{
    if ids.len() == 0 {
        return None;
    }
    match find_row(ids, wanted) {
        Some(at) => Some(at),
        None => {
            let current: usize = match selection {
                Some(row) => row,
                None => 0,
            };
            if current < ids.len() {
                Some(current)
            } else {
                Some(ids.len() - 1)
            }
        },
    }
}

/// The row to highlight in a list of `n` rows that has changed.
fn clamp_row(n: usize, selection: Option<usize>) -> (row: Option<usize>)
    ensures
        row == restored_row(anonymous(n as nat), None, selection),
{
    if n == 0 {
        return None;
    }
    let current: usize = match selection {
        Some(row) => row,
        None => 0,
    };
    if current < n {
        Some(current)
    } else {
        Some(n - 1)
    }
}

impl<P: SuggestionProvider> ExecutionApp<P> {
    /// A session at the picker, in fuzzy search, with the default keys.
    pub fn new(index: SnippetIndex, cwd: String, theme: Theme, provider: P) -> (app: Self)
        ensures
            app.index == index,
            app.cwd == cwd,
            app.theme == theme,
            app.provider == provider,
            browse::node_of(app.tree.root_node(), browse::items_of(index@)),
            app.tag_index.groups(index@),
            app.initial_buffer is None,
            app.keymap.has_default_keys(),
            app.fuzzy_list == ListPosition::start(),
            app.browse_list == ListPosition::start(),
            app.tags_list == ListPosition::start(),
            app@ == (AppView {
                screen: ScreenView::Select,
                nav_mode: NavigationMode::Fuzzy,
                fuzzy: fuzzy::FuzzyView { query: Seq::empty(), cursor: 0, selection: Some(0) },
                browse: tree_mode::Picker::root(),
                tags: tags::TagPicker::root(),
                status: None,
                preview_scroll: 0,
            }),
            app@.wf(),
    {
        ExecutionApp {
            tree: BrowseTree::from_index(&index),
            tag_index: index.tag_index(),
            index,
            cwd,
            provider,
            screen: Screen::Select,
            nav_mode: NavigationMode::Fuzzy,
            fuzzy: FuzzyState::new(),
            browse: BrowseState::new(),
            tags: TagsState::new(),
            status: None,
            preview_scroll: 0,
            fuzzy_list: ListPosition { offset: 0, selected: None },
            browse_list: ListPosition { offset: 0, selected: None },
            tags_list: ListPosition { offset: 0, selected: None },
            theme,
            initial_buffer: None,
            keymap: ExecuteKeymap::default(),
        }
    }

    /// The session with the text of the shell's command line, which goes into
    /// the first variable of the next chosen snippet. Empty text counts as none.
    pub fn with_initial_buffer(self, buffer: Option<String>) -> (app: Self)
        ensures
            text::optional_text(app.initial_buffer) == (match text::optional_text(buffer) {
                Some(b) if b.len() > 0 => Some(b),
                _ => None,
            }),
            app == (ExecutionApp { initial_buffer: app.initial_buffer, ..self }),
    {
        let initial_buffer = match buffer {
            Some(b) => if b.as_str().is_empty() {
                None
            } else {
                Some(b)
            },
            None => None,
        };
        ExecutionApp { initial_buffer, ..self }
    }

    /// The session with other keys.
    pub fn with_keymap(self, keymap: ExecuteKeymap) -> (app: Self)
        ensures
            app == (ExecutionApp { keymap, ..self }),
    {
        ExecutionApp { keymap, ..self }
    }

    /// The mode of the picker.
    pub fn navigation_mode(&self) -> (mode: NavigationMode)
        ensures
            mode == self@.nav_mode,
    {
        self.nav_mode
    }

    /// The message for the last line.
    pub fn status(&self) -> (status: Option<&str>)
        ensures
            crate::config::str_view(status) == self@.status,
    {
        match &self.status {
            Some(s) => Some(s.as_str()),
            None => None,
        }
    }

    /// The snippet highlighted in fuzzy search.
    pub fn selected_fuzzy_snippet(&self, hits: &Vec<SnippetId>) -> (entry: Option<&IndexedSnippet>)
        ensures
            index::optional_entry(entry) == fuzzy_choice(
                self.index@,
                domain::id_texts(hits@),
                self.fuzzy@,
            ),
    {
        let row: usize = match self.fuzzy.selected() {
            Some(row) => row,
            None => 0,
        };
        if row < hits.len() {
            assert(domain::id_texts(hits@)[row as int] == hits@[row as int]@);
            self.index.get(&hits[row])
        } else {
            None
        }
    }

    /// The snippet highlighted in browse mode.
    pub fn selected_browse_snippet(&self) -> (entry: Option<&IndexedSnippet>)
        requires
            self@.wf(),
        ensures
            index::optional_entry(entry) == browse_choice(self.index@, self.tree, self.browse@),
    {
        let rows = self.browse.visible(&self.tree);
        let row: usize = match self.browse.selection() {
            Some(row) => row,
            None => 0,
        };
        assert(rows@.len() == tree_mode::rows_of(self.browse@, self.tree).len());
        if row < rows.len() {
            assert(browse::row_views(rows@)[row as int] == rows@[row as int]@);
            match &rows[row] {
                BrowseEntry::Snippet(s) => self.index.get(&s.id),
                BrowseEntry::Directory(_) => None,
            }
        } else {
            None
        }
    }

    /// The snippet highlighted below a tag.
    pub fn selected_tag_snippet(&self) -> (entry: Option<&IndexedSnippet>)
        requires
            self@.wf(),
        ensures
            index::optional_entry(entry) == tag_choice(self.index@, self.tag_index, self.tags@),
    {
        let row: usize = match self.tags.drill_selection() {
            Some(row) => row,
            None => 0,
        };
        let rows = self.visible_tag_snippets();
        assert(rows@.len() == tags::drill_list(self.index@, self.tag_index, self.tags@).len());
        if row < rows.len() {
            assert(tags::snippet_row_views(rows@)[row as int] == rows@[row as int]@);
            self.index.get(&rows[row].id)
        } else {
            None
        }
    }

    /// The rows of the tag list.
    pub fn visible_tags(&self) -> (rows: Vec<TagListEntry>)
        requires
            self@.wf(),
        ensures
            tags::tag_row_views(rows@) == tags::tag_list(self.tag_index, self.tags@),
    {
        tags::visible_tags(&self.tag_index, &self.tags)
    }

    /// The rows below the tag that was entered.
    pub fn visible_tag_snippets(&self) -> (rows: Vec<TagSnippetEntry>)
        requires
            self@.wf(),
        ensures
            tags::snippet_row_views(rows@) == tags::drill_list(
                self.index@,
                self.tag_index,
                self.tags@,
            ),
    {
        tags::visible_tag_snippets(&self.index, &self.tag_index, &self.tags)
    }

    /// The snippet highlighted in the picker.
    fn picker_snippet(&self, hits: &Vec<SnippetId>) -> (entry: Option<&IndexedSnippet>)
        requires
            self@.wf(),
        ensures
            index::optional_entry(entry) == picker_choice(*self, domain::id_texts(hits@)),
    {
        match self.nav_mode {
            NavigationMode::Fuzzy => self.selected_fuzzy_snippet(hits),
            NavigationMode::Browse => self.selected_browse_snippet(),
            NavigationMode::Tags => self.selected_tag_snippet(),
        }
    }

    /// The snippet that is highlighted, or whose variables are being filled.
    pub fn selected_snippet(&self, hits: &Vec<SnippetId>) -> (entry: Option<&IndexedSnippet>)
        requires
            self@.wf(),
        ensures
            index::optional_entry(entry) == choice(*self, domain::id_texts(hits@)),
    {
        match &self.screen {
            Screen::Select => self.picker_snippet(hits),
            Screen::Prompt(p) => self.index.get(&p.snippet_id),
        }
    }

    /// The command as far as it is known: with the values given so far in the
    /// prompt, as written in the picker.
    pub fn partial_command(&self, hits: &Vec<SnippetId>) -> (command: Option<String>)
        requires
            self@.wf(),
        ensures
            text::optional_text(command) == (match choice(*self, domain::id_texts(hits@)) {
                None => None,
                Some(entry) => match self@.screen {
                    ScreenView::Prompt(p) => Some(
                        template::filled_all(
                            template::segments_of(entry.snippet.body),
                            shown_values(p),
                        ),
                    ),
                    ScreenView::Select => Some(entry.snippet.body),
                },
            }),
    {
        let entry = self.selected_snippet(hits)?;
        match &self.screen {
            Screen::Prompt(p) => {
                let values = prompt_values(p);
                Some(template::render_command(entry.body(), &values))
            },
            Screen::Select => Some(entry.body().to_owned()),
        }
    }

    /// Handles a key. `hits` are the snippets that the query of fuzzy search
    /// finds, best first.
    pub fn handle_key(&mut self, key: KeyEvent, hits: &Vec<SnippetId>) -> (event: AppEvent)
        requires
            old(self)@.wf(),
        ensures
            key_effect(
                *old(self),
                domain::id_texts(hits@),
                key,
                (Effect { view: final(self)@, event: event@ }),
            ),
            same_setting(*old(self), *final(self)),
            final(self)@.wf(),
    {
        if key.release {
            return AppEvent::Continue;
        }
        if ExecuteKeymap::is_emergency_cancel(&key) {
            self.screen = Screen::Select;
            self.status = Some("cancelled".to_owned());
            return AppEvent::Cancelled;
        }
        let mut screen = Screen::Select;
        std::mem::swap(&mut screen, &mut self.screen);
        match screen {
            Screen::Select => self.handle_select_key(key, hits),
            Screen::Prompt(mut p) => {
                let next = prompt::handle_prompt_key(
                    key,
                    &mut p,
                    &self.provider,
                    self.cwd.as_str(),
                    &self.index,
                    &mut self.status,
                    &self.keymap.prompt,
                );
                let ghost step = prompt::Step {
                    prompt: p@,
                    status: text::optional_text(self.status),
                    next: next@,
                };
                match next {
                    PromptTransition::Stay => {
                        self.screen = Screen::Prompt(p);
                        assert(self@ =~= prompt_result(old(self)@, step).view);
                        AppEvent::Continue
                    },
                    PromptTransition::ToSelect => {
                        assert(self@ =~= prompt_result(old(self)@, step).view);
                        AppEvent::Continue
                    },
                    PromptTransition::Completed(outcome) => {
                        self.screen = Screen::Prompt(p);
                        assert(self@ =~= prompt_result(old(self)@, step).view);
                        AppEvent::Completed(outcome)
                    },
                }
            },
        }
    }

    /// Takes pasted text into the prompt. Elsewhere it is dropped, so that
    /// several lines do not end up in the query.
    pub fn handle_paste(&mut self, pasted: &str)
        requires
            old(self)@.wf(),
        ensures
            final(self)@ == (match old(self)@.screen {
                ScreenView::Select => old(self)@,
                ScreenView::Prompt(p) => AppView {
                    screen: ScreenView::Prompt(
                        if pasted@.len() == 0 {
                            p
                        } else {
                            p.with_input(p.input + prompt::pasted(pasted@))
                        },
                    ),
                    ..old(self)@
                },
            }),
            same_setting(*old(self), *final(self)),
            final(self)@.wf(),
    {
        let mut screen = Screen::Select;
        std::mem::swap(&mut screen, &mut self.screen);
        match screen {
            Screen::Select => {},
            Screen::Prompt(mut p) => {
                p.append_input(pasted);
                self.screen = Screen::Prompt(p);
            },
        }
    }

    fn handle_select_key(&mut self, key: KeyEvent, hits: &Vec<SnippetId>) -> (event: AppEvent)
        requires
            old(self)@.wf(),
            old(self).screen is Select,
        ensures
            select_effect(
                *old(self),
                domain::id_texts(hits@),
                key,
                (Effect { view: final(self)@, event: event@ }),
            ),
            same_setting(*old(self), *final(self)),
            final(self)@.wf(),
    {
        match self.keymap.select.action_for(&key) {
            Some(SelectAction::CancelOrBack) => {
                if self.nav_mode == NavigationMode::Tags && self.tags.drill().is_some() {
                    tags::leave_drill(&self.tag_index, &mut self.tags);
                    self.preview_scroll = 0;
                    return AppEvent::Continue;
                }
                if self.nav_mode == NavigationMode::Browse && self.browse.path().len() > 0 {
                    let _ = self.browse.ascend(&self.tree);
                    self.preview_scroll = 0;
                    self.status = None;
                    return AppEvent::Continue;
                }
                self.status = Some("cancelled".to_owned());
                AppEvent::Cancelled
            },
            Some(SelectAction::CycleMode) => {
                self.nav_mode = match self.nav_mode {
                    NavigationMode::Fuzzy => NavigationMode::Browse,
                    NavigationMode::Browse => NavigationMode::Tags,
                    NavigationMode::Tags => NavigationMode::Fuzzy,
                };
                self.preview_scroll = 0;
                self.status = None;
                AppEvent::Continue
            },
            Some(SelectAction::Edit) => {
                let id = match self.picker_snippet(hits) {
                    Some(entry) => entry.id().clone(),
                    None => {
                        return AppEvent::Continue;
                    },
                };
                self.status = None;
                AppEvent::EditSnippet(id)
            },
            Some(SelectAction::PreviewDown) => {
                self.preview_scroll = self.preview_scroll.saturating_add(3);
                AppEvent::Continue
            },
            Some(SelectAction::PreviewUp) => {
                self.preview_scroll = self.preview_scroll.saturating_sub(3);
                AppEvent::Continue
            },
            None => match self.nav_mode {
                NavigationMode::Fuzzy => self.handle_fuzzy_key(key, hits),
                NavigationMode::Browse => self.handle_browse_key(key),
                NavigationMode::Tags => self.handle_tags_key(key),
            },
        }
    }

    fn handle_fuzzy_key(&mut self, key: KeyEvent, hits: &Vec<SnippetId>) -> (event: AppEvent)
        requires
            old(self)@.wf(),
            old(self).screen is Select,
        ensures
            fuzzy_effect(
                *old(self),
                domain::id_texts(hits@),
                key,
                (Effect { view: final(self)@, event: event@ }),
            ),
            same_setting(*old(self), *final(self)),
            final(self)@.wf(),
    {
        assert(domain::id_texts(hits@).len() == hits@.len());
        match self.keymap.fuzzy.action_for(&key) {
            Some(FuzzyAction::Accept) => {
                let id = match self.selected_fuzzy_snippet(hits) {
                    Some(entry) => entry.id().clone(),
                    None => {
                        return AppEvent::Continue;
                    },
                };
                self.status = None;
                return self.start_prompt_or_complete(id);
            },
            Some(FuzzyAction::Backspace) => {
                let _ = self.fuzzy.backspace();
                self.preview_scroll = 0;
            },
            Some(FuzzyAction::CursorLeft) => {
                self.fuzzy.cursor_left();
            },
            Some(FuzzyAction::CursorRight) => {
                self.fuzzy.cursor_right();
            },
            Some(FuzzyAction::MoveUp) => {
                self.fuzzy.move_cursor(1, hits.len());
                self.preview_scroll = 0;
            },
            Some(FuzzyAction::MoveDown) => {
                self.fuzzy.move_cursor(-1, hits.len());
                self.preview_scroll = 0;
            },
            Some(FuzzyAction::PageUp) => {
                if hits.len() > 0 {
                    self.fuzzy.selection = Some(hits.len() - 1);
                }
                self.preview_scroll = 0;
            },
            Some(FuzzyAction::PageDown) => {
                if hits.len() > 0 {
                    self.fuzzy.selection = Some(0);
                }
                self.preview_scroll = 0;
            },
            None => match key.typed_char() {
                Some(c) => {
                    self.fuzzy.type_char(c);
                    self.preview_scroll = 0;
                },
                None => {},
            },
        }
        AppEvent::Continue
    }

    fn handle_browse_key(&mut self, key: KeyEvent) -> (event: AppEvent)
        requires
            old(self)@.wf(),
            old(self).screen is Select,
        ensures
            browse_effect(*old(self), key, (Effect { view: final(self)@, event: event@ })),
            same_setting(*old(self), *final(self)),
            final(self)@.wf(),
    {
        let visible = self.browse.visible(&self.tree);
        let n: usize = visible.len();
        assert(n == tree_mode::rows_of(self.browse@, self.tree).len());
        match self.keymap.browse.action_for(&key) {
            Some(BrowseAction::AcceptOrOpen) => {
                match self.browse.activate(&self.tree) {
                    Some(id) => {
                        self.status = None;
                        return self.start_prompt_or_complete(id);
                    },
                    None => {},
                }
                self.preview_scroll = 0;
            },
            Some(BrowseAction::Backspace) => {
                let _ = self.browse.backspace(&self.tree);
                self.preview_scroll = 0;
            },
            Some(BrowseAction::Complete) => {
                let _ = self.browse.tab_complete(&self.tree);
                self.preview_scroll = 0;
            },
            Some(BrowseAction::CursorLeft) => {
                self.browse.cursor_left();
            },
            Some(BrowseAction::CursorRight) => {
                self.browse.cursor_right();
            },
            Some(BrowseAction::MoveUp) => {
                self.browse.move_cursor(1, n);
                self.preview_scroll = 0;
            },
            Some(BrowseAction::MoveDown) => {
                self.browse.move_cursor(-1, n);
                self.preview_scroll = 0;
            },
            Some(BrowseAction::PageUp) => {
                if n > 0 {
                    self.browse.set_selection(Some(n - 1));
                }
                self.preview_scroll = 0;
            },
            Some(BrowseAction::PageDown) => {
                if n > 0 {
                    self.browse.set_selection(Some(0));
                }
                self.preview_scroll = 0;
            },
            None => match key.typed_char() {
                Some(c) => {
                    self.browse.type_char(c);
                    self.preview_scroll = 0;
                },
                None => {},
            },
        }
        AppEvent::Continue
    }

    fn handle_tags_key(&mut self, key: KeyEvent) -> (event: AppEvent)
        requires
            old(self)@.wf(),
            old(self).screen is Select,
        ensures
            tags_effect(*old(self), key, (Effect { view: final(self)@, event: event@ })),
            same_setting(*old(self), *final(self)),
            final(self)@.wf(),
    {
        let action = self.keymap.tags.action_for(&key);
        if self.tags.drill().is_some() {
            return self.handle_drill_key(action, key);
        }
        let visible = self.visible_tags();
        let n: usize = visible.len();
        let ghost rows = tags::tag_list(self.tag_index, self.tags@);
        assert(n == rows.len());
        match action {
            Some(TagsAction::AcceptOrDrill) => {
                let selected: usize = match self.tags.list_selection() {
                    Some(row) => row,
                    None => 0,
                };
                if selected < n {
                    assert(tags::tag_row_views(visible@)[selected as int]
                        == visible@[selected as int]@);
                    self.tags.enter_drill(visible[selected].key.clone());
                    self.preview_scroll = 0;
                    self.status = None;
                }
            },
            Some(TagsAction::Backspace) => {
                let _ = self.tags.backspace();
                self.preview_scroll = 0;
            },
            Some(TagsAction::CursorLeft) => {
                self.tags.cursor_left();
            },
            Some(TagsAction::CursorRight) => {
                self.tags.cursor_right();
            },
            Some(TagsAction::MoveUp) => {
                self.tags.move_cursor(1, n);
                self.preview_scroll = 0;
            },
            Some(TagsAction::MoveDown) => {
                self.tags.move_cursor(-1, n);
                self.preview_scroll = 0;
            },
            Some(TagsAction::PageUp) => {
                if n > 0 {
                    self.tags.set_list_selection(Some(n - 1));
                }
                self.preview_scroll = 0;
            },
            Some(TagsAction::PageDown) => {
                if n > 0 {
                    self.tags.set_list_selection(Some(0));
                }
                self.preview_scroll = 0;
            },
            Some(TagsAction::ReturnToTags) => {},
            None => match key.typed_char() {
                Some(c) => {
                    self.tags.type_char(c);
                    self.preview_scroll = 0;
                },
                None => {},
            },
        }
        AppEvent::Continue
    }

    fn handle_drill_key(&mut self, action: Option<TagsAction>, key: KeyEvent) -> (event: AppEvent)
        requires
            old(self)@.wf(),
            old(self).screen is Select,
            tags::drilled(old(self).tags@) is Some,
            action == keybinds::action_of(old(self).keymap.tags.bindings@, key.chord),
        ensures
            tags_effect(*old(self), key, (Effect { view: final(self)@, event: event@ })),
            same_setting(*old(self), *final(self)),
            final(self)@.wf(),
    {
        let visible = self.visible_tag_snippets();
        let n: usize = visible.len();
        assert(n == tags::drill_list(self.index@, self.tag_index, self.tags@).len());
        match action {
            Some(TagsAction::AcceptOrDrill) => {
                let id = match self.selected_tag_snippet() {
                    Some(entry) => entry.id().clone(),
                    None => {
                        return AppEvent::Continue;
                    },
                };
                self.status = None;
                return self.start_prompt_or_complete(id);
            },
            Some(TagsAction::Backspace) => {
                if self.tags.drill_filter().is_empty() {
                    tags::leave_drill(&self.tag_index, &mut self.tags);
                } else {
                    let _ = self.tags.drill_backspace();
                }
                self.preview_scroll = 0;
            },
            Some(TagsAction::CursorLeft) => {
                self.tags.drill_cursor_left();
            },
            Some(TagsAction::CursorRight) => {
                self.tags.drill_cursor_right();
            },
            Some(TagsAction::MoveUp) => {
                self.tags.move_cursor(1, n);
                self.preview_scroll = 0;
            },
            Some(TagsAction::MoveDown) => {
                self.tags.move_cursor(-1, n);
                self.preview_scroll = 0;
            },
            Some(TagsAction::PageUp) => {
                if n > 0 {
                    self.tags.set_drill_selection(Some(n - 1));
                }
                self.preview_scroll = 0;
            },
            Some(TagsAction::PageDown) => {
                if n > 0 {
                    self.tags.set_drill_selection(Some(0));
                }
                self.preview_scroll = 0;
            },
            Some(TagsAction::ReturnToTags) => {
                tags::leave_drill(&self.tag_index, &mut self.tags);
                self.preview_scroll = 0;
            },
            None => match key.typed_char() {
                Some(c) => {
                    self.tags.type_drill_char(c);
                    self.preview_scroll = 0;
                },
                None => {},
            },
        }
        AppEvent::Continue
    }

    /// Goes to the prompt of a snippet, or completes at once where it has no
    /// variables.
    pub fn start_prompt_or_complete(&mut self, snippet_id: SnippetId) -> (event: AppEvent)
        requires
            old(self)@.wf(),
        ensures
            started(
                *old(self),
                snippet_id@,
                old(self)@,
                (Effect { view: final(self)@, event: event@ }),
            ),
            same_setting(*old(self), *final(self)),
            final(self)@.wf(),
    {
        let ghost before = *self;
        let entry = match self.index.get(&snippet_id) {
            Some(entry) => entry,
            None => {
                return AppEvent::Continue;
            },
        };
        let ghost view = entry@;
        let variables = template::unique_variables(&entry.snippet.variables);
        assert(variables@.len() == template::first_of_each(view.snippet.variables).len());
        if variables.len() == 0 {
            let command = entry.body().to_owned();
            return AppEvent::Completed(
                ExecutionOutcome { snippet_id, command, consumed_buffer: false },
            );
        }
        let local = domain::copy_specs(&entry.frontmatter.variables);
        let mut p = PromptState::new(snippet_id, variables, local);
        let ghost fresh = p;
        assert(fresh@ =~= fresh_prompt(view));
        prompt::load_prompt_state(&mut p, &self.provider, self.cwd.as_str());
        let ghost loaded = p@;
        match &self.initial_buffer {
            Some(buffer) => {
                p.input = buffer.clone();
                p.seeded_from_buffer = true;
            },
            None => {},
        }
        assert(p@ =~= seeded(loaded, text::optional_text(before.initial_buffer)));
        self.status = text::copy_optional(&p.error);
        self.screen = Screen::Prompt(p);
        proof {
            assert(prompt::load_of(&before.provider, fresh, before.cwd@, fresh@, loaded));
            assert(self@ =~= (AppView {
                screen: ScreenView::Prompt(
                    seeded(loaded, text::optional_text(before.initial_buffer)),
                ),
                status: loaded.error,
                ..before@
            }));
        }
        AppEvent::Continue
    }

    /// Takes another index, after snippets were edited. `hits` are the snippets
    /// that the query finds in it. Says whether the preferred snippet is in it.
    pub fn replace_index(
        &mut self,
        index: SnippetIndex,
        preferred_id: Option<&SnippetId>,
        hits: &Vec<SnippetId>,
    ) -> (found: bool)
        requires
            old(self)@.wf(),
        ensures
            final(self).index == index,
            browse::node_of(final(self).tree.root_node(), browse::items_of(index@)),
            final(self).tag_index.groups(index@),
            final(self)@ == reindexed(
                old(self)@,
                index@,
                final(self).tree,
                final(self).tag_index,
                domain::id_texts(hits@),
                id_view(preferred_id),
            ),
            found == (preferred_id is Some && index::entry_of(index@, preferred_id->0@) is Some),
            final(self)@.wf(),
            final(self).cwd == old(self).cwd,
            final(self).provider == old(self).provider,
            final(self).theme == old(self).theme,
            final(self).initial_buffer == old(self).initial_buffer,
            final(self).keymap == old(self).keymap,
            final(self).fuzzy_list == old(self).fuzzy_list,
            final(self).browse_list == old(self).browse_list,
            final(self).tags_list == old(self).tags_list,
    {
        let ghost before = self@;
        self.tree = BrowseTree::from_index(&index);
        self.tag_index = index.tag_index();
        let gone = match self.tags.drill() {
            Some(tag) => !self.tag_index.contains_key(tag),
            None => false,
        };
        if gone {
            let _ = self.tags.exit_drill();
        }
        self.index = index;
        self.screen = Screen::Select;
        match self.nav_mode {
            NavigationMode::Fuzzy => {
                self.restore_fuzzy_selection(preferred_id, hits);
            },
            NavigationMode::Browse => {
                self.restore_browse_selection(preferred_id);
            },
            NavigationMode::Tags => {
                self.restore_tags_selection();
            },
        }
        match preferred_id {
            Some(id) => self.index.get(id).is_some(),
            None => false,
        }
    }

    fn restore_fuzzy_selection(&mut self, preferred_id: Option<&SnippetId>, hits: &Vec<SnippetId>)
        requires
            old(self)@.wf(),
        ensures
            final(self)@ == old(self)@.with_fuzzy(
                old(self)@.fuzzy.selecting(
                    restored_row(
                        present(domain::id_texts(hits@)),
                        id_view(preferred_id),
                        old(self)@.fuzzy.selection,
                    ),
                ),
            ),
            same_setting(*old(self), *final(self)),
            final(self)@.wf(),
    {
        let mut ids: Vec<Option<SnippetId>> = Vec::new();
        let ghost all = present(domain::id_texts(hits@));
        let mut i: usize = 0;
        while i < hits.len()
            invariant
                i <= hits@.len(),
                all == present(domain::id_texts(hits@)),
                optional_ids(ids@) == all.take(i as int),
            decreases hits@.len() - i,
        {
            let ghost was = ids@;
            ids.push(Some(hits[i].clone()));
            assert(optional_ids(ids@) =~= optional_ids(was).push(Some(hits@[i as int]@)));
            assert(all[i as int] == Some(hits@[i as int]@));
            assert(all.take(i + 1) =~= all.take(i as int).push(all[i as int]));
            i = i + 1;
        }
        assert(all.take(all.len() as int) =~= all);
        self.fuzzy.selection = restore_row(&ids, preferred_id, self.fuzzy.selection);
    }

    fn restore_browse_selection(&mut self, preferred_id: Option<&SnippetId>)
        requires
            old(self)@.wf(),
        ensures
            ({
                let state = tree_mode::trimmed(old(self)@.browse, old(self).tree);
                final(self)@ == old(self)@.with_browse(
                    browse_selecting(
                        state,
                        restored_row(
                            row_ids(tree_mode::rows_of(state, old(self).tree)),
                            id_view(preferred_id),
                            state.top().selection,
                        ),
                    ),
                )
            }),
            same_setting(*old(self), *final(self)),
            final(self)@.wf(),
    {
        self.browse.trim_missing_path(&self.tree);
        let visible = self.browse.visible(&self.tree);
        let ghost rows = browse::row_views(visible@);
        let ghost all = row_ids(rows);
        let mut ids: Vec<Option<SnippetId>> = Vec::new();
        let mut i: usize = 0;
        while i < visible.len()
            invariant
                i <= visible@.len(),
                rows == browse::row_views(visible@),
                all == row_ids(rows),
                optional_ids(ids@) == all.take(i as int),
            decreases visible@.len() - i,
        {
            let ghost was = ids@;
            assert(rows[i as int] == visible@[i as int]@);
            let id = match &visible[i] {
                BrowseEntry::Snippet(s) => Some(s.id.clone()),
                BrowseEntry::Directory(_) => None,
            };
            ids.push(id);
            assert(optional_ids(ids@) =~= optional_ids(was).push(all[i as int]));
            assert(all.take(i + 1) =~= all.take(i as int).push(all[i as int]));
            i = i + 1;
        }
        assert(all.take(all.len() as int) =~= all);
        let row = restore_row(&ids, preferred_id, self.browse.selection());
        self.browse.set_selection(row);
    }

    fn restore_tags_selection(&mut self)
        requires
            old(self)@.wf(),
        ensures
            final(self)@ == old(self)@.with_tags(
                tags::selecting(
                    old(self)@.tags,
                    restored_row(
                        anonymous(
                            if tags::drilled(old(self)@.tags) is Some {
                                tags::drill_list(
                                    old(self).index@,
                                    old(self).tag_index,
                                    old(self)@.tags,
                                ).len()
                            } else {
                                tags::tag_list(old(self).tag_index, old(self)@.tags).len()
                            },
                        ),
                        None,
                        old(self)@.tags.top().selection,
                    ),
                ),
            ),
            same_setting(*old(self), *final(self)),
            final(self)@.wf(),
    {
        if self.tags.drill().is_some() {
            let rows = self.visible_tag_snippets();
            assert(rows@.len() == tags::snippet_row_views(rows@).len());
            let row = clamp_row(rows.len(), self.tags.drill_selection());
            self.tags.set_drill_selection(row);
        } else {
            let rows = self.visible_tags();
            assert(rows@.len() == tags::tag_row_views(rows@).len());
            let row = clamp_row(rows.len(), self.tags.list_selection());
            self.tags.set_list_selection(row);
        }
    }
}

/// Whatever happens in the prompt, the picker is found as it was left: query,
/// path, filters and highlights.
pub proof fn law_prompt_keeps_the_picker<P: SuggestionProvider>(
    app: ExecutionApp<P>,
    hits: Seq<Seq<char>>,
    key: KeyEvent,
    after: Effect,
)
    requires
        app.screen is Prompt,
        key_effect(app, hits, key, after),
    ensures
        after.view.fuzzy == app@.fuzzy,
        after.view.browse == app@.browse,
        after.view.tags == app@.tags,
        after.view.nav_mode == app@.nav_mode,
{
}

/// Ctrl+C ends the session on every screen and in every mode, whatever the
/// keymap.
pub proof fn law_emergency_cancel_always_works<P: SuggestionProvider>(
    app: ExecutionApp<P>,
    hits: Seq<Seq<char>>,
    key: KeyEvent,
    after: Effect,
)
    requires
        cancels(key),
        !key.release,
        key_effect(app, hits, key, after),
    ensures
        after.event is Cancelled,
        after.view.screen is Select,
{
}

/// Rotating through the modes keeps where each of them was: the query, the
/// path, the filters and the highlights.
pub proof fn law_rotating_keeps_every_mode<P: SuggestionProvider>(
    app: ExecutionApp<P>,
    hits: Seq<Seq<char>>,
    key: KeyEvent,
    after: Effect,
)
    requires
        app.screen is Select,
        keybinds::action_of(app.keymap.select.bindings@, key.chord) == Some(
            SelectAction::CycleMode,
        ),
        !key.release,
        !cancels(key),
        key_effect(app, hits, key, after),
    ensures
        after.view.nav_mode == next_mode(app.nav_mode),
        after.view.fuzzy == app@.fuzzy,
        after.view.browse == app@.browse,
        after.view.tags == app@.tags,
        after.view.screen is Select,
        after.event is Continue,
{
}

/// A key changes nothing of the modes that are not shown.
pub proof fn law_hidden_modes_stay<P: SuggestionProvider>(
    app: ExecutionApp<P>,
    hits: Seq<Seq<char>>,
    key: KeyEvent,
    after: Effect,
)
    requires
        key_effect(app, hits, key, after),
    ensures
        app.nav_mode != NavigationMode::Fuzzy ==> after.view.fuzzy == app@.fuzzy,
        app.nav_mode != NavigationMode::Browse ==> after.view.browse == app@.browse,
        app.nav_mode != NavigationMode::Tags ==> after.view.tags == app@.tags,
{
}

/// What the user is asked to edit is the snippet that is highlighted.
pub proof fn law_edit_names_the_choice<P: SuggestionProvider>(
    app: ExecutionApp<P>,
    hits: Seq<Seq<char>>,
    key: KeyEvent,
    after: Effect,
)
    requires
        key_effect(app, hits, key, after),
        after.event is EditSnippet,
    ensures
        app.screen is Select,
        choice(app, hits) matches Some(entry) && after.event == EventView::EditSnippet(
            entry.snippet.id,
        ),
{
}

/// The preview is shown from its top again whenever the mode, the query or the
/// highlight of the search, or the path of the tree changes.
pub proof fn law_preview_starts_at_the_top<P: SuggestionProvider>(
    app: ExecutionApp<P>,
    hits: Seq<Seq<char>>,
    key: KeyEvent,
    after: Effect,
)
    requires
        key_effect(app, hits, key, after),
        ({
            ||| after.view.nav_mode != app@.nav_mode
            ||| after.view.fuzzy.query != app@.fuzzy.query
            ||| after.view.fuzzy.selection != app@.fuzzy.selection
            ||| after.view.browse.path != app@.browse.path
            ||| after.view.tags.path != app@.tags.path
        }),
    ensures
        after.view.preview_scroll == 0,
{
}

/// Whether a key reaches the mode that is shown: the picker is on the screen, and
/// the key means nothing in every mode.
pub open spec fn reaches_mode<P: SuggestionProvider>(app: ExecutionApp<P>, key: KeyEvent) -> bool {
    &&& !key.release
    &&& !cancels(key)
    &&& app.screen is Select
    &&& keybinds::action_of(app.keymap.select.bindings@, key.chord) is None
}

/// Choosing a snippet without variables gives its command as it is written. One
/// with variables is asked for: the prompt starts at the first of them, with
/// nothing filled in yet.
pub proof fn law_choosing_a_snippet<P: SuggestionProvider>(
    app: ExecutionApp<P>,
    id: Seq<char>,
    entry: index::EntryView,
    before: AppView,
    after: Effect,
)
    requires
        started(app, id, before, after),
        index::entry_of(app.index@, id) == Some(entry),
    ensures
        entry.snippet.variables.len() == 0 ==> (
        after.event matches EventView::Completed(outcome) && {
            &&& outcome.command == entry.snippet.body
            &&& outcome.snippet_id == id
            &&& !outcome.consumed_buffer
        }),
        entry.snippet.variables.len() > 0 ==> after.event is Continue && (
        after.view.screen matches ScreenView::Prompt(p) && {
            &&& p.snippet_id == entry.snippet.id
            &&& p.index == 0
            &&& p.variables == template::first_of_each(entry.snippet.variables)
            &&& p.values == Map::<Seq<char>, Seq<char>>::empty()
            &&& app.initial_buffer matches Some(buffer) ==> p.input == buffer@
                && p.seeded_from_buffer
            &&& app.initial_buffer is None ==> !p.seeded_from_buffer
        }),
{
    template::law_each_variable_is_asked_once(entry.snippet.variables);
    let asked = template::first_of_each(entry.snippet.variables);
    if entry.snippet.variables.len() > 0 {
        assert(template::variable_names(asked).contains(entry.snippet.variables[0].name));
        assert(asked.len() > 0);
    }
}

/// In fuzzy search the list grows upwards: up highlights the next hit, down the
/// one before, up to the ends of the list; page up goes to the last hit and page
/// down to the first. The query stays.
pub proof fn law_moving_in_fuzzy_search<P: SuggestionProvider>(
    app: ExecutionApp<P>,
    hits: Seq<Seq<char>>,
    key: KeyEvent,
    after: Effect,
    row: usize,
)
    requires
        key_effect(app, hits, key, after),
        reaches_mode(app, key),
        app.nav_mode == NavigationMode::Fuzzy,
        app@.fuzzy.selection == Some(row),
        row < hits.len() <= usize::MAX,
    ensures
        ({
            let action = keybinds::action_of(app.keymap.fuzzy.bindings@, key.chord);
            let to = after.view.fuzzy.selection;
            &&& action == Some(FuzzyAction::MoveUp) && row + 1 < hits.len() ==> to == Some(
                (row + 1) as usize,
            )
            &&& action == Some(FuzzyAction::MoveUp) && row + 1 == hits.len() ==> to == Some(row)
            &&& action == Some(FuzzyAction::MoveDown) && row > 0 ==> to == Some((row - 1) as usize)
            &&& action == Some(FuzzyAction::MoveDown) && row == 0 ==> to == Some(row)
            &&& action == Some(FuzzyAction::PageUp) ==> to == Some((hits.len() - 1) as usize)
            &&& action == Some(FuzzyAction::PageDown) ==> to == Some(0usize)
            &&& action == Some(FuzzyAction::MoveUp) || action == Some(FuzzyAction::MoveDown)
                || action == Some(FuzzyAction::PageUp) || action == Some(FuzzyAction::PageDown)
                ==> after.view.fuzzy.query == app@.fuzzy.query && after.event is Continue
                && after.view.screen is Select
        }),
{
}

/// In fuzzy search accepting chooses the highlighted hit.
pub proof fn law_accepting_in_fuzzy_search<P: SuggestionProvider>(
    app: ExecutionApp<P>,
    hits: Seq<Seq<char>>,
    key: KeyEvent,
    after: Effect,
    row: usize,
)
    requires
        key_effect(app, hits, key, after),
        reaches_mode(app, key),
        app.nav_mode == NavigationMode::Fuzzy,
        line_edit::is_row(app@.fuzzy.selection, row),
        keybinds::action_of(app.keymap.fuzzy.bindings@, key.chord) == Some(FuzzyAction::Accept),
    ensures
        row >= hits.len() ==> after.event is Continue && after.view == app@,
        row < hits.len() ==> match index::entry_of(app.index@, hits[row as int]) {
            Some(entry) => started(app, entry.snippet.id, app@.saying(None), after),
            None => after.event is Continue && after.view == app@,
        },
{
}

/// In fuzzy search a character that is no shortcut goes into the query, and the
/// session goes on in the picker.
pub proof fn law_typing_in_fuzzy_search<P: SuggestionProvider>(
    app: ExecutionApp<P>,
    hits: Seq<Seq<char>>,
    key: KeyEvent,
    after: Effect,
    c: char,
    a: Seq<char>,
    b: Seq<char>,
)
    requires
        key_effect(app, hits, key, after),
        reaches_mode(app, key),
        app.nav_mode == NavigationMode::Fuzzy,
        app@.fuzzy.query == a + b,
        app@.fuzzy.cursor == line_edit::byte_len(a),
    ensures
        keybinds::action_of(app.keymap.fuzzy.bindings@, key.chord) is None && key.chord.code
            == keybinds::KeyCode::Char(c) && !key.chord.control ==> after.view.fuzzy.query == a
            + seq![c] + b && after.view.fuzzy.selection == Some(0usize) && after.event is Continue,
        keybinds::action_of(app.keymap.fuzzy.bindings@, key.chord) == Some(FuzzyAction::Backspace)
            && a.len() > 0 ==> after.view.fuzzy.query == a.drop_last() + b
            && after.view.fuzzy.selection == Some(0usize) && after.event is Continue,
{
    fuzzy::law_query_is_edited_at_the_cursor(app@.fuzzy, c, a, b);
}

/// In browse mode accepting enters the highlighted child, or chooses the
/// highlighted snippet.
pub proof fn law_accepting_in_browse_mode<P: SuggestionProvider>(
    app: ExecutionApp<P>,
    hits: Seq<Seq<char>>,
    key: KeyEvent,
    after: Effect,
    row: usize,
)
    requires
        key_effect(app, hits, key, after),
        reaches_mode(app, key),
        app.nav_mode == NavigationMode::Browse,
        app@.browse.wf(),
        line_edit::is_row(app@.browse.top().selection, row),
        row < tree_mode::rows_of(app@.browse, app.tree).len(),
        keybinds::action_of(app.keymap.browse.bindings@, key.chord) == Some(
            BrowseAction::AcceptOrOpen,
        ),
    ensures
        match tree_mode::rows_of(app@.browse, app.tree)[row as int] {
            browse::BrowseEntryView::Directory(name) => {
                &&& after.view.browse.path == app@.browse.path + seq![name]
                &&& after.view.browse.top().filter.len() == 0
                &&& after.view.browse.top().selection == Some(0usize)
                &&& after.event is Continue
            },
            browse::BrowseEntryView::Snippet(s) => started(app, s.id, app@.saying(None), after),
        },
{
    match tree_mode::rows_of(app@.browse, app.tree)[row as int] {
        browse::BrowseEntryView::Directory(name) => {
            tree_picker::law_entering_opens_a_fresh_level(app@.browse, name);
        },
        _ => {},
    }
}

/// In browse mode the list grows upwards, too: up highlights the next row, down
/// the one before, up to the ends; page up goes to the last row and page down to
/// the first. What was typed and the path stay.
pub proof fn law_moving_in_browse_mode<P: SuggestionProvider>(
    app: ExecutionApp<P>,
    hits: Seq<Seq<char>>,
    key: KeyEvent,
    after: Effect,
    row: usize,
)
    requires
        key_effect(app, hits, key, after),
        reaches_mode(app, key),
        app.nav_mode == NavigationMode::Browse,
        app@.browse.wf(),
        app@.browse.top().selection == Some(row),
        row < tree_mode::rows_of(app@.browse, app.tree).len() <= usize::MAX,
    ensures
        ({
            let n = tree_mode::rows_of(app@.browse, app.tree).len();
            let action = keybinds::action_of(app.keymap.browse.bindings@, key.chord);
            let to = after.view.browse.top().selection;
            &&& action == Some(BrowseAction::MoveUp) && row + 1 < n ==> to == Some(
                (row + 1) as usize,
            )
            &&& action == Some(BrowseAction::MoveUp) && row + 1 == n ==> to == Some(row)
            &&& action == Some(BrowseAction::MoveDown) && row > 0 ==> to == Some(
                (row - 1) as usize,
            )
            &&& action == Some(BrowseAction::MoveDown) && row == 0 ==> to == Some(row)
            &&& action == Some(BrowseAction::PageUp) ==> to == Some((n - 1) as usize)
            &&& action == Some(BrowseAction::PageDown) ==> to == Some(0usize)
            &&& action == Some(BrowseAction::MoveUp) || action == Some(BrowseAction::MoveDown)
                || action == Some(BrowseAction::PageUp) || action == Some(BrowseAction::PageDown)
                ==> after.view.browse.path == app@.browse.path && after.view.browse.top().filter
                == app@.browse.top().filter && after.event is Continue
        }),
{
}

/// In browse mode a character that is no shortcut is typed at the cursor, and
/// narrows the rows; the path stays.
pub proof fn law_typing_in_browse_mode<P: SuggestionProvider>(
    app: ExecutionApp<P>,
    hits: Seq<Seq<char>>,
    key: KeyEvent,
    after: Effect,
    c: char,
    a: Seq<char>,
    b: Seq<char>,
)
    requires
        key_effect(app, hits, key, after),
        reaches_mode(app, key),
        app.nav_mode == NavigationMode::Browse,
        keybinds::action_of(app.keymap.browse.bindings@, key.chord) is None,
        key.chord.code == keybinds::KeyCode::Char(c),
        !key.chord.control,
        app@.browse.wf(),
        app@.browse.top().filter == a + b,
        app@.browse.top().cursor == line_edit::byte_len(a),
    ensures
        after.view.browse.path == app@.browse.path,
        after.view.browse.top().filter == a + seq![c] + b,
        after.view.browse.top().selection == Some(0usize),
        after.event is Continue,
{
    tree_picker::law_filter_is_edited_at_the_cursor(app@.browse.top(), c, a, b);
}

/// In tags mode accepting enters the highlighted tag, and below a tag it chooses
/// the highlighted snippet.
pub proof fn law_accepting_in_tags_mode<P: SuggestionProvider>(
    app: ExecutionApp<P>,
    hits: Seq<Seq<char>>,
    key: KeyEvent,
    after: Effect,
    row: usize,
)
    requires
        key_effect(app, hits, key, after),
        reaches_mode(app, key),
        app.nav_mode == NavigationMode::Tags,
        app@.tags.wf(),
        line_edit::is_row(app@.tags.top().selection, row),
        keybinds::action_of(app.keymap.tags.bindings@, key.chord) == Some(
            TagsAction::AcceptOrDrill,
        ),
    ensures
        app@.tags.path.len() == 0 && row < tags::tag_list(app.tag_index, app@.tags).len() ==> {
            &&& after.view.tags.path == seq![
                tags::tag_list(app.tag_index, app@.tags)[row as int].key,
            ]
            &&& after.view.tags.top().filter.len() == 0
            &&& after.view.tags.top().selection == Some(0usize)
            &&& after.event is Continue
        },
        app@.tags.path.len() > 0 && row < tags::drill_list(
            app.index@,
            app.tag_index,
            app@.tags,
        ).len() ==> match index::entry_of(
            app.index@,
            tags::drill_list(app.index@, app.tag_index, app@.tags)[row as int].id,
        ) {
            Some(entry) => started(app, entry.snippet.id, app@.saying(None), after),
            None => after.view == app@,
        },
{
    if app@.tags.path.len() == 0 && row < tags::tag_list(app.tag_index, app@.tags).len() {
        let key = tags::tag_list(app.tag_index, app@.tags)[row as int].key;
        tree_picker::law_entering_opens_a_fresh_level(app@.tags, key);
        assert(app@.tags.path + seq![key] =~= seq![key]);
    }
}

/// Below a tag deleting first takes what was typed away, and then goes back to the
/// tags; the key for the tags goes back at once. At the tags themselves neither
/// leaves.
pub proof fn law_going_back_to_the_tags<P: SuggestionProvider>(
    app: ExecutionApp<P>,
    hits: Seq<Seq<char>>,
    key: KeyEvent,
    after: Effect,
)
    requires
        key_effect(app, hits, key, after),
        reaches_mode(app, key),
        app.nav_mode == NavigationMode::Tags,
        app@.tags.wf(),
        app@.tags.path.len() <= 1,
    ensures
        ({
            let action = keybinds::action_of(app.keymap.tags.bindings@, key.chord);
            &&& action == Some(TagsAction::Backspace) && app@.tags.top().filter.len() > 0
                ==> after.view.tags.path == app@.tags.path
            &&& action == Some(TagsAction::Backspace) && app@.tags.top().filter.len() == 0
                ==> after.view.tags.path.len() == 0
            &&& action == Some(TagsAction::ReturnToTags) ==> after.view.tags.path.len() == 0
            &&& action == Some(TagsAction::Backspace) || action == Some(TagsAction::ReturnToTags)
                ==> after.event is Continue && after.view.screen is Select
        }),
{
}

/// In tags mode the list grows upwards, too.
pub proof fn law_moving_in_tags_mode<P: SuggestionProvider>(
    app: ExecutionApp<P>,
    hits: Seq<Seq<char>>,
    key: KeyEvent,
    after: Effect,
    row: usize,
    n: nat,
)
    requires
        key_effect(app, hits, key, after),
        reaches_mode(app, key),
        app.nav_mode == NavigationMode::Tags,
        app@.tags.wf(),
        app@.tags.top().selection == Some(row),
        n == (if app@.tags.path.len() > 0 {
            tags::drill_list(app.index@, app.tag_index, app@.tags).len()
        } else {
            tags::tag_list(app.tag_index, app@.tags).len()
        }),
        row < n <= usize::MAX,
    ensures
        ({
            let action = keybinds::action_of(app.keymap.tags.bindings@, key.chord);
            let to = after.view.tags.top().selection;
            &&& action == Some(TagsAction::MoveUp) && row + 1 < n ==> to == Some((row + 1) as usize)
            &&& action == Some(TagsAction::MoveUp) && row + 1 == n ==> to == Some(row)
            &&& action == Some(TagsAction::MoveDown) && row > 0 ==> to == Some((row - 1) as usize)
            &&& action == Some(TagsAction::MoveDown) && row == 0 ==> to == Some(row)
            &&& action == Some(TagsAction::PageUp) ==> to == Some((n - 1) as usize)
            &&& action == Some(TagsAction::PageDown) ==> to == Some(0usize)
            &&& action == Some(TagsAction::MoveUp) || action == Some(TagsAction::MoveDown) || action
                == Some(TagsAction::PageUp) || action == Some(TagsAction::PageDown)
                ==> after.view.tags.path == app@.tags.path && after.view.tags.top().filter
                == app@.tags.top().filter && after.event is Continue
        }),
{
}

/// In tags mode a character that is no shortcut is typed at the cursor.
pub proof fn law_typing_in_tags_mode<P: SuggestionProvider>(
    app: ExecutionApp<P>,
    hits: Seq<Seq<char>>,
    key: KeyEvent,
    after: Effect,
    c: char,
    a: Seq<char>,
    b: Seq<char>,
)
    requires
        key_effect(app, hits, key, after),
        reaches_mode(app, key),
        app.nav_mode == NavigationMode::Tags,
        keybinds::action_of(app.keymap.tags.bindings@, key.chord) is None,
        key.chord.code == keybinds::KeyCode::Char(c),
        !key.chord.control,
        app@.tags.wf(),
        app@.tags.top().filter == a + b,
        app@.tags.top().cursor == line_edit::byte_len(a),
    ensures
        after.view.tags.path == app@.tags.path,
        after.view.tags.top().filter == a + seq![c] + b,
        after.view.tags.top().selection == Some(0usize),
        after.event is Continue,
{
    tree_picker::law_filter_is_edited_at_the_cursor(app@.tags.top(), c, a, b);
}

/// The key that cancels goes one level up where the mode stands below another
/// level, and else leaves the session without a command. The modes follow each
/// other: fuzzy search, file list, tags, and fuzzy search again.
pub proof fn law_keys_of_every_mode<P: SuggestionProvider>(
    app: ExecutionApp<P>,
    hits: Seq<Seq<char>>,
    key: KeyEvent,
    after: Effect,
)
    requires
        key_effect(app, hits, key, after),
        !key.release,
        !cancels(key),
        app.screen is Select,
        app@.browse.wf(),
        app@.tags.wf(),
    ensures
        ({
            let action = keybinds::action_of(app.keymap.select.bindings@, key.chord);
            let up = (app.nav_mode == NavigationMode::Tags && app@.tags.path.len() > 0) || (
            app.nav_mode == NavigationMode::Browse && app@.browse.path.len() > 0);
            &&& action == Some(SelectAction::CancelOrBack) && !up ==> after.event is Cancelled
            &&& action == Some(SelectAction::CancelOrBack) && up ==> after.event is Continue
                && after.view.nav_mode == app.nav_mode
            &&& action == Some(SelectAction::CancelOrBack) && up && app.nav_mode
                == NavigationMode::Tags ==> after.view.tags.path.len() == app@.tags.path.len() - 1
            &&& action == Some(SelectAction::CancelOrBack) && up && app.nav_mode
                == NavigationMode::Browse ==> after.view.browse.path == app@.browse.path.drop_last()
            &&& action == Some(SelectAction::CycleMode) ==> after.view.nav_mode == (
            match app.nav_mode {
                NavigationMode::Fuzzy => NavigationMode::Browse,
                NavigationMode::Browse => NavigationMode::Tags,
                NavigationMode::Tags => NavigationMode::Fuzzy,
            }) && after.event is Continue
            &&& action == Some(SelectAction::PreviewDown) && app@.preview_scroll <= u16::MAX - 3
                ==> after.view.preview_scroll == app@.preview_scroll + 3
            &&& action == Some(SelectAction::PreviewUp) && app@.preview_scroll >= 3
                ==> after.view.preview_scroll == app@.preview_scroll - 3
            &&& action == Some(SelectAction::Edit) ==> match picker_choice(app, hits) {
                Some(entry) => after.event == EventView::EditSnippet(entry.snippet.id),
                None => after.event is Continue,
            }
        }),
{
}

/// What is highlighted is the row of the list of the mode: in fuzzy search the
/// hit, in browse mode the snippet among the rows, below a tag the snippet of the
/// row.
pub proof fn law_choice_is_the_highlighted_row<P: SuggestionProvider>(
    app: ExecutionApp<P>,
    hits: Seq<Seq<char>>,
    row: usize,
)
    ensures
        app.nav_mode == NavigationMode::Fuzzy && line_edit::is_row(app.fuzzy@.selection, row)
            && row < hits.len() ==> picker_choice(app, hits) == index::entry_of(
            app.index@,
            hits[row as int],
        ),
        app.nav_mode == NavigationMode::Browse && line_edit::is_row(
            app.browse@.top().selection,
            row,
        ) && row < tree_mode::rows_of(app.browse@, app.tree).len() ==> match tree_mode::rows_of(
            app.browse@,
            app.tree,
        )[row as int] {
            browse::BrowseEntryView::Snippet(s) => picker_choice(app, hits) == index::entry_of(
                app.index@,
                s.id,
            ),
            browse::BrowseEntryView::Directory(_) => picker_choice(app, hits) is None,
        },
        app.nav_mode == NavigationMode::Tags && app.tags@.path.len() > 0 && line_edit::is_row(
            app.tags@.top().selection,
            row,
        ) && row < tags::drill_list(app.index@, app.tag_index, app.tags@).len() ==> picker_choice(
            app,
            hits,
        ) == index::entry_of(
            app.index@,
            tags::drill_list(app.index@, app.tag_index, app.tags@)[row as int].id,
        ),
        app.nav_mode == NavigationMode::Tags && app.tags@.path.len() == 0 ==> picker_choice(
            app,
            hits,
        ) is None,
{
}

/// After the list has changed the wanted snippet is highlighted at its first row.
/// Where it is gone, the row stays as far as the list reaches.
pub proof fn law_highlight_follows_the_snippet(
    ids: Seq<Option<Seq<char>>>,
    wanted: Option<Seq<char>>,
    selection: Option<usize>,
)
    requires
        0 < ids.len() <= usize::MAX,
    ensures
        wanted is Some && ids.contains(wanted) ==> {
            let row = restored_row(ids, wanted, selection);
            &&& row is Some
            &&& row->0 < ids.len()
            &&& ids[row->0 as int] == wanted
            &&& forall|j: int| 0 <= j < row->0 ==> #[trigger] ids[j] != wanted
        },
        !(wanted is Some && ids.contains(wanted)) ==> forall|row: usize| #[trigger]
            line_edit::is_row(selection, row) ==> restored_row(ids, wanted, selection) == Some(
                if row < ids.len() {
                    row
                } else {
                    (ids.len() - 1) as usize
                },
            ),
{
    lemma_place_of(ids, wanted);
}

proof fn lemma_place_of(ids: Seq<Option<Seq<char>>>, wanted: Option<Seq<char>>)
    ensures
        place_of(ids, wanted) matches Some(at) ==> 0 <= at < ids.len() && ids[at] == wanted
            && wanted is Some && forall|j: int| 0 <= j < at ==> #[trigger] ids[j] != wanted,
        place_of(ids, wanted) is None ==> wanted is None || !ids.contains(wanted),
    decreases ids.len(),
{
    if ids.len() > 0 && wanted is Some && ids[0] != wanted {
        let rest = ids.skip(1);
        lemma_place_of(rest, wanted);
        match place_of(rest, wanted) {
            Some(i) => {
                assert forall|j: int| 0 <= j < i + 1 implies #[trigger] ids[j] != wanted by {
                    if j > 0 {
                        assert(rest[j - 1] == ids[j]);
                    }
                }
            },
            None => {
                if ids.contains(wanted) {
                    let k = ids.index_of(wanted);
                    assert(rest[k - 1] == wanted);
                }
            },
        }
    }
}

/// While a variable is edited the command shows what was typed for it, and for the
/// others what was stored.
pub proof fn law_command_shows_what_is_typed(p: prompt::PromptView, name: Seq<char>)
    ensures
        p.value().len() > 0 ==> shown_values(p).contains_key(p.current().name) && shown_values(
            p,
        )[p.current().name] == p.value(),
        name != p.current().name || p.value().len() == 0 ==> shown_values(p).contains_key(name)
            == p.values.contains_key(name) && (p.values.contains_key(name) ==> shown_values(p)[name]
            == p.values[name]),
{
}

/// After the snippets were read again the picker is shown in the same mode with the
/// same query, and highlights the wanted snippet where it is still listed.
pub proof fn law_reload_keeps_the_place(
    before: AppView,
    entries: Seq<index::EntryView>,
    tree: BrowseTree,
    tag_index: TagIndex,
    hits: Seq<Seq<char>>,
    wanted: Seq<char>,
)
    requires
        hits.len() <= usize::MAX,
    ensures
        ({
            let after = reindexed(before, entries, tree, tag_index, hits, Some(wanted));
            &&& after.screen is Select
            &&& after.nav_mode == before.nav_mode
            &&& after.fuzzy.query == before.fuzzy.query
            &&& before.nav_mode == NavigationMode::Fuzzy && hits.contains(wanted) ==> {
                &&& after.fuzzy.selection is Some
                &&& after.fuzzy.selection->0 < hits.len()
                &&& hits[after.fuzzy.selection->0 as int] == wanted
            }
        }),
{
    if before.nav_mode == NavigationMode::Fuzzy && hits.contains(wanted) {
        let ids = present(hits);
        let k = hits.index_of(wanted);
        assert(ids[k] == Some(wanted));
        assert(ids.contains(Some(wanted)));
        law_highlight_follows_the_snippet(ids, Some(wanted), before.fuzzy.selection);
    }
}

} // verus!
