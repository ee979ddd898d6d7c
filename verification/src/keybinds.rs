//! Keys, chords and the actions that they are bound to.

use vstd::prelude::*;
use crate::text;

verus! {

broadcast use vstd::string::group_string_axioms;

/// A key.
#[derive(Debug, Clone, Copy, PartialEq, Eq, Structural)]
pub enum KeyCode {
    Char(char),
    Enter,
    Esc,
    Backspace,
    Tab,
    BackTab,
    Up,
    Down,
    Left,
    Right,
    PageUp,
    PageDown,
    Home,
    End,
    F(u8),
    Other,
}

/// A key together with the modifier keys held down.
#[derive(Debug, Clone, Copy, PartialEq, Eq, Structural)]
pub struct KeyChord {
    pub code: KeyCode,
    pub control: bool,
    pub alt: bool,
}

/// What the terminal reports of a key.
#[derive(Debug, Clone, Copy, PartialEq, Eq, Structural)]
pub struct KeyEvent {
    pub chord: KeyChord,
    /// Whether the key was let go.
    pub release: bool,
}

impl KeyEvent {
    /// A key pressed without modifiers.
    pub fn press(code: KeyCode) -> (event: KeyEvent)
        ensures
            event == (KeyEvent {
                chord: KeyChord { code, control: false, alt: false },
                release: false,
            }),
    {
        KeyEvent { chord: KeyChord { code, control: false, alt: false }, release: false }
    }

    /// A key pressed with Ctrl.
    pub fn ctrl(code: KeyCode) -> (event: KeyEvent)
        ensures
            event == (KeyEvent {
                chord: KeyChord { code, control: true, alt: false },
                release: false,
            }),
    {
        KeyEvent { chord: KeyChord { code, control: true, alt: false }, release: false }
    }

    /// The character that the key types, where it types one.
    pub open spec fn typed(self) -> Option<char> {
        match self.chord.code {
            KeyCode::Char(c) => if self.chord.control {
                None
            } else {
                Some(c)
            },
            _ => None,
        }
    }

    /// The character that the key types.
    pub fn typed_char(self) -> (c: Option<char>)
        ensures
            c == self.typed(),
    {
        match self.chord.code {
            KeyCode::Char(c) => if self.chord.control {
                None
            } else {
                Some(c)
            },
            _ => None,
        }
    }
}

/// What keys can be bound to.
pub trait Action: Copy {
    /// Whether two actions are the same.
    fn same(self, other: Self) -> (yes: bool)
        ensures
            yes == (self == other),
    ;

    /// The action that a path of the config names.
    spec fn named(path: Seq<char>) -> Option<Self>;

    /// The action that a path of the config names.
    fn from_path(path: &str) -> (action: Option<Self>)
        ensures
            action == Self::named(path@),
    ;
}

/// Actions of the picker in every mode.
#[derive(Debug, Clone, Copy, PartialEq, Eq, Structural)]
pub enum SelectAction {
    CancelOrBack,
    CycleMode,
    Edit,
    PreviewDown,
    PreviewUp,
}

/// Actions of fuzzy search.
#[derive(Debug, Clone, Copy, PartialEq, Eq, Structural)]
pub enum FuzzyAction {
    Accept,
    Backspace,
    CursorLeft,
    CursorRight,
    MoveUp,
    MoveDown,
    PageUp,
    PageDown,
}

/// Actions of browse mode.
#[derive(Debug, Clone, Copy, PartialEq, Eq, Structural)]
pub enum BrowseAction {
    AcceptOrOpen,
    Backspace,
    Complete,
    CursorLeft,
    CursorRight,
    MoveUp,
    MoveDown,
    PageUp,
    PageDown,
}

/// Actions of tags mode.
#[derive(Debug, Clone, Copy, PartialEq, Eq, Structural)]
pub enum TagsAction {
    AcceptOrDrill,
    Backspace,
    CursorLeft,
    CursorRight,
    MoveUp,
    MoveDown,
    PageUp,
    PageDown,
    ReturnToTags,
}

/// Actions of the prompt for variables.
#[derive(Debug, Clone, Copy, PartialEq, Eq, Structural)]
pub enum PromptAction {
    Accept,
    LiteralNewline,
    Backspace,
    SuggestionUp,
    SuggestionDown,
    CompleteOrNext,
    PreviousVariable,
    ReturnToPicker,
}

impl Action for SelectAction {
    fn same(self, other: Self) -> (yes: bool) {
        self == other
    }

    open spec fn named(path: Seq<char>) -> Option<Self> {
        if path == "execute.select.cancel_or_back"@ {
            Some(SelectAction::CancelOrBack)
        } else if path == "execute.select.cycle_mode"@ {
            Some(SelectAction::CycleMode)
        } else if path == "execute.select.edit"@ {
            Some(SelectAction::Edit)
        } else if path == "execute.select.preview_down"@ {
            Some(SelectAction::PreviewDown)
        } else if path == "execute.select.preview_up"@ {
            Some(SelectAction::PreviewUp)
        } else {
            None
        }
    }

    fn from_path(path: &str) -> (action: Option<Self>) {
        if text::same_text(path, "execute.select.cancel_or_back") {
            Some(SelectAction::CancelOrBack)
        } else if text::same_text(path, "execute.select.cycle_mode") {
            Some(SelectAction::CycleMode)
        } else if text::same_text(path, "execute.select.edit") {
            Some(SelectAction::Edit)
        } else if text::same_text(path, "execute.select.preview_down") {
            Some(SelectAction::PreviewDown)
        } else if text::same_text(path, "execute.select.preview_up") {
            Some(SelectAction::PreviewUp)
        } else {
            None
        }
    }
}

impl Action for FuzzyAction {
    fn same(self, other: Self) -> (yes: bool) {
        self == other
    }

    open spec fn named(path: Seq<char>) -> Option<Self> {
        if path == "execute.fuzzy.accept"@ {
            Some(FuzzyAction::Accept)
        } else if path == "execute.fuzzy.backspace"@ {
            Some(FuzzyAction::Backspace)
        } else if path == "execute.fuzzy.cursor_left"@ {
            Some(FuzzyAction::CursorLeft)
        } else if path == "execute.fuzzy.cursor_right"@ {
            Some(FuzzyAction::CursorRight)
        } else if path == "execute.fuzzy.move_up"@ {
            Some(FuzzyAction::MoveUp)
        } else if path == "execute.fuzzy.move_down"@ {
            Some(FuzzyAction::MoveDown)
        } else if path == "execute.fuzzy.page_up"@ {
            Some(FuzzyAction::PageUp)
        } else if path == "execute.fuzzy.page_down"@ {
            Some(FuzzyAction::PageDown)
        } else {
            None
        }
    }

    fn from_path(path: &str) -> (action: Option<Self>) {
        if text::same_text(path, "execute.fuzzy.accept") {
            Some(FuzzyAction::Accept)
        } else if text::same_text(path, "execute.fuzzy.backspace") {
            Some(FuzzyAction::Backspace)
        } else if text::same_text(path, "execute.fuzzy.cursor_left") {
            Some(FuzzyAction::CursorLeft)
        } else if text::same_text(path, "execute.fuzzy.cursor_right") {
            Some(FuzzyAction::CursorRight)
        } else if text::same_text(path, "execute.fuzzy.move_up") {
            Some(FuzzyAction::MoveUp)
        } else if text::same_text(path, "execute.fuzzy.move_down") {
            Some(FuzzyAction::MoveDown)
        } else if text::same_text(path, "execute.fuzzy.page_up") {
            Some(FuzzyAction::PageUp)
        } else if text::same_text(path, "execute.fuzzy.page_down") {
            Some(FuzzyAction::PageDown)
        } else {
            None
        }
    }
}

impl Action for BrowseAction {
    fn same(self, other: Self) -> (yes: bool) {
        self == other
    }

    open spec fn named(path: Seq<char>) -> Option<Self> {
        if path == "execute.browse.accept_or_open"@ {
            Some(BrowseAction::AcceptOrOpen)
        } else if path == "execute.browse.backspace"@ {
            Some(BrowseAction::Backspace)
        } else if path == "execute.browse.complete"@ {
            Some(BrowseAction::Complete)
        } else if path == "execute.browse.cursor_left"@ {
            Some(BrowseAction::CursorLeft)
        } else if path == "execute.browse.cursor_right"@ {
            Some(BrowseAction::CursorRight)
        } else if path == "execute.browse.move_up"@ {
            Some(BrowseAction::MoveUp)
        } else if path == "execute.browse.move_down"@ {
            Some(BrowseAction::MoveDown)
        } else if path == "execute.browse.page_up"@ {
            Some(BrowseAction::PageUp)
        } else if path == "execute.browse.page_down"@ {
            Some(BrowseAction::PageDown)
        } else {
            None
        }
    }

    fn from_path(path: &str) -> (action: Option<Self>) {
        if text::same_text(path, "execute.browse.accept_or_open") {
            Some(BrowseAction::AcceptOrOpen)
        } else if text::same_text(path, "execute.browse.backspace") {
            Some(BrowseAction::Backspace)
        } else if text::same_text(path, "execute.browse.complete") {
            Some(BrowseAction::Complete)
        } else if text::same_text(path, "execute.browse.cursor_left") {
            Some(BrowseAction::CursorLeft)
        } else if text::same_text(path, "execute.browse.cursor_right") {
            Some(BrowseAction::CursorRight)
        } else if text::same_text(path, "execute.browse.move_up") {
            Some(BrowseAction::MoveUp)
        } else if text::same_text(path, "execute.browse.move_down") {
            Some(BrowseAction::MoveDown)
        } else if text::same_text(path, "execute.browse.page_up") {
            Some(BrowseAction::PageUp)
        } else if text::same_text(path, "execute.browse.page_down") {
            Some(BrowseAction::PageDown)
        } else {
            None
        }
    }
}

impl Action for TagsAction {
    fn same(self, other: Self) -> (yes: bool) {
        self == other
    }

    open spec fn named(path: Seq<char>) -> Option<Self> {
        if path == "execute.tags.accept_or_drill"@ {
            Some(TagsAction::AcceptOrDrill)
        } else if path == "execute.tags.backspace"@ {
            Some(TagsAction::Backspace)
        } else if path == "execute.tags.cursor_left"@ {
            Some(TagsAction::CursorLeft)
        } else if path == "execute.tags.cursor_right"@ {
            Some(TagsAction::CursorRight)
        } else if path == "execute.tags.move_up"@ {
            Some(TagsAction::MoveUp)
        } else if path == "execute.tags.move_down"@ {
            Some(TagsAction::MoveDown)
        } else if path == "execute.tags.page_up"@ {
            Some(TagsAction::PageUp)
        } else if path == "execute.tags.page_down"@ {
            Some(TagsAction::PageDown)
        } else if path == "execute.tags.return_to_tags"@ {
            Some(TagsAction::ReturnToTags)
        } else {
            None
        }
    }

    fn from_path(path: &str) -> (action: Option<Self>) {
        if text::same_text(path, "execute.tags.accept_or_drill") {
            Some(TagsAction::AcceptOrDrill)
        } else if text::same_text(path, "execute.tags.backspace") {
            Some(TagsAction::Backspace)
        } else if text::same_text(path, "execute.tags.cursor_left") {
            Some(TagsAction::CursorLeft)
        } else if text::same_text(path, "execute.tags.cursor_right") {
            Some(TagsAction::CursorRight)
        } else if text::same_text(path, "execute.tags.move_up") {
            Some(TagsAction::MoveUp)
        } else if text::same_text(path, "execute.tags.move_down") {
            Some(TagsAction::MoveDown)
        } else if text::same_text(path, "execute.tags.page_up") {
            Some(TagsAction::PageUp)
        } else if text::same_text(path, "execute.tags.page_down") {
            Some(TagsAction::PageDown)
        } else if text::same_text(path, "execute.tags.return_to_tags") {
            Some(TagsAction::ReturnToTags)
        } else {
            None
        }
    }
}

impl Action for PromptAction {
    fn same(self, other: Self) -> (yes: bool) {
        self == other
    }

    open spec fn named(path: Seq<char>) -> Option<Self> {
        if path == "execute.prompt.accept"@ {
            Some(PromptAction::Accept)
        } else if path == "execute.prompt.literal_newline"@ {
            Some(PromptAction::LiteralNewline)
        } else if path == "execute.prompt.backspace"@ {
            Some(PromptAction::Backspace)
        } else if path == "execute.prompt.suggestion_up"@ {
            Some(PromptAction::SuggestionUp)
        } else if path == "execute.prompt.suggestion_down"@ {
            Some(PromptAction::SuggestionDown)
        } else if path == "execute.prompt.complete_or_next"@ {
            Some(PromptAction::CompleteOrNext)
        } else if path == "execute.prompt.previous_variable"@ {
            Some(PromptAction::PreviousVariable)
        } else if path == "execute.prompt.return_to_picker"@ {
            Some(PromptAction::ReturnToPicker)
        } else {
            None
        }
    }

    fn from_path(path: &str) -> (action: Option<Self>) {
        if text::same_text(path, "execute.prompt.accept") {
            Some(PromptAction::Accept)
        } else if text::same_text(path, "execute.prompt.literal_newline") {
            Some(PromptAction::LiteralNewline)
        } else if text::same_text(path, "execute.prompt.backspace") {
            Some(PromptAction::Backspace)
        } else if text::same_text(path, "execute.prompt.suggestion_up") {
            Some(PromptAction::SuggestionUp)
        } else if text::same_text(path, "execute.prompt.suggestion_down") {
            Some(PromptAction::SuggestionDown)
        } else if text::same_text(path, "execute.prompt.complete_or_next") {
            Some(PromptAction::CompleteOrNext)
        } else if text::same_text(path, "execute.prompt.previous_variable") {
            Some(PromptAction::PreviousVariable)
        } else if text::same_text(path, "execute.prompt.return_to_picker") {
            Some(PromptAction::ReturnToPicker)
        } else {
            None
        }
    }
}

/// The chords of one context, each with the action it is bound to.
#[derive(Debug, PartialEq, Eq)]
pub struct Keymap<A> {
    pub bindings: Vec<(KeyChord, A)>,
}

/// The action of the first binding of a chord.
pub open spec fn action_of<A>(bindings: Seq<(KeyChord, A)>, chord: KeyChord) -> Option<A>
    decreases bindings.len(),
{
    if bindings.len() == 0 {
        None
    } else if bindings[0].0 == chord {
        Some(bindings[0].1)
    } else {
        action_of(bindings.skip(1), chord)
    }
}

/// The first chord bound to an action.
pub open spec fn chord_of<A>(bindings: Seq<(KeyChord, A)>, action: A) -> Option<KeyChord>
    decreases bindings.len(),
{
    if bindings.len() == 0 {
        None
    } else if bindings[0].1 == action {
        Some(bindings[0].0)
    } else {
        chord_of(bindings.skip(1), action)
    }
}

impl<A: Action> Keymap<A> {
    /// The action that a key is bound to.
    pub fn action_for(&self, key: &KeyEvent) -> (action: Option<A>)
        ensures
            action == action_of(self.bindings@, key.chord),
    {
        self.action(&key.chord)
    }

    /// The action that a chord is bound to.
    pub fn action(&self, chord: &KeyChord) -> (action: Option<A>)
        ensures
            action == action_of(self.bindings@, *chord),
    {
        let mut i: usize = 0;
        assert(self.bindings@.skip(0) =~= self.bindings@);
        while i < self.bindings.len()
            invariant
                i <= self.bindings@.len(),
                action_of(self.bindings@.skip(i as int), *chord) == action_of(
                    self.bindings@,
                    *chord,
                ),
            decreases self.bindings@.len() - i,
        {
            if self.bindings[i].0 == *chord {
                return Some(self.bindings[i].1);
            }
            assert(self.bindings@.skip(i as int).skip(1) =~= self.bindings@.skip(i + 1));
            i = i + 1;
        }
        None
    }

    /// How the first chord bound to an action is shown; `None` where no chord
    /// is.
    pub fn hint(&self, action: A) -> (shown: Option<String>)
        ensures
            text::optional_text(shown) == hint_of(self.bindings@, action),
    {
        let mut i: usize = 0;
        assert(self.bindings@.skip(0) =~= self.bindings@);
        while i < self.bindings.len()
            invariant
                i <= self.bindings@.len(),
                chord_of(self.bindings@.skip(i as int), action) == chord_of(
                    self.bindings@,
                    action,
                ),
            decreases self.bindings@.len() - i,
        {
            if self.bindings[i].1.same(action) {
                return Some(show_chord(self.bindings[i].0));
            }
            assert(self.bindings@.skip(i as int).skip(1) =~= self.bindings@.skip(i + 1));
            i = i + 1;
        }
        None
    }
}

/// How the first chord bound to an action is shown.
pub open spec fn hint_of<A>(bindings: Seq<(KeyChord, A)>, action: A) -> Option<Seq<char>> {
    match chord_of(bindings, action) {
        Some(chord) => Some(chord_text(chord)),
        None => None,
    }
}

/// The name of a key.
pub open spec fn key_text(code: KeyCode) -> Seq<char> {
    match code {
        KeyCode::Char(c) => if c == ' ' {
            "space"@
        } else {
            seq![c]
        },
        KeyCode::Enter => "enter"@,
        KeyCode::Esc => "esc"@,
        KeyCode::Backspace => "backspace"@,
        KeyCode::Tab => "tab"@,
        KeyCode::BackTab => "shift+tab"@,
        KeyCode::Up => "up"@,
        KeyCode::Down => "down"@,
        KeyCode::Left => "left"@,
        KeyCode::Right => "right"@,
        KeyCode::PageUp => "pageup"@,
        KeyCode::PageDown => "pagedown"@,
        KeyCode::Home => "home"@,
        KeyCode::End => "end"@,
        KeyCode::F(n) => seq!['f'] + text::decimal(n as nat),
        KeyCode::Other => "other"@,
    }
}

/// A chord as shown: its modifiers, then the key.
pub open spec fn chord_text(chord: KeyChord) -> Seq<char> {
    (if chord.control {
        "ctrl+"@
    } else {
        Seq::empty()
    }) + (if chord.alt {
        "alt+"@
    } else {
        Seq::empty()
    }) + key_text(chord.code)
}

fn show_key(code: KeyCode) -> (out: String)
    ensures
        out@ == key_text(code),
{
    match code {
        KeyCode::Char(c) => if c == ' ' {
            "space".to_owned()
        } else {
            let mut out = String::new();
            out.push(c);
            assert(out@ =~= seq![c]);
            out
        },
        KeyCode::Enter => "enter".to_owned(),
        KeyCode::Esc => "esc".to_owned(),
        KeyCode::Backspace => "backspace".to_owned(),
        KeyCode::Tab => "tab".to_owned(),
        KeyCode::BackTab => "shift+tab".to_owned(),
        KeyCode::Up => "up".to_owned(),
        KeyCode::Down => "down".to_owned(),
        KeyCode::Left => "left".to_owned(),
        KeyCode::Right => "right".to_owned(),
        KeyCode::PageUp => "pageup".to_owned(),
        KeyCode::PageDown => "pagedown".to_owned(),
        KeyCode::Home => "home".to_owned(),
        KeyCode::End => "end".to_owned(),
        KeyCode::F(n) => {
            let mut out = String::new();
            out.push('f');
            let number = text::decimal_text(n as u64);
            out.append(number.as_str());
            assert(out@ =~= seq!['f'] + text::decimal(n as nat));
            out
        },
        KeyCode::Other => "other".to_owned(),
    }
}

/// A chord as shown.
pub fn show_chord(chord: KeyChord) -> (out: String)
    ensures
        out@ == chord_text(chord),
{
    let mut out = String::new();
    if chord.control {
        out.append("ctrl+");
    }
    if chord.alt {
        out.append("alt+");
    }
    let key = show_key(chord.code);
    out.append(key.as_str());
    assert(out@ =~= chord_text(chord));
    out
}

/// The keys of the interactive session.
#[derive(Debug, PartialEq, Eq)]
pub struct ExecuteKeymap {
    pub select: Keymap<SelectAction>,
    pub fuzzy: Keymap<FuzzyAction>,
    pub browse: Keymap<BrowseAction>,
    pub tags: Keymap<TagsAction>,
    pub prompt: Keymap<PromptAction>,
}

/// A key without modifiers.
pub open spec fn bare(code: KeyCode) -> KeyChord {
    KeyChord { code, control: false, alt: false }
}

/// A key with Ctrl.
pub open spec fn with_ctrl(code: KeyCode) -> KeyChord {
    KeyChord { code, control: true, alt: false }
}

fn bare_chord(code: KeyCode) -> (chord: KeyChord)
    ensures
        chord == bare(code),
{
    KeyChord { code, control: false, alt: false }
}

fn ctrl_chord(code: KeyCode) -> (chord: KeyChord)
    ensures
        chord == with_ctrl(code),
{
    KeyChord { code, control: true, alt: false }
}

/// The keys of the picker in every mode, where none are configured.
pub open spec fn select_defaults() -> Seq<(KeyChord, SelectAction)> {
    seq![
        (bare(KeyCode::Esc), SelectAction::CancelOrBack),
        (with_ctrl(KeyCode::Char('t')), SelectAction::CycleMode),
        (with_ctrl(KeyCode::Char('e')), SelectAction::Edit),
        (with_ctrl(KeyCode::Char('j')), SelectAction::PreviewDown),
        (with_ctrl(KeyCode::Down), SelectAction::PreviewDown),
        (with_ctrl(KeyCode::Char('k')), SelectAction::PreviewUp),
        (with_ctrl(KeyCode::Up), SelectAction::PreviewUp),
    ]
}

/// The keys of fuzzy search, where none are configured.
pub open spec fn fuzzy_defaults() -> Seq<(KeyChord, FuzzyAction)> {
    seq![
        (bare(KeyCode::Enter), FuzzyAction::Accept),
        (bare(KeyCode::Backspace), FuzzyAction::Backspace),
        (bare(KeyCode::Left), FuzzyAction::CursorLeft),
        (bare(KeyCode::Right), FuzzyAction::CursorRight),
        (bare(KeyCode::Up), FuzzyAction::MoveUp),
        (bare(KeyCode::Down), FuzzyAction::MoveDown),
        (bare(KeyCode::PageUp), FuzzyAction::PageUp),
        (bare(KeyCode::PageDown), FuzzyAction::PageDown),
    ]
}

/// The keys of browse mode, where none are configured.
pub open spec fn browse_defaults() -> Seq<(KeyChord, BrowseAction)> {
    seq![
        (bare(KeyCode::Enter), BrowseAction::AcceptOrOpen),
        (bare(KeyCode::Backspace), BrowseAction::Backspace),
        (bare(KeyCode::Tab), BrowseAction::Complete),
        (bare(KeyCode::Left), BrowseAction::CursorLeft),
        (bare(KeyCode::Right), BrowseAction::CursorRight),
        (bare(KeyCode::Up), BrowseAction::MoveUp),
        (bare(KeyCode::Down), BrowseAction::MoveDown),
        (bare(KeyCode::PageUp), BrowseAction::PageUp),
        (bare(KeyCode::PageDown), BrowseAction::PageDown),
    ]
}

/// The keys of tags mode, where none are configured.
pub open spec fn tags_defaults() -> Seq<(KeyChord, TagsAction)> {
    seq![
        (bare(KeyCode::Enter), TagsAction::AcceptOrDrill),
        (bare(KeyCode::Backspace), TagsAction::Backspace),
        (bare(KeyCode::Left), TagsAction::CursorLeft),
        (bare(KeyCode::Right), TagsAction::CursorRight),
        (bare(KeyCode::Up), TagsAction::MoveUp),
        (bare(KeyCode::Down), TagsAction::MoveDown),
        (bare(KeyCode::PageUp), TagsAction::PageUp),
        (bare(KeyCode::PageDown), TagsAction::PageDown),
        (bare(KeyCode::Esc), TagsAction::ReturnToTags),
    ]
}

/// The keys of the prompt for variables, where none are configured.
pub open spec fn prompt_defaults() -> Seq<(KeyChord, PromptAction)> {
    seq![
        (bare(KeyCode::Enter), PromptAction::Accept),
        (
            (KeyChord { code: KeyCode::Enter, control: false, alt: true }),
            PromptAction::LiteralNewline,
        ),
        (with_ctrl(KeyCode::Char('j')), PromptAction::LiteralNewline),
        (bare(KeyCode::Backspace), PromptAction::Backspace),
        (bare(KeyCode::Up), PromptAction::SuggestionUp),
        (bare(KeyCode::Down), PromptAction::SuggestionDown),
        (bare(KeyCode::Tab), PromptAction::CompleteOrNext),
        (bare(KeyCode::BackTab), PromptAction::PreviousVariable),
        (bare(KeyCode::Esc), PromptAction::ReturnToPicker),
    ]
}

impl ExecuteKeymap {
    /// Whether the keys are those that hold where none are configured.
    pub open spec fn has_default_keys(&self) -> bool {
        &&& self.select.bindings@ == select_defaults()
        &&& self.fuzzy.bindings@ == fuzzy_defaults()
        &&& self.browse.bindings@ == browse_defaults()
        &&& self.tags.bindings@ == tags_defaults()
        &&& self.prompt.bindings@ == prompt_defaults()
    }

    /// Whether a key cancels the session in any case: Ctrl+C, which no keymap
    /// can take away.
    pub fn is_emergency_cancel(key: &KeyEvent) -> (yes: bool)
        ensures
            yes == (key.chord.control && key.chord.code == KeyCode::Char('c')),
    {
        key.chord.control && key.chord.code == KeyCode::Char('c')
    }
}

impl Default for ExecuteKeymap {
    /// The keys where none are configured.
    fn default() -> (keymap: Self)
        ensures
            keymap.has_default_keys(),
    {
        let keymap = ExecuteKeymap {
            select: Keymap {
                bindings: vec![
                    (bare_chord(KeyCode::Esc), SelectAction::CancelOrBack),
                    (ctrl_chord(KeyCode::Char('t')), SelectAction::CycleMode),
                    (ctrl_chord(KeyCode::Char('e')), SelectAction::Edit),
                    (ctrl_chord(KeyCode::Char('j')), SelectAction::PreviewDown),
                    (ctrl_chord(KeyCode::Down), SelectAction::PreviewDown),
                    (ctrl_chord(KeyCode::Char('k')), SelectAction::PreviewUp),
                    (ctrl_chord(KeyCode::Up), SelectAction::PreviewUp),
                ],
            },
            fuzzy: Keymap {
                bindings: vec![
                    (bare_chord(KeyCode::Enter), FuzzyAction::Accept),
                    (bare_chord(KeyCode::Backspace), FuzzyAction::Backspace),
                    (bare_chord(KeyCode::Left), FuzzyAction::CursorLeft),
                    (bare_chord(KeyCode::Right), FuzzyAction::CursorRight),
                    (bare_chord(KeyCode::Up), FuzzyAction::MoveUp),
                    (bare_chord(KeyCode::Down), FuzzyAction::MoveDown),
                    (bare_chord(KeyCode::PageUp), FuzzyAction::PageUp),
                    (bare_chord(KeyCode::PageDown), FuzzyAction::PageDown),
                ],
            },
            browse: Keymap {
                bindings: vec![
                    (bare_chord(KeyCode::Enter), BrowseAction::AcceptOrOpen),
                    (bare_chord(KeyCode::Backspace), BrowseAction::Backspace),
                    (bare_chord(KeyCode::Tab), BrowseAction::Complete),
                    (bare_chord(KeyCode::Left), BrowseAction::CursorLeft),
                    (bare_chord(KeyCode::Right), BrowseAction::CursorRight),
                    (bare_chord(KeyCode::Up), BrowseAction::MoveUp),
                    (bare_chord(KeyCode::Down), BrowseAction::MoveDown),
                    (bare_chord(KeyCode::PageUp), BrowseAction::PageUp),
                    (bare_chord(KeyCode::PageDown), BrowseAction::PageDown),
                ],
            },
            tags: Keymap {
                bindings: vec![
                    (bare_chord(KeyCode::Enter), TagsAction::AcceptOrDrill),
                    (bare_chord(KeyCode::Backspace), TagsAction::Backspace),
                    (bare_chord(KeyCode::Left), TagsAction::CursorLeft),
                    (bare_chord(KeyCode::Right), TagsAction::CursorRight),
                    (bare_chord(KeyCode::Up), TagsAction::MoveUp),
                    (bare_chord(KeyCode::Down), TagsAction::MoveDown),
                    (bare_chord(KeyCode::PageUp), TagsAction::PageUp),
                    (bare_chord(KeyCode::PageDown), TagsAction::PageDown),
                    (bare_chord(KeyCode::Esc), TagsAction::ReturnToTags),
                ],
            },
            prompt: Keymap {
                bindings: vec![
                    (bare_chord(KeyCode::Enter), PromptAction::Accept),
                    (
                        KeyChord { code: KeyCode::Enter, control: false, alt: true },
                        PromptAction::LiteralNewline,
                    ),
                    (ctrl_chord(KeyCode::Char('j')), PromptAction::LiteralNewline),
                    (bare_chord(KeyCode::Backspace), PromptAction::Backspace),
                    (bare_chord(KeyCode::Up), PromptAction::SuggestionUp),
                    (bare_chord(KeyCode::Down), PromptAction::SuggestionDown),
                    (bare_chord(KeyCode::Tab), PromptAction::CompleteOrNext),
                    (bare_chord(KeyCode::BackTab), PromptAction::PreviousVariable),
                    (bare_chord(KeyCode::Esc), PromptAction::ReturnToPicker),
                ],
            },
        };
        assert(keymap.select.bindings@ =~= select_defaults());
        assert(keymap.fuzzy.bindings@ =~= fuzzy_defaults());
        assert(keymap.browse.bindings@ =~= browse_defaults());
        assert(keymap.tags.bindings@ =~= tags_defaults());
        assert(keymap.prompt.bindings@ =~= prompt_defaults());
        keymap
    }
}

/// The key that a text names: a character, or the name under which a key is
/// shown.
pub open spec fn key_named(s: Seq<char>) -> Option<KeyCode> {
    if s.len() == 1 && s[0] != ' ' {
        Some(KeyCode::Char(s[0]))
    } else if s == "space"@ {
        Some(KeyCode::Char(' '))
    } else if s == "enter"@ {
        Some(KeyCode::Enter)
    } else if s == "esc"@ {
        Some(KeyCode::Esc)
    } else if s == "backspace"@ {
        Some(KeyCode::Backspace)
    } else if s == "tab"@ {
        Some(KeyCode::Tab)
    } else if s == "shift+tab"@ {
        Some(KeyCode::BackTab)
    } else if s == "up"@ {
        Some(KeyCode::Up)
    } else if s == "down"@ {
        Some(KeyCode::Down)
    } else if s == "left"@ {
        Some(KeyCode::Left)
    } else if s == "right"@ {
        Some(KeyCode::Right)
    } else if s == "pageup"@ {
        Some(KeyCode::PageUp)
    } else if s == "pagedown"@ {
        Some(KeyCode::PageDown)
    } else if s == "home"@ {
        Some(KeyCode::Home)
    } else if s == "end"@ {
        Some(KeyCode::End)
    } else {
        match function_key(s) {
            Some(n) => Some(KeyCode::F(n)),
            None => None,
        }
    }
}

/// The number of the function key that a text names: `f` and decimal digits.
pub open spec fn function_key(s: Seq<char>) -> Option<u8> {
    if s.len() > 1 && s[0] == 'f' {
        match text::digits_value(s.skip(1)) {
            Some(n) if n <= u8::MAX => Some(n as u8),
            _ => None,
        }
    } else {
        None
    }
}

/// The chord that a text names: modifiers, each at most once, and a key.
pub open spec fn chord_named(s: Seq<char>) -> Option<KeyChord>
    decreases s.len(),
{
    if "ctrl+"@.is_prefix_of(s) && "ctrl+"@.len() > 0 {
        match chord_named(s.skip("ctrl+"@.len() as int)) {
            Some(chord) if !chord.control => Some(KeyChord { control: true, ..chord }),
            _ => None,
        }
    } else if "alt+"@.is_prefix_of(s) && "alt+"@.len() > 0 {
        match chord_named(s.skip("alt+"@.len() as int)) {
            Some(chord) if !chord.alt => Some(KeyChord { alt: true, ..chord }),
            _ => None,
        }
    } else {
        match key_named(s) {
            Some(code) => Some(bare(code)),
            None => None,
        }
    }
}

fn read_function_key(s: &str) -> (n: Option<u8>)
    ensures
        n == function_key(s@),
{
    let chars = text::chars_of(s);
    if chars.len() <= 1 || chars[0] != 'f' || chars[1] == '+' {
        proof {
            if s@.len() > 1 && s@[1] == '+' {
                lemma_sign_is_no_digit(s@.skip(1));
            }
        }
        return None;
    }
    let digits = text::string_from(&chars, 1, chars.len());
    assert(digits@ =~= s@.skip(1));
    match text::parse_number(digits.as_str()) {
        Some(n) => if n <= u8::MAX as u64 {
            Some(n as u8)
        } else {
            None
        },
        None => None,
    }
}

proof fn lemma_sign_is_no_digit(s: Seq<char>)
    requires
        s.len() > 0,
        s[0] == '+',
    ensures
        text::digits_value(s) is None,
    decreases s.len(),
{
    if s.len() > 1 {
        lemma_sign_is_no_digit(s.drop_last());
    }
}

fn read_key(s: &str) -> (code: Option<KeyCode>)
    ensures
        code == key_named(s@),
{
    let chars = text::chars_of(s);
    if chars.len() == 1 && chars[0] != ' ' {
        Some(KeyCode::Char(chars[0]))
    } else if text::same_text(s, "space") {
        Some(KeyCode::Char(' '))
    } else if text::same_text(s, "enter") {
        Some(KeyCode::Enter)
    } else if text::same_text(s, "esc") {
        Some(KeyCode::Esc)
    } else if text::same_text(s, "backspace") {
        Some(KeyCode::Backspace)
    } else if text::same_text(s, "tab") {
        Some(KeyCode::Tab)
    } else if text::same_text(s, "shift+tab") {
        Some(KeyCode::BackTab)
    } else if text::same_text(s, "up") {
        Some(KeyCode::Up)
    } else if text::same_text(s, "down") {
        Some(KeyCode::Down)
    } else if text::same_text(s, "left") {
        Some(KeyCode::Left)
    } else if text::same_text(s, "right") {
        Some(KeyCode::Right)
    } else if text::same_text(s, "pageup") {
        Some(KeyCode::PageUp)
    } else if text::same_text(s, "pagedown") {
        Some(KeyCode::PageDown)
    } else if text::same_text(s, "home") {
        Some(KeyCode::Home)
    } else if text::same_text(s, "end") {
        Some(KeyCode::End)
    } else {
        match read_function_key(s) {
            Some(n) => Some(KeyCode::F(n)),
            None => None,
        }
    }
}

impl KeyChord {
    /// The chord that a text names, such as `ctrl+n`, `alt+enter` or `f4`.
    pub fn parse(s: &str) -> (chord: Option<KeyChord>)
        ensures
            chord == chord_named(s@),
        decreases s@.len(),
    {
        proof {
            reveal_strlit("ctrl+");
            reveal_strlit("alt+");
        }
        match text::strip_prefix_text(s, "ctrl+") {
            Some(rest) => {
                return match KeyChord::parse(rest.as_str()) {
                    Some(chord) => if chord.control {
                        None
                    } else {
                        Some(KeyChord { control: true, ..chord })
                    },
                    None => None,
                };
            },
            None => {},
        }
        match text::strip_prefix_text(s, "alt+") {
            Some(rest) => {
                return match KeyChord::parse(rest.as_str()) {
                    Some(chord) => if chord.alt {
                        None
                    } else {
                        Some(KeyChord { alt: true, ..chord })
                    },
                    None => None,
                };
            },
            None => {},
        }
        match read_key(s) {
            Some(code) => Some(bare_chord(code)),
            None => None,
        }
    }
}

/// The names of the keys hold no modifier, and are told apart.
proof fn lemma_shown_key_is_read(code: KeyCode)
    requires
        !(code is Other),
    ensures
        key_named(key_text(code)) == Some(code),
        !"ctrl+"@.is_prefix_of(key_text(code)),
        !"alt+"@.is_prefix_of(key_text(code)),
{
    reveal_strlit("ctrl+");
    reveal_strlit("alt+");
    reveal_strlit("space");
    reveal_strlit("enter");
    reveal_strlit("esc");
    reveal_strlit("backspace");
    reveal_strlit("tab");
    reveal_strlit("shift+tab");
    reveal_strlit("up");
    reveal_strlit("down");
    reveal_strlit("left");
    reveal_strlit("right");
    reveal_strlit("pageup");
    reveal_strlit("pagedown");
    reveal_strlit("home");
    reveal_strlit("end");
    let s = key_text(code);
    if code is F {
        let n = code->F_0;
        text::law_decimal_reads_back(n as nat);
        assert(s.skip(1) =~= text::decimal(n as nat));
        assert(s[0] == 'f');
        assert(text::digit_value(s[1]) is Some);
        assert(function_key(s) == Some(n));
        assert(s != "space"@);
    }
    let ctrl = "ctrl+"@;
    let alt = "alt+"@;
    if ctrl.is_prefix_of(s) {
        assert(ctrl[0] == s[0]);
        assert(ctrl[1] == s[1]);
    }
    if alt.is_prefix_of(s) {
        assert(alt[0] == s[0]);
        assert(alt[1] == s[1]);
    }
}

/// A chord is read as it is shown.
pub proof fn law_shown_chords_are_read(chord: KeyChord)
    requires
        !(chord.code is Other),
    ensures
        chord_named(chord_text(chord)) == Some(chord),
{
    reveal_strlit("ctrl+");
    reveal_strlit("alt+");
    let key = key_text(chord.code);
    let ctrl = "ctrl+"@;
    let alt = "alt+"@;
    lemma_shown_key_is_read(chord.code);
    let tail = if chord.alt {
        alt + key
    } else {
        key
    };
    if chord.alt {
        assert(tail.skip(4) =~= key);
        assert(alt.is_prefix_of(tail)) by {
            assert(tail.take(4) =~= alt);
        }
        assert(!ctrl.is_prefix_of(tail)) by {
            assert(ctrl[0] != tail[0]);
        }
    }
    assert(chord_named(tail) == Some(KeyChord { control: false, ..chord })) by {
        assert(chord_named(key) == Some(bare(chord.code)));
    }
    if chord.control {
        let whole = ctrl + tail;
        assert(whole =~= chord_text(chord));
        assert(whole.skip(5) =~= tail);
        assert(ctrl.is_prefix_of(whole)) by {
            assert(whole.take(5) =~= ctrl);
        }
    } else {
        assert(tail =~= chord_text(chord));
    }
}

/// What the config says of one action: its path, such as
/// `execute.select.edit`, and the keys it is bound to. `None` where the config
/// holds something else than a list of texts.
pub struct KeySetting {
    pub path: String,
    pub keys: Option<Vec<String>>,
}

/// What a [`KeySetting`] holds.
pub struct KeySettingView {
    pub path: Seq<char>,
    pub keys: Option<Seq<Seq<char>>>,
}

impl View for KeySetting {
    type V = KeySettingView;

    open spec fn view(&self) -> KeySettingView {
        KeySettingView {
            path: self.path@,
            keys: match self.keys {
                Some(keys) => Some(text::texts(keys@)),
                None => None,
            },
        }
    }
}

/// What the settings of a list hold.
pub open spec fn setting_views(settings: Seq<KeySetting>) -> Seq<KeySettingView> {
    settings.map_values(|s: KeySetting| s@)
}

/// The chords that texts name, in order, without the texts that name none.
pub open spec fn chords_named(keys: Seq<Seq<char>>) -> Seq<KeyChord>
    decreases keys.len(),
{
    if keys.len() == 0 {
        Seq::empty()
    } else {
        match chord_named(keys.last()) {
            Some(chord) => chords_named(keys.drop_last()).push(chord),
            None => chords_named(keys.drop_last()),
        }
    }
}

/// Bindings without those to an action.
pub open spec fn without<A>(bindings: Seq<(KeyChord, A)>, action: A) -> Seq<(KeyChord, A)> {
    bindings.filter(|b: (KeyChord, A)| b.1 != action)
}

/// Bindings of chords to one action.
pub open spec fn bound<A>(chords: Seq<KeyChord>, action: A) -> Seq<(KeyChord, A)> {
    chords.map_values(|chord: KeyChord| (chord, action))
}

/// Bindings after an action was bound to the keys that are listed for it. An
/// empty list unbinds it. A list in which no text names a key leaves the
/// bindings as they are.
pub open spec fn rebound<A>(
    bindings: Seq<(KeyChord, A)>,
    action: A,
    keys: Seq<Seq<char>>,
) -> Seq<(KeyChord, A)> {
    if keys.len() > 0 && chords_named(keys).len() == 0 {
        bindings
    } else {
        bound(chords_named(keys), action) + without(bindings, action)
    }
}

/// Bindings as the settings change them, one after the other.
pub open spec fn configured<A: Action>(
    bindings: Seq<(KeyChord, A)>,
    settings: Seq<KeySettingView>,
) -> Seq<(KeyChord, A)>
    decreases settings.len(),
{
    if settings.len() == 0 {
        bindings
    } else {
        let before = configured(bindings, settings.drop_last());
        match (A::named(settings.last().path), settings.last().keys) {
            (Some(action), Some(keys)) => rebound(before, action, keys),
            _ => before,
        }
    }
}

/// Whether a path names an action.
pub open spec fn is_known(path: Seq<char>) -> bool {
    ||| SelectAction::named(path) is Some
    ||| FuzzyAction::named(path) is Some
    ||| BrowseAction::named(path) is Some
    ||| TagsAction::named(path) is Some
    ||| PromptAction::named(path) is Some
}

/// The warnings about the texts in a list that name no key.
pub open spec fn key_warnings(path: Seq<char>, keys: Seq<Seq<char>>) -> Seq<Seq<char>>
    decreases keys.len(),
{
    if keys.len() == 0 {
        Seq::empty()
    } else {
        let before = key_warnings(path, keys.drop_last());
        if chord_named(keys.last()) is Some {
            before
        } else {
            before.push("keybinds."@ + path + ": invalid key `"@ + keys.last() + "`"@)
        }
    }
}

/// The warnings about a setting: a path that names no action, something else
/// than a list of texts, or texts that name no key.
pub open spec fn setting_warnings(setting: KeySettingView) -> Seq<Seq<char>> {
    if !is_known(setting.path) {
        seq!["keybinds."@ + setting.path + ": no such action"@]
    } else {
        match setting.keys {
            None => seq!["keybinds."@ + setting.path + ": expected a list of keys"@],
            Some(keys) => key_warnings(setting.path, keys),
        }
    }
}

/// The warnings about the settings, in order.
pub open spec fn warnings_of(settings: Seq<KeySettingView>) -> Seq<Seq<char>>
    decreases settings.len(),
{
    if settings.len() == 0 {
        Seq::empty()
    } else {
        warnings_of(settings.drop_last()) + setting_warnings(settings.last())
    }
}

/// The chords that texts name.
fn read_chords(keys: &Vec<String>) -> (chords: Vec<KeyChord>)
    ensures
        chords@ == chords_named(text::texts(keys@)),
{
    let ghost all = text::texts(keys@);
    let mut out: Vec<KeyChord> = Vec::new();
    let mut i: usize = 0;
    assert(all.take(0) =~= Seq::<Seq<char>>::empty());
    while i < keys.len()
        invariant
            i <= keys@.len(),
            all == text::texts(keys@),
            out@ == chords_named(all.take(i as int)),
        decreases keys@.len() - i,
    {
        assert(all.take(i + 1).drop_last() =~= all.take(i as int));
        assert(all.take(i + 1).last() == keys@[i as int]@);
        if let Some(chord) = KeyChord::parse(keys[i].as_str()) {
            out.push(chord);
        }
        i = i + 1;
    }
    assert(all.take(all.len() as int) =~= all);
    out
}

impl<A: Action> Keymap<A> {
    /// Binds an action to the keys that are listed for it.
    fn rebind(&mut self, action: A, keys: &Vec<String>)
        ensures
            final(self).bindings@ == rebound(old(self).bindings@, action, text::texts(keys@)),
    {
        let chords = read_chords(keys);
        if keys.len() > 0 && chords.len() == 0 {
            return;
        }
        let ghost old_bindings = self.bindings@;
        let ghost keeps = |b: (KeyChord, A)| b.1 != action;
        let mut out: Vec<(KeyChord, A)> = Vec::new();
        let mut i: usize = 0;
        assert(out@ =~= bound(chords@.take(0), action));
        while i < chords.len()
            invariant
                i <= chords@.len(),
                out@ == bound(chords@.take(i as int), action),
            decreases chords@.len() - i,
        {
            out.push((chords[i], action));
            assert(out@ =~= bound(chords@.take(i + 1), action));
            i = i + 1;
        }
        assert(chords@.take(chords@.len() as int) =~= chords@);
        let ghost front = out@;
        let mut i: usize = 0;
        assert(old_bindings.take(0) =~= Seq::<(KeyChord, A)>::empty());
        assert(front + Seq::<(KeyChord, A)>::empty() =~= front);
        proof {
            reveal(Seq::filter);
        }
        while i < self.bindings.len()
            invariant
                i <= self.bindings@.len(),
                self.bindings@ == old_bindings,
                keeps == (|b: (KeyChord, A)| b.1 != action),
                out@ == front + old_bindings.take(i as int).filter(keeps),
            decreases self.bindings@.len() - i,
        {
            let ghost more = old_bindings.take(i + 1);
            proof {
                reveal(Seq::filter);
                assert(more.drop_last() =~= old_bindings.take(i as int));
                assert(more.last() == old_bindings[i as int]);
            }
            if !self.bindings[i].1.same(action) {
                out.push((self.bindings[i].0, self.bindings[i].1));
            }
            assert(out@ =~= front + more.filter(keeps));
            i = i + 1;
        }
        assert(old_bindings.take(old_bindings.len() as int) =~= old_bindings);
        self.bindings = out;
    }

    /// Changes the bindings as a setting says, where it is about an action of
    /// this context; whether it is.
    fn configure(&mut self, setting: &KeySetting) -> (known: bool)
        ensures
            known == A::named(setting.path@) is Some,
            final(self).bindings@ == (match (A::named(setting.path@), setting@.keys) {
                (Some(action), Some(keys)) => rebound(old(self).bindings@, action, keys),
                _ => old(self).bindings@,
            }),
    {
        match A::from_path(setting.path.as_str()) {
            Some(action) => {
                if let Some(keys) = &setting.keys {
                    self.rebind(action, keys);
                }
                true
            },
            None => false,
        }
    }
}

/// Where a warning is about: the path of a setting.
fn warning_at(path: &str) -> (out: String)
    ensures
        out@ == "keybinds."@ + path@,
{
    let mut out = "keybinds.".to_owned();
    out.append(path);
    out
}

/// Adds the warnings about the texts in a list that name no key.
fn add_key_warnings(warnings: &mut Vec<String>, path: &str, keys: &Vec<String>)
    ensures
        text::texts(final(warnings)@) == text::texts(old(warnings)@) + key_warnings(
            path@,
            text::texts(keys@),
        ),
{
    let ghost start = text::texts(warnings@);
    let ghost all = text::texts(keys@);
    let mut i: usize = 0;
    assert(all.take(0) =~= Seq::<Seq<char>>::empty());
    assert(start + Seq::<Seq<char>>::empty() =~= start);
    while i < keys.len()
        invariant
            i <= keys@.len(),
            all == text::texts(keys@),
            text::texts(warnings@) == start + key_warnings(path@, all.take(i as int)),
        decreases keys@.len() - i,
    {
        assert(all.take(i + 1).drop_last() =~= all.take(i as int));
        assert(all.take(i + 1).last() == keys@[i as int]@);
        if KeyChord::parse(keys[i].as_str()).is_none() {
            let mut warning = warning_at(path);
            warning.append(": invalid key `");
            warning.append(keys[i].as_str());
            warning.append("`");
            proof {
                text::lemma_texts_push(warnings@, warning);
            }
            warnings.push(warning);
            assert(text::texts(warnings@) =~= start + key_warnings(path@, all.take(i + 1)));
        }
        i = i + 1;
    }
    assert(all.take(all.len() as int) =~= all);
}

/// The keys of every command, and what is wrong with their settings.
pub struct Keymaps {
    pub execute: ExecuteKeymap,
    pub warnings: Vec<String>,
}

/// Whether keys are those where none are configured, changed by the settings.
pub open spec fn resolves(keymaps: Keymaps, settings: Seq<KeySettingView>) -> bool {
    &&& keymaps.execute.select.bindings@ == configured(select_defaults(), settings)
    &&& keymaps.execute.fuzzy.bindings@ == configured(fuzzy_defaults(), settings)
    &&& keymaps.execute.browse.bindings@ == configured(browse_defaults(), settings)
    &&& keymaps.execute.tags.bindings@ == configured(tags_defaults(), settings)
    &&& keymaps.execute.prompt.bindings@ == configured(prompt_defaults(), settings)
    &&& text::texts(keymaps.warnings@) == warnings_of(settings)
}

impl Keymaps {
    /// The keys where none are configured, changed by the settings. What is
    /// wrong with a setting becomes a warning.
    pub fn resolve(settings: &Vec<KeySetting>) -> (keymaps: Keymaps)
        ensures
            resolves(keymaps, setting_views(settings@)),
    {
        let ghost all = setting_views(settings@);
        let mut execute = ExecuteKeymap::default();
        let mut warnings: Vec<String> = Vec::new();
        let mut i: usize = 0;
        assert(all.take(0) =~= Seq::<KeySettingView>::empty());
        assert(text::texts(warnings@) =~= warnings_of(all.take(0)));
        while i < settings.len()
            invariant
                i <= settings@.len(),
                all == setting_views(settings@),
                resolves(Keymaps { execute, warnings }, all.take(i as int)),
            decreases settings@.len() - i,
        {
            let setting = &settings[i];
            assert(all.take(i + 1).drop_last() =~= all.take(i as int));
            assert(all.take(i + 1).last() == setting@);
            let ghost before = text::texts(warnings@);
            let select = execute.select.configure(setting);
            let fuzzy = execute.fuzzy.configure(setting);
            let browse = execute.browse.configure(setting);
            let tags = execute.tags.configure(setting);
            let prompt = execute.prompt.configure(setting);
            if !select && !fuzzy && !browse && !tags && !prompt {
                let mut warning = warning_at(setting.path.as_str());
                warning.append(": no such action");
                proof {
                    text::lemma_texts_push(warnings@, warning);
                }
                warnings.push(warning);
            } else if let Some(keys) = &setting.keys {
                add_key_warnings(&mut warnings, setting.path.as_str(), keys);
            } else {
                let mut warning = warning_at(setting.path.as_str());
                warning.append(": expected a list of keys");
                proof {
                    text::lemma_texts_push(warnings@, warning);
                }
                warnings.push(warning);
            }
            assert(text::texts(warnings@) =~= before + setting_warnings(setting@));
            i = i + 1;
        }
        assert(all.take(all.len() as int) =~= all);
        Keymaps { execute, warnings }
    }
}

proof fn lemma_bound_first<A>(
    chords: Seq<KeyChord>,
    action: A,
    rest: Seq<(KeyChord, A)>,
    chord: KeyChord,
)
    requires
        chords.contains(chord),
    ensures
        action_of(bound(chords, action) + rest, chord) == Some(action),
    decreases chords.len(),
{
    let all = bound(chords, action) + rest;
    assert(all[0] == (chords[0], action));
    if chords[0] != chord {
        let k = chords.index_of(chord);
        assert(chords.skip(1)[k - 1] == chord);
        lemma_bound_first(chords.skip(1), action, rest, chord);
        assert(all.skip(1) =~= bound(chords.skip(1), action) + rest);
    }
}

proof fn lemma_unbound<A>(bindings: Seq<(KeyChord, A)>, action: A, chord: KeyChord)
    requires
        forall|i: int| 0 <= i < bindings.len() ==> (#[trigger] bindings[i]).1 != action,
    ensures
        action_of(bindings, chord) != Some(action),
    decreases bindings.len(),
{
    if bindings.len() > 0 {
        let rest = bindings.skip(1);
        assert forall|i: int| 0 <= i < rest.len() implies (#[trigger] rest[i]).1 != action by {
            assert(rest[i] == bindings[i + 1]);
        }
        lemma_unbound(rest, action, chord);
    }
}

/// A listed key runs its action, whatever else it was bound to. An action that
/// an empty list was given for has no key.
pub proof fn law_listed_keys_are_bound<A>(
    bindings: Seq<(KeyChord, A)>,
    action: A,
    keys: Seq<Seq<char>>,
    chord: KeyChord,
)
    ensures
        chords_named(keys).contains(chord) ==> action_of(rebound(bindings, action, keys), chord)
            == Some(action),
        keys.len() == 0 ==> action_of(rebound(bindings, action, keys), chord) != Some(action),
{
    let chords = chords_named(keys);
    let rest = without(bindings, action);
    if chords.contains(chord) {
        lemma_bound_first(chords, action, rest, chord);
    }
    if keys.len() == 0 {
        assert(bound(chords, action) + rest =~= rest);
        assert forall|i: int| 0 <= i < rest.len() implies (#[trigger] rest[i]).1 != action by {
            bindings.lemma_filter_pred(|b: (KeyChord, A)| b.1 != action, i);
        }
        lemma_unbound(rest, action, chord);
    }
}

/// A key runs the action of its first binding, and a key without a binding runs
/// none.
pub proof fn law_first_binding_counts<A>(bindings: Seq<(KeyChord, A)>, chord: KeyChord, i: int)
    requires
        0 <= i <= bindings.len(),
        forall|j: int| 0 <= j < i ==> (#[trigger] bindings[j]).0 != chord,
        i < bindings.len() ==> bindings[i].0 == chord,
    ensures
        i < bindings.len() ==> action_of(bindings, chord) == Some(bindings[i].1),
        i == bindings.len() ==> action_of(bindings, chord) is None,
    decreases bindings.len(),
{
    if i > 0 {
        assert(bindings[0].0 != chord);
        assert forall|j: int| 0 <= j < i - 1 implies (#[trigger] bindings.skip(1)[j]).0 != chord by {
            assert(bindings[j + 1].0 != chord);
        }
        law_first_binding_counts(bindings.skip(1), chord, i - 1);
    }
}

/// The key that is shown for an action is that of its first binding, and runs the
/// action where no other action has the key before.
pub proof fn law_shown_key_is_the_first<A>(bindings: Seq<(KeyChord, A)>, action: A, i: int)
    requires
        0 <= i <= bindings.len(),
        forall|j: int| 0 <= j < i ==> (#[trigger] bindings[j]).1 != action,
        i < bindings.len() ==> bindings[i].1 == action,
    ensures
        i < bindings.len() ==> hint_of(bindings, action) == Some(chord_text(bindings[i].0)),
        i == bindings.len() ==> hint_of(bindings, action) is None,
    decreases bindings.len(),
{
    if i > 0 {
        assert(bindings[0].1 != action);
        assert forall|j: int| 0 <= j < i - 1 implies (#[trigger] bindings.skip(1)[j]).1
            != action by {
            assert(bindings[j + 1].1 != action);
        }
        law_shown_key_is_the_first(bindings.skip(1), action, i - 1);
    }
}

proof fn lemma_unlisted<A>(
    chords: Seq<KeyChord>,
    action: A,
    rest: Seq<(KeyChord, A)>,
    chord: KeyChord,
)
    requires
        !chords.contains(chord),
    ensures
        action_of(bound(chords, action) + rest, chord) == action_of(rest, chord),
    decreases chords.len(),
{
    let all = bound(chords, action) + rest;
    if chords.len() > 0 {
        assert(all[0] == (chords[0], action));
        assert(chords.contains(chords[0]));
        let less = chords.skip(1);
        if less.contains(chord) {
            let k = less.index_of(chord);
            assert(chords[k + 1] == chord);
        }
        lemma_unlisted(less, action, rest, chord);
        assert(all.skip(1) =~= bound(less, action) + rest);
    } else {
        assert(all =~= rest);
    }
}

proof fn lemma_kept_binding<A>(bindings: Seq<(KeyChord, A)>, action: A, other: A, chord: KeyChord)
    requires
        action_of(bindings, chord) == Some(other),
        other != action,
    ensures
        action_of(without(bindings, action), chord) == Some(other),
    decreases bindings.len(),
{
    reveal(Seq::filter);
    let keep = |b: (KeyChord, A)| b.1 != action;
    let first = seq![bindings[0]];
    let rest = bindings.skip(1);
    assert(bindings =~= first + rest);
    Seq::filter_distributes_over_add(first, rest, keep);
    assert(first.drop_last() =~= Seq::<(KeyChord, A)>::empty());
    assert(first.drop_last().filter(keep) =~= Seq::<(KeyChord, A)>::empty());
    if keep(bindings[0]) {
        assert(first.filter(keep) =~= first);
        let all = first + rest.filter(keep);
        assert(all[0] == bindings[0]);
        assert(all.skip(1) =~= rest.filter(keep));
        if bindings[0].0 != chord {
            lemma_kept_binding(rest, action, other, chord);
        }
    } else {
        assert(first.filter(keep) =~= Seq::<(KeyChord, A)>::empty());
        assert(first.filter(keep) + rest.filter(keep) =~= rest.filter(keep));
        lemma_kept_binding(rest, action, other, chord);
    }
}

/// Binding keys to an action leaves the other keys of the other actions.
pub proof fn law_other_keys_stay<A>(
    bindings: Seq<(KeyChord, A)>,
    action: A,
    other: A,
    keys: Seq<Seq<char>>,
    chord: KeyChord,
)
    requires
        action_of(bindings, chord) == Some(other),
        other != action,
        !chords_named(keys).contains(chord),
    ensures
        action_of(rebound(bindings, action, keys), chord) == Some(other),
{
    lemma_kept_binding(bindings, action, other, chord);
    lemma_unlisted(chords_named(keys), action, without(bindings, action), chord);
}

/// Nothing is wrong with the keys if and only if each setting names an action and
/// lists texts that each name a key.
pub proof fn law_warnings(settings: Seq<KeySettingView>)
    ensures
        warnings_of(settings).len() == 0 <==> forall|i: int|
            0 <= i < settings.len() ==> #[trigger] is_in_order(settings[i]),
    decreases settings.len(),
{
    if settings.len() > 0 {
        law_warnings(settings.drop_last());
        let last = settings.last();
        assert(settings[settings.len() - 1] == last);
        if last.keys is Some {
            lemma_key_warnings(last.path, last.keys->0);
        }
        assert(setting_warnings(last).len() == 0 <==> is_in_order(last));
        assert forall|i: int| 0 <= i < settings.len() - 1 implies settings.drop_last()[i]
            == settings[i] by {}
        if forall|i: int| 0 <= i < settings.len() ==> #[trigger] is_in_order(settings[i]) {
            assert forall|i: int| 0 <= i < settings.drop_last().len() implies #[trigger] is_in_order(
                settings.drop_last()[i],
            ) by {
                assert(is_in_order(settings[i]));
            }
        }
        if warnings_of(settings).len() == 0 {
            assert forall|i: int| 0 <= i < settings.len() implies #[trigger] is_in_order(
                settings[i],
            ) by {
                if i < settings.len() - 1 {
                    assert(is_in_order(settings.drop_last()[i]));
                }
            }
        }
    }
}

/// Whether a setting names an action and lists texts that each name a key.
pub open spec fn is_in_order(setting: KeySettingView) -> bool {
    &&& is_known(setting.path)
    &&& setting.keys is Some
    &&& forall|k: int|
        0 <= k < setting.keys->0.len() ==> chord_named(#[trigger] setting.keys->0[k]) is Some
}

proof fn lemma_key_warnings(path: Seq<char>, keys: Seq<Seq<char>>)
    ensures
        key_warnings(path, keys).len() == 0 <==> forall|k: int|
            0 <= k < keys.len() ==> chord_named(#[trigger] keys[k]) is Some,
    decreases keys.len(),
{
    if keys.len() > 0 {
        let front = keys.drop_last();
        lemma_key_warnings(path, front);
        assert(keys[keys.len() - 1] == keys.last());
        assert forall|k: int| 0 <= k < front.len() implies front[k] == keys[k] by {}
        if key_warnings(path, front).len() == 0 {
            assert forall|k: int| 0 <= k < front.len() implies chord_named(
                #[trigger] keys[k],
            ) is Some by {
                assert(chord_named(front[k]) is Some);
            }
        } else {
            let k = choose|k: int| 0 <= k < front.len() && chord_named(#[trigger] front[k]) is None;
            assert(chord_named(keys[k]) is None);
        }
    }
}

/// Where no keys are configured, the arrow keys move, Enter accepts, Backspace
/// deletes and Esc leaves.
pub proof fn law_default_keys()
    ensures
        action_of(fuzzy_defaults(), bare(KeyCode::Enter)) == Some(FuzzyAction::Accept),
        action_of(fuzzy_defaults(), bare(KeyCode::Backspace)) == Some(FuzzyAction::Backspace),
        action_of(fuzzy_defaults(), bare(KeyCode::Up)) == Some(FuzzyAction::MoveUp),
        action_of(fuzzy_defaults(), bare(KeyCode::Down)) == Some(FuzzyAction::MoveDown),
        action_of(browse_defaults(), bare(KeyCode::Enter)) == Some(BrowseAction::AcceptOrOpen),
        action_of(browse_defaults(), bare(KeyCode::Up)) == Some(BrowseAction::MoveUp),
        action_of(browse_defaults(), bare(KeyCode::Down)) == Some(BrowseAction::MoveDown),
        action_of(tags_defaults(), bare(KeyCode::Enter)) == Some(TagsAction::AcceptOrDrill),
        action_of(tags_defaults(), bare(KeyCode::Up)) == Some(TagsAction::MoveUp),
        action_of(tags_defaults(), bare(KeyCode::Down)) == Some(TagsAction::MoveDown),
        action_of(prompt_defaults(), bare(KeyCode::Enter)) == Some(PromptAction::Accept),
        action_of(prompt_defaults(), bare(KeyCode::Up)) == Some(PromptAction::SuggestionUp),
        action_of(prompt_defaults(), bare(KeyCode::Down)) == Some(PromptAction::SuggestionDown),
        action_of(prompt_defaults(), bare(KeyCode::Esc)) == Some(PromptAction::ReturnToPicker),
        action_of(select_defaults(), bare(KeyCode::Esc)) == Some(SelectAction::CancelOrBack),
{
    law_first_binding_counts(fuzzy_defaults(), bare(KeyCode::Enter), 0);
    law_first_binding_counts(fuzzy_defaults(), bare(KeyCode::Backspace), 1);
    law_first_binding_counts(fuzzy_defaults(), bare(KeyCode::Up), 4);
    law_first_binding_counts(fuzzy_defaults(), bare(KeyCode::Down), 5);
    law_first_binding_counts(browse_defaults(), bare(KeyCode::Enter), 0);
    law_first_binding_counts(browse_defaults(), bare(KeyCode::Up), 5);
    law_first_binding_counts(browse_defaults(), bare(KeyCode::Down), 6);
    law_first_binding_counts(tags_defaults(), bare(KeyCode::Enter), 0);
    law_first_binding_counts(tags_defaults(), bare(KeyCode::Up), 4);
    law_first_binding_counts(tags_defaults(), bare(KeyCode::Down), 5);
    law_first_binding_counts(prompt_defaults(), bare(KeyCode::Enter), 0);
    law_first_binding_counts(prompt_defaults(), bare(KeyCode::Up), 4);
    law_first_binding_counts(prompt_defaults(), bare(KeyCode::Down), 5);
    law_first_binding_counts(prompt_defaults(), bare(KeyCode::Esc), 8);
    law_first_binding_counts(select_defaults(), bare(KeyCode::Esc), 0);
}

} // verus!
