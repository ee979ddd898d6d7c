//! The line of keys at the bottom. It is made from the keymap, so that it shows
//! keys as they are bound; actions without a key are left out.

use vstd::prelude::*;
use crate::execute::app::{ExecutionApp, NavigationMode};
use crate::execute::suggestions::SuggestionProvider;
use crate::execute::tags;
use crate::keybinds;
use crate::keybinds::{
    BrowseAction, ExecuteKeymap, FuzzyAction, PromptAction, SelectAction, TagsAction,
};
use crate::text;

verus! {

broadcast use vstd::string::group_string_axioms;

/// A key and what it does. `None` where no key is bound.
pub struct HelpItem {
    pub chord: Option<String>,
    pub label: String,
}

/// What a [`HelpItem`] holds.
pub struct HelpItemView {
    pub chord: Option<Seq<char>>,
    pub label: Seq<char>,
}

impl View for HelpItem {
    type V = HelpItemView;

    open spec fn view(&self) -> HelpItemView {
        HelpItemView { chord: text::optional_text(self.chord), label: self.label@ }
    }
}

/// What the items of a help line hold.
pub open spec fn item_views(items: Seq<HelpItem>) -> Seq<HelpItemView> {
    items.map_values(|i: HelpItem| i@)
}

/// An item of a help line.
pub open spec fn help_item(chord: Option<Seq<char>>, label: Seq<char>) -> HelpItemView {
    HelpItemView { chord, label }
}

/// The items that have a key, as text.
pub open spec fn bound_items(items: Seq<HelpItemView>) -> Seq<Seq<char>>
    decreases items.len(),
{
    if items.len() == 0 {
        Seq::empty()
    } else {
        let before = bound_items(items.drop_last());
        match items.last().chord {
            Some(chord) => before.push(chord.push(' ') + items.last().label),
            None => before,
        }
    }
}

/// A help line.
pub open spec fn help_of(items: Seq<HelpItemView>) -> Seq<char> {
    text::join_of(bound_items(items), "  "@)
}

/// A help line.
pub fn help_text(items: &Vec<HelpItem>) -> (out: String)
    ensures
        out@ == help_of(item_views(items@)),
{
    let ghost all = item_views(items@);
    let mut pieces: Vec<String> = Vec::new();
    let mut i: usize = 0;
    assert(all.take(0) =~= Seq::<HelpItemView>::empty());
    assert(text::texts(pieces@) =~= Seq::<Seq<char>>::empty());
    while i < items.len()
        invariant
            i <= items@.len(),
            all == item_views(items@),
            text::texts(pieces@) == bound_items(all.take(i as int)),
        decreases items@.len() - i,
    {
        assert(all.take(i + 1).drop_last() =~= all.take(i as int));
        assert(all.take(i + 1).last() == items@[i as int]@);
        let ghost before = pieces@;
        match &items[i].chord {
            Some(chord) => {
                let mut piece = chord.clone();
                piece.push(' ');
                piece.append(items[i].label.as_str());
                let ghost shown = piece@;
                pieces.push(piece);
                assert(text::texts(pieces@) =~= text::texts(before).push(shown));
            },
            None => {},
        }
        i = i + 1;
    }
    assert(all.take(all.len() as int) =~= all);
    text::join_texts(&pieces, "  ")
}

/// How the keys that scroll the preview are shown.
pub open spec fn preview_chord(down: Option<Seq<char>>, up: Option<Seq<char>>) -> Option<Seq<char>> {
    match (down, up) {
        (Some(d), Some(u)) => Some(d + "/"@ + u),
        (Some(d), None) => Some(d),
        (None, u) => u,
    }
}

fn preview_hint(down: Option<String>, up: Option<String>) -> (shown: Option<String>)
    ensures
        text::optional_text(shown) == preview_chord(
            text::optional_text(down),
            text::optional_text(up),
        ),
{
    match down {
        Some(d) => match up {
            Some(u) => {
                let mut both = d;
                both.append("/");
                both.append(u.as_str());
                Some(both)
            },
            None => Some(d),
        },
        None => up,
    }
}

/// The items of the picker's help line.
pub open spec fn select_items(
    keymap: ExecuteKeymap,
    mode: NavigationMode,
    drilled: bool,
    selected_is_dir: bool,
) -> Seq<HelpItemView> {
    let select = keymap.select.bindings@;
    let preview = help_item(
        preview_chord(
            keybinds::hint_of(select, SelectAction::PreviewDown),
            keybinds::hint_of(select, SelectAction::PreviewUp),
        ),
        "preview"@,
    );
    let cycle = keybinds::hint_of(select, SelectAction::CycleMode);
    let cancel = help_item(keybinds::hint_of(select, SelectAction::CancelOrBack), "cancel"@);
    let edit = help_item(keybinds::hint_of(select, SelectAction::Edit), "edit"@);
    match mode {
        NavigationMode::Fuzzy => seq![
            help_item(keybinds::hint_of(keymap.fuzzy.bindings@, FuzzyAction::Accept), "accept"@),
            edit,
            preview,
            help_item(cycle, "browse"@),
            cancel,
        ],
        NavigationMode::Browse => {
            let browse = keymap.browse.bindings@;
            let complete = help_item(
                keybinds::hint_of(browse, BrowseAction::Complete),
                "complete"@,
            );
            let accept = keybinds::hint_of(browse, BrowseAction::AcceptOrOpen);
            if selected_is_dir {
                seq![
                    complete,
                    help_item(accept, "open"@),
                    preview,
                    help_item(cycle, "tags"@),
                    cancel,
                ]
            } else {
                seq![
                    complete,
                    help_item(accept, "accept"@),
                    edit,
                    preview,
                    help_item(cycle, "tags"@),
                    cancel,
                ]
            }
        },
        NavigationMode::Tags => {
            let tags = keymap.tags.bindings@;
            let filter = help_item(Some("type"@), "filter"@);
            let accept = keybinds::hint_of(tags, TagsAction::AcceptOrDrill);
            if drilled {
                seq![
                    filter,
                    help_item(accept, "accept"@),
                    help_item(keybinds::hint_of(tags, TagsAction::ReturnToTags), "tags"@),
                    help_item(keybinds::hint_of(tags, TagsAction::Backspace), "clear/back"@),
                    help_item(cycle, "search"@),
                ]
            } else {
                seq![
                    filter,
                    help_item(accept, "open"@),
                    preview,
                    help_item(cycle, "search"@),
                    cancel,
                ]
            }
        },
    }
}

/// The items of the prompt's help line.
pub open spec fn prompt_items(keymap: ExecuteKeymap) -> Seq<HelpItemView> {
    let prompt = keymap.prompt.bindings@;
    seq![
        help_item(keybinds::hint_of(prompt, PromptAction::CompleteOrNext), "complete/next"@),
        help_item(keybinds::hint_of(prompt, PromptAction::PreviousVariable), "prev"@),
        help_item(keybinds::hint_of(prompt, PromptAction::Accept), "accept"@),
        help_item(keybinds::hint_of(prompt, PromptAction::ReturnToPicker), "return"@),
    ]
}

fn item(chord: Option<String>, label: &str) -> (item: HelpItem)
    ensures
        item@ == help_item(text::optional_text(chord), label@),
{
    HelpItem { chord, label: label.to_owned() }
}

impl<P: SuggestionProvider> ExecutionApp<P> {
    /// The help line of the picker.
    pub fn select_help(&self, selected_is_dir: bool) -> (out: String)
        requires
            self@.wf(),
        ensures
            out@ == help_of(
                select_items(
                    self.keymap,
                    self.nav_mode,
                    tags::drilled(self@.tags) is Some,
                    selected_is_dir,
                ),
            ),
    {
        let select = &self.keymap.select;
        let ghost whole = select_items(
            self.keymap,
            self.nav_mode,
            tags::drilled(self@.tags) is Some,
            selected_is_dir,
        );
        let preview = item(
            preview_hint(
                select.hint(SelectAction::PreviewDown),
                select.hint(SelectAction::PreviewUp),
            ),
            "preview",
        );
        let cycle = select.hint(SelectAction::CycleMode);
        let cancel = item(select.hint(SelectAction::CancelOrBack), "cancel");
        let edit = item(select.hint(SelectAction::Edit), "edit");
        let mut items: Vec<HelpItem> = Vec::new();
        match self.nav_mode {
            NavigationMode::Fuzzy => {
                items.push(item(self.keymap.fuzzy.hint(FuzzyAction::Accept), "accept"));
                items.push(edit);
                items.push(preview);
                items.push(item(cycle, "browse"));
                items.push(cancel);
            },
            NavigationMode::Browse => {
                let accept = self.keymap.browse.hint(BrowseAction::AcceptOrOpen);
                items.push(item(self.keymap.browse.hint(BrowseAction::Complete), "complete"));
                if selected_is_dir {
                    items.push(item(accept, "open"));
                } else {
                    items.push(item(accept, "accept"));
                    items.push(edit);
                }
                items.push(preview);
                items.push(item(cycle, "tags"));
                items.push(cancel);
            },
            NavigationMode::Tags => {
                let accept = self.keymap.tags.hint(TagsAction::AcceptOrDrill);
                items.push(item(Some("type".to_owned()), "filter"));
                if self.tags.drill().is_some() {
                    items.push(item(accept, "accept"));
                    items.push(item(self.keymap.tags.hint(TagsAction::ReturnToTags), "tags"));
                    items.push(item(self.keymap.tags.hint(TagsAction::Backspace), "clear/back"));
                    items.push(item(cycle, "search"));
                } else {
                    items.push(item(accept, "open"));
                    items.push(preview);
                    items.push(item(cycle, "search"));
                    items.push(cancel);
                }
            },
        }
        assert(item_views(items@) =~= whole);
        help_text(&items)
    }

    /// The help line of the prompt.
    pub fn prompt_help(&self) -> (out: String)
        ensures
            out@ == help_of(prompt_items(self.keymap)),
    {
        let keymap = &self.keymap.prompt;
        let mut items: Vec<HelpItem> = Vec::new();
        items.push(item(keymap.hint(PromptAction::CompleteOrNext), "complete/next"));
        items.push(item(keymap.hint(PromptAction::PreviousVariable), "prev"));
        items.push(item(keymap.hint(PromptAction::Accept), "accept"));
        items.push(item(keymap.hint(PromptAction::ReturnToPicker), "return"));
        assert(item_views(items@) =~= prompt_items(self.keymap));
        help_text(&items)
    }
}

/// A help line names the actions that have a key, each behind its key, in order.
pub proof fn law_help_names_bound_actions(items: Seq<HelpItemView>)
    ensures
        bound_items(items) == items.filter(|item: HelpItemView| item.chord is Some).map_values(
            |item: HelpItemView| item.chord->0 + seq![' '] + item.label,
        ),
    decreases items.len(),
{
    reveal(Seq::filter);
    let has = |item: HelpItemView| item.chord is Some;
    let named = |item: HelpItemView| item.chord->0 + seq![' '] + item.label;
    if items.len() > 0 {
        let front = items.drop_last();
        let last = items.last();
        law_help_names_bound_actions(front);
        if last.chord is Some {
            assert(last.chord->0.push(' ') + last.label =~= named(last));
        }
        assert(front.filter(has).push(last).map_values(named) =~= front.filter(has).map_values(
            named,
        ).push(named(last)));
    } else {
        assert(bound_items(items) =~= items.filter(has).map_values(named));
    }
}

} // verus!
