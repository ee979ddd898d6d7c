//! Filling the variables of a chosen snippet, one at a time.
//!
//! A variable may refer to others: through the command that lists its
//! suggestions, or through the template of its default. When the value of one
//! changes, the values kept for those that depend on it are marked as stale.

use vstd::prelude::*;
use crate::command_template;
use crate::domain;
use crate::domain::{SnippetId, Variable, VariableSource, VariableSpec};
use crate::execute;
use crate::execute::ExecutionOutcome;
use crate::execute::suggestions::SuggestionProvider;
use crate::execute::template;
use crate::index;
use crate::index::SnippetIndex;
use crate::keybinds;
use crate::keybinds::{KeyEvent, Keymap, PromptAction};
use crate::line_edit;
use crate::text;
use crate::text_map::{TextMap, TextSet};

verus! {

broadcast use vstd::string::group_string_axioms;

/// Suggestions kept for a command that refers to other variables.
#[derive(Debug, PartialEq, Eq)]
pub struct CachedSuggestions {
    /// The variable.
    pub name: String,
    /// The command with the values it referred to.
    pub command: String,
    /// What was suggested.
    pub suggestions: Vec<String>,
}

/// What a [`CachedSuggestions`] holds.
pub struct CachedView {
    pub name: Seq<char>,
    pub command: Seq<char>,
    pub suggestions: Seq<Seq<char>>,
}

impl View for CachedSuggestions {
    type V = CachedView;

    open spec fn view(&self) -> CachedView {
        CachedView {
            name: self.name@,
            command: self.command@,
            suggestions: text::texts(self.suggestions@),
        }
    }
}

/// What the entries of a cache hold.
pub open spec fn cache_views(cache: Seq<CachedSuggestions>) -> Seq<CachedView> {
    cache.map_values(|c: CachedSuggestions| c@)
}

/// The suggestions kept for a variable and command.
pub open spec fn cached(cache: Seq<CachedView>, name: Seq<char>, command: Seq<char>) -> Option<
    Seq<Seq<char>>,
>
    decreases cache.len(),
{
    if cache.len() == 0 {
        None
    } else if cache.last().name == name && cache.last().command == command {
        Some(cache.last().suggestions)
    } else {
        cached(cache.drop_last(), name, command)
    }
}

/// What a provider says of a variable.
pub struct Answers {
    /// The confirmed values it was told.
    pub confirmed: TextMap<String>,
    /// The text that the input starts with.
    pub default_input: Option<String>,
    /// The value taken when nothing is typed.
    pub default_value: Option<String>,
    /// The ghost text.
    pub hint: Option<String>,
    /// The suggestion command as written.
    pub command: Option<String>,
    /// The suggestions, or why there are none.
    pub suggestions: Result<Vec<String>, String>,
}

/// What [`Answers`] hold.
pub struct AnswersView {
    pub default_input: Option<Seq<char>>,
    pub default_value: Option<Seq<char>>,
    pub hint: Option<Seq<char>>,
    pub command: Option<Seq<char>>,
    pub suggestions: Result<Seq<Seq<char>>, Seq<char>>,
}

impl View for Answers {
    type V = AnswersView;

    open spec fn view(&self) -> AnswersView {
        AnswersView {
            default_input: text::optional_text(self.default_input),
            default_value: text::optional_text(self.default_value),
            hint: text::optional_text(self.hint),
            command: text::optional_text(self.command),
            suggestions: match self.suggestions {
                Ok(items) => Ok(text::texts(items@)),
                Err(message) => Err(message@),
            },
        }
    }
}

/// Filling the variables of a snippet.
pub struct PromptState {
    /// The snippet.
    pub snippet_id: SnippetId,
    /// Its variables in order, each name once.
    pub variables: Vec<Variable>,
    /// The descriptions of variables in the snippet's file.
    pub local_variables: TextMap<VariableSpec>,
    /// Place of the variable being edited.
    pub index: usize,
    /// The value kept for each variable that was left.
    pub values: TextMap<String>,
    /// The text typed for the variable being edited.
    pub input: String,
    /// The suggestions for the variable being edited.
    pub suggestions: Vec<String>,
    /// Why there are no suggestions.
    pub error: Option<String>,
    /// The highlighted row of the visible suggestions.
    pub selection: Option<usize>,
    /// Ghost text shown while the input is empty.
    pub hint: Option<String>,
    /// The value taken when nothing is typed and nothing is highlighted.
    pub default_value: Option<String>,
    /// Variables whose kept value rests on a value that has changed since.
    pub dirty: TextSet,
    /// Whether the input was seeded with the shell's command line.
    pub seeded_from_buffer: bool,
    /// Suggestions of commands that refer to other variables.
    pub cache: Vec<CachedSuggestions>,
}

/// What a [`PromptState`] holds.
#[verifier::ext_equal]
pub struct PromptView {
    pub snippet_id: Seq<char>,
    pub variables: Seq<domain::VariableView>,
    pub local_variables: Map<Seq<char>, domain::VariableSpecView>,
    pub index: usize,
    pub values: Map<Seq<char>, Seq<char>>,
    pub input: Seq<char>,
    pub suggestions: Seq<Seq<char>>,
    pub error: Option<Seq<char>>,
    pub selection: Option<usize>,
    pub hint: Option<Seq<char>>,
    pub default_value: Option<Seq<char>>,
    pub dirty: Set<Seq<char>>,
    pub seeded_from_buffer: bool,
    pub cache: Seq<CachedView>,
}

impl View for PromptState {
    type V = PromptView;

    open spec fn view(&self) -> PromptView {
        PromptView {
            snippet_id: self.snippet_id@,
            variables: domain::variable_views(self.variables@),
            local_variables: domain::spec_views(self.local_variables@),
            index: self.index,
            values: self.values.texts(),
            input: self.input@,
            suggestions: text::texts(self.suggestions@),
            error: text::optional_text(self.error),
            selection: self.selection,
            hint: text::optional_text(self.hint),
            default_value: text::optional_text(self.default_value),
            dirty: self.dirty@,
            seeded_from_buffer: self.seeded_from_buffer,
            cache: cache_views(self.cache@),
        }
    }
}

/// The items that hold `needle`, letter case aside; all where it is empty.
pub open spec fn matching(items: Seq<Seq<char>>, needle: Seq<char>) -> Seq<Seq<char>>
    decreases items.len(),
{
    if items.len() == 0 {
        Seq::empty()
    } else {
        let before = matching(items.drop_last(), needle);
        if needle.len() == 0 || text::occurs(text::lowercase(items.last()), needle) {
            before.push(items.last())
        } else {
            before
        }
    }
}

/// Pasted text as it goes into the input: line ends become newlines, other
/// control characters are dropped.
pub open spec fn pasted(s: Seq<char>) -> Seq<char>
    decreases s.len(),
{
    if s.len() == 0 {
        Seq::empty()
    } else if s[0] == '\r' {
        seq!['\n'] + pasted(
            if s.len() > 1 && s[1] == '\n' {
                s.skip(2)
            } else {
                s.skip(1)
            },
        )
    } else if s[0] == '\n' || !text::is_control_char(s[0]) {
        seq![s[0]] + pasted(s.skip(1))
    } else {
        pasted(s.skip(1))
    }
}

/// The text of an inline default with the confirmed values; none for another
/// source or where a value is missing.
pub open spec fn inline_default(
    source: domain::VariableSourceView,
    confirmed: Map<Seq<char>, Seq<char>>,
) -> Option<Seq<char>> {
    match source {
        domain::VariableSourceView::Default(fragments) => match command_template::render_of(
            fragments,
            confirmed,
        ) {
            Ok(rendered) => Some(rendered),
            Err(_) => None,
        },
        _ => None,
    }
}

/// Whether a template refers to a variable.
pub open spec fn refers(fragments: Seq<command_template::FragmentView>) -> bool {
    exists|i: int| 0 <= i < fragments.len() && #[trigger] fragments[i] is Ref
}

/// What the suggestions of a command that refers to other variables are kept
/// under: the command with the confirmed values in it.
pub open spec fn cache_key(
    command: Option<Seq<char>>,
    confirmed: Map<Seq<char>, Seq<char>>,
) -> Option<Seq<char>> {
    match command {
        None => None,
        Some(source) => match command_template::parse_of(source) {
            Err(_) => None,
            Ok(fragments) => if !refers(fragments) {
                None
            } else {
                match command_template::render_of(fragments, confirmed) {
                    Ok(rendered) => Some(rendered),
                    Err(_) => None,
                }
            },
        },
    }
}

/// The names a template refers to; none where it is malformed.
pub open spec fn names_in(source: Option<Seq<char>>) -> Set<Seq<char>> {
    match source {
        None => Set::empty(),
        Some(s) => match command_template::parse_of(s) {
            Ok(fragments) => command_template::names_of(fragments),
            Err(_) => Set::empty(),
        },
    }
}

/// The variables that a variable depends on: those its inline default, its
/// suggestion command and its default value refer to.
pub open spec fn upstream_of(
    source: domain::VariableSourceView,
    command: Option<Seq<char>>,
    default_value: Option<Seq<char>>,
) -> Set<Seq<char>> {
    let inline = match source {
        domain::VariableSourceView::Default(fragments) => command_template::names_of(fragments),
        _ => Set::empty(),
    };
    inline.union(names_in(command)).union(names_in(default_value))
}

/// Whether something that depends on `upstream` depends on `name` or on one of
/// `marked`.
pub open spec fn touched(
    upstream: Set<Seq<char>>,
    name: Seq<char>,
    marked: Set<Seq<char>>,
) -> bool {
    exists|m: Seq<char>| #[trigger] upstream.contains(m) && (m == name || marked.contains(m))
}

/// `marked` and every name that depends directly on `name` or on one of them.
pub open spec fn spread(
    names: Seq<Seq<char>>,
    upstreams: Seq<Set<Seq<char>>>,
    name: Seq<char>,
    marked: Set<Seq<char>>,
) -> Set<Seq<char>> {
    marked.union(
        Set::new(
            |x: Seq<char>|
                exists|i: int|
                    0 <= i < names.len() && #[trigger] names[i] == x && touched(
                        upstreams[i],
                        name,
                        marked,
                    ),
        ),
    )
}

/// The names that depend on `name` over at most `steps` steps.
pub open spec fn spread_times(
    names: Seq<Seq<char>>,
    upstreams: Seq<Set<Seq<char>>>,
    name: Seq<char>,
    steps: nat,
) -> Set<Seq<char>>
    decreases steps,
{
    if steps == 0 {
        Set::empty()
    } else {
        spread(names, upstreams, name, spread_times(names, upstreams, name, (steps - 1) as nat))
    }
}

/// The names that depend on `name`, directly or through others.
pub open spec fn dependents(
    names: Seq<Seq<char>>,
    upstreams: Seq<Set<Seq<char>>>,
    name: Seq<char>,
) -> Set<Seq<char>> {
    spread_times(names, upstreams, name, names.len())
}

/// The sets of names.
pub open spec fn name_sets(sets: Seq<TextSet>) -> Seq<Set<Seq<char>>> {
    sets.map_values(|s: TextSet| s@)
}

impl PromptView {
    /// Whether a variable is being edited.
    pub open spec fn wf(self) -> bool {
        self.index < self.variables.len()
    }

    /// The variable being edited.
    pub open spec fn current(self) -> domain::VariableView {
        self.variables[self.index as int]
    }

    /// The suggestions that match the input, in alphabetical order.
    pub open spec fn visible(self) -> Seq<Seq<char>> {
        text::in_order(matching(self.suggestions, text::lowercase(self.input)))
    }

    /// The highlighted suggestion: the first where none was chosen.
    pub open spec fn highlighted(self) -> Option<Seq<char>> {
        let row = match self.selection {
            Some(row) => row as int,
            None => 0,
        };
        if row < self.visible().len() {
            Some(self.visible()[row])
        } else {
            None
        }
    }

    /// The value that the variable being edited gets: what was typed, or else
    /// what is highlighted, or else its default value.
    pub open spec fn value(self) -> Seq<char> {
        if self.input.len() > 0 {
            self.input
        } else if self.highlighted() is Some {
            self.highlighted()->0
        } else if self.default_value is Some {
            self.default_value->0
        } else {
            Seq::empty()
        }
    }

    /// The kept values that are not stale.
    pub open spec fn confirmed(self) -> Map<Seq<char>, Seq<char>> {
        self.values.remove_keys(self.dirty)
    }

    /// With the first visible suggestion highlighted.
    pub open spec fn reset(self) -> PromptView {
        PromptView {
            selection: if self.visible().len() == 0 {
                None
            } else {
                Some(0)
            },
            ..self
        }
    }

    /// With another input.
    pub open spec fn with_input(self, input: Seq<char>) -> PromptView {
        PromptView { input, ..self }.reset()
    }

    /// With the highlight moved.
    pub open spec fn moved(self, delta: int) -> PromptView {
        PromptView {
            selection: line_edit::moved_selection(
                self.selection,
                delta,
                self.visible().len() as int,
            ),
            ..self
        }
    }

    /// The suggestions kept for the variable being edited.
    pub open spec fn kept(self, command: Option<Seq<char>>) -> Option<Seq<Seq<char>>> {
        match cache_key(command, self.confirmed()) {
            None => None,
            Some(key) => cached(self.cache, self.current().name, key),
        }
    }

    /// With the variable being edited set up: the input starts with the kept
    /// value, or the inline default, or what the provider has.
    pub open spec fn loaded(self, answers: AnswersView) -> PromptView {
        let name = self.current().name;
        let confirmed = self.confirmed();
        let input = if self.values.contains_key(name) {
            self.values[name]
        } else {
            match inline_default(self.current().source, confirmed) {
                Some(value) => value,
                None => match answers.default_input {
                    Some(value) => value,
                    None => Seq::empty(),
                },
            }
        };
        let base = PromptView {
            input,
            hint: answers.hint,
            default_value: answers.default_value,
            error: None,
            ..self
        };
        (match self.kept(answers.command) {
            Some(items) => PromptView { suggestions: items, ..base },
            None => match answers.suggestions {
                Err(message) => PromptView {
                    suggestions: Seq::empty(),
                    error: Some(message),
                    ..base
                },
                Ok(items) => PromptView {
                    suggestions: items,
                    cache: match cache_key(answers.command, confirmed) {
                        None => self.cache,
                        Some(command) => self.cache.push(
                            CachedView { name, command, suggestions: items },
                        ),
                    },
                    ..base
                },
            },
        }).reset()
    }

    /// With the value of the variable being edited kept. Where it is another
    /// than before, the values kept for those that depend on it are stale.
    pub open spec fn stored(self, upstreams: Seq<Set<Seq<char>>>) -> PromptView {
        let name = self.current().name;
        let value = self.value();
        let fresh = self.dirty.remove(name);
        let same = self.values.contains_key(name) && self.values[name] == value;
        PromptView {
            values: self.values.insert(name, value),
            dirty: if same {
                fresh
            } else {
                fresh.union(
                    dependents(
                        template::variable_names(self.variables),
                        upstreams,
                        name,
                    ).intersect(self.values.dom()).remove(name),
                )
            },
            ..self
        }
    }

    /// With another variable being edited.
    pub open spec fn at(self, index: usize) -> PromptView {
        PromptView { index, ..self }
    }

    /// The place `delta` behind the variable being edited, around the ends.
    pub open spec fn around(self, delta: int) -> usize {
        ((self.index + delta) % (self.variables.len() as int)) as usize
    }
}

/// Every name that depends on `name`, or on a name that does, is among its
/// dependents.
pub proof fn law_dependents_are_complete(
    names: Seq<Seq<char>>,
    upstreams: Seq<Set<Seq<char>>>,
    name: Seq<char>,
    i: int,
)
    requires
        upstreams.len() == names.len(),
        0 <= i < names.len(),
        touched(upstreams[i], name, dependents(names, upstreams, name)),
    ensures
        dependents(names, upstreams, name).contains(names[i]),
{
    let n = names.len();
    let last = spread_times(names, upstreams, name, n);
    let next = spread_times(names, upstreams, name, n + 1);
    assert(next == spread(names, upstreams, name, last));
    assert(next.contains(names[i]));
    lemma_spread_grows(names, upstreams, name, n);
    names.lemma_cardinality_of_set();
    vstd::set_lib::lemma_len_subset(next, names.to_set());
    if next != last {
        assert(false);
    }
}

/// As long as another step adds a name, there are as many names as steps.
proof fn lemma_spread_grows(
    names: Seq<Seq<char>>,
    upstreams: Seq<Set<Seq<char>>>,
    name: Seq<char>,
    steps: nat,
)
    ensures
        spread_times(names, upstreams, name, steps + 1).subset_of(names.to_set()),
        names.to_set().finite(),
        spread_times(names, upstreams, name, steps + 1) == spread_times(
            names,
            upstreams,
            name,
            steps,
        ) || spread_times(names, upstreams, name, steps + 1).len() >= steps + 1,
    decreases steps,
{
    let now = spread_times(names, upstreams, name, steps);
    let next = spread_times(names, upstreams, name, steps + 1);
    assert(next == spread(names, upstreams, name, now));
    vstd::seq_lib::seq_to_set_is_finite(names);
    if steps > 0 {
        let before = spread_times(names, upstreams, name, (steps - 1) as nat);
        lemma_spread_grows(names, upstreams, name, (steps - 1) as nat);
        assert(now == spread(names, upstreams, name, before));
        if now == before {
            assert(next == now);
        }
    }
    assert forall|x: Seq<char>| next.contains(x) implies names.to_set().contains(x) by {
        if !now.contains(x) {
            let i = choose|i: int|
                0 <= i < names.len() && #[trigger] names[i] == x && touched(
                    upstreams[i],
                    name,
                    now,
                );
            assert(names[i] == x);
        }
    }
    if next != now {
        assert(now.subset_of(next));
        vstd::set_lib::lemma_len_subset(next, names.to_set());
        vstd::set_lib::lemma_len_subset(now, names.to_set());
        vstd::set_lib::lemma_len_subset(now, next);
        if now.len() == next.len() {
            vstd::set_lib::lemma_subset_equality(now, next);
        }
    }
}

/// The items that hold `needle`, letter case aside.
fn matching_items(items: &Vec<String>, needle: &str) -> (out: Vec<String>)
    ensures
        text::texts(out@) == matching(text::texts(items@), needle@),
{
    let ghost all = text::texts(items@);
    let mut out: Vec<String> = Vec::new();
    let mut i: usize = 0;
    assert(all.take(0) =~= Seq::<Seq<char>>::empty());
    assert(text::texts(out@) =~= Seq::<Seq<char>>::empty());
    while i < items.len()
        invariant
            i <= items@.len(),
            all == text::texts(items@),
            text::texts(out@) == matching(all.take(i as int), needle@),
        decreases items@.len() - i,
    {
        assert(all.take(i + 1).drop_last() =~= all.take(i as int));
        assert(all.take(i + 1).last() == items@[i as int]@);
        let lower = text::to_lowercase(items[i].as_str());
        if needle.is_empty() || text::contains_text(lower.as_str(), needle) {
            let item = items[i].clone();
            proof {
                text::lemma_texts_push(out@, item);
            }
            out.push(item);
        }
        i = i + 1;
    }
    assert(all.take(all.len() as int) =~= all);
    out
}

/// Pasted text as it goes into the input.
fn clean_paste(s: &str) -> (out: String)
    ensures
        out@ == pasted(s@),
{
    let chars = text::chars_of(s);
    let mut out = String::new();
    let mut i: usize = 0;
    assert(chars@.skip(0) =~= chars@);
    assert(out@ + pasted(chars@) =~= pasted(s@));
    while i < chars.len()
        invariant
            i <= chars@.len(),
            out@ + pasted(chars@.skip(i as int)) == pasted(s@),
        decreases chars@.len() - i,
    {
        let ghost before = out@;
        let ghost rest = chars@.skip(i as int);
        assert(rest.skip(1) =~= chars@.skip(i + 1));
        if chars[i] == '\r' {
            out.push('\n');
            if i + 1 < chars.len() && chars[i + 1] == '\n' {
                assert(rest.skip(2) =~= chars@.skip(i + 2));
                i = i + 1;
            }
            assert(before.push('\n') + pasted(chars@.skip(i + 1)) =~= before + (seq!['\n'] + pasted(
                chars@.skip(i + 1),
            )));
        } else if chars[i] == '\n' || !text::control_char(chars[i]) {
            out.push(chars[i]);
            assert(before.push(rest[0]) + pasted(rest.skip(1)) =~= before + (seq![rest[0]] + pasted(
                rest.skip(1),
            )));
        }
        i = i + 1;
    }
    assert(out@ + Seq::<char>::empty() =~= out@);
    out
}

/// What the suggestions of a command are kept under.
fn key_for(command: &Option<String>, confirmed: &TextMap<String>) -> (key: Option<String>)
    ensures
        text::optional_text(key) == cache_key(text::optional_text(*command), confirmed.texts()),
{
    match command {
        None => None,
        Some(source) => match command_template::parse_command_template(source.as_str()) {
            Err(_) => None,
            Ok(fragments) => {
                if !command_template::is_dependent(&fragments) {
                    return None;
                }
                match command_template::render(&fragments, confirmed) {
                    Ok(rendered) => Some(rendered),
                    Err(_) => None,
                }
            },
        },
    }
}

/// Adds the names of `more`.
fn add_names(names: &mut TextSet, more: &TextSet)
    ensures
        final(names)@ == old(names)@.union(more@),
{
    let members = more.members();
    let ghost all = text::texts(members@);
    let ghost start = names@;
    let mut i: usize = 0;
    while i < members.len()
        invariant
            i <= members@.len(),
            all == text::texts(members@),
            forall|x: Seq<char>| #[trigger]
                names@.contains(x) <==> start.contains(x) || all.take(i as int).contains(x),
        decreases members@.len() - i,
    {
        let ghost before = names@;
        names.insert(members[i].clone());
        assert forall|x: Seq<char>| #[trigger]
            names@.contains(x) <==> start.contains(x) || all.take(i + 1).contains(x) by {
            assert(before.contains(x) <==> start.contains(x) || all.take(i as int).contains(x));
            assert(all.take(i + 1)[i as int] == all[i as int]);
            if all.take(i as int).contains(x) {
                let j = all.take(i as int).index_of(x);
                assert(all.take(i + 1)[j] == x);
            }
            if all.take(i + 1).contains(x) {
                let j = all.take(i + 1).index_of(x);
                if j < i {
                    assert(all.take(i as int)[j] == x);
                }
            }
        }
        i = i + 1;
    }
    assert(all.take(all.len() as int) =~= all);
    assert forall|x: Seq<char>| all.contains(x) == more@.contains(x) by {
        assert(all.to_set() == more@);
    }
    assert(names@ =~= start.union(more@));
}

/// The names a template refers to.
fn names_within(source: &Option<String>) -> (names: TextSet)
    ensures
        names@ == names_in(text::optional_text(*source)),
{
    match source {
        None => TextSet::new(),
        Some(s) => match command_template::parse_command_template(s.as_str()) {
            Ok(fragments) => command_template::referenced_names(&fragments),
            Err(_) => TextSet::new(),
        },
    }
}

/// The variables that a variable depends on.
pub fn upstream_names(
    variable: &Variable,
    command: &Option<String>,
    default_value: &Option<String>,
) -> (names: TextSet)
    ensures
        names@ == upstream_of(
            variable@.source,
            text::optional_text(*command),
            text::optional_text(*default_value),
        ),
{
    let mut names = match &variable.source {
        VariableSource::Default(fragments) => command_template::referenced_names(fragments),
        _ => TextSet::new(),
    };
    add_names(&mut names, &names_within(command));
    add_names(&mut names, &names_within(default_value));
    names
}

/// Whether something that depends on `upstream` depends on `name` or on one of
/// `marked`.
fn is_touched(upstream: &TextSet, name: &str, marked: &TextSet) -> (yes: bool)
    ensures
        yes == touched(upstream@, name@, marked@),
{
    let members = upstream.members();
    let ghost all = text::texts(members@);
    let mut i: usize = 0;
    while i < members.len()
        invariant
            i <= members@.len(),
            all == text::texts(members@),
            all.to_set() == upstream@,
            forall|j: int|
                0 <= j < i ==> #[trigger] all[j] != name@ && !marked@.contains(all[j]),
        decreases members@.len() - i,
    {
        let m = members[i].as_str();
        assert(all[i as int] == m@);
        if text::same_text(m, name) || marked.contains(m) {
            assert(all.contains(m@));
            assert(upstream@.contains(m@));
            return true;
        }
        i = i + 1;
    }
    proof {
        assert forall|m: Seq<char>| #[trigger] upstream@.contains(m) implies !(m == name@
            || marked@.contains(m)) by {
            assert(all.contains(m));
            let j = all.index_of(m);
            assert(all[j] == m);
        }
    }
    false
}

/// `marked` and every name that depends directly on `name` or on one of them.
fn spread_names(
    variables: &Vec<Variable>,
    upstreams: &Vec<TextSet>,
    name: &str,
    marked: &TextSet,
) -> (out: TextSet)
    requires
        upstreams@.len() == variables@.len(),
    ensures
        out@ == spread(
            template::variable_names(domain::variable_views(variables@)),
            name_sets(upstreams@),
            name@,
            marked@,
        ),
{
    let ghost names = template::variable_names(domain::variable_views(variables@));
    let ghost sets = name_sets(upstreams@);
    let mut out = marked.copy();
    let mut i: usize = 0;
    while i < variables.len()
        invariant
            i <= variables@.len(),
            upstreams@.len() == variables@.len(),
            names == template::variable_names(domain::variable_views(variables@)),
            sets == name_sets(upstreams@),
            forall|x: Seq<char>| #[trigger]
                out@.contains(x) <==> marked@.contains(x) || (exists|j: int|
                    0 <= j < i && #[trigger] names[j] == x && touched(sets[j], name@, marked@)),
        decreases variables@.len() - i,
    {
        let ghost before = out@;
        assert(names[i as int] == variables@[i as int].name@);
        assert(sets[i as int] == upstreams@[i as int]@);
        let hit = is_touched(&upstreams[i], name, marked);
        if hit {
            out.insert(variables[i].name.clone());
        }
        proof {
            assert forall|x: Seq<char>| #[trigger] out@.contains(x) <==> marked@.contains(x) || (
            exists|j: int|
                0 <= j < i + 1 && #[trigger] names[j] == x && touched(sets[j], name@, marked@)) by {
                assert(before.contains(x) <==> marked@.contains(x) || (exists|j: int|
                    0 <= j < i && #[trigger] names[j] == x && touched(sets[j], name@, marked@)));
                if before.contains(x) && !marked@.contains(x) {
                    let j = choose|j: int|
                        0 <= j < i && #[trigger] names[j] == x && touched(sets[j], name@, marked@);
                    assert(names[j] == x);
                }
                if hit && x == names[i as int] {
                    assert(names[i as int] == x);
                }
            }
        }
        i = i + 1;
    }
    assert(out@ =~= spread(names, sets, name@, marked@));
    out
}

/// The names that depend on `name`, directly or through others.
pub fn dependent_names(variables: &Vec<Variable>, upstreams: &Vec<TextSet>, name: &str) -> (out:
    TextSet)
    requires
        upstreams@.len() == variables@.len(),
    ensures
        out@ == dependents(
            template::variable_names(domain::variable_views(variables@)),
            name_sets(upstreams@),
            name@,
        ),
{
    let ghost names = template::variable_names(domain::variable_views(variables@));
    let ghost sets = name_sets(upstreams@);
    let mut out = TextSet::new();
    let mut step: usize = 0;
    while step < variables.len()
        invariant
            step <= variables@.len(),
            upstreams@.len() == variables@.len(),
            names == template::variable_names(domain::variable_views(variables@)),
            sets == name_sets(upstreams@),
            out@ == spread_times(names, sets, name@, step as nat),
        decreases variables@.len() - step,
    {
        out = spread_names(variables, upstreams, name, &out);
        step = step + 1;
    }
    out
}

impl PromptState {
    /// Starts with the first of `variables`.
    pub fn new(
        snippet_id: SnippetId,
        variables: Vec<Variable>,
        local_variables: TextMap<VariableSpec>,
    ) -> (prompt: Self)
        requires
            variables@.len() > 0,
        ensures
            prompt@ == (PromptView {
                snippet_id: snippet_id@,
                variables: domain::variable_views(variables@),
                local_variables: domain::spec_views(local_variables@),
                index: 0,
                values: Map::empty(),
                input: Seq::empty(),
                suggestions: Seq::empty(),
                error: None,
                selection: None,
                hint: None,
                default_value: None,
                dirty: Set::empty(),
                seeded_from_buffer: false,
                cache: Seq::empty(),
            }),
            prompt@.wf(),
            prompt.variables == variables,
            prompt.local_variables == local_variables,
    {
        let prompt = PromptState {
            snippet_id,
            variables,
            local_variables,
            index: 0,
            values: TextMap::new(),
            input: String::new(),
            suggestions: Vec::new(),
            error: None,
            selection: None,
            hint: None,
            default_value: None,
            dirty: TextSet::new(),
            seeded_from_buffer: false,
            cache: Vec::new(),
        };
        assert(prompt@.values =~= Map::empty());
        assert(prompt@.input =~= Seq::empty());
        assert(prompt@.suggestions =~= Seq::empty());
        assert(prompt@.cache =~= Seq::empty());
        prompt
    }

    /// The variable being edited.
    pub fn current_variable(&self) -> (variable: &Variable)
        requires
            self@.wf(),
        ensures
            variable@ == self@.current(),
            *variable == self.variables@[self.index as int],
    {
        &self.variables[self.index]
    }

    /// The value that the variable being edited gets.
    pub fn current_value(&self) -> (value: String)
        ensures
            value@ == self@.value(),
    {
        if !self.input.as_str().is_empty() {
            return self.input.clone();
        }
        match self.selected_visible_suggestion() {
            Some(suggestion) => suggestion,
            None => match &self.default_value {
                Some(value) => value.clone(),
                None => {
                    let empty = String::new();
                    assert(empty@ =~= Seq::<char>::empty());
                    empty
                },
            },
        }
    }

    /// The suggestions that match the input, in alphabetical order.
    pub fn visible_suggestions(&self) -> (out: Vec<String>)
        ensures
            text::texts(out@) == self@.visible(),
    {
        let needle = text::to_lowercase(self.input.as_str());
        text::sort_texts(matching_items(&self.suggestions, needle.as_str()))
    }

    /// The highlighted suggestion.
    pub fn selected_visible_suggestion(&self) -> (out: Option<String>)
        ensures
            text::optional_text(out) == self@.highlighted(),
    {
        let visible = self.visible_suggestions();
        let row: usize = match self.selection {
            Some(row) => row,
            None => 0,
        };
        assert(visible@.len() == self@.visible().len());
        if row < visible.len() {
            assert(self@.visible()[row as int] == visible@[row as int]@);
            Some(visible[row].clone())
        } else {
            None
        }
    }

    /// The kept values that are not stale.
    pub fn confirmed(&self) -> (out: TextMap<String>)
        ensures
            out.texts() == self@.confirmed(),
    {
        let out = self.values.without(&self.dirty);
        assert(out.texts() =~= self@.confirmed());
        out
    }

    /// Adds pasted text to the input.
    pub fn append_input(&mut self, text: &str)
        ensures
            final(self)@ == (if text@.len() == 0 {
                old(self)@
            } else {
                old(self)@.with_input(old(self)@.input + pasted(text@))
            }),
            final(self).variables == old(self).variables,
            final(self).local_variables == old(self).local_variables,
    {
        if text.is_empty() {
            return ;
        }
        let clean = clean_paste(text);
        self.input.append(clean.as_str());
        self.reset_selection();
    }

    /// Puts another text into the input.
    pub fn set_input(&mut self, input: String)
        ensures
            final(self)@ == old(self)@.with_input(input@),
            final(self).variables == old(self).variables,
            final(self).local_variables == old(self).local_variables,
    {
        self.input = input;
        self.reset_selection();
    }

    /// Types a character.
    fn push_input(&mut self, c: char)
        ensures
            final(self)@ == old(self)@.with_input(old(self)@.input.push(c)),
            final(self).variables == old(self).variables,
            final(self).local_variables == old(self).local_variables,
    {
        self.input.push(c);
        self.reset_selection();
    }

    /// Highlights the first visible suggestion.
    pub fn reset_selection(&mut self)
        ensures
            final(self)@ == old(self)@.reset(),
            final(self).variables == old(self).variables,
            final(self).local_variables == old(self).local_variables,
    {
        let visible = self.visible_suggestions();
        assert(visible@.len() == self@.visible().len());
        if visible.len() == 0 {
            self.selection = None;
        } else {
            self.selection = Some(0);
        }
    }

    /// Moves the highlight.
    pub fn move_cursor(&mut self, delta: i32)
        ensures
            final(self)@ == old(self)@.moved(delta as int),
            final(self).variables == old(self).variables,
            final(self).local_variables == old(self).local_variables,
    {
        let visible = self.visible_suggestions();
        assert(visible@.len() == self@.visible().len());
        self.selection = line_edit::move_selection(self.selection, delta, visible.len());
    }

    /// The suggestions kept for the variable being edited under `key`.
    fn cached_for(&self, name: &str, key: &str) -> (out: Option<Vec<String>>)
        ensures
            match out {
                Some(items) => cached(self@.cache, name@, key@) == Some(text::texts(items@)),
                None => cached(self@.cache, name@, key@) is None,
            },
    {
        let ghost all = self@.cache;
        let mut i: usize = self.cache.len();
        assert(all.take(all.len() as int) =~= all);
        while i > 0
            invariant
                i <= self.cache@.len(),
                all == cache_views(self.cache@),
                cached(all, name@, key@) == cached(all.take(i as int), name@, key@),
            decreases i,
        {
            assert(all.take(i as int).drop_last() =~= all.take(i - 1));
            assert(all.take(i as int).last() == self.cache@[i - 1]@);
            let entry = &self.cache[i - 1];
            if text::same_text(entry.name.as_str(), name) && text::same_text(
                entry.command.as_str(),
                key,
            ) {
                return Some(text::copy_texts(&entry.suggestions));
            }
            i = i - 1;
        }
        None
    }

    /// The suggestions kept for the variable being edited.
    fn kept_suggestions(&self, command: &Option<String>) -> (out: Option<Vec<String>>)
        requires
            self@.wf(),
        ensures
            match out {
                Some(items) => self@.kept(text::optional_text(*command)) == Some(
                    text::texts(items@),
                ),
                None => self@.kept(text::optional_text(*command)) is None,
            },
    {
        let confirmed = self.confirmed();
        match key_for(command, &confirmed) {
            None => None,
            Some(key) => self.cached_for(self.current_variable().name.as_str(), key.as_str()),
        }
    }

    /// Sets up the variable being edited with what a provider says of it.
    pub fn load(&mut self, answers: Answers)
        requires
            old(self)@.wf(),
        ensures
            final(self)@ == old(self)@.loaded(answers@),
            final(self).variables == old(self).variables,
            final(self).local_variables == old(self).local_variables,
    {
        let confirmed = self.confirmed();
        let kept = self.kept_suggestions(&answers.command);
        let key = key_for(&answers.command, &confirmed);
        let ghost start = self@;
        let variable = self.current_variable();
        let name = variable.name.clone();
        let inline = match &variable.source {
            VariableSource::Default(fragments) => match command_template::render(
                fragments,
                &confirmed,
            ) {
                Ok(rendered) => Some(rendered),
                Err(_) => None,
            },
            _ => None,
        };
        assert(text::optional_text(inline) == inline_default(start.current().source, start.confirmed()));
        let input = match self.values.get(name.as_str()) {
            Some(value) => value.clone(),
            None => match inline {
                Some(value) => value,
                None => match answers.default_input {
                    Some(value) => value,
                    None => {
                        let empty = String::new();
                        assert(empty@ =~= Seq::<char>::empty());
                        empty
                    },
                },
            },
        };
        self.input = input;
        self.hint = answers.hint;
        self.default_value = answers.default_value;
        self.error = None;
        match kept {
            Some(items) => {
                self.suggestions = items;
            },
            None => match answers.suggestions {
                Err(message) => {
                    self.suggestions = Vec::new();
                    assert(text::texts(self.suggestions@) =~= Seq::<Seq<char>>::empty());
                    self.error = Some(message);
                },
                Ok(items) => {
                    match key {
                        None => {},
                        Some(command) => {
                            let entry = CachedSuggestions {
                                name,
                                command,
                                suggestions: text::copy_texts(&items),
                            };
                            let ghost before = self.cache@;
                            self.cache.push(entry);
                            assert(cache_views(self.cache@) =~= cache_views(before).push(entry@));
                        },
                    }
                    self.suggestions = items;
                },
            },
        }
        self.reset_selection();
    }

    /// Keeps the value of the variable being edited. `upstreams` holds, for
    /// each variable, those it depends on.
    pub fn store(&mut self, upstreams: &Vec<TextSet>)
        requires
            old(self)@.wf(),
            upstreams@.len() == old(self).variables@.len(),
        ensures
            final(self)@ == old(self)@.stored(name_sets(upstreams@)),
            final(self).variables == old(self).variables,
            final(self).local_variables == old(self).local_variables,
    {
        let ghost start = self@;
        let name = self.current_variable().name.clone();
        let value = self.current_value();
        let same = match self.values.get(name.as_str()) {
            Some(kept) => text::same_text(kept.as_str(), value.as_str()),
            None => false,
        };
        self.dirty.remove(name.as_str());
        let ghost fresh = self.dirty@;
        if !same {
            let names = dependent_names(&self.variables, upstreams, name.as_str());
            let members = names.members();
            let ghost all = text::texts(members@);
            let ghost stale = start.values.dom().remove(name@);
            let mut i: usize = 0;
            while i < members.len()
                invariant
                    i <= members@.len(),
                    all == text::texts(members@),
                    self@ == (PromptView { dirty: self.dirty@, ..start }),
                    self.variables == old(self).variables,
                    self.local_variables == old(self).local_variables,
                    stale == start.values.dom().remove(name@),
                    forall|x: Seq<char>| #[trigger]
                        self.dirty@.contains(x) <==> fresh.contains(x) || (all.take(
                            i as int,
                        ).contains(x) && stale.contains(x)),
                decreases members@.len() - i,
            {
                let ghost before = self.dirty@;
                let m = members[i].as_str();
                assert(all[i as int] == m@);
                let is_kept = self.values.contains_key(m);
                let is_self = text::same_text(m, name.as_str());
                assert(stale.contains(m@) == (is_kept && !is_self)) by {
                    assert(self.values.texts() == start.values);
                    assert(start.values.dom().contains(m@) == self.values@.contains_key(m@));
                }
                if is_kept && !is_self {
                    self.dirty.insert(members[i].clone());
                }
                proof {
                    assert forall|x: Seq<char>| #[trigger]
                        self.dirty@.contains(x) <==> fresh.contains(x) || (all.take(i + 1).contains(
                            x,
                        ) && stale.contains(x)) by {
                        assert(before.contains(x) <==> fresh.contains(x) || (all.take(
                            i as int,
                        ).contains(x) && stale.contains(x)));
                        assert(all.take(i + 1)[i as int] == all[i as int]);
                        if all.take(i as int).contains(x) {
                            let j = all.take(i as int).index_of(x);
                            assert(all.take(i + 1)[j] == x);
                        }
                        if all.take(i + 1).contains(x) {
                            let j = all.take(i + 1).index_of(x);
                            if j < i {
                                assert(all.take(i as int)[j] == x);
                            }
                        }
                    }
                }
                i = i + 1;
            }
            proof {
                assert(all.take(all.len() as int) =~= all);
                let set = dependents(
                    template::variable_names(start.variables),
                    name_sets(upstreams@),
                    name@,
                );
                assert forall|x: Seq<char>| all.contains(x) == set.contains(x) by {
                    assert(all.to_set() == set);
                }
                assert(self.dirty@ =~= fresh.union(
                    set.intersect(start.values.dom()).remove(name@),
                ));
            }
        }
        self.values.insert(name, value);
        assert(self.values.texts() =~= start.values.insert(name@, value@));
    }
}

/// Whether `answers` is what `provider` says of `variable` when `before` is
/// the state: it is told the confirmed values, and asked for suggestions
/// unless some are kept.
pub open spec fn answered<P: SuggestionProvider>(
    provider: &P,
    variable: &Variable,
    local_variables: &TextMap<VariableSpec>,
    cwd: Seq<char>,
    before: PromptView,
    answers: Answers,
) -> bool {
    let told = &answers.confirmed;
    &&& told.texts() == before.confirmed()
    &&& call_ensures(
        P::default_input,
        (provider, variable, local_variables, told),
        answers.default_input,
    )
    &&& call_ensures(
        P::default_value,
        (provider, variable, local_variables, told),
        answers.default_value,
    )
    &&& call_ensures(P::hint, (provider, variable, local_variables), answers.hint)
    &&& call_ensures(P::command_source, (provider, variable, local_variables), answers.command)
    &&& before.kept(text::optional_text(answers.command)) is None ==> exists|dir: &str|
        dir@ == cwd && #[trigger] call_ensures(
            P::suggestions,
            (provider, variable, dir, local_variables, told),
            answers.suggestions,
        )
}

/// Whether the variable being edited is set up with what `provider` says of
/// it. `prompt` holds the variables.
pub open spec fn load_of<P: SuggestionProvider>(
    provider: &P,
    prompt: PromptState,
    cwd: Seq<char>,
    before: PromptView,
    after: PromptView,
) -> bool {
    exists|answers: Answers| #[trigger]
        answered(
            provider,
            &prompt.variables@[before.index as int],
            &prompt.local_variables,
            cwd,
            before,
            answers,
        ) && after == before.loaded(answers@)
}

/// Whether `names` are those that `variable` depends on, by what `provider`
/// says of its sources.
pub open spec fn depends<P: SuggestionProvider>(
    provider: &P,
    variable: &Variable,
    local_variables: &TextMap<VariableSpec>,
    names: Set<Seq<char>>,
) -> bool {
    exists|command: Option<String>, default_value: Option<String>| #[trigger]
        call_ensures(P::command_source, (provider, variable, local_variables), command)
            && #[trigger] call_ensures(
            P::default_value_source,
            (provider, variable, local_variables),
            default_value,
        ) && names == upstream_of(
            variable@.source,
            text::optional_text(command),
            text::optional_text(default_value),
        )
}

/// Whether `upstreams` holds, for each variable, those it depends on.
pub open spec fn all_depend<P: SuggestionProvider>(
    provider: &P,
    prompt: PromptState,
    upstreams: Seq<Set<Seq<char>>>,
) -> bool {
    &&& upstreams.len() == prompt.variables@.len()
    &&& forall|i: int|
        0 <= i < upstreams.len() ==> depends(
            provider,
            &prompt.variables@[i],
            &prompt.local_variables,
            #[trigger] upstreams[i],
        )
}

/// Whether the value of the variable being edited is kept.
pub open spec fn store_of<P: SuggestionProvider>(
    provider: &P,
    prompt: PromptState,
    before: PromptView,
    after: PromptView,
) -> bool {
    exists|upstreams: Seq<Set<Seq<char>>>| #[trigger]
        all_depend(provider, prompt, upstreams) && after == before.stored(upstreams)
}

/// What `provider` says of the variable being edited.
fn ask<P: SuggestionProvider>(prompt: &PromptState, provider: &P, cwd: &str) -> (answers: Answers)
    requires
        prompt@.wf(),
    ensures
        answered(
            provider,
            &prompt.variables@[prompt.index as int],
            &prompt.local_variables,
            cwd@,
            prompt@,
            answers,
        ),
{
    let confirmed = prompt.confirmed();
    let variable = prompt.current_variable();
    let local = &prompt.local_variables;
    let default_input = provider.default_input(variable, local, &confirmed);
    let default_value = provider.default_value(variable, local, &confirmed);
    let hint = provider.hint(variable, local);
    let command = provider.command_source(variable, local);
    let suggestions = match prompt.kept_suggestions(&command) {
        Some(items) => Ok(items),
        None => provider.suggestions(variable, cwd, local, &confirmed),
    };
    Answers { confirmed, default_input, default_value, hint, command, suggestions }
}

/// Sets up the variable being edited with what `provider` says of it.
pub fn load_prompt_state<P: SuggestionProvider>(
    prompt: &mut PromptState,
    provider: &P,
    cwd: &str,
)
    requires
        old(prompt)@.wf(),
    ensures
        load_of(provider, *old(prompt), cwd@, old(prompt)@, final(prompt)@),
        final(prompt).variables == old(prompt).variables,
        final(prompt).local_variables == old(prompt).local_variables,
        final(prompt)@.wf(),
{
    let answers = ask(prompt, provider, cwd);
    prompt.load(answers);
}

/// The variables that each variable depends on.
fn upstreams_of<P: SuggestionProvider>(prompt: &PromptState, provider: &P) -> (out: Vec<TextSet>)
    ensures
        all_depend(provider, *prompt, name_sets(out@)),
{
    let mut out: Vec<TextSet> = Vec::new();
    let mut i: usize = 0;
    while i < prompt.variables.len()
        invariant
            i <= prompt.variables@.len(),
            out@.len() == i,
            forall|j: int|
                0 <= j < i ==> depends(
                    provider,
                    &prompt.variables@[j],
                    &prompt.local_variables,
                    #[trigger] name_sets(out@)[j],
                ),
        decreases prompt.variables@.len() - i,
    {
        let variable = &prompt.variables[i];
        let command = provider.command_source(variable, &prompt.local_variables);
        let default_value = provider.default_value_source(variable, &prompt.local_variables);
        let names = upstream_names(variable, &command, &default_value);
        assert(depends(provider, variable, &prompt.local_variables, names@));
        let ghost before = name_sets(out@);
        out.push(names);
        assert(name_sets(out@) =~= before.push(names@));
        i = i + 1;
    }
    out
}

/// Keeps the value of the variable being edited.
fn store_current_value<P: SuggestionProvider>(prompt: &mut PromptState, provider: &P)
    requires
        old(prompt)@.wf(),
    ensures
        store_of(provider, *old(prompt), old(prompt)@, final(prompt)@),
        final(prompt).variables == old(prompt).variables,
        final(prompt).local_variables == old(prompt).local_variables,
        final(prompt)@.wf(),
{
    let upstreams = upstreams_of(prompt, provider);
    prompt.store(&upstreams);
}

/// Whether the value is kept and the variable `delta` behind is set up; with
/// one variable only the value is kept.
pub open spec fn cycle_of<P: SuggestionProvider>(
    provider: &P,
    prompt: PromptState,
    cwd: Seq<char>,
    delta: int,
    before: PromptView,
    after: PromptView,
    old_status: Option<Seq<char>>,
    status: Option<Seq<char>>,
) -> bool {
    exists|kept: PromptView|
        {
            &&& #[trigger] store_of(provider, prompt, before, kept)
            &&& if before.variables.len() <= 1 {
                after == kept && status == old_status
            } else {
                load_of(provider, prompt, cwd, kept.at(kept.around(delta)), after) && status
                    == after.error
            }
        }
}

/// Keeps the value and goes to the variable `delta` behind, around the ends.
fn cycle_prompt_variable<P: SuggestionProvider>(
    prompt: &mut PromptState,
    forward: bool,
    provider: &P,
    cwd: &str,
    status: &mut Option<String>,
)
    requires
        old(prompt)@.wf(),
    ensures
        cycle_of(
            provider,
            *old(prompt),
            cwd@,
            if forward {
                1
            } else {
                -1
            },
            old(prompt)@,
            final(prompt)@,
            text::optional_text(*old(status)),
            text::optional_text(*final(status)),
        ),
        final(prompt)@.wf(),
{
    store_current_value(prompt, provider);
    let n: usize = prompt.variables.len();
    let ghost kept = prompt@;
    assert(kept.variables.len() == n);
    if n <= 1 {
        return ;
    }
    let next: usize = if forward {
        if prompt.index + 1 == n {
            0
        } else {
            prompt.index + 1
        }
    } else if prompt.index == 0 {
        n - 1
    } else {
        prompt.index - 1
    };
    proof {
        let delta: int = if forward {
            1
        } else {
            -1
        };
        lemma_around(kept.index as int, n as int);
        assert(next == kept.around(delta));
    }
    prompt.index = next;
    assert(prompt@ =~= kept.at(next));
    load_prompt_state(prompt, provider, cwd);
    *status = text::copy_optional(&prompt.error);
}

proof fn lemma_around(index: int, n: int)
    requires
        0 <= index < n,
    ensures
        (index + 1) % n == (if index + 1 == n {
            0
        } else {
            index + 1
        }),
        (index - 1) % n == (if index == 0 {
            n - 1
        } else {
            index - 1
        }),
{
    if index + 1 == n {
        assert((index + 1) % n == 0) by (nonlinear_arith)
            requires
                index + 1 == n,
                n > 0,
        ;
    } else {
        vstd::arithmetic::div_mod::lemma_small_mod((index + 1) as nat, n as nat);
    }
    if index == 0 {
        assert((index - 1) % n == n - 1) by (nonlinear_arith)
            requires
                index == 0,
                n > 0,
        ;
    } else {
        vstd::arithmetic::div_mod::lemma_small_mod((index - 1) as nat, n as nat);
    }
}

/// What happens after a key in the prompt.
#[derive(Debug, PartialEq, Eq)]
pub enum PromptTransition {
    /// The prompt stays.
    Stay,
    /// Back to the picker.
    ToSelect,
    /// Every variable is filled.
    Completed(ExecutionOutcome),
}

/// What a [`PromptTransition`] holds.
pub enum TransitionView {
    Stay,
    ToSelect,
    Completed(execute::OutcomeView),
}

impl View for PromptTransition {
    type V = TransitionView;

    open spec fn view(&self) -> TransitionView {
        match self {
            PromptTransition::Stay => TransitionView::Stay,
            PromptTransition::ToSelect => TransitionView::ToSelect,
            PromptTransition::Completed(outcome) => TransitionView::Completed(outcome@),
        }
    }
}

/// What a prompt whose last value is kept leads to: the command, where the
/// snippet is still there.
pub open spec fn finished(prompt: PromptView, entries: Seq<index::EntryView>) -> TransitionView {
    match index::entry_of(entries, prompt.snippet_id) {
        None => TransitionView::Stay,
        Some(entry) => TransitionView::Completed(
            execute::OutcomeView {
                snippet_id: prompt.snippet_id,
                command: template::filled_all(
                    template::segments_of(entry.snippet.body),
                    prompt.values,
                ),
                consumed_buffer: prompt.seeded_from_buffer,
            },
        ),
    }
}

/// The prompt, the message and what happens next.
pub struct Step {
    pub prompt: PromptView,
    pub status: Option<Seq<char>>,
    pub next: TransitionView,
}

/// Whether `after` is what a key does to the prompt `before`.
pub open spec fn key_step<P: SuggestionProvider>(
    provider: &P,
    prompt: PromptState,
    cwd: Seq<char>,
    entries: Seq<index::EntryView>,
    bindings: Seq<(keybinds::KeyChord, PromptAction)>,
    key: KeyEvent,
    old_status: Option<Seq<char>>,
    after: Step,
) -> bool {
    let before = prompt@;
    let stays = Step { prompt: before, status: old_status, next: TransitionView::Stay };
    match keybinds::action_of(bindings, key.chord) {
        None => after == (match key.typed() {
            Some(c) => Step { prompt: before.with_input(before.input.push(c)), ..stays },
            None => stays,
        }),
        Some(PromptAction::ReturnToPicker) => after == (Step {
            status: None,
            next: TransitionView::ToSelect,
            ..stays
        }),
        Some(PromptAction::Backspace) => if before.input.len() > 0 {
            after == (Step { prompt: before.with_input(before.input.drop_last()), ..stays })
        } else if before.index > 0 {
            &&& load_of(
                provider,
                prompt,
                cwd,
                before.at((before.index - 1) as usize),
                after.prompt,
            )
            &&& after.status == after.prompt.error
            &&& after.next is Stay
        } else {
            after == (Step { next: TransitionView::ToSelect, ..stays })
        },
        Some(PromptAction::LiteralNewline) => after == (Step {
            prompt: before.with_input(before.input.push('\n')),
            ..stays
        }),
        Some(PromptAction::SuggestionUp) => after == (Step { prompt: before.moved(-1), ..stays }),
        Some(PromptAction::SuggestionDown) => after == (Step { prompt: before.moved(1), ..stays }),
        Some(PromptAction::CompleteOrNext) => if before.highlighted() is Some
            && before.highlighted()->0 != before.input {
            after == (Step { prompt: before.with_input(before.highlighted()->0), ..stays })
        } else {
            &&& cycle_of(
                provider,
                prompt,
                cwd,
                1,
                before,
                after.prompt,
                old_status,
                after.status,
            )
            &&& after.next is Stay
        },
        Some(PromptAction::PreviousVariable) => {
            &&& cycle_of(
                provider,
                prompt,
                cwd,
                -1,
                before,
                after.prompt,
                old_status,
                after.status,
            )
            &&& after.next is Stay
        },
        Some(PromptAction::Accept) => if before.input.len() > 0 && before.highlighted() is Some
            && before.highlighted()->0 != before.input {
            after == (Step { prompt: before.with_input(before.highlighted()->0), ..stays })
        } else {
            exists|kept: PromptView|
                {
                    &&& #[trigger] store_of(provider, prompt, before, kept)
                    &&& if before.index + 1 < before.variables.len() {
                        &&& load_of(
                            provider,
                            prompt,
                            cwd,
                            kept.at((kept.index + 1) as usize),
                            after.prompt,
                        )
                        &&& after.status == after.prompt.error
                        &&& after.next is Stay
                    } else {
                        after == (Step {
                            prompt: kept,
                            status: old_status,
                            next: finished(kept, entries),
                        })
                    }
                }
        },
    }
}

/// The text without its last character.
fn pop_char(s: &str) -> (out: String)
    requires
        s@.len() > 0,
    ensures
        out@ == s@.drop_last(),
{
    let chars = text::chars_of(s);
    let out = text::string_from(&chars, 0, chars.len() - 1);
    assert(out@ =~= s@.drop_last());
    out
}

/// Handles a key in the prompt.
pub fn handle_prompt_key<P: SuggestionProvider>(
    key: KeyEvent,
    prompt: &mut PromptState,
    provider: &P,
    cwd: &str,
    index: &SnippetIndex,
    status: &mut Option<String>,
    keymap: &Keymap<PromptAction>,
) -> (next: PromptTransition)
    requires
        old(prompt)@.wf(),
    ensures
        key_step(
            provider,
            *old(prompt),
            cwd@,
            index@,
            keymap.bindings@,
            key,
            text::optional_text(*old(status)),
            (Step {
                prompt: final(prompt)@,
                status: text::optional_text(*final(status)),
                next: next@,
            }),
        ),
        final(prompt)@.wf(),
{
    match keymap.action_for(&key) {
        None => {
            match key.typed_char() {
                Some(c) => {
                    prompt.push_input(c);
                },
                None => {},
            }
            PromptTransition::Stay
        },
        Some(PromptAction::ReturnToPicker) => {
            *status = None;
            PromptTransition::ToSelect
        },
        Some(PromptAction::Backspace) => {
            if !prompt.input.as_str().is_empty() {
                let shorter = pop_char(prompt.input.as_str());
                prompt.set_input(shorter);
                PromptTransition::Stay
            } else if prompt.index > 0 {
                let ghost before = prompt@;
                prompt.index = prompt.index - 1;
                assert(prompt@ =~= before.at((before.index - 1) as usize));
                load_prompt_state(prompt, provider, cwd);
                *status = text::copy_optional(&prompt.error);
                PromptTransition::Stay
            } else {
                PromptTransition::ToSelect
            }
        },
        Some(PromptAction::LiteralNewline) => {
            prompt.push_input('\n');
            PromptTransition::Stay
        },
        Some(PromptAction::SuggestionUp) => {
            prompt.move_cursor(-1);
            PromptTransition::Stay
        },
        Some(PromptAction::SuggestionDown) => {
            prompt.move_cursor(1);
            PromptTransition::Stay
        },
        Some(PromptAction::CompleteOrNext) => {
            match prompt.selected_visible_suggestion() {
                Some(suggestion) => {
                    if !text::same_text(suggestion.as_str(), prompt.input.as_str()) {
                        prompt.set_input(suggestion);
                        return PromptTransition::Stay;
                    }
                },
                None => {},
            }
            cycle_prompt_variable(prompt, true, provider, cwd, status);
            PromptTransition::Stay
        },
        Some(PromptAction::PreviousVariable) => {
            cycle_prompt_variable(prompt, false, provider, cwd, status);
            PromptTransition::Stay
        },
        Some(PromptAction::Accept) => {
            if !prompt.input.as_str().is_empty() {
                match prompt.selected_visible_suggestion() {
                    Some(suggestion) => {
                        if !text::same_text(suggestion.as_str(), prompt.input.as_str()) {
                            prompt.set_input(suggestion);
                            return PromptTransition::Stay;
                        }
                    },
                    None => {},
                }
            }
            store_current_value(prompt, provider);
            let ghost kept = prompt@;
            let n: usize = prompt.variables.len();
            assert(prompt.index < n);
            if prompt.index + 1 < n {
                prompt.index = prompt.index + 1;
                assert(prompt@ =~= kept.at((kept.index + 1) as usize));
                load_prompt_state(prompt, provider, cwd);
                *status = text::copy_optional(&prompt.error);
                return PromptTransition::Stay;
            }
            match index.get(&prompt.snippet_id) {
                Some(entry) => {
                    let command = template::render_command(entry.body(), &prompt.values);
                    PromptTransition::Completed(
                        ExecutionOutcome {
                            snippet_id: prompt.snippet_id.clone(),
                            command,
                            consumed_buffer: prompt.seeded_from_buffer,
                        },
                    )
                },
                None => PromptTransition::Stay,
            }
        },
    }
}

/// A variable whose value was just kept is confirmed with that value; where
/// the value changed, no kept value of a dependent is confirmed any more.
pub proof fn law_changed_value_unconfirms_dependents(
    prompt: PromptView,
    upstreams: Seq<Set<Seq<char>>>,
    i: int,
)
    requires
        prompt.wf(),
        upstreams.len() == prompt.variables.len(),
        0 <= i < prompt.variables.len(),
        prompt.variables[i].name != prompt.current().name,
        touched(
            upstreams[i],
            prompt.current().name,
            dependents(
                template::variable_names(prompt.variables),
                upstreams,
                prompt.current().name,
            ),
        ),
        !(prompt.values.contains_key(prompt.current().name)
            && prompt.values[prompt.current().name] == prompt.value()),
    ensures
        prompt.stored(upstreams).confirmed().contains_key(prompt.current().name),
        prompt.stored(upstreams).confirmed()[prompt.current().name] == prompt.value(),
        !prompt.stored(upstreams).confirmed().contains_key(prompt.variables[i].name),
{
    let names = template::variable_names(prompt.variables);
    let name = prompt.current().name;
    law_dependents_are_complete(names, upstreams, name, i);
    assert(names[i] == prompt.variables[i].name);
    let after = prompt.stored(upstreams);
    assert(!after.dirty.contains(name));
    if after.values.contains_key(prompt.variables[i].name) {
        assert(prompt.values.dom().contains(prompt.variables[i].name));
        assert(after.dirty.contains(prompt.variables[i].name));
    }
}

/// Keeping the value that is kept already makes nothing stale.
pub proof fn law_unchanged_value_keeps_dependents(
    prompt: PromptView,
    upstreams: Seq<Set<Seq<char>>>,
    name: Seq<char>,
)
    requires
        prompt.values.contains_key(prompt.current().name),
        prompt.values[prompt.current().name] == prompt.value(),
        prompt.confirmed().contains_key(name),
    ensures
        prompt.stored(upstreams).confirmed().contains_key(name),
        prompt.stored(upstreams).confirmed()[name] == prompt.confirmed()[name],
{
}

/// Going one variable on and one back leads to the same variable.
pub proof fn law_cycling_forth_and_back(prompt: PromptView)
    requires
        prompt.wf(),
        prompt.variables.len() <= usize::MAX,
    ensures
        prompt.at(prompt.around(1)).around(-1) == prompt.index,
        prompt.at(prompt.around(-1)).around(1) == prompt.index,
        prompt.around(1) < prompt.variables.len(),
        prompt.around(-1) < prompt.variables.len(),
{
    let n = prompt.variables.len() as int;
    let i = prompt.index as int;
    lemma_around(i, n);
    if i + 1 == n {
        lemma_around(0, n);
    } else {
        lemma_around(i + 1, n);
    }
    if i == 0 {
        lemma_around(n - 1, n);
    } else {
        lemma_around(i - 1, n);
    }
}

/// Erasing a character just typed restores the input.
pub proof fn law_erasing_undoes_typing(prompt: PromptView, c: char)
    ensures
        ({
            let typed = prompt.with_input(prompt.input.push(c));
            typed.with_input(typed.input.drop_last()) == prompt.reset()
        }),
{
    let typed = prompt.with_input(prompt.input.push(c));
    assert(typed.input.drop_last() =~= prompt.input);
}

/// A variable that was left is shown again with the value kept for it.
pub proof fn law_kept_value_comes_back(prompt: PromptView, answers: AnswersView)
    requires
        prompt.values.contains_key(prompt.current().name),
    ensures
        prompt.loaded(answers).input == prompt.values[prompt.current().name],
{
}

proof fn lemma_matching_counts(items: Seq<Seq<char>>, needle: Seq<char>, item: Seq<char>)
    ensures
        matching(items, needle).to_multiset().count(item) == (if exists|i: int|
            0 <= i <= text::lowercase(item).len() - needle.len() && #[trigger] text::lowercase(
                item,
            ).subrange(i, i + needle.len()) == needle {
            items.to_multiset().count(item)
        } else {
            0
        }),
    decreases items.len(),
{
    broadcast use vstd::seq_lib::group_to_multiset_ensures;

    let whole = text::lowercase(item);
    let held = exists|i: int|
        0 <= i <= whole.len() - needle.len() && #[trigger] whole.subrange(i, i + needle.len())
            == needle;
    if items.len() == 0 {
        assert(matching(items, needle) =~= items);
        assert(items =~= Seq::<Seq<char>>::empty());
    } else {
        let front = items.drop_last();
        lemma_matching_counts(front, needle, item);
        assert(items =~= front.push(items.last()));
        if needle.len() == 0 {
            assert(whole.subrange(0int, 0int + needle.len()) =~= needle);
        }
        if text::occurs(whole, needle) {
            let at = choose|at: int| text::stands_at(whole, needle, at);
            assert(whole.subrange(at, at + needle.len()) == needle);
        }
        if held {
            let i = choose|i: int|
                0 <= i <= whole.len() - needle.len() && #[trigger] whole.subrange(
                    i,
                    i + needle.len(),
                ) == needle;
            assert(text::stands_at(whole, needle, i));
        }
    }
}

/// A suggestion is visible, as often as it is listed, if and only if what was
/// typed stands somewhere in it, letter case aside. What is visible is in
/// alphabetical order.
pub proof fn law_visible_suggestions_hold_what_was_typed(prompt: PromptView, item: Seq<char>)
    ensures
        prompt.visible().to_multiset().count(item) == (if exists|i: int|
            0 <= i <= text::lowercase(item).len() - text::lowercase(prompt.input).len()
                && #[trigger] text::lowercase(item).subrange(
                i,
                i + text::lowercase(prompt.input).len(),
            ) == text::lowercase(prompt.input) {
            prompt.suggestions.to_multiset().count(item)
        } else {
            0
        }),
        forall|i: int, j: int|
            0 <= i < j < prompt.visible().len() ==> !text::text_less(
                #[trigger] prompt.visible()[j],
                #[trigger] prompt.visible()[i],
            ),
{
    lemma_matching_counts(prompt.suggestions, text::lowercase(prompt.input), item);
    text::law_in_order(matching(prompt.suggestions, text::lowercase(prompt.input)));
}

/// What the variable gets: what was typed, or else the highlighted suggestion, or
/// else its default value, or else nothing.
pub proof fn law_typed_text_is_the_value(prompt: PromptView)
    ensures
        prompt.input.len() > 0 ==> prompt.value() == prompt.input,
        prompt.input.len() == 0 && prompt.selection is None && prompt.visible().len() > 0
            ==> prompt.value() == prompt.visible()[0],
        forall|row: usize| #[trigger]
            line_edit::is_row(prompt.selection, row) && prompt.input.len() == 0 ==> {
                &&& row < prompt.visible().len() ==> prompt.value() == prompt.visible()[row as int]
                &&& row >= prompt.visible().len() && prompt.default_value is Some
                    ==> prompt.value() == prompt.default_value->0
                &&& row >= prompt.visible().len() && prompt.default_value is None
                    ==> prompt.value().len() == 0
            },
{
}

/// A variable starts with the value that was kept for it, or else with its inline
/// default, or else with what the provider has for it, or else with nothing. Its
/// suggestions are those of the provider, and the first visible one is
/// highlighted; an error of the provider leaves none.
pub proof fn law_variable_starts_with_its_default(prompt: PromptView, answers: AnswersView)
    requires
        prompt.wf(),
        prompt.kept(answers.command) is None,
    ensures
        ({
            let after = prompt.loaded(answers);
            let name = prompt.variables[prompt.index as int].name;
            let inline = match prompt.variables[prompt.index as int].source {
                domain::VariableSourceView::Default(fragments) => match command_template::render_of(
                    fragments,
                    prompt.confirmed(),
                ) {
                    Ok(rendered) => Some(rendered),
                    Err(_) => None,
                },
                _ => None,
            };
            &&& prompt.values.contains_key(name) ==> after.input == prompt.values[name]
            &&& !prompt.values.contains_key(name) && inline is Some ==> after.input == inline->0
            &&& !prompt.values.contains_key(name) && inline is None && answers.default_input is Some
                ==> after.input == answers.default_input->0
            &&& !prompt.values.contains_key(name) && inline is None && answers.default_input is None
                ==> after.input.len() == 0
            &&& after.hint == answers.hint
            &&& after.default_value == answers.default_value
            &&& after.values == prompt.values
            &&& after.index == prompt.index
            &&& after.variables == prompt.variables
            &&& answers.suggestions matches Ok(items) ==> after.suggestions == items
                && after.error is None
            &&& answers.suggestions matches Err(message) ==> after.suggestions.len() == 0
                && after.error == Some(message)
            &&& after.visible().len() > 0 ==> after.selection == Some(0usize)
            &&& after.visible().len() == 0 ==> after.selection is None
        }),
{
}

/// What was kept last is confirmed, and what was kept for the other variables
/// stays.
pub proof fn law_storing_keeps_the_value(
    prompt: PromptView,
    upstreams: Seq<Set<Seq<char>>>,
    other: Seq<char>,
)
    requires
        prompt.wf(),
    ensures
        ({
            let name = prompt.variables[prompt.index as int].name;
            let after = prompt.stored(upstreams);
            &&& after.values.contains_key(name) && after.values[name] == prompt.value()
            &&& after.confirmed().contains_key(name)
            &&& other != name ==> after.values.contains_key(other) == prompt.values.contains_key(
                other,
            )
            &&& other != name && prompt.values.contains_key(other) ==> after.values[other]
                == prompt.values[other]
            &&& after.index == prompt.index
            &&& after.variables == prompt.variables
            &&& after.input == prompt.input
        }),
{
}

/// A character that is no shortcut goes behind what was typed, and the first
/// suggestion that is still visible is highlighted. The prompt stays at its
/// variable.
pub proof fn law_typing_in_the_prompt<P: SuggestionProvider>(
    provider: &P,
    prompt: PromptState,
    cwd: Seq<char>,
    entries: Seq<index::EntryView>,
    bindings: Seq<(keybinds::KeyChord, PromptAction)>,
    key: KeyEvent,
    old_status: Option<Seq<char>>,
    after: Step,
    c: char,
)
    requires
        key_step(provider, prompt, cwd, entries, bindings, key, old_status, after),
        keybinds::action_of(bindings, key.chord) is None,
        key.chord.code == keybinds::KeyCode::Char(c),
        !key.chord.control,
    ensures
        after.prompt.input == prompt@.input + seq![c],
        after.prompt.index == prompt@.index,
        after.prompt.values == prompt@.values,
        after.prompt.suggestions == prompt@.suggestions,
        after.prompt.visible().len() > 0 ==> after.prompt.selection == Some(0usize),
        after.prompt.visible().len() == 0 ==> after.prompt.selection is None,
        after.next is Stay,
{
    assert(prompt@.input.push(c) =~= prompt@.input + seq![c]);
}

/// Deleting takes the last character that was typed. Where nothing was, the
/// variable before is edited again, and before the first one the picker comes
/// back.
pub proof fn law_deleting_in_the_prompt<P: SuggestionProvider>(
    provider: &P,
    prompt: PromptState,
    cwd: Seq<char>,
    entries: Seq<index::EntryView>,
    bindings: Seq<(keybinds::KeyChord, PromptAction)>,
    key: KeyEvent,
    old_status: Option<Seq<char>>,
    after: Step,
)
    requires
        prompt@.wf(),
        key_step(provider, prompt, cwd, entries, bindings, key, old_status, after),
        keybinds::action_of(bindings, key.chord) == Some(PromptAction::Backspace),
    ensures
        prompt@.input.len() > 0 ==> after.prompt.input == prompt@.input.take(
            prompt@.input.len() - 1,
        ) && after.prompt.index == prompt@.index && after.next is Stay,
        prompt@.input.len() == 0 && prompt@.index > 0 ==> after.prompt.index == prompt@.index - 1
            && after.prompt.values == prompt@.values && after.next is Stay,
        prompt@.input.len() == 0 && prompt@.index == 0 ==> after.next is ToSelect,
{
    if prompt@.input.len() > 0 {
        assert(prompt@.input.drop_last() =~= prompt@.input.take(prompt@.input.len() - 1));
    }
}

/// The keys for suggestions highlight the next and the one before, up to the ends
/// of what is visible; what was typed stays.
pub proof fn law_suggestion_keys_move_the_highlight<P: SuggestionProvider>(
    provider: &P,
    prompt: PromptState,
    cwd: Seq<char>,
    entries: Seq<index::EntryView>,
    bindings: Seq<(keybinds::KeyChord, PromptAction)>,
    key: KeyEvent,
    old_status: Option<Seq<char>>,
    after: Step,
    row: usize,
)
    requires
        key_step(provider, prompt, cwd, entries, bindings, key, old_status, after),
        row < prompt@.visible().len() <= usize::MAX,
        prompt@.selection == Some(row),
    ensures
        keybinds::action_of(bindings, key.chord) == Some(PromptAction::SuggestionDown) && row + 1
            < prompt@.visible().len() ==> after.prompt.selection == Some((row + 1) as usize),
        keybinds::action_of(bindings, key.chord) == Some(PromptAction::SuggestionDown) && row + 1
            == prompt@.visible().len() ==> after.prompt.selection == Some(row),
        keybinds::action_of(bindings, key.chord) == Some(PromptAction::SuggestionUp) && row > 0
            ==> after.prompt.selection == Some((row - 1) as usize),
        keybinds::action_of(bindings, key.chord) == Some(PromptAction::SuggestionUp) && row == 0
            ==> after.prompt.selection == Some(row),
        keybinds::action_of(bindings, key.chord) == Some(PromptAction::SuggestionDown)
            || keybinds::action_of(bindings, key.chord) == Some(PromptAction::SuggestionUp) ==> {
            &&& after.prompt.input == prompt@.input
            &&& after.prompt.index == prompt@.index
            &&& after.prompt.values == prompt@.values
            &&& after.next is Stay
        },
{
}

/// Completing puts the highlighted suggestion into the input, unless it is there
/// already. Then, or where nothing is highlighted, the value is kept and the next
/// variable is edited, the first behind the last.
pub proof fn law_completing_takes_the_suggestion<P: SuggestionProvider>(
    provider: &P,
    prompt: PromptState,
    cwd: Seq<char>,
    entries: Seq<index::EntryView>,
    bindings: Seq<(keybinds::KeyChord, PromptAction)>,
    key: KeyEvent,
    old_status: Option<Seq<char>>,
    after: Step,
    row: usize,
)
    requires
        prompt@.wf(),
        prompt@.variables.len() <= usize::MAX,
        key_step(provider, prompt, cwd, entries, bindings, key, old_status, after),
        keybinds::action_of(bindings, key.chord) == Some(PromptAction::CompleteOrNext),
        line_edit::is_row(prompt@.selection, row),
    ensures
        after.next is Stay,
        row < prompt@.visible().len() && prompt@.visible()[row as int] != prompt@.input ==> {
            &&& after.prompt.input == prompt@.visible()[row as int]
            &&& after.prompt.index == prompt@.index
            &&& after.prompt.values == prompt@.values
        },
        row >= prompt@.visible().len() || prompt@.visible()[row as int] == prompt@.input ==> {
            let name = prompt@.variables[prompt@.index as int].name;
            &&& after.prompt.values == prompt@.values.insert(name, prompt@.value())
            &&& after.prompt.index == (if prompt@.index + 1 < prompt@.variables.len() {
                prompt@.index + 1
            } else {
                0
            })
        },
{
    lemma_around(prompt@.index as int, prompt@.variables.len() as int);
}

/// Going back keeps the value and edits the variable before, the last before the
/// first.
pub proof fn law_going_back_a_variable<P: SuggestionProvider>(
    provider: &P,
    prompt: PromptState,
    cwd: Seq<char>,
    entries: Seq<index::EntryView>,
    bindings: Seq<(keybinds::KeyChord, PromptAction)>,
    key: KeyEvent,
    old_status: Option<Seq<char>>,
    after: Step,
)
    requires
        prompt@.wf(),
        prompt@.variables.len() <= usize::MAX,
        key_step(provider, prompt, cwd, entries, bindings, key, old_status, after),
        keybinds::action_of(bindings, key.chord) == Some(PromptAction::PreviousVariable),
    ensures
        after.next is Stay,
        after.prompt.values == prompt@.values.insert(
            prompt@.variables[prompt@.index as int].name,
            prompt@.value(),
        ),
        after.prompt.index == (if prompt@.index > 0 {
            prompt@.index - 1
        } else {
            prompt@.variables.len() - 1
        }),
{
    lemma_around(prompt@.index as int, prompt@.variables.len() as int);
}

/// Accepting keeps the value and edits the next variable. Behind the last one the
/// command is done: the body of the snippet, filled with the values that were
/// kept. While something else than the highlighted suggestion is typed, the
/// suggestion is taken first.
pub proof fn law_accepting_a_value<P: SuggestionProvider>(
    provider: &P,
    prompt: PromptState,
    cwd: Seq<char>,
    entries: Seq<index::EntryView>,
    bindings: Seq<(keybinds::KeyChord, PromptAction)>,
    key: KeyEvent,
    old_status: Option<Seq<char>>,
    after: Step,
)
    requires
        prompt@.wf(),
        prompt@.variables.len() <= usize::MAX,
        key_step(provider, prompt, cwd, entries, bindings, key, old_status, after),
        keybinds::action_of(bindings, key.chord) == Some(PromptAction::Accept),
    ensures
        ({
            let before = prompt@;
            let values = before.values.insert(
                before.variables[before.index as int].name,
                before.value(),
            );
            let open = before.input.len() > 0 && before.highlighted() is Some
                && before.highlighted()->0 != before.input;
            &&& open ==> after.next is Stay && after.prompt.input == before.highlighted()->0
                && after.prompt.index == before.index && after.prompt.values == before.values
            &&& !open ==> after.prompt.values == values
            &&& !open && before.index + 1 < before.variables.len() ==> after.next is Stay
                && after.prompt.index == before.index + 1
            &&& !open && before.index + 1 == before.variables.len() ==> match index::entry_of(
                entries,
                before.snippet_id,
            ) {
                None => after.next is Stay,
                Some(entry) => after.next matches TransitionView::Completed(outcome) && {
                    &&& outcome.snippet_id == before.snippet_id
                    &&& outcome.command == template::filled_all(
                        template::segments_of(entry.snippet.body),
                        values,
                    )
                    &&& outcome.consumed_buffer == before.seeded_from_buffer
                },
            }
        }),
{
}

/// A new line can be typed with its own key, and leaving brings the picker back
/// and clears the message.
pub proof fn law_new_lines_and_leaving<P: SuggestionProvider>(
    provider: &P,
    prompt: PromptState,
    cwd: Seq<char>,
    entries: Seq<index::EntryView>,
    bindings: Seq<(keybinds::KeyChord, PromptAction)>,
    key: KeyEvent,
    old_status: Option<Seq<char>>,
    after: Step,
)
    requires
        key_step(provider, prompt, cwd, entries, bindings, key, old_status, after),
    ensures
        keybinds::action_of(bindings, key.chord) == Some(PromptAction::LiteralNewline)
            ==> after.prompt.input == prompt@.input + seq!['\n'] && after.prompt.index
            == prompt@.index && after.next is Stay,
        keybinds::action_of(bindings, key.chord) == Some(PromptAction::ReturnToPicker)
            ==> after.next is ToSelect && after.status is None,
{
    assert(prompt@.input.push('\n') =~= prompt@.input + seq!['\n']);
}

/// Pasted text without control characters goes in as it is, and each line end
/// becomes one newline.
pub proof fn law_pasted_lines_stay_apart(a: Seq<char>, b: Seq<char>)
    requires
        forall|i: int| 0 <= i < a.len() ==> !text::is_control_char(#[trigger] a[i]),
    ensures
        pasted(a) == a,
        pasted(a + seq!['\r', '\n'] + b) == a + seq!['\n'] + pasted(b),
        pasted(a + seq!['\n'] + b) == a + seq!['\n'] + pasted(b),
        b.len() == 0 || b[0] != '\n' ==> pasted(a + seq!['\r'] + b) == a + seq!['\n'] + pasted(b),
    decreases a.len(),
{
    if a.len() == 0 {
        let both = a + seq!['\r', '\n'] + b;
        assert(both[0] == '\r' && both[1] == '\n');
        assert(both.skip(2) =~= b);
        let one = a + seq!['\n'] + b;
        assert(one[0] == '\n');
        assert(one.skip(1) =~= b);
        let old = a + seq!['\r'] + b;
        assert(old[0] == '\r');
        assert(old.len() > 1 ==> old[1] == b[0]);
        assert(old.skip(1) =~= b);
        assert(a + seq!['\n'] + pasted(b) =~= seq!['\n'] + pasted(b));
        assert(pasted(a) =~= a);
    } else {
        let rest = a.skip(1);
        assert forall|i: int| 0 <= i < rest.len() implies !text::is_control_char(
            #[trigger] rest[i],
        ) by {
            assert(rest[i] == a[i + 1]);
        }
        law_pasted_lines_stay_apart(rest, b);
        assert(!text::is_control_char(a[0]));
        assert(a =~= seq![a[0]] + rest);
        assert((a + seq!['\r', '\n'] + b).skip(1) =~= rest + seq!['\r', '\n'] + b);
        assert((a + seq!['\n'] + b).skip(1) =~= rest + seq!['\n'] + b);
        assert((a + seq!['\r'] + b).skip(1) =~= rest + seq!['\r'] + b);
        assert(seq![a[0]] + (rest + seq!['\n'] + pasted(b)) =~= a + seq!['\n'] + pasted(b));
    }
}

/// What is pasted holds no other control character than the newline, and nothing
/// that the clipboard did not hold.
pub proof fn law_pasted_text_is_clean(s: Seq<char>, c: char)
    requires
        pasted(s).contains(c),
    ensures
        c == '\n' || (!text::is_control_char(c) && s.contains(c)),
    decreases s.len(),
{
    let out = pasted(s);
    let k = out.index_of(c);
    let (step, head) = if s[0] == '\r' {
        (
            if s.len() > 1 && s[1] == '\n' {
                2int
            } else {
                1int
            },
            1int,
        )
    } else if s[0] == '\n' || !text::is_control_char(s[0]) {
        (1int, 1int)
    } else {
        (1int, 0int)
    };
    if k >= head {
        assert(pasted(s.skip(step))[k - head] == c);
        law_pasted_text_is_clean(s.skip(step), c);
        if s.skip(step).contains(c) {
            let j = s.skip(step).index_of(c);
            assert(s[j + step] == c);
        }
    } else if s[0] != '\r' {
        assert(s[0] == c);
    }
}

/// Suggestions that were kept for a variable and a command come back for them, and
/// change nothing for others.
pub proof fn law_kept_suggestions_come_back(
    cache: Seq<CachedView>,
    entry: CachedView,
    name: Seq<char>,
    command: Seq<char>,
)
    ensures
        cached(cache.push(entry), entry.name, entry.command) == Some(entry.suggestions),
        name != entry.name || command != entry.command ==> cached(cache.push(entry), name, command)
            == cached(cache, name, command),
        cached(Seq::empty(), name, command) is None,
{
    assert(cache.push(entry).drop_last() =~= cache);
}

} // verus!
