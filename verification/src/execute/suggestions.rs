//! Where the suggestions and defaults of a variable come from: its inline
//! source, the frontmatter of its file, the configuration, and the built-in
//! variables `file` and `directory`.

use vstd::prelude::*;
use crate::command_template;
use crate::config::{SuggestionCommandsConfig, VariableInputConfig};
use crate::domain;
use crate::domain::{Variable, VariableSource, VariableSpec};
use crate::text;
use crate::text_map::TextMap;

verus! {

broadcast use vstd::string::group_string_axioms;

/// Supplies suggestions and defaults for variables.
pub trait SuggestionProvider {
    /// The candidates for `variable` in the directory `cwd`; none is no error.
    /// `confirmed` holds the values confirmed so far, for references to them.
    fn suggestions(
        &self,
        variable: &Variable,
        cwd: &str,
        local_variables: &TextMap<VariableSpec>,
        confirmed: &TextMap<String>,
    ) -> (out: Result<Vec<String>, String>);

    /// The text that the input starts with.
    fn default_input(
        &self,
        variable: &Variable,
        local_variables: &TextMap<VariableSpec>,
        confirmed: &TextMap<String>,
    ) -> (out: Option<String>);

    /// The value taken when nothing is typed. There is none unless a provider
    /// has one.
    fn default_value(
        &self,
        variable: &Variable,
        local_variables: &TextMap<VariableSpec>,
        confirmed: &TextMap<String>,
    ) -> (out: Option<String>) {
        None
    }

    /// The template of the value taken when nothing is typed.
    fn default_value_source(
        &self,
        variable: &Variable,
        local_variables: &TextMap<VariableSpec>,
    ) -> (out: Option<String>) {
        None
    }

    /// The ghost text shown while the input is empty. It never becomes the
    /// value.
    fn hint(&self, variable: &Variable, local_variables: &TextMap<VariableSpec>) -> (out: Option<
        String,
    >);

    /// The suggestion command as written; `None` for a variable that runs
    /// none.
    fn command_source(
        &self,
        variable: &Variable,
        local_variables: &TextMap<VariableSpec>,
    ) -> (out: Option<String>);
}

/// The provider behind the program: inline sources, frontmatter,
/// configuration, and built-in variables.
pub struct SystemSuggestionProvider {
    pub variable_inputs: TextMap<VariableInputConfig>,
    pub suggestion_commands: SuggestionCommandsConfig,
}

/// What has to be done to get the suggestions of a variable.
#[derive(Debug, PartialEq, Eq)]
pub enum SuggestionPlan {
    /// Nothing: these are the suggestions.
    Listed(Vec<String>),
    /// Run a shell command.
    Run { command: String, timeout_ms: u64 },
    /// List the files of the directory.
    Files,
    /// List the directories of the directory.
    Directories,
    /// Nothing: there are none, for this reason.
    Refused(String),
}

/// What a [`SuggestionPlan`] holds.
pub enum PlanView {
    Listed(Seq<Seq<char>>),
    Run { command: Seq<char>, timeout_ms: u64 },
    Files,
    Directories,
    Refused(Seq<char>),
}

impl View for SuggestionPlan {
    type V = PlanView;

    open spec fn view(&self) -> PlanView {
        match self {
            SuggestionPlan::Listed(items) => PlanView::Listed(text::texts(items@)),
            SuggestionPlan::Run { command, timeout_ms } => PlanView::Run {
                command: command@,
                timeout_ms: *timeout_ms,
            },
            SuggestionPlan::Files => PlanView::Files,
            SuggestionPlan::Directories => PlanView::Directories,
            SuggestionPlan::Refused(message) => PlanView::Refused(message@),
        }
    }
}

/// What a variable's suggestions rest on.
pub enum Origin {
    Listed(Seq<Seq<char>>),
    Command(Seq<char>),
    BuiltIn,
}

/// What a description offers: its list, or else its command.
pub open spec fn offered(spec: domain::VariableSpecView) -> Option<Origin> {
    if spec.suggestions.len() > 0 {
        Some(Origin::Listed(spec.suggestions))
    } else if spec.command is Some {
        Some(Origin::Command(spec.command->0))
    } else {
        None
    }
}

/// What the description kept under `name` offers.
pub open spec fn offered_under(
    specs: Map<Seq<char>, domain::VariableSpecView>,
    name: Seq<char>,
) -> Option<Origin> {
    if specs.contains_key(name) {
        offered(specs[name])
    } else {
        None
    }
}

/// What a variable's suggestions rest on: an inline command, nothing for an
/// inline default, and otherwise the frontmatter, the configuration and the
/// built-in variables, in this order.
pub open spec fn origin_of(
    variable: domain::VariableView,
    local: Map<Seq<char>, domain::VariableSpecView>,
    inputs: Map<Seq<char>, domain::VariableSpecView>,
) -> Origin {
    match variable.source {
        domain::VariableSourceView::Command(command) => Origin::Command(command),
        domain::VariableSourceView::Default(_) => Origin::Listed(Seq::empty()),
        _ => match offered_under(local, variable.name) {
            Some(origin) => origin,
            None => match offered_under(inputs, variable.name) {
                Some(origin) => origin,
                None => Origin::BuiltIn,
            },
        },
    }
}

/// The command with the confirmed values in place of its references, or why
/// there is none.
pub open spec fn rendered_command(
    command: Seq<char>,
    confirmed: Map<Seq<char>, Seq<char>>,
) -> Result<Seq<char>, Seq<char>> {
    match command_template::parse_of(command) {
        Err(e) => Err(command_template::ParseError::message_of(e)),
        Ok(fragments) => match command_template::render_of(fragments, confirmed) {
            Ok(rendered) => Ok(rendered),
            Err(missing) => Err(
                "dependent variable '"@ + missing + "' has not been confirmed"@,
            ),
        },
    }
}

/// What has to be done to get the suggestions of a variable.
pub open spec fn plan_of(
    variable: domain::VariableView,
    local: Map<Seq<char>, domain::VariableSpecView>,
    inputs: Map<Seq<char>, domain::VariableSpecView>,
    confirmed: Map<Seq<char>, Seq<char>>,
    commands: SuggestionCommandsConfig,
) -> PlanView {
    match origin_of(variable, local, inputs) {
        Origin::Listed(items) => PlanView::Listed(items),
        Origin::Command(command) => if !commands.allow_commands {
            PlanView::Listed(Seq::empty())
        } else {
            match rendered_command(command, confirmed) {
                Ok(rendered) => PlanView::Run {
                    command: rendered,
                    timeout_ms: commands.timeout_ms,
                },
                Err(message) => PlanView::Refused(message),
            }
        },
        Origin::BuiltIn => if variable.name == "file"@ {
            PlanView::Files
        } else if variable.name == "directory"@ {
            PlanView::Directories
        } else {
            PlanView::Listed(Seq::empty())
        },
    }
}

/// The hint of a variable: its inline hint, or that of the frontmatter, or that
/// of the configuration.
pub open spec fn hint_of(
    variable: domain::VariableView,
    local: Map<Seq<char>, domain::VariableSpecView>,
    inputs: Map<Seq<char>, domain::VariableSpecView>,
) -> Option<Seq<char>> {
    match variable.source {
        domain::VariableSourceView::Hint(hint) => Some(hint),
        _ => if local.contains_key(variable.name) && local[variable.name].hint is Some {
            local[variable.name].hint
        } else if inputs.contains_key(variable.name) {
            inputs[variable.name].hint
        } else {
            None
        },
    }
}

/// The command of a variable as written.
pub open spec fn command_source_of(
    variable: domain::VariableView,
    local: Map<Seq<char>, domain::VariableSpecView>,
    inputs: Map<Seq<char>, domain::VariableSpecView>,
) -> Option<Seq<char>> {
    match origin_of(variable, local, inputs) {
        Origin::Command(command) => Some(command),
        _ => None,
    }
}

/// The text that the input starts with: the frontmatter's default, or that of
/// the configuration. An inline command or default leaves no room for one.
pub open spec fn default_input_of(
    variable: domain::VariableView,
    local: Map<Seq<char>, domain::VariableSpecView>,
    inputs: Map<Seq<char>, domain::VariableSpecView>,
) -> Option<Seq<char>> {
    match variable.source {
        domain::VariableSourceView::Command(_) | domain::VariableSourceView::Default(_) => None,
        _ => if local.contains_key(variable.name) && local[variable.name].default is Some {
            local[variable.name].default
        } else if inputs.contains_key(variable.name) {
            inputs[variable.name].default
        } else {
            None
        },
    }
}

/// The template of the value taken when nothing is typed. Only a variable
/// without an inline source has one; a description in the frontmatter stands
/// for the whole configuration.
pub open spec fn default_value_source_of(
    variable: domain::VariableView,
    local: Map<Seq<char>, domain::VariableSpecView>,
    inputs: Map<Seq<char>, domain::VariableSpecView>,
) -> Option<Seq<char>> {
    match variable.source {
        domain::VariableSourceView::Free => if local.contains_key(variable.name) {
            local[variable.name].default_value
        } else if inputs.contains_key(variable.name) {
            inputs[variable.name].default_value
        } else {
            None
        },
        _ => None,
    }
}

/// A template with the confirmed values; none where one is missing. Text with
/// malformed references stays as written.
pub open spec fn default_value_of(
    source: Option<Seq<char>>,
    confirmed: Map<Seq<char>, Seq<char>>,
) -> Option<Seq<char>> {
    match source {
        None => None,
        Some(text) => match command_template::parse_of(text) {
            Err(_) => Some(text),
            Ok(fragments) => match command_template::render_of(fragments, confirmed) {
                Ok(rendered) => Some(rendered),
                Err(_) => None,
            },
        },
    }
}

/// The description kept under `name`.
fn spec_under<'a>(specs: &'a TextMap<VariableSpec>, name: &str) -> (out: Option<&'a VariableSpec>)
    ensures
        match out {
            Some(spec) => domain::spec_views(specs@).contains_key(name@) && domain::spec_views(
                specs@,
            )[name@] == spec@,
            None => !domain::spec_views(specs@).contains_key(name@),
        },
{
    specs.get(name)
}

/// The command with the confirmed values in place of its references, ready to
/// be run.
pub fn render_template_for_exec(command: &str, confirmed: &TextMap<String>) -> (out: Result<
    String,
    String,
>)
    ensures
        match out {
            Ok(s) => rendered_command(command@, confirmed.texts()) == Ok::<Seq<char>, Seq<char>>(s@),
            Err(e) => rendered_command(command@, confirmed.texts()) == Err::<Seq<char>, Seq<char>>(
                e@,
            ),
        },
{
    match command_template::parse_command_template(command) {
        Err(e) => Err(e.message()),
        Ok(template) => match command_template::render(&template, confirmed) {
            Ok(rendered) => Ok(rendered),
            Err(e) => Err(e.message()),
        },
    }
}

/// A description's offer as a plan, where it has one.
enum Offer<'a> {
    Listed(&'a Vec<String>),
    Command(&'a String),
    Nothing,
}

impl<'a> Offer<'a> {
    spec fn origin(self) -> Option<Origin> {
        match self {
            Offer::Listed(items) => Some(Origin::Listed(text::texts(items@))),
            Offer::Command(command) => Some(Origin::Command(command@)),
            Offer::Nothing => None,
        }
    }
}

fn offer_under<'a>(specs: &'a TextMap<VariableSpec>, name: &str) -> (out: Offer<'a>)
    ensures
        out.origin() == offered_under(domain::spec_views(specs@), name@),
{
    match spec_under(specs, name) {
        None => Offer::Nothing,
        Some(spec) => if spec.suggestions.len() > 0 {
            Offer::Listed(&spec.suggestions)
        } else {
            match &spec.command {
                Some(command) => Offer::Command(command),
                None => Offer::Nothing,
            }
        },
    }
}

impl SystemSuggestionProvider {
    /// The descriptions of variables in the configuration.
    pub open spec fn inputs(&self) -> Map<Seq<char>, domain::VariableSpecView> {
        domain::spec_views(self.variable_inputs@)
    }

    /// A provider with the configuration's descriptions.
    pub fn new(
        variable_inputs: TextMap<VariableInputConfig>,
        suggestion_commands: SuggestionCommandsConfig,
    ) -> (out: Self)
        ensures
            out.variable_inputs == variable_inputs,
            out.suggestion_commands == suggestion_commands,
    {
        SystemSuggestionProvider { variable_inputs, suggestion_commands }
    }

    /// What runs for a command: the plan to run it, unless commands are
    /// switched off or a reference has no confirmed value.
    fn run(&self, command: &str, confirmed: &TextMap<String>) -> (plan: SuggestionPlan)
        ensures
            plan@ == (if !self.suggestion_commands.allow_commands {
                PlanView::Listed(Seq::empty())
            } else {
                match rendered_command(command@, confirmed.texts()) {
                    Ok(rendered) => PlanView::Run {
                        command: rendered,
                        timeout_ms: self.suggestion_commands.timeout_ms,
                    },
                    Err(message) => PlanView::Refused(message),
                }
            }),
    {
        if !self.suggestion_commands.allow_commands {
            let none: Vec<String> = Vec::new();
            assert(text::texts(none@) =~= Seq::<Seq<char>>::empty());
            return SuggestionPlan::Listed(none);
        }
        match render_template_for_exec(command, confirmed) {
            Ok(rendered) => SuggestionPlan::Run {
                command: rendered,
                timeout_ms: self.suggestion_commands.timeout_ms,
            },
            Err(message) => SuggestionPlan::Refused(message),
        }
    }

    /// What has to be done to get the suggestions of `variable`.
    pub fn plan(
        &self,
        variable: &Variable,
        local_variables: &TextMap<VariableSpec>,
        confirmed: &TextMap<String>,
    ) -> (plan: SuggestionPlan)
        ensures
            plan@ == plan_of(
                variable@,
                domain::spec_views(local_variables@),
                self.inputs(),
                confirmed.texts(),
                self.suggestion_commands,
            ),
    {
        let none: Vec<String> = Vec::new();
        assert(text::texts(none@) =~= Seq::<Seq<char>>::empty());
        match &variable.source {
            VariableSource::Command(command) => {
                return self.run(command.as_str(), confirmed);
            },
            VariableSource::Default(_) => {
                return SuggestionPlan::Listed(none);
            },
            VariableSource::Free | VariableSource::Hint(_) => {},
        }
        let name = variable.name.as_str();
        match offer_under(local_variables, name) {
            Offer::Listed(items) => {
                return SuggestionPlan::Listed(text::copy_texts(items));
            },
            Offer::Command(command) => {
                return self.run(command.as_str(), confirmed);
            },
            Offer::Nothing => {},
        }
        match offer_under(&self.variable_inputs, name) {
            Offer::Listed(items) => {
                return SuggestionPlan::Listed(text::copy_texts(items));
            },
            Offer::Command(command) => {
                return self.run(command.as_str(), confirmed);
            },
            Offer::Nothing => {},
        }
        if text::same_text(name, "file") {
            SuggestionPlan::Files
        } else if text::same_text(name, "directory") {
            SuggestionPlan::Directories
        } else {
            SuggestionPlan::Listed(none)
        }
    }

    /// The ghost text shown while the input is empty.
    pub fn hint(&self, variable: &Variable, local_variables: &TextMap<VariableSpec>) -> (out: Option<
        String,
    >)
        ensures
            text::optional_text(out) == hint_of(
                variable@,
                domain::spec_views(local_variables@),
                self.inputs(),
            ),
    {
        match &variable.source {
            VariableSource::Hint(hint) => {
                return Some(hint.clone());
            },
            _ => {},
        }
        match spec_under(local_variables, variable.name.as_str()) {
            Some(spec) => match &spec.hint {
                Some(hint) => {
                    return Some(hint.clone());
                },
                None => {},
            },
            None => {},
        }
        match spec_under(&self.variable_inputs, variable.name.as_str()) {
            Some(spec) => text::copy_optional(&spec.hint),
            None => None,
        }
    }

    /// The suggestion command as written.
    pub fn command_source(
        &self,
        variable: &Variable,
        local_variables: &TextMap<VariableSpec>,
    ) -> (out: Option<String>)
        ensures
            text::optional_text(out) == command_source_of(
                variable@,
                domain::spec_views(local_variables@),
                self.inputs(),
            ),
    {
        match &variable.source {
            VariableSource::Command(command) => {
                return Some(command.clone());
            },
            VariableSource::Default(_) => {
                return None;
            },
            VariableSource::Free | VariableSource::Hint(_) => {},
        }
        match offer_under(local_variables, variable.name.as_str()) {
            Offer::Listed(_) => {
                return None;
            },
            Offer::Command(command) => {
                return Some(command.clone());
            },
            Offer::Nothing => {},
        }
        match offer_under(&self.variable_inputs, variable.name.as_str()) {
            Offer::Command(command) => Some(command.clone()),
            _ => None,
        }
    }

    /// The text that the input starts with.
    pub fn default_input(
        &self,
        variable: &Variable,
        local_variables: &TextMap<VariableSpec>,
    ) -> (out: Option<String>)
        ensures
            text::optional_text(out) == default_input_of(
                variable@,
                domain::spec_views(local_variables@),
                self.inputs(),
            ),
    {
        match &variable.source {
            VariableSource::Command(_) | VariableSource::Default(_) => {
                return None;
            },
            VariableSource::Free | VariableSource::Hint(_) => {},
        }
        match spec_under(local_variables, variable.name.as_str()) {
            Some(spec) => match &spec.default {
                Some(value) => {
                    return Some(value.clone());
                },
                None => {},
            },
            None => {},
        }
        match spec_under(&self.variable_inputs, variable.name.as_str()) {
            Some(spec) => text::copy_optional(&spec.default),
            None => None,
        }
    }

    /// The template of the value taken when nothing is typed.
    pub fn default_value_source(
        &self,
        variable: &Variable,
        local_variables: &TextMap<VariableSpec>,
    ) -> (out: Option<String>)
        ensures
            text::optional_text(out) == default_value_source_of(
                variable@,
                domain::spec_views(local_variables@),
                self.inputs(),
            ),
    {
        match &variable.source {
            VariableSource::Free => {},
            _ => {
                return None;
            },
        }
        match spec_under(local_variables, variable.name.as_str()) {
            Some(spec) => text::copy_optional(&spec.default_value),
            None => match spec_under(&self.variable_inputs, variable.name.as_str()) {
                Some(spec) => text::copy_optional(&spec.default_value),
                None => None,
            },
        }
    }

    /// The value taken when nothing is typed.
    pub fn default_value(
        &self,
        variable: &Variable,
        local_variables: &TextMap<VariableSpec>,
        confirmed: &TextMap<String>,
    ) -> (out: Option<String>)
        ensures
            text::optional_text(out) == default_value_of(
                default_value_source_of(
                    variable@,
                    domain::spec_views(local_variables@),
                    self.inputs(),
                ),
                confirmed.texts(),
            ),
    {
        let source = self.default_value_source(variable, local_variables)?;
        match command_template::parse_command_template(source.as_str()) {
            Ok(template) => match command_template::render(&template, confirmed) {
                Ok(rendered) => Some(rendered),
                Err(_) => None,
            },
            Err(_) => Some(source),
        }
    }
}

/// The text with a newline in place of each backslash that stands before an
/// `n`, and of the `n`.
pub open spec fn unescaped(s: Seq<char>) -> Seq<char>
    decreases s.len(),
{
    if s.len() == 0 {
        Seq::empty()
    } else if s.len() >= 2 && s[0] == '\\' && s[1] == 'n' {
        seq!['\n'] + unescaped(s.skip(2))
    } else {
        seq![s[0]] + unescaped(s.skip(1))
    }
}

/// The trimmed texts that are not blank.
pub open spec fn not_blank(items: Seq<Seq<char>>) -> Seq<Seq<char>>
    decreases items.len(),
{
    if items.len() == 0 {
        Seq::empty()
    } else {
        let before = not_blank(items.drop_last());
        let item = text::trim_of(items.last());
        if item.len() == 0 {
            before
        } else {
            before.push(item)
        }
    }
}

/// The suggestions that a command printed: its lines, where a written-out `\n`
/// ends a line too, without blank ones.
pub open spec fn printed(stdout: Seq<char>) -> Seq<Seq<char>> {
    not_blank(text::split_of(unescaped(stdout), '\n'))
}

fn unescape(s: &str) -> (out: String)
    ensures
        out@ == unescaped(s@),
{
    let chars = text::chars_of(s);
    let mut out = String::new();
    let mut i: usize = 0;
    assert(chars@.skip(0) =~= chars@);
    assert(out@ + unescaped(chars@) =~= unescaped(s@));
    while i < chars.len()
        invariant
            i <= chars@.len(),
            out@ + unescaped(chars@.skip(i as int)) == unescaped(s@),
        decreases chars@.len() - i,
    {
        let ghost before = out@;
        let ghost rest = chars@.skip(i as int);
        if i + 1 < chars.len() && chars[i] == '\\' && chars[i + 1] == 'n' {
            out.push('\n');
            assert(rest.skip(2) =~= chars@.skip(i + 2));
            assert(before.push('\n') + unescaped(rest.skip(2)) =~= before + (seq!['\n']
                + unescaped(rest.skip(2))));
            i = i + 2;
        } else {
            out.push(chars[i]);
            assert(rest.skip(1) =~= chars@.skip(i + 1));
            assert(before.push(rest[0]) + unescaped(rest.skip(1)) =~= before + (seq![rest[0]]
                + unescaped(rest.skip(1))));
            i = i + 1;
        }
    }
    assert(out@ + Seq::<char>::empty() =~= out@);
    out
}

/// The suggestions that a command printed.
pub fn printed_suggestions(stdout: &str) -> (out: Vec<String>)
    ensures
        text::texts(out@) == printed(stdout@),
{
    let plain = unescape(stdout);
    let lines = text::split_text(plain.as_str(), '\n');
    let ghost all = text::texts(lines@);
    let mut out: Vec<String> = Vec::new();
    let mut i: usize = 0;
    assert(all.take(0) =~= Seq::<Seq<char>>::empty());
    assert(text::texts(out@) =~= Seq::<Seq<char>>::empty());
    while i < lines.len()
        invariant
            i <= lines@.len(),
            all == text::texts(lines@),
            text::texts(out@) == not_blank(all.take(i as int)),
        decreases lines@.len() - i,
    {
        assert(all.take(i + 1).drop_last() =~= all.take(i as int));
        assert(all.take(i + 1).last() == lines@[i as int]@);
        let item = text::trim(lines[i].as_str());
        if !item.as_str().is_empty() {
            proof {
                text::lemma_texts_push(out@, item);
            }
            out.push(item);
        }
        i = i + 1;
    }
    assert(all.take(all.len() as int) =~= all);
    out
}

/// What the user is told when a command failed: what it wrote to its error
/// output, or else the command itself.
pub open spec fn failure_text(command: Seq<char>, stderr: Seq<char>) -> Seq<char> {
    let reason = text::trim_of(stderr);
    "suggestion command failed: "@ + (if reason.len() == 0 {
        command
    } else {
        reason
    })
}

/// The suggestions of a command that was run: what it printed, or why it
/// failed.
pub fn command_suggestions(command: &str, success: bool, stdout: &str, stderr: &str) -> (out: Result<
    Vec<String>,
    String,
>)
    ensures
        match out {
            Ok(items) => success && text::texts(items@) == printed(stdout@),
            Err(message) => !success && message@ == failure_text(command@, stderr@),
        },
{
    if success {
        return Ok(printed_suggestions(stdout));
    }
    let mut message = "suggestion command failed: ".to_owned();
    let reason = text::trim(stderr);
    if reason.as_str().is_empty() {
        message.append(command);
    } else {
        message.append(reason.as_str());
    }
    Err(message)
}

/// An entry of a directory.
#[derive(Debug, PartialEq, Eq)]
pub struct DirectoryEntry {
    pub name: String,
    pub is_file: bool,
    pub is_dir: bool,
}

/// The names of the files, or of the directories, among the entries.
pub open spec fn wanted_names(entries: Seq<DirectoryEntry>, want_files: bool) -> Seq<Seq<char>>
    decreases entries.len(),
{
    if entries.len() == 0 {
        Seq::empty()
    } else {
        let before = wanted_names(entries.drop_last(), want_files);
        let last = entries.last();
        if (want_files && last.is_file) || (!want_files && last.is_dir) {
            before.push(last.name@)
        } else {
            before
        }
    }
}

/// The suggestions of a built-in variable, given what is in the directory: the
/// files for `file`, the directories for `directory`, in alphabetical order.
pub fn builtin_suggestions(name: &str, entries: &Vec<DirectoryEntry>) -> (out: Vec<String>)
    ensures
        text::texts(out@) == (if name@ == "file"@ {
            text::in_order(wanted_names(entries@, true))
        } else if name@ == "directory"@ {
            text::in_order(wanted_names(entries@, false))
        } else {
            Seq::empty()
        }),
{
    if text::same_text(name, "file") {
        directory_names(entries, true)
    } else if text::same_text(name, "directory") {
        directory_names(entries, false)
    } else {
        let none: Vec<String> = Vec::new();
        assert(text::texts(none@) =~= Seq::<Seq<char>>::empty());
        none
    }
}

fn directory_names(entries: &Vec<DirectoryEntry>, want_files: bool) -> (out: Vec<String>)
    ensures
        text::texts(out@) == text::in_order(wanted_names(entries@, want_files)),
{
    let mut out: Vec<String> = Vec::new();
    let mut i: usize = 0;
    assert(entries@.take(0) =~= Seq::<DirectoryEntry>::empty());
    assert(text::texts(out@) =~= Seq::<Seq<char>>::empty());
    while i < entries.len()
        invariant
            i <= entries@.len(),
            text::texts(out@) == wanted_names(entries@.take(i as int), want_files),
        decreases entries@.len() - i,
    {
        assert(entries@.take(i + 1).drop_last() =~= entries@.take(i as int));
        let entry = &entries[i];
        let wanted = if want_files {
            entry.is_file
        } else {
            entry.is_dir
        };
        if wanted {
            let name = entry.name.clone();
            proof {
                text::lemma_texts_push(out@, name);
            }
            out.push(name);
        }
        i = i + 1;
    }
    assert(entries@.take(entries@.len() as int) =~= entries@);
    text::sort_texts(out)
}

/// Frontmatter stands before the configuration field by field: what it says of
/// a variable wins, and what it leaves out is taken from the configuration.
pub proof fn law_frontmatter_comes_first(
    variable: domain::VariableView,
    local: Map<Seq<char>, domain::VariableSpecView>,
    inputs: Map<Seq<char>, domain::VariableSpecView>,
)
    requires
        variable.source is Free,
        local.contains_key(variable.name),
    ensures
        local[variable.name].suggestions.len() > 0 ==> origin_of(variable, local, inputs)
            == Origin::Listed(local[variable.name].suggestions),
        local[variable.name].default is Some ==> default_input_of(variable, local, inputs)
            == local[variable.name].default,
        local[variable.name].hint is Some ==> hint_of(variable, local, inputs)
            == local[variable.name].hint,
        offered(local[variable.name]) is None && inputs.contains_key(variable.name) && offered(
            inputs[variable.name],
        ) is Some ==> origin_of(variable, local, inputs) == offered(inputs[variable.name])->0,
{
}

/// An inline source wins over every description of the variable.
pub proof fn law_inline_source_comes_first(
    variable: domain::VariableView,
    local: Map<Seq<char>, domain::VariableSpecView>,
    inputs: Map<Seq<char>, domain::VariableSpecView>,
)
    ensures
        variable.source matches domain::VariableSourceView::Command(c) ==> origin_of(
            variable,
            local,
            inputs,
        ) == Origin::Command(c),
        variable.source is Default ==> default_input_of(variable, local, inputs) is None
            && command_source_of(variable, local, inputs) is None,
        variable.source matches domain::VariableSourceView::Hint(h) ==> hint_of(
            variable,
            local,
            inputs,
        ) == Some(h),
{
}

/// Where commands are switched off, none is ever run.
pub proof fn law_commands_can_be_switched_off(
    variable: domain::VariableView,
    local: Map<Seq<char>, domain::VariableSpecView>,
    inputs: Map<Seq<char>, domain::VariableSpecView>,
    confirmed: Map<Seq<char>, Seq<char>>,
    commands: SuggestionCommandsConfig,
)
    requires
        !commands.allow_commands,
    ensures
        !(plan_of(variable, local, inputs, confirmed, commands) is Run),
{
}

/// A variable without an inline command or default takes the list of its
/// description, or else its command: first from the frontmatter, then from the
/// configuration. Where neither offers anything, files and directories are listed
/// for the two names that stand for them.
pub proof fn law_where_suggestions_come_from(
    variable: domain::VariableView,
    local: Map<Seq<char>, domain::VariableSpecView>,
    inputs: Map<Seq<char>, domain::VariableSpecView>,
    confirmed: Map<Seq<char>, Seq<char>>,
    commands: SuggestionCommandsConfig,
)
    requires
        variable.source is Free || variable.source is Hint,
    ensures
        ({
            let name = variable.name;
            let plan = plan_of(variable, local, inputs, confirmed, commands);
            let command = command_source_of(variable, local, inputs);
            let silent = !local.contains_key(name) || (local[name].suggestions.len() == 0
                && local[name].command is None);
            let unset = !inputs.contains_key(name) || (inputs[name].suggestions.len() == 0
                && inputs[name].command is None);
            &&& local.contains_key(name) && local[name].suggestions.len() > 0 ==> plan
                == PlanView::Listed(local[name].suggestions) && command is None
            &&& local.contains_key(name) && local[name].suggestions.len() == 0
                && local[name].command is Some ==> command == local[name].command
            &&& silent && inputs.contains_key(name) && inputs[name].suggestions.len() > 0 ==> plan
                == PlanView::Listed(inputs[name].suggestions) && command is None
            &&& silent && inputs.contains_key(name) && inputs[name].suggestions.len() == 0
                && inputs[name].command is Some ==> command == inputs[name].command
            &&& silent && unset ==> command is None
            &&& silent && unset && name == "file"@ ==> plan == PlanView::Files
            &&& silent && unset && name == "directory"@ ==> plan == PlanView::Directories
            &&& silent && unset && name != "file"@ && name != "directory"@ ==> plan
                == PlanView::Listed(Seq::empty())
        }),
{
    reveal_strlit("file");
    reveal_strlit("directory");
    assert("file"@.len() != "directory"@.len());
}

/// A command is run with the confirmed values in place of its references and with
/// the time limit of the configuration. Where the command is malformed or a value
/// is missing, the user is told so instead.
pub proof fn law_commands_run_with_the_values(
    variable: domain::VariableView,
    local: Map<Seq<char>, domain::VariableSpecView>,
    inputs: Map<Seq<char>, domain::VariableSpecView>,
    confirmed: Map<Seq<char>, Seq<char>>,
    commands: SuggestionCommandsConfig,
    command: Seq<char>,
)
    requires
        command_source_of(variable, local, inputs) == Some(command),
    ensures
        ({
            let plan = plan_of(variable, local, inputs, confirmed, commands);
            &&& !commands.allow_commands ==> plan == PlanView::Listed(Seq::empty())
            &&& commands.allow_commands ==> match command_template::parse_of(command) {
                Err(e) => plan == PlanView::Refused(command_template::ParseError::message_of(e)),
                Ok(fragments) => match command_template::render_of(fragments, confirmed) {
                    Ok(rendered) => plan == (PlanView::Run {
                        command: rendered,
                        timeout_ms: commands.timeout_ms,
                    }),
                    Err(missing) => plan == PlanView::Refused(
                        "dependent variable '"@ + missing + "' has not been confirmed"@,
                    ),
                },
            }
        }),
{
}

/// Where the frontmatter says nothing of a hint or of the text that the input
/// starts with, the configuration does. A description in the frontmatter stands
/// for the whole configuration where the value for empty input is concerned.
pub proof fn law_configuration_fills_in(
    variable: domain::VariableView,
    local: Map<Seq<char>, domain::VariableSpecView>,
    inputs: Map<Seq<char>, domain::VariableSpecView>,
)
    requires
        variable.source is Free,
        inputs.contains_key(variable.name),
    ensures
        ({
            let name = variable.name;
            let there = local.contains_key(name);
            &&& !there || local[name].hint is None ==> hint_of(variable, local, inputs)
                == inputs[name].hint
            &&& !there || local[name].default is None ==> default_input_of(variable, local, inputs)
                == inputs[name].default
            &&& !there ==> default_value_source_of(variable, local, inputs)
                == inputs[name].default_value
            &&& there ==> default_value_source_of(variable, local, inputs)
                == local[name].default_value
        }),
{
}

/// A written-out newline in what a command printed counts as a newline.
pub proof fn law_written_newlines_count(a: Seq<char>, b: Seq<char>)
    ensures
        unescaped(a + seq!['\\', 'n'] + b) == unescaped(a) + seq!['\n'] + unescaped(b),
    decreases a.len(),
{
    let s = a + seq!['\\', 'n'] + b;
    reveal_with_fuel(unescaped, 2);
    if a.len() == 0 {
        assert(s.skip(2) =~= b);
        assert(unescaped(s) =~= unescaped(a) + seq!['\n'] + unescaped(b));
    } else if a.len() >= 2 && a[0] == '\\' && a[1] == 'n' {
        law_written_newlines_count(a.skip(2), b);
        assert(s.skip(2) =~= a.skip(2) + seq!['\\', 'n'] + b);
        assert(unescaped(s) =~= unescaped(a) + seq!['\n'] + unescaped(b));
    } else {
        law_written_newlines_count(a.skip(1), b);
        assert(s.skip(1) =~= a.skip(1) + seq!['\\', 'n'] + b);
        assert(s[0] == a[0]);
        if a.len() == 1 {
            assert(s[1] == '\\');
        } else {
            assert(s[1] == a[1]);
        }
        assert(unescaped(s) =~= unescaped(a) + seq!['\n'] + unescaped(b));
    }
}

/// A text without written-out newlines stays as it is.
pub proof fn law_other_text_stays(s: Seq<char>)
    requires
        forall|i: int| 0 <= i < s.len() - 1 && #[trigger] s[i] == '\\' ==> s[i + 1] != 'n',
    ensures
        unescaped(s) == s,
    decreases s.len(),
{
    if s.len() > 0 {
        let rest = s.skip(1);
        assert forall|i: int| 0 <= i < rest.len() - 1 && #[trigger] rest[i] == '\\' implies rest[i
            + 1] != 'n' by {
            assert(s[i + 1] == '\\');
        }
        law_other_text_stays(rest);
        if s.len() >= 2 && s[0] == '\\' {
            assert(s[1] != 'n');
        }
        assert(seq![s[0]] + rest =~= s);
    }
}

proof fn lemma_not_blank(items: Seq<Seq<char>>)
    ensures
        not_blank(items) == items.map_values(|item: Seq<char>| text::trim_of(item)).filter(
            |item: Seq<char>| item.len() > 0,
        ),
    decreases items.len(),
{
    reveal(Seq::filter);
    let trim = |item: Seq<char>| text::trim_of(item);
    let kept = |item: Seq<char>| item.len() > 0;
    let trimmed = items.map_values(trim);
    if items.len() > 0 {
        lemma_not_blank(items.drop_last());
        assert(trimmed.drop_last() =~= items.drop_last().map_values(trim));
    } else {
        assert(trimmed.filter(kept) =~= Seq::<Seq<char>>::empty());
    }
}

/// The suggestions of a command are the lines that it printed, in order, trimmed,
/// without those that are blank.
pub proof fn law_printed_lines_are_the_suggestions(stdout: Seq<char>)
    ensures
        printed(stdout) == text::split_of(unescaped(stdout), '\n').map_values(
            |line: Seq<char>| text::trim_of(line),
        ).filter(|line: Seq<char>| line.len() > 0),
{
    lemma_not_blank(text::split_of(unescaped(stdout), '\n'));
}

/// A command that failed is reported with what it wrote to its error output. Where
/// that is blank the command itself is named.
pub proof fn law_failures_name_their_reason(
    command: Seq<char>,
    before: Seq<char>,
    reason: Seq<char>,
    behind: Seq<char>,
)
    requires
        text::is_trimmed(reason),
        forall|i: int| 0 <= i < before.len() ==> text::is_white_space(#[trigger] before[i]),
        forall|i: int| 0 <= i < behind.len() ==> text::is_white_space(#[trigger] behind[i]),
    ensures
        reason.len() > 0 ==> failure_text(command, before + reason + behind)
            == "suggestion command failed: "@ + reason,
        reason.len() == 0 ==> failure_text(command, before + reason + behind)
            == "suggestion command failed: "@ + command,
{
    if reason.len() > 0 {
        text::law_trimming_takes_white_space_away(before, reason, behind);
    } else {
        text::law_white_space_is_trimmed_away(before + reason + behind);
    }
}

/// The names of the files are those of the entries that are files, and the names
/// of the directories those of the entries that are directories, in order.
pub proof fn law_wanted_entries_are_listed(entries: Seq<DirectoryEntry>)
    ensures
        wanted_names(entries, true) == entries.filter(
            |e: DirectoryEntry| e.is_file,
        ).map_values(|e: DirectoryEntry| e.name@),
        wanted_names(entries, false) == entries.filter(
            |e: DirectoryEntry| e.is_dir,
        ).map_values(|e: DirectoryEntry| e.name@),
    decreases entries.len(),
{
    reveal(Seq::filter);
    let files = |e: DirectoryEntry| e.is_file;
    let dirs = |e: DirectoryEntry| e.is_dir;
    let name = |e: DirectoryEntry| e.name@;
    if entries.len() > 0 {
        let front = entries.drop_last();
        let last = entries.last();
        law_wanted_entries_are_listed(front);
        assert(front.filter(files).push(last).map_values(name) =~= front.filter(files).map_values(
            name,
        ).push(last.name@));
        assert(front.filter(dirs).push(last).map_values(name) =~= front.filter(dirs).map_values(
            name,
        ).push(last.name@));
    } else {
        assert(wanted_names(entries, true) =~= entries.filter(files).map_values(name));
        assert(wanted_names(entries, false) =~= entries.filter(dirs).map_values(name));
    }
}

} // verus!
