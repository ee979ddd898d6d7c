//! Sessions: picking a snippet and filling its variables, key by key.

use peanutbutter::command_template::{parse_command_template, render, Fragment};
use peanutbutter::config::{FuzzyWeights, SuggestionCommandsConfig, Theme};
use peanutbutter::domain::{
    Frontmatter, Snippet, SnippetFile, SnippetId, Variable, VariableSource, VariableSpec,
};
use peanutbutter::execute::app::{AppEvent, ExecutionApp, NavigationMode, Screen};
use peanutbutter::execute::prompt::{load_prompt_state, PromptState};
use peanutbutter::execute::render::layout::{select_layout, Rect};
use peanutbutter::execute::suggestions::{
    builtin_suggestions, command_suggestions, printed_suggestions, DirectoryEntry, SuggestionPlan,
    SuggestionProvider, SystemSuggestionProvider,
};
use peanutbutter::execute::template::{
    active_prompt_style, cursor_in_template, parse_variables, placeholder_prompt_style,
    render_command, render_command_text, unique_variables,
};
use peanutbutter::execute::terminal::{
    clamp_scroll, compact_viewport_height, edit_status, reload_after_edit, scroll_key,
    third_of_screen, EditResult, Reload, ScrollStep,
};
use peanutbutter::execute::ExecutionOutcome;
use peanutbutter::fuzzy::FuzzyScorer;
use peanutbutter::index::{IndexedSnippet, SnippetIndex, TagKey};
use peanutbutter::keybinds::{
    show_chord, ExecuteKeymap, FuzzyAction, KeyChord, KeyCode, KeyEvent, KeySetting, Keymaps,
    SelectAction,
};
use peanutbutter::parser::parse_file;
use peanutbutter::search;
use peanutbutter::style::{Line, Style, Text};
use peanutbutter::text_map::TextMap;
use std::cell::RefCell;
use std::collections::{BTreeMap, HashMap};
use std::ops::{Deref, DerefMut};

#[derive(Default)]
struct TestProvider {
    values: RefCell<HashMap<String, Vec<String>>>,
    calls: RefCell<HashMap<String, usize>>,
    last_confirmed: RefCell<HashMap<String, BTreeMap<String, String>>>,
}

impl TestProvider {
    fn with(self, name: &str, values: &[&str]) -> Self {
        self.values.borrow_mut().insert(
            name.to_string(),
            values.iter().map(|value| value.to_string()).collect(),
        );
        self
    }

    fn call_count(&self, name: &str) -> usize {
        self.calls.borrow().get(name).copied().unwrap_or(0)
    }

    fn last_confirmed(&self, name: &str) -> BTreeMap<String, String> {
        self.last_confirmed
            .borrow()
            .get(name)
            .cloned()
            .unwrap_or_default()
    }
}

fn plain_map(map: &TextMap<String>) -> BTreeMap<String, String> {
    (0..map.len())
        .map(|i| (map.key_at(i).clone(), map.value_at(i).clone()))
        .collect()
}

impl SuggestionProvider for TestProvider {
    fn suggestions(
        &self,
        variable: &Variable,
        _cwd: &str,
        _local_variables: &TextMap<VariableSpec>,
        confirmed: &TextMap<String>,
    ) -> Result<Vec<String>, String> {
        *self
            .calls
            .borrow_mut()
            .entry(variable.name.clone())
            .or_insert(0) += 1;
        self.last_confirmed
            .borrow_mut()
            .insert(variable.name.clone(), plain_map(confirmed));
        Ok(self
            .values
            .borrow()
            .get(&variable.name)
            .cloned()
            .unwrap_or_default())
    }

    fn default_input(
        &self,
        _variable: &Variable,
        _local_variables: &TextMap<VariableSpec>,
        _confirmed: &TextMap<String>,
    ) -> Option<String> {
        None
    }

    fn hint(
        &self,
        variable: &Variable,
        _local_variables: &TextMap<VariableSpec>,
    ) -> Option<String> {
        if let VariableSource::Hint(text) = &variable.source {
            return Some(text.clone());
        }
        None
    }

    fn command_source(
        &self,
        variable: &Variable,
        _local_variables: &TextMap<VariableSpec>,
    ) -> Option<String> {
        if let VariableSource::Command(cmd) = &variable.source {
            return Some(cmd.clone());
        }
        None
    }
}

/// The provider behind the program, in a world where `echo` is the only
/// command.
struct System(SystemSuggestionProvider);

fn system(inputs: TextMap<VariableSpec>) -> System {
    System(SystemSuggestionProvider::new(inputs, SuggestionCommandsConfig::default()))
}

impl SuggestionProvider for System {
    fn suggestions(
        &self,
        variable: &Variable,
        _cwd: &str,
        local_variables: &TextMap<VariableSpec>,
        confirmed: &TextMap<String>,
    ) -> Result<Vec<String>, String> {
        match self.0.plan(variable, local_variables, confirmed) {
            SuggestionPlan::Listed(items) => Ok(items),
            SuggestionPlan::Run { command, .. } => match command.strip_prefix("echo ") {
                Some(rest) => command_suggestions(&command, true, &format!("{rest}\n"), ""),
                None => command_suggestions(&command, false, "", "no such command"),
            },
            SuggestionPlan::Files | SuggestionPlan::Directories => Ok(vec![]),
            SuggestionPlan::Refused(why) => Err(why),
        }
    }

    fn default_input(
        &self,
        variable: &Variable,
        local_variables: &TextMap<VariableSpec>,
        _confirmed: &TextMap<String>,
    ) -> Option<String> {
        self.0.default_input(variable, local_variables)
    }

    fn default_value(
        &self,
        variable: &Variable,
        local_variables: &TextMap<VariableSpec>,
        confirmed: &TextMap<String>,
    ) -> Option<String> {
        self.0.default_value(variable, local_variables, confirmed)
    }

    fn default_value_source(
        &self,
        variable: &Variable,
        local_variables: &TextMap<VariableSpec>,
    ) -> Option<String> {
        self.0.default_value_source(variable, local_variables)
    }

    fn hint(&self, variable: &Variable, local_variables: &TextMap<VariableSpec>) -> Option<String> {
        self.0.hint(variable, local_variables)
    }

    fn command_source(
        &self,
        variable: &Variable,
        local_variables: &TextMap<VariableSpec>,
    ) -> Option<String> {
        self.0.command_source(variable, local_variables)
    }
}

/// The snippets that a query finds, best first.
fn found(index: &SnippetIndex, query: &str) -> Vec<SnippetId> {
    let mut scorer = FuzzyScorer::new();
    let mut hits: Vec<(u32, SnippetId)> = Vec::new();
    for entry in index.iter() {
        if let Some(score) = search::score(&mut scorer, query, entry, &FuzzyWeights::default()) {
            hits.push((score, entry.id().clone()));
        }
    }
    hits.sort_by(|a, b| b.0.cmp(&a.0));
    hits.into_iter().map(|hit| hit.1).collect()
}

/// A session together with its search.
struct App<P>(ExecutionApp<P>);

impl<P> Deref for App<P> {
    type Target = ExecutionApp<P>;

    fn deref(&self) -> &ExecutionApp<P> {
        &self.0
    }
}

impl<P> DerefMut for App<P> {
    fn deref_mut(&mut self) -> &mut ExecutionApp<P> {
        &mut self.0
    }
}

impl<P: SuggestionProvider> App<P> {
    fn new(index: SnippetIndex, provider: P) -> Self {
        App(ExecutionApp::new(index, ".".to_string(), Theme::default(), provider))
    }

    fn with_initial_buffer(self, buffer: Option<String>) -> Self {
        App(self.0.with_initial_buffer(buffer))
    }

    fn with_keymap(self, keymap: ExecuteKeymap) -> Self {
        App(self.0.with_keymap(keymap))
    }

    fn hits(&self) -> Vec<SnippetId> {
        found(&self.0.index, &self.0.fuzzy.query)
    }

    fn handle_key(&mut self, key: KeyEvent) -> AppEvent {
        let hits = self.hits();
        self.0.handle_key(key, &hits)
    }

    fn selected_snippet(&self) -> Option<&IndexedSnippet> {
        self.0.selected_snippet(&self.hits())
    }

    fn replace_index(&mut self, index: SnippetIndex, wanted: Option<&SnippetId>) -> bool {
        let hits = found(&index, &self.0.fuzzy.query);
        self.0.replace_index(index, wanted, &hits)
    }
}

fn snippet_file(rel: &str, name: &str, body: &str, variables: Vec<Variable>) -> SnippetFile {
    SnippetFile {
        path: rel.to_string(),
        relative_path: rel.to_string(),
        frontmatter: Frontmatter::default(),
        snippets: vec![Snippet {
            id: SnippetId::new(rel, "slug"),
            name: name.to_string(),
            description: "desc".to_string(),
            body: body.to_string(),
            variables,
            language: None,
        }],
    }
}

fn snippet_file_with_slug(rel: &str, slug: &str, name: &str, body: &str) -> SnippetFile {
    let mut file = snippet_file(rel, name, body, vec![]);
    file.snippets[0].id = SnippetId::new(rel, slug);
    file
}

fn snippet_file_with_tags(rel: &str, slug: &str, name: &str, tags: &[&str]) -> SnippetFile {
    let mut file = snippet_file_with_slug(rel, slug, name, "echo hi");
    file.frontmatter.tags = tags.iter().map(|tag| tag.to_string()).collect();
    file
}

fn app_with_body(
    body: &str,
    variables: Vec<Variable>,
    provider: TestProvider,
) -> App<TestProvider> {
    let index = SnippetIndex::from_files(vec![snippet_file("x.md", "Demo", body, variables)]);
    App::new(index, provider)
}

fn alt(code: KeyCode) -> KeyEvent {
    KeyEvent { chord: KeyChord { code, control: false, alt: true }, release: false }
}

/// The key settings of a config, each under its path.
fn collect_keys(value: &toml::Value, path: String, keys: &mut Vec<KeySetting>) {
    let Some(table) = value.as_table() else {
        let listed = value
            .as_array()
            .and_then(|list| list.iter().map(|key| key.as_str().map(str::to_string)).collect());
        keys.push(KeySetting { path, keys: listed });
        return;
    };
    for (name, value) in table {
        let separator = if path.is_empty() { "" } else { "." };
        collect_keys(value, format!("{path}{separator}{name}"), keys);
    }
}

/// The keymaps that a config gives.
fn keymaps_from(raw: &str) -> Keymaps {
    let value: toml::Value = toml::from_str(raw).unwrap();
    let mut keys = Vec::new();
    collect_keys(value.get("keybinds").unwrap(), String::new(), &mut keys);
    Keymaps::resolve(&keys)
}

/// The keys of the session that a config without mistakes gives.
fn keymap_from(raw: &str) -> ExecuteKeymap {
    let Keymaps { execute, warnings } = keymaps_from(raw);
    assert!(warnings.is_empty(), "unexpected warnings: {warnings:?}");
    execute
}

fn completed(event: AppEvent) -> ExecutionOutcome {
    match event {
        AppEvent::Completed(outcome) => outcome,
        other => panic!("expected completed event, got {other:?}"),
    }
}

fn edit_requested(event: AppEvent) -> SnippetId {
    match event {
        AppEvent::EditSnippet(id) => id,
        other => panic!("expected edit request, got {other:?}"),
    }
}

fn line_text(line: &Line) -> String {
    line.spans.iter().map(|span| span.content.as_str()).collect()
}

fn text_text(text: &Text) -> String {
    text.lines.iter().map(line_text).collect::<Vec<String>>().join("\n")
}

fn span_style_for(line: &Line, content: &str) -> Style {
    line.spans
        .iter()
        .find(|span| span.content == content)
        .unwrap_or_else(|| panic!("expected a span with content {content:?}"))
        .style
}

/// All the text on screen.
fn rendered_text<P: SuggestionProvider>(app: &mut App<P>) -> String {
    let outer = Rect { x: 0, y: 0, width: 100, height: 20 };
    if let Screen::Prompt(prompt) = &app.0.screen {
        let areas = app.0.prompt_areas(prompt, outer);
        let screen = app.0.render_prompt(prompt, areas);
        let status: String = screen.status.iter().map(|span| span.content.as_str()).collect();
        return format!("{}\n{status}\n{}", text_text(&screen.command), screen.footer);
    }
    let hits = app.hits();
    let areas = select_layout(outer, app.0.tags.drill().is_some());
    let screen = app.0.render_select(&hits, outer, areas);
    format!(
        "{}\n{}\n{}\n{}\n{}",
        screen.heading.unwrap_or_default(),
        screen.rows.map(|rows| text_text(&rows)).unwrap_or_default(),
        text_text(&screen.preview),
        text_text(&screen.header),
        screen.footer
    )
}

#[test]
fn tests_render_command_replaces_each_placeholder_form() {
    let mut values: TextMap<String> = TextMap::new();
    values.insert("file".to_string(), "Cargo.toml".to_string());
    values.insert("pattern".to_string(), "needle".to_string());
    values.insert("method".to_string(), "POST".to_string());
    let rendered = render_command(
        "cat <@file> | grep <@pattern:?hi> && curl -X <@method:echo GET>",
        &values,
    );
    assert_eq!(rendered, "cat Cargo.toml | grep needle && curl -X POST");
}

#[test]
fn tests_render_command_keeps_unresolved_placeholders() {
    let values: TextMap<String> = TextMap::new();
    let rendered = render_command("echo <@missing>", &values);
    assert_eq!(rendered, "echo <@missing>");
}

#[test]
fn tests_render_command_text_highlights_active_value() {
    let mut values: TextMap<String> = TextMap::new();
    values.insert("file".to_string(), "Cargo.toml".to_string());
    let theme = Theme::default();
    let rendered = render_command_text("cat <@file>", &values, Some("file"), None, &theme);
    assert_eq!(line_text(&rendered.lines[0]), "cat Cargo.toml");
    assert_eq!(
        span_style_for(&rendered.lines[0], "Cargo.toml"),
        active_prompt_style(&theme)
    );
}

#[test]
fn tests_render_command_text_highlights_active_placeholder_and_dims_others() {
    let values: TextMap<String> = TextMap::new();
    let theme = Theme::default();
    let rendered = render_command_text(
        "echo <@missing> <@later>",
        &values,
        Some("missing"),
        None,
        &theme,
    );
    assert_eq!(line_text(&rendered.lines[0]), "echo <@missing> <@later>");
    assert_eq!(
        span_style_for(&rendered.lines[0], "<@missing>"),
        active_prompt_style(&theme)
    );
    assert_eq!(
        span_style_for(&rendered.lines[0], "<@later>"),
        placeholder_prompt_style(&theme)
    );
}

#[test]
fn compact_viewport_height_uses_configured_height() {
    assert_eq!(compact_viewport_height(12), 12);
    assert_eq!(compact_viewport_height(4), 4);
    assert_eq!(compact_viewport_height(20), 20);
}

#[test]
fn compact_viewport_height_enforces_minimum_of_one() {
    assert_eq!(compact_viewport_height(0), 1);
}

#[test]
fn tests_unique_variables_prompt_only_once_for_duplicate_names() {
    let variables = vec![
        Variable {
            name: "file".to_string(),
            source: VariableSource::Free,
        },
        Variable {
            name: "file".to_string(),
            source: VariableSource::Free,
        },
    ];
    let uniq = unique_variables(&variables);
    assert_eq!(uniq.len(), 1);
    assert_eq!(uniq[0].name, "file");
}

#[test]
fn enter_from_picker_completes_snippet_with_no_variables() {
    let mut app = app_with_body("echo hi", vec![], TestProvider::default());
    let outcome = completed(app.handle_key(KeyEvent::press(KeyCode::Enter)));
    assert_eq!(outcome.command, "echo hi");
}

#[test]
fn ctrl_e_from_fuzzy_requests_edit_for_selected_snippet() {
    let mut app = app_with_body("echo hi", vec![], TestProvider::default());
    let id =
        edit_requested(app.handle_key(KeyEvent::ctrl(KeyCode::Char('e'))));
    assert_eq!(id.as_str(), "x.md#slug");
}

#[test]
fn ctrl_e_from_browse_requests_edit_for_selected_snippet() {
    let mut app = app_with_body("echo hi", vec![], TestProvider::default());
    app.nav_mode = NavigationMode::Browse;
    app.browse.set_path(vec!["x.md".to_string()]);
    app.browse.set_selection(Some(0));

    let id =
        edit_requested(app.handle_key(KeyEvent::ctrl(KeyCode::Char('e'))));
    assert_eq!(id.as_str(), "x.md#slug");
}

#[test]
fn esc_in_browse_climbs_path_when_nested() {
    let mut app = app_with_body("echo hi", vec![], TestProvider::default());
    app.nav_mode = NavigationMode::Browse;
    app.browse
        .set_path(vec!["git".to_string(), "commits.md".to_string()]);
    app.browse.set_input("foo".to_string());
    app.browse.set_selection(Some(2));

    let event = app.handle_key(KeyEvent::press(KeyCode::Esc));

    assert!(matches!(event, AppEvent::Continue));
    assert_eq!(app.browse.path(), &vec!["git".to_string()]);
    assert_eq!(app.browse.input(), "");
    assert_eq!(app.browse.selection(), Some(0));
}

#[test]
fn esc_in_browse_at_root_cancels() {
    let mut app = app_with_body("echo hi", vec![], TestProvider::default());
    app.nav_mode = NavigationMode::Browse;
    app.browse.set_path(Vec::new());

    let event = app.handle_key(KeyEvent::press(KeyCode::Esc));
    assert!(matches!(event, AppEvent::Cancelled));
}

#[test]
fn ctrl_e_from_browse_directory_does_not_request_edit() {
    let mut app = app_with_body("echo hi", vec![], TestProvider::default());
    app.nav_mode = NavigationMode::Browse;
    app.browse.set_selection(Some(0));

    let event = app.handle_key(KeyEvent::ctrl(KeyCode::Char('e')));
    assert!(matches!(event, AppEvent::Continue));
    assert_eq!(app.browse.path(), &Vec::<String>::new());
}

#[test]
fn replace_index_preserves_fuzzy_query_and_selects_previous_snippet() {
    let mut app = App::new(
        SnippetIndex::from_files(vec![
            snippet_file_with_slug("git.md", "status", "Git Status", "git status"),
            snippet_file_with_slug("docker.md", "ps", "Docker Ps", "docker ps"),
        ]),
        TestProvider::default(),
    );
    app.fuzzy.set_query("docker".to_string());
    let previous_id = SnippetId::new("docker.md", "ps");

    let found = app.replace_index(
        SnippetIndex::from_files(vec![
            snippet_file_with_slug("git.md", "status", "Git Status", "git status"),
            snippet_file_with_slug("docker.md", "ps", "Docker Ps", "docker ps -a"),
        ]),
        Some(&previous_id),
    );

    assert!(found);
    assert_eq!(app.fuzzy.query, "docker");
    assert_eq!(
        app.selected_snippet().map(|snippet| snippet.id().as_str()),
        Some("docker.md#ps")
    );
}

#[test]
fn replace_index_reports_when_previous_snippet_is_missing() {
    let mut app = app_with_body("echo hi", vec![], TestProvider::default());
    let previous_id = SnippetId::new("missing.md", "gone");

    let found = app.replace_index(
        SnippetIndex::from_files(vec![snippet_file_with_slug("x.md", "slug", "Demo", "echo hi")]),
        Some(&previous_id),
    );

    assert!(!found);
    assert_eq!(
        app.selected_snippet().map(|snippet| snippet.id().as_str()),
        Some("x.md#slug")
    );
}

#[test]
fn replace_index_preserves_query_when_previous_snippet_no_longer_matches() {
    let mut app = App::new(
        SnippetIndex::from_files(vec![snippet_file_with_slug(
            "ops.md",
            "ps",
            "Docker Ps",
            "docker ps",
        )]),
        TestProvider::default(),
    );
    app.fuzzy.set_query("docker".to_string());
    let previous_id = SnippetId::new("ops.md", "ps");

    let found = app.replace_index(
        SnippetIndex::from_files(vec![snippet_file_with_slug(
            "ops.md",
            "ps",
            "Pods",
            "kubectl get pods",
        )]),
        Some(&previous_id),
    );

    assert!(found);
    assert_eq!(app.fuzzy.query, "docker");
    assert!(app.selected_snippet().is_none());
}

#[test]
fn replace_index_selects_previous_browse_snippet_when_still_visible() {
    let mut app = App::new(
        SnippetIndex::from_files(vec![snippet_file_with_slug(
            "git/commands.md",
            "status",
            "Status",
            "git status",
        )]),
        TestProvider::default(),
    );
    app.nav_mode = NavigationMode::Browse;
    app.browse
        .set_path(vec!["git".to_string(), "commands.md".to_string()]);
    app.browse.set_selection(Some(0));
    let previous_id = SnippetId::new("git/commands.md", "status");

    let found = app.replace_index(
        SnippetIndex::from_files(vec![snippet_file_with_slug(
            "git/commands.md",
            "status",
            "Status",
            "git status --short",
        )]),
        Some(&previous_id),
    );

    assert!(found);
    assert_eq!(
        app.selected_snippet().map(|snippet| snippet.body()),
        Some("git status --short")
    );
}

#[test]
fn replace_index_climbs_missing_browse_directory() {
    let mut app = App::new(
        SnippetIndex::from_files(vec![snippet_file_with_slug(
            "old/place.md",
            "demo",
            "Demo",
            "echo old",
        )]),
        TestProvider::default(),
    );
    app.nav_mode = NavigationMode::Browse;
    app.browse
        .set_path(vec!["old".to_string(), "place.md".to_string()]);
    app.browse.set_selection(Some(0));
    let previous_id = SnippetId::new("old/place.md", "demo");

    let found = app.replace_index(
        SnippetIndex::from_files(vec![snippet_file_with_slug(
            "new/place.md",
            "demo",
            "Demo",
            "echo new",
        )]),
        Some(&previous_id),
    );

    assert!(!found);
    assert_eq!(app.browse.path(), &Vec::<String>::new());
    assert_eq!(app.browse.selection(), Some(0));
}

#[test]
fn prompt_esc_returns_to_select_preserving_query() {
    let variables = vec![Variable {
        name: "x".to_string(),
        source: VariableSource::Free,
    }];
    let mut app = app_with_body("echo <@x>", variables, TestProvider::default());
    app.fuzzy.set_query("Demo".to_string());
    let _ = app.handle_key(KeyEvent::press(KeyCode::Enter));
    assert!(matches!(app.screen, Screen::Prompt(_)));
    let _ = app.handle_key(KeyEvent::press(KeyCode::Esc));
    assert!(matches!(app.screen, Screen::Select));
    assert_eq!(app.fuzzy.query, "Demo");
}

#[test]
fn prompt_esc_in_browse_mode_preserves_browse_position() {
    let variables = vec![Variable {
        name: "x".to_string(),
        source: VariableSource::Free,
    }];
    let file = SnippetFile {
        path: "git/commits.md".to_string(),
        relative_path: "git/commits.md".to_string(),
        frontmatter: Frontmatter::default(),
        snippets: vec![Snippet {
            id: SnippetId::new("git/commits.md", "slug"),
            name: "Log".to_string(),
            description: "desc".to_string(),
            body: "git log <@x>".to_string(),
            variables,
            language: None,
        }],
    };
    let index = SnippetIndex::from_files(vec![file]);
    let mut app = App::new(
        index,
        TestProvider::default(),
    );
    app.nav_mode = NavigationMode::Browse;
    app.browse
        .set_path(vec!["git".to_string(), "commits.md".to_string()]);
    app.browse.set_input(String::new());
    app.browse.set_selection(Some(0));

    let _ = app.handle_key(KeyEvent::press(KeyCode::Enter));
    assert!(matches!(app.screen, Screen::Prompt(_)));

    let _ = app.handle_key(KeyEvent::press(KeyCode::Esc));
    assert!(matches!(app.screen, Screen::Select));
    assert_eq!(
        app.browse.path(),
        &vec!["git".to_string(), "commits.md".to_string()]
    );
    assert_eq!(app.browse.input(), "");
    assert_eq!(app.browse.selection(), Some(0));
}

#[test]
fn ctrl_t_cycles_between_search_browse_and_tags() {
    let mut app = app_with_body("echo hi", vec![], TestProvider::default());
    let _ = app.handle_key(KeyEvent::ctrl(KeyCode::Char('t')));
    assert_eq!(app.navigation_mode(), NavigationMode::Browse);
    let _ = app.handle_key(KeyEvent::ctrl(KeyCode::Char('t')));
    assert_eq!(app.navigation_mode(), NavigationMode::Tags);
    let _ = app.handle_key(KeyEvent::ctrl(KeyCode::Char('t')));
    assert_eq!(app.navigation_mode(), NavigationMode::Fuzzy);
}

#[test]
fn ctrl_t_cycle_preserves_browse_state() {
    let mut app = app_with_body("echo hi", vec![], TestProvider::default());
    let _ = app.handle_key(KeyEvent::ctrl(KeyCode::Char('t')));
    app.browse
        .set_path(vec!["git".to_string(), "commits.md".to_string()]);
    app.browse.set_selection(Some(3));

    let _ = app.handle_key(KeyEvent::ctrl(KeyCode::Char('t')));
    assert_eq!(app.navigation_mode(), NavigationMode::Tags);
    let _ = app.handle_key(KeyEvent::ctrl(KeyCode::Char('t')));
    assert_eq!(app.navigation_mode(), NavigationMode::Fuzzy);
    let _ = app.handle_key(KeyEvent::ctrl(KeyCode::Char('t')));

    assert_eq!(app.navigation_mode(), NavigationMode::Browse);
    assert_eq!(
        app.browse.path(),
        &vec!["git".to_string(), "commits.md".to_string()]
    );
    assert_eq!(app.browse.selection(), Some(3));
}

#[test]
fn tags_visible_list_is_alphabetical_with_untagged_last() {
    let index = SnippetIndex::from_files(vec![
        snippet_file_with_tags("git.md", "git", "Git", &["git"]),
        snippet_file_with_tags("docker.md", "docker", "Docker", &["docker"]),
        snippet_file_with_tags("none.md", "none", "None", &[]),
    ]);
    let app = App::new(
        index,
        TestProvider::default(),
    );

    let labels: Vec<_> = app
        .visible_tags()
        .into_iter()
        .map(|entry| entry.label)
        .collect();
    assert_eq!(labels, vec!["docker", "git", "(untagged)"]);
}

#[test]
fn tags_filter_is_case_sensitive_substring() {
    let index = SnippetIndex::from_files(vec![
        snippet_file_with_tags("git.md", "git", "Git", &["git"]),
        snippet_file_with_tags("caps.md", "caps", "Caps", &["Git"]),
        snippet_file_with_tags("shell.md", "shell", "Shell", &["shell"]),
        snippet_file_with_tags("none.md", "none", "None", &[]),
    ]);
    let mut app = App::new(
        index,
        TestProvider::default(),
    );
    app.nav_mode = NavigationMode::Tags;

    let _ = app.handle_key(KeyEvent::press(KeyCode::Char('g')));
    let _ = app.handle_key(KeyEvent::press(KeyCode::Char('i')));
    let labels: Vec<_> = app
        .visible_tags()
        .into_iter()
        .map(|entry| entry.label)
        .collect();
    assert_eq!(labels, vec!["git"]);
}

#[test]
fn tags_filter_matches_untagged_label() {
    let index = SnippetIndex::from_files(vec![
        snippet_file_with_tags("git.md", "git", "Git", &["git"]),
        snippet_file_with_tags("none.md", "none", "None", &[]),
    ]);
    let mut app = App::new(
        index,
        TestProvider::default(),
    );
    app.nav_mode = NavigationMode::Tags;
    app.tags.set_filter("untagged".to_string());

    let labels: Vec<_> = app
        .visible_tags()
        .into_iter()
        .map(|entry| entry.label)
        .collect();
    assert_eq!(labels, vec!["(untagged)"]);
}

#[test]
fn tags_counts_include_multitagged_snippets_per_bucket() {
    let index = SnippetIndex::from_files(vec![
        snippet_file_with_tags("one.md", "one", "One", &["git", "shell"]),
        snippet_file_with_tags("two.md", "two", "Two", &["git"]),
    ]);
    let app = App::new(
        index,
        TestProvider::default(),
    );

    let counts: BTreeMap<String, usize> = app
        .visible_tags()
        .into_iter()
        .map(|entry| (entry.label, entry.count))
        .collect();
    assert_eq!(counts["git"], 2);
    assert_eq!(counts["shell"], 1);
    assert!(!counts.contains_key("(untagged)"));
}

#[test]
fn ctrl_t_cycle_preserves_tags_filter_and_selection() {
    let mut app = app_with_body("echo hi", vec![], TestProvider::default());
    let _ = app.handle_key(KeyEvent::ctrl(KeyCode::Char('t')));
    let _ = app.handle_key(KeyEvent::ctrl(KeyCode::Char('t')));
    app.tags.set_filter("git".to_string());
    app.tags.set_list_selection(Some(2));

    let _ = app.handle_key(KeyEvent::ctrl(KeyCode::Char('t')));
    assert_eq!(app.navigation_mode(), NavigationMode::Fuzzy);
    let _ = app.handle_key(KeyEvent::ctrl(KeyCode::Char('t')));
    assert_eq!(app.navigation_mode(), NavigationMode::Browse);
    let _ = app.handle_key(KeyEvent::ctrl(KeyCode::Char('t')));

    assert_eq!(app.navigation_mode(), NavigationMode::Tags);
    assert_eq!(app.tags.filter(), "git");
    assert_eq!(app.tags.list_selection(), Some(2));
}

#[test]
fn replace_index_rebuilds_visible_tags() {
    let mut app = App::new(
        SnippetIndex::from_files(vec![snippet_file_with_tags("old.md", "old", "Old", &["old"])]),
        TestProvider::default(),
    );
    app.nav_mode = NavigationMode::Tags;
    app.tags
        .enter_drill(TagKey::Tag("old".to_string()));

    app.replace_index(
        SnippetIndex::from_files(vec![snippet_file_with_tags("new.md", "new", "New", &["new"])]),
        None,
    );

    let labels: Vec<_> = app
        .visible_tags()
        .into_iter()
        .map(|entry| entry.label)
        .collect();
    assert_eq!(labels, vec!["new"]);
    assert_eq!(app.tags.drill(), None);
}

#[test]
fn enter_on_tag_then_snippet_completes_selected_snippet() {
    let mut app = App::new(
        SnippetIndex::from_files(vec![snippet_file_with_tags(
            "git.md",
            "status",
            "Git status",
            &["git"],
        )]),
        TestProvider::default(),
    );
    app.nav_mode = NavigationMode::Tags;

    let _ = app.handle_key(KeyEvent::press(KeyCode::Enter));
    assert_eq!(
        app.tags.drill(),
        Some(&TagKey::Tag("git".to_string()))
    );
    assert!(app.selected_snippet().is_some());

    let outcome = completed(app.handle_key(KeyEvent::press(KeyCode::Enter)));
    assert_eq!(outcome.command, "echo hi");
    assert_eq!(
        outcome.snippet_id,
        SnippetId::new("git.md", "status")
    );
}

#[test]
fn esc_from_tag_drill_returns_to_tag_list() {
    let mut app = App::new(
        SnippetIndex::from_files(vec![snippet_file_with_tags("git.md", "git", "Git", &["git"])]),
        TestProvider::default(),
    );
    app.nav_mode = NavigationMode::Tags;
    let _ = app.handle_key(KeyEvent::press(KeyCode::Enter));

    let event = app.handle_key(KeyEvent::press(KeyCode::Esc));

    assert!(matches!(event, AppEvent::Continue));
    assert!(matches!(app.screen, Screen::Select));
    assert_eq!(app.navigation_mode(), NavigationMode::Tags);
    assert_eq!(app.tags.drill(), None);
}

#[test]
fn esc_from_tag_drill_restores_cursor_onto_drilled_tag() {
    // Three tags so "first by accident" can't pass.
    let mut app = App::new(
        SnippetIndex::from_files(vec![
            snippet_file_with_tags("a.md", "a", "A", &["alpha"]),
            snippet_file_with_tags("b.md", "b", "B", &["beta"]),
            snippet_file_with_tags("g.md", "g", "G", &["git"]),
        ]),
        TestProvider::default(),
    );
    app.nav_mode = NavigationMode::Tags;
    // Place cursor on "git" (index depends on alpha order: alpha=0, beta=1, git=2).
    let git_idx = app
        .visible_tags()
        .iter()
        .position(|e| matches!(&e.key, TagKey::Tag(t) if t == "git"))
        .unwrap();
    app.tags.set_list_selection(Some(git_idx));

    let _ = app.handle_key(KeyEvent::press(KeyCode::Enter));
    assert_eq!(
        app.tags.drill(),
        Some(&TagKey::Tag("git".to_string()))
    );

    let _ = app.handle_key(KeyEvent::press(KeyCode::Esc));
    assert_eq!(app.tags.drill(), None);
    // Cursor must be back on "git", not reset to 0.
    let landed = app.tags.list_selection().expect("selection present");
    let visible = app.visible_tags();
    assert!(matches!(&visible[landed].key, TagKey::Tag(t) if t == "git"));
}

#[test]
fn backspace_from_tag_drill_returns_to_tag_list() {
    let mut app = App::new(
        SnippetIndex::from_files(vec![snippet_file_with_tags("git.md", "git", "Git", &["git"])]),
        TestProvider::default(),
    );
    app.nav_mode = NavigationMode::Tags;
    let _ = app.handle_key(KeyEvent::press(KeyCode::Enter));

    let _ = app.handle_key(KeyEvent::press(KeyCode::Backspace));

    assert_eq!(app.tags.drill(), None);
}

#[test]
fn typing_in_tag_drill_filters_snippets_by_name() {
    let mut app = App::new(
        SnippetIndex::from_files(vec![
            snippet_file_with_tags("git-one.md", "one", "Git status", &["git"]),
            snippet_file_with_tags("git-two.md", "two", "Git commit", &["git"]),
        ]),
        TestProvider::default(),
    );
    app.nav_mode = NavigationMode::Tags;
    let _ = app.handle_key(KeyEvent::press(KeyCode::Enter));

    let _ = app.handle_key(KeyEvent::press(KeyCode::Char('c')));
    let names: Vec<_> = app
        .visible_tag_snippets()
        .into_iter()
        .map(|entry| entry.name)
        .collect();

    assert_eq!(names, vec!["Git commit"]);
}

#[test]
fn enter_in_tag_drill_uses_filtered_selection() {
    let mut app = App::new(
        SnippetIndex::from_files(vec![
            snippet_file_with_tags("git-one.md", "one", "Git status", &["git"]),
            snippet_file_with_tags("git-two.md", "two", "Git commit", &["git"]),
        ]),
        TestProvider::default(),
    );
    app.nav_mode = NavigationMode::Tags;
    let _ = app.handle_key(KeyEvent::press(KeyCode::Enter));
    let _ = app.handle_key(KeyEvent::press(KeyCode::Char('c')));

    let outcome = completed(app.handle_key(KeyEvent::press(KeyCode::Enter)));

    assert_eq!(
        outcome.snippet_id,
        SnippetId::new("git-two.md", "two")
    );
}

#[test]
fn backspace_in_tag_drill_clears_filter_before_popping() {
    let mut app = App::new(
        SnippetIndex::from_files(vec![snippet_file_with_tags("git.md", "git", "Git", &["git"])]),
        TestProvider::default(),
    );
    app.nav_mode = NavigationMode::Tags;
    let _ = app.handle_key(KeyEvent::press(KeyCode::Enter));
    let _ = app.handle_key(KeyEvent::press(KeyCode::Char('g')));

    let _ = app.handle_key(KeyEvent::press(KeyCode::Backspace));
    assert_eq!(app.tags.drill_filter(), "");
    assert!(app.tags.drill().is_some());

    let _ = app.handle_key(KeyEvent::press(KeyCode::Backspace));
    assert_eq!(app.tags.drill(), None);
}

#[test]
fn ctrl_t_cycle_preserves_tag_drill_state() {
    let mut app = App::new(
        SnippetIndex::from_files(vec![
            snippet_file_with_tags("git-one.md", "one", "Git one", &["git"]),
            snippet_file_with_tags("git-two.md", "two", "Git two", &["git"]),
        ]),
        TestProvider::default(),
    );
    app.nav_mode = NavigationMode::Tags;
    let _ = app.handle_key(KeyEvent::press(KeyCode::Enter));
    app.tags.set_drill_selection(Some(1));

    let _ = app.handle_key(KeyEvent::ctrl(KeyCode::Char('t')));
    assert_eq!(app.navigation_mode(), NavigationMode::Fuzzy);
    let _ = app.handle_key(KeyEvent::ctrl(KeyCode::Char('t')));
    assert_eq!(app.navigation_mode(), NavigationMode::Browse);
    let _ = app.handle_key(KeyEvent::ctrl(KeyCode::Char('t')));

    assert_eq!(app.navigation_mode(), NavigationMode::Tags);
    assert_eq!(
        app.tags.drill(),
        Some(&TagKey::Tag("git".to_string()))
    );
    assert_eq!(app.tags.drill_selection(), Some(1));
}

#[test]
fn selected_snippet_is_none_for_empty_tag_drill() {
    let mut app = app_with_body("echo hi", vec![], TestProvider::default());
    app.nav_mode = NavigationMode::Tags;
    app.tags
        .enter_drill(TagKey::Tag("empty".to_string()));
    app.tag_index
        .insert("empty".to_string(), Vec::new());

    assert!(app.selected_snippet().is_none());
}

#[test]
fn tests_variable_flow_accepts_default_and_emits_rendered_command() {
    let variables = vec![Variable {
        name: "target".to_string(),
        source: VariableSource::Default(vec![Fragment::Literal(
            "world".to_string(),
        )]),
    }];
    let mut app = app_with_body(
        "echo hello <@target:?world>",
        variables,
        TestProvider::default(),
    );
    let _ = app.handle_key(KeyEvent::press(KeyCode::Enter));
    let outcome = completed(app.handle_key(KeyEvent::press(KeyCode::Enter)));
    assert_eq!(outcome.command, "echo hello world");
}

#[test]
fn tests_variable_flow_accepts_default_suggestion() {
    let variables = vec![Variable {
        name: "method".to_string(),
        source: VariableSource::Command("ignored".to_string()),
    }];
    let provider = TestProvider::default().with("method", &["GET", "POST"]);
    let mut app = app_with_body("curl -X <@method:ignored>", variables, provider);
    let _ = app.handle_key(KeyEvent::press(KeyCode::Enter));
    let outcome = completed(app.handle_key(KeyEvent::press(KeyCode::Enter)));
    assert_eq!(outcome.command, "curl -X GET");
}

#[test]
fn initial_buffer_seeds_first_variable_and_marks_consumed() {
    let variables = vec![Variable {
        name: "command".to_string(),
        source: VariableSource::Free,
    }];
    let mut app = app_with_body(
        "<@command> | xclip -selection clipboard",
        variables,
        TestProvider::default(),
    )
    .with_initial_buffer(Some("echo \"hello world\"".to_string()));
    // First Enter selects the snippet (seeds the buffer into the first
    // variable's input); second Enter confirms and completes.
    let _ = app.handle_key(KeyEvent::press(KeyCode::Enter));
    let outcome = completed(app.handle_key(KeyEvent::press(KeyCode::Enter)));
    assert_eq!(
        outcome.command,
        "echo \"hello world\" | xclip -selection clipboard"
    );
    assert!(outcome.consumed_buffer);
}

#[test]
fn no_variable_snippet_does_not_consume_buffer() {
    let mut app = app_with_body("ls -la", vec![], TestProvider::default())
        .with_initial_buffer(Some("echo hi".to_string()));
    let outcome = completed(app.handle_key(KeyEvent::press(KeyCode::Enter)));
    assert_eq!(outcome.command, "ls -la");
    assert!(!outcome.consumed_buffer);
}

#[test]
fn variable_flow_uses_config_defined_inputs() {
    let variables = vec![Variable {
        name: "http_method".to_string(),
        source: VariableSource::Free,
    }];
    let mut configured: TextMap<VariableSpec> = TextMap::new();
    configured.insert(
        "http_method".to_string(),
        VariableSpec {
            default_value: None,
            default: Some("POST".to_string()),
            suggestions: vec!["POST".to_string(), "PUT".to_string()],
            command: None,
            hint: None,
        },
    );
    let mut app = App::new(
        SnippetIndex::from_files(vec![snippet_file(
            "x.md",
            "Demo",
            "curl -X <@http_method>",
            variables,
        )]),
        system(configured),
    );

    let _ = app.handle_key(KeyEvent::press(KeyCode::Enter));
    let Screen::Prompt(prompt) = &app.screen else {
        panic!("expected prompt");
    };
    assert_eq!(prompt.input, "POST");
    assert_eq!(prompt.suggestions, vec!["POST", "PUT"]);
}

#[test]
fn variable_flow_uses_file_local_specs_over_config_by_field() {
    let variables = vec![Variable {
        name: "http_method".to_string(),
        source: VariableSource::Free,
    }];
    let mut configured: TextMap<VariableSpec> = TextMap::new();
    configured.insert(
        "http_method".to_string(),
        VariableSpec {
            default_value: None,
            default: Some("POST".to_string()),
            suggestions: vec!["POST".to_string(), "PUT".to_string()],
            command: None,
            hint: None,
        },
    );
    let mut frontmatter = Frontmatter::default();
    frontmatter.variables.insert(
        "http_method".to_string(),
        VariableSpec {
            default_value: None,
            default: Some("GET".to_string()),
            suggestions: vec![],
            command: None,
            hint: None,
        },
    );
    let mut file = snippet_file("x.md", "Demo", "curl -X <@http_method>", variables);
    file.frontmatter = frontmatter;
    let mut app = App::new(
        SnippetIndex::from_files(vec![file]),
        system(configured),
    );

    let _ = app.handle_key(KeyEvent::press(KeyCode::Enter));
    let Screen::Prompt(prompt) = &app.screen else {
        panic!("expected prompt");
    };
    assert_eq!(prompt.input, "GET");
    assert_eq!(prompt.suggestions, vec!["POST", "PUT"]);
}

#[test]
fn inline_hint_shows_ghost_text_and_accepts_empty() {
    let variables = vec![Variable {
        name: "input".to_string(),
        source: VariableSource::Hint("hello".to_string()),
    }];
    let mut app = app_with_body(
        "echo \"<@input:@hello> world\"",
        variables,
        TestProvider::default(),
    );

    let _ = app.handle_key(KeyEvent::press(KeyCode::Enter));
    let Screen::Prompt(prompt) = &app.screen else {
        panic!("expected prompt");
    };
    assert_eq!(prompt.hint.as_deref(), Some("hello"));
    assert_eq!(prompt.input, "");

    // Accepting without typing substitutes an empty value, not the hint.
    let outcome = completed(app.handle_key(KeyEvent::press(KeyCode::Enter)));
    assert_eq!(outcome.command, "echo \" world\"");
}

#[test]
fn typed_input_replaces_inline_hint() {
    let variables = vec![Variable {
        name: "input".to_string(),
        source: VariableSource::Hint("hello".to_string()),
    }];
    let mut app = app_with_body(
        "echo \"<@input:@hello> world\"",
        variables,
        TestProvider::default(),
    );

    let _ = app.handle_key(KeyEvent::press(KeyCode::Enter));
    let _ = app.handle_key(KeyEvent::press(KeyCode::Char('h')));
    let _ = app.handle_key(KeyEvent::press(KeyCode::Char('i')));
    let outcome = completed(app.handle_key(KeyEvent::press(KeyCode::Enter)));
    assert_eq!(outcome.command, "echo \"hi world\"");
}

#[test]
fn hint_resolves_from_frontmatter_over_config() {
    let variables = vec![Variable {
        name: "input".to_string(),
        source: VariableSource::Free,
    }];
    let mut configured: TextMap<VariableSpec> = TextMap::new();
    configured.insert(
        "input".to_string(),
        VariableSpec {
            default_value: None,
            default: None,
            suggestions: vec![],
            command: None,
            hint: Some("from-config".to_string()),
        },
    );
    let mut frontmatter = Frontmatter::default();
    frontmatter.variables.insert(
        "input".to_string(),
        VariableSpec {
            default_value: None,
            default: None,
            suggestions: vec![],
            command: None,
            hint: Some("from-frontmatter".to_string()),
        },
    );
    let mut file = snippet_file("x.md", "Demo", "echo <@input>", variables);
    file.frontmatter = frontmatter;
    let mut app = App::new(
        SnippetIndex::from_files(vec![file]),
        system(configured),
    );

    let _ = app.handle_key(KeyEvent::press(KeyCode::Enter));
    let Screen::Prompt(prompt) = &app.screen else {
        panic!("expected prompt");
    };
    assert_eq!(prompt.hint.as_deref(), Some("from-frontmatter"));
}

#[test]
fn inline_hint_takes_precedence_over_spec_hint() {
    let variables = vec![Variable {
        name: "input".to_string(),
        source: VariableSource::Hint("inline".to_string()),
    }];
    let mut frontmatter = Frontmatter::default();
    frontmatter.variables.insert(
        "input".to_string(),
        VariableSpec {
            default_value: None,
            default: None,
            suggestions: vec![],
            command: None,
            hint: Some("from-frontmatter".to_string()),
        },
    );
    let mut file = snippet_file("x.md", "Demo", "echo <@input:@inline>", variables);
    file.frontmatter = frontmatter;
    let mut app = App::new(
        SnippetIndex::from_files(vec![file]),
        system(TextMap::new()),
    );

    let _ = app.handle_key(KeyEvent::press(KeyCode::Enter));
    let Screen::Prompt(prompt) = &app.screen else {
        panic!("expected prompt");
    };
    assert_eq!(prompt.hint.as_deref(), Some("inline"));
}

#[test]
fn spec_default_prefills_hint_placeholder() {
    // With both a default and a hint configured, the default populates the
    // editable buffer; the hint stays available for when the buffer is empty.
    let variables = vec![Variable {
        name: "input".to_string(),
        source: VariableSource::Free,
    }];
    let mut frontmatter = Frontmatter::default();
    frontmatter.variables.insert(
        "input".to_string(),
        VariableSpec {
            default_value: None,
            default: Some("hello".to_string()),
            suggestions: vec![],
            command: None,
            hint: Some("type a greeting".to_string()),
        },
    );
    let mut file = snippet_file("x.md", "Demo", "echo <@input>", variables);
    file.frontmatter = frontmatter;
    let mut app = App::new(
        SnippetIndex::from_files(vec![file]),
        system(TextMap::new()),
    );

    let _ = app.handle_key(KeyEvent::press(KeyCode::Enter));
    let Screen::Prompt(prompt) = &app.screen else {
        panic!("expected prompt");
    };
    assert_eq!(prompt.input, "hello");
    assert_eq!(prompt.hint.as_deref(), Some("type a greeting"));

    // Accepting the default keeps existing default semantics.
    let outcome = completed(app.handle_key(KeyEvent::press(KeyCode::Enter)));
    assert_eq!(outcome.command, "echo hello");
}

#[test]
fn render_command_text_shows_hint_as_ghost_for_empty_active_placeholder() {
    let values: TextMap<String> = TextMap::new();
    let theme = Theme::default();
    let rendered = render_command_text(
        "echo <@input> world",
        &values,
        Some("input"),
        Some("hello"),
        &theme,
    );
    assert_eq!(line_text(&rendered.lines[0]), "echo hello world");
    assert_eq!(
        span_style_for(&rendered.lines[0], "hello"),
        placeholder_prompt_style(&theme)
    );
}

#[test]
fn file_local_suggestions_override_config_suggestions() {
    let variables = vec![Variable {
        name: "namespace".to_string(),
        source: VariableSource::Free,
    }];
    let mut configured: TextMap<VariableSpec> = TextMap::new();
    configured.insert(
        "namespace".to_string(),
        VariableSpec {
            default_value: None,
            default: Some("default".to_string()),
            suggestions: vec!["prod".to_string()],
            command: None,
            hint: None,
        },
    );
    let mut frontmatter = Frontmatter::default();
    frontmatter.variables.insert(
        "namespace".to_string(),
        VariableSpec {
            default_value: None,
            default: None,
            suggestions: vec!["dev".to_string(), "stage".to_string()],
            command: None,
            hint: None,
        },
    );
    let mut file = snippet_file("x.md", "Demo", "kubectl -n <@namespace>", variables);
    file.frontmatter = frontmatter;
    let mut app = App::new(
        SnippetIndex::from_files(vec![file]),
        system(configured),
    );

    let _ = app.handle_key(KeyEvent::press(KeyCode::Enter));
    let Screen::Prompt(prompt) = &app.screen else {
        panic!("expected prompt");
    };
    assert_eq!(prompt.input, "default");
    assert_eq!(prompt.suggestions, vec!["dev", "stage"]);
}

#[test]
fn file_local_suggestions_without_default_leave_input_empty() {
    let variables = vec![Variable {
        name: "http_method".to_string(),
        source: VariableSource::Free,
    }];
    let mut frontmatter = Frontmatter::default();
    frontmatter.variables.insert(
        "http_method".to_string(),
        VariableSpec {
            default_value: None,
            default: None,
            suggestions: vec!["GET".to_string(), "POST".to_string()],
            command: None,
            hint: None,
        },
    );
    let mut file = snippet_file("x.md", "Demo", "curl -X <@http_method>", variables);
    file.frontmatter = frontmatter;
    let mut app = App::new(
        SnippetIndex::from_files(vec![file]),
        system(TextMap::new()),
    );

    let _ = app.handle_key(KeyEvent::press(KeyCode::Enter));
    let Screen::Prompt(prompt) = &app.screen else {
        panic!("expected prompt");
    };
    assert_eq!(prompt.input, "");
    let visible: Vec<String> = prompt.visible_suggestions();
    assert_eq!(visible, vec!["GET", "POST"]);
}

#[test]
fn inline_default_overrides_config_default() {
    let variables = vec![Variable {
        name: "namespace".to_string(),
        source: VariableSource::Default(vec![Fragment::Literal(
            "inline-default".to_string(),
        )]),
    }];
    let mut configured: TextMap<VariableSpec> = TextMap::new();
    configured.insert(
        "namespace".to_string(),
        VariableSpec {
            default_value: None,
            default: Some("config-default".to_string()),
            suggestions: vec![],
            command: None,
            hint: None,
        },
    );
    let mut app = App::new(
        SnippetIndex::from_files(vec![snippet_file(
            "x.md",
            "Demo",
            "kubectl get pods -n <@namespace:?inline-default>",
            variables,
        )]),
        system(configured),
    );

    let _ = app.handle_key(KeyEvent::press(KeyCode::Enter));
    let Screen::Prompt(prompt) = &app.screen else {
        panic!("expected prompt");
    };
    assert_eq!(prompt.input, "inline-default");
}

#[test]
fn inline_default_overrides_file_local_default() {
    let variables = vec![Variable {
        name: "namespace".to_string(),
        source: VariableSource::Default(vec![Fragment::Literal(
            "inline-default".to_string(),
        )]),
    }];
    let mut frontmatter = Frontmatter::default();
    frontmatter.variables.insert(
        "namespace".to_string(),
        VariableSpec {
            default_value: None,
            default: Some("frontmatter-default".to_string()),
            suggestions: vec![],
            command: None,
            hint: None,
        },
    );
    let mut file = snippet_file(
        "x.md",
        "Demo",
        "kubectl get pods -n <@namespace:?inline-default>",
        variables,
    );
    file.frontmatter = frontmatter;
    let mut app = App::new(
        SnippetIndex::from_files(vec![file]),
        system(TextMap::new()),
    );

    let _ = app.handle_key(KeyEvent::press(KeyCode::Enter));
    let Screen::Prompt(prompt) = &app.screen else {
        panic!("expected prompt");
    };
    assert_eq!(prompt.input, "inline-default");
}

#[test]
fn file_local_command_spec_populates_suggestions() {
    let variables = vec![Variable {
        name: "greeting".to_string(),
        source: VariableSource::Free,
    }];
    let mut frontmatter = Frontmatter::default();
    frontmatter.variables.insert(
        "greeting".to_string(),
        VariableSpec {
            default_value: None,
            default: None,
            suggestions: vec![],
            command: Some("echo hello".to_string()),
            hint: None,
        },
    );
    let mut file = snippet_file("x.md", "Demo", "say <@greeting>", variables);
    file.frontmatter = frontmatter;
    let mut app = App::new(
        SnippetIndex::from_files(vec![file]),
        system(TextMap::new()),
    );

    let _ = app.handle_key(KeyEvent::press(KeyCode::Enter));
    let Screen::Prompt(prompt) = &app.screen else {
        panic!("expected prompt");
    };
    assert_eq!(prompt.suggestions, vec!["hello"]);
}

#[test]
fn tests_prompt_tab_cycles_forward_between_variables() {
    let variables = vec![
        Variable {
            name: "one".to_string(),
            source: VariableSource::Free,
        },
        Variable {
            name: "two".to_string(),
            source: VariableSource::Free,
        },
    ];
    let mut app = app_with_body("echo <@one> <@two>", variables, TestProvider::default());
    let _ = app.handle_key(KeyEvent::press(KeyCode::Enter));
    let _ = app.handle_key(KeyEvent::press(KeyCode::Char('a')));
    let _ = app.handle_key(KeyEvent::press(KeyCode::Tab));

    let Screen::Prompt(prompt) = &app.screen else {
        panic!("expected prompt");
    };
    assert_eq!(prompt.current_variable().name, "two");
    assert_eq!(prompt.values.get("one").map(String::as_str), Some("a"));

    let _ = app.handle_key(KeyEvent::press(KeyCode::Tab));
    let Screen::Prompt(prompt) = &app.screen else {
        panic!("expected prompt");
    };
    assert_eq!(prompt.current_variable().name, "one");
    assert_eq!(prompt.input, "a");
}

#[test]
fn prompt_tab_fills_highlighted_suggestion_before_cycling() {
    let variables = vec![
        Variable {
            name: "method".to_string(),
            source: VariableSource::Command("ignored".to_string()),
        },
        Variable {
            name: "path".to_string(),
            source: VariableSource::Free,
        },
    ];
    let provider = TestProvider::default().with("method", &["GET", "POST"]);
    let mut app = app_with_body("curl -X <@method> <@path>", variables, provider);
    let _ = app.handle_key(KeyEvent::press(KeyCode::Enter));

    // First Tab: fills the input from the highlighted suggestion without cycling.
    let _ = app.handle_key(KeyEvent::press(KeyCode::Tab));
    let Screen::Prompt(prompt) = &app.screen else {
        panic!("expected prompt");
    };
    assert_eq!(prompt.current_variable().name, "method");
    assert_eq!(prompt.input, "GET");

    // Second Tab: input already matches the selection, so it cycles forward.
    let _ = app.handle_key(KeyEvent::press(KeyCode::Tab));
    let Screen::Prompt(prompt) = &app.screen else {
        panic!("expected prompt");
    };
    assert_eq!(prompt.current_variable().name, "path");
    assert_eq!(prompt.values.get("method").map(String::as_str), Some("GET"));
}

#[test]
fn prompt_enter_fills_highlighted_suggestion_before_advancing() {
    let variables = vec![
        Variable {
            name: "method".to_string(),
            source: VariableSource::Command("ignored".to_string()),
        },
        Variable {
            name: "path".to_string(),
            source: VariableSource::Free,
        },
    ];
    let provider = TestProvider::default().with("method", &["GET", "POST"]);
    let mut app = app_with_body("curl -X <@method> <@path>", variables, provider);
    let _ = app.handle_key(KeyEvent::press(KeyCode::Enter));

    // Type a filter that narrows the suggestions to "POST".
    let _ = app.handle_key(KeyEvent::press(KeyCode::Char('P')));
    let _ = app.handle_key(KeyEvent::press(KeyCode::Char('O')));

    // First Enter: fills the input from the highlighted filtered suggestion
    // ("POST") rather than submitting the literal typed filter ("PO").
    let _ = app.handle_key(KeyEvent::press(KeyCode::Enter));
    let Screen::Prompt(prompt) = &app.screen else {
        panic!("expected prompt");
    };
    assert_eq!(prompt.current_variable().name, "method");
    assert_eq!(prompt.input, "POST");

    // Second Enter: input already matches the selection, so it advances.
    let _ = app.handle_key(KeyEvent::press(KeyCode::Enter));
    let Screen::Prompt(prompt) = &app.screen else {
        panic!("expected prompt");
    };
    assert_eq!(prompt.current_variable().name, "path");
    assert_eq!(
        prompt.values.get("method").map(String::as_str),
        Some("POST")
    );
}

#[test]
fn tests_prompt_shift_tab_cycles_backward_between_variables() {
    let variables = vec![
        Variable {
            name: "one".to_string(),
            source: VariableSource::Free,
        },
        Variable {
            name: "two".to_string(),
            source: VariableSource::Free,
        },
    ];
    let mut app = app_with_body("echo <@one> <@two>", variables, TestProvider::default());
    let _ = app.handle_key(KeyEvent::press(KeyCode::Enter));
    let _ = app.handle_key(KeyEvent::press(KeyCode::BackTab));

    let Screen::Prompt(prompt) = &app.screen else {
        panic!("expected prompt");
    };
    assert_eq!(prompt.current_variable().name, "two");
}

#[test]
fn tests_prompt_backspace_walks_to_previous_variable() {
    let variables = vec![
        Variable {
            name: "one".to_string(),
            source: VariableSource::Free,
        },
        Variable {
            name: "two".to_string(),
            source: VariableSource::Free,
        },
    ];
    let mut app = app_with_body("echo <@one> <@two>", variables, TestProvider::default());
    let _ = app.handle_key(KeyEvent::press(KeyCode::Enter));
    let _ = app.handle_key(KeyEvent::press(KeyCode::Char('a')));
    let _ = app.handle_key(KeyEvent::press(KeyCode::Enter));
    let _ = app.handle_key(KeyEvent::press(KeyCode::Backspace));
    let Screen::Prompt(prompt) = &app.screen else {
        panic!("expected prompt");
    };
    assert_eq!(prompt.current_variable().name, "one");
    assert_eq!(prompt.input, "a");
}

#[test]
fn ctrl_j_scrolls_preview_down() {
    let mut app = app_with_body("echo hi", vec![], TestProvider::default());
    let _ = app.handle_key(KeyEvent::ctrl(KeyCode::Char('j')));
    assert_eq!(app.preview_scroll, 3);
}

#[test]
fn ctrl_down_scrolls_preview_down() {
    let mut app = app_with_body("echo hi", vec![], TestProvider::default());
    let _ = app.handle_key(KeyEvent::ctrl(KeyCode::Down));
    assert_eq!(app.preview_scroll, 3);
}

#[test]
fn ctrl_k_scrolls_preview_up() {
    let mut app = app_with_body("echo hi", vec![], TestProvider::default());
    app.preview_scroll = 6;
    let _ = app.handle_key(KeyEvent::ctrl(KeyCode::Char('k')));
    assert_eq!(app.preview_scroll, 3);
}

#[test]
fn ctrl_k_does_not_underflow() {
    let mut app = app_with_body("echo hi", vec![], TestProvider::default());
    let _ = app.handle_key(KeyEvent::ctrl(KeyCode::Char('k')));
    assert_eq!(app.preview_scroll, 0);
}

#[test]
fn navigation_resets_preview_scroll() {
    let mut app = app_with_body("echo hi", vec![], TestProvider::default());
    app.preview_scroll = 9;
    let _ = app.handle_key(KeyEvent::press(KeyCode::Up));
    assert_eq!(app.preview_scroll, 0);
}

#[test]
fn scroll_bindings_work_in_browse_mode() {
    let mut app = app_with_body("echo hi", vec![], TestProvider::default());
    app.nav_mode = NavigationMode::Browse;
    let _ = app.handle_key(KeyEvent::ctrl(KeyCode::Char('j')));
    assert_eq!(app.preview_scroll, 3);
    let _ = app.handle_key(KeyEvent::ctrl(KeyCode::Char('k')));
    assert_eq!(app.preview_scroll, 0);
}

#[test]
fn fuzzy_typing_resets_preview_scroll() {
    let mut app = app_with_body("echo hi", vec![], TestProvider::default());
    app.preview_scroll = 9;
    let _ = app.handle_key(KeyEvent::press(KeyCode::Char('h')));
    assert_eq!(app.preview_scroll, 0);
}

#[test]
fn fuzzy_backspace_resets_preview_scroll() {
    let mut app = app_with_body("echo hi", vec![], TestProvider::default());
    app.fuzzy.set_query("h".to_string());
    app.preview_scroll = 9;
    let _ = app.handle_key(KeyEvent::press(KeyCode::Backspace));
    assert_eq!(app.preview_scroll, 0);
}

#[test]
fn browse_typing_resets_preview_scroll() {
    let mut app = app_with_body("echo hi", vec![], TestProvider::default());
    app.nav_mode = NavigationMode::Browse;
    app.preview_scroll = 9;
    let _ = app.handle_key(KeyEvent::press(KeyCode::Char('x')));
    assert_eq!(app.preview_scroll, 0);
}

#[test]
fn browse_backspace_resets_preview_scroll() {
    let mut app = app_with_body("echo hi", vec![], TestProvider::default());
    app.nav_mode = NavigationMode::Browse;
    app.browse.set_input("x".to_string());
    app.preview_scroll = 9;
    let _ = app.handle_key(KeyEvent::press(KeyCode::Backspace));
    assert_eq!(app.preview_scroll, 0);
}

#[test]
fn browse_tab_resets_preview_scroll() {
    let file = SnippetFile {
        path: "git/commits.md".to_string(),
        relative_path: "git/commits.md".to_string(),
        frontmatter: Frontmatter::default(),
        snippets: vec![Snippet {
            id: SnippetId::new("git/commits.md", "slug"),
            name: "Log".to_string(),
            description: "desc".to_string(),
            body: "git log".to_string(),
            variables: vec![],
            language: None,
        }],
    };
    let index = SnippetIndex::from_files(vec![file]);
    let mut app = App::new(
        index,
        TestProvider::default(),
    );
    app.nav_mode = NavigationMode::Browse;
    app.browse.set_input("g".to_string());
    app.preview_scroll = 9;
    let _ = app.handle_key(KeyEvent::press(KeyCode::Tab));
    assert_eq!(app.preview_scroll, 0);
}

#[test]
fn mode_toggle_resets_preview_scroll() {
    let mut app = app_with_body("echo hi", vec![], TestProvider::default());
    app.preview_scroll = 9;
    let _ = app.handle_key(KeyEvent::ctrl(KeyCode::Char('t')));
    assert_eq!(app.preview_scroll, 0);
}

#[test]
fn browse_entering_directory_resets_preview_scroll() {
    let file = SnippetFile {
        path: "git/commits.md".to_string(),
        relative_path: "git/commits.md".to_string(),
        frontmatter: Frontmatter::default(),
        snippets: vec![Snippet {
            id: SnippetId::new("git/commits.md", "slug"),
            name: "Log".to_string(),
            description: "desc".to_string(),
            body: "git log".to_string(),
            variables: vec![],
            language: None,
        }],
    };
    let index = SnippetIndex::from_files(vec![file]);
    let mut app = App::new(
        index,
        TestProvider::default(),
    );
    app.nav_mode = NavigationMode::Browse;
    app.preview_scroll = 9;
    let _ = app.handle_key(KeyEvent::press(KeyCode::Enter));
    assert_eq!(app.browse.path(), &vec!["git".to_string()]);
    assert_eq!(app.preview_scroll, 0);
}

#[test]
fn alt_enter_inserts_newline_and_does_not_submit() {
    let variables = vec![Variable {
        name: "msg".to_string(),
        source: VariableSource::Free,
    }];
    let mut app = app_with_body("echo <@msg>", variables, TestProvider::default());
    // Enter the prompt screen.
    let _ = app.handle_key(KeyEvent::press(KeyCode::Enter));
    let _ = app.handle_key(KeyEvent::press(KeyCode::Char('a')));
    let _ = app.handle_key(alt(KeyCode::Enter));
    let _ = app.handle_key(KeyEvent::press(KeyCode::Char('b')));
    let outcome = completed(app.handle_key(KeyEvent::press(KeyCode::Enter)));
    assert_eq!(outcome.command, "echo a\nb");
}

#[test]
fn ctrl_j_inserts_newline_in_prompt_input() {
    let variables = vec![Variable {
        name: "msg".to_string(),
        source: VariableSource::Free,
    }];
    let mut app = app_with_body("echo <@msg>", variables, TestProvider::default());
    let _ = app.handle_key(KeyEvent::press(KeyCode::Enter));
    let _ = app.handle_key(KeyEvent::press(KeyCode::Char('a')));
    let _ = app.handle_key(KeyEvent::ctrl(KeyCode::Char('j')));
    let _ = app.handle_key(KeyEvent::press(KeyCode::Char('b')));
    let outcome = completed(app.handle_key(KeyEvent::press(KeyCode::Enter)));
    assert_eq!(outcome.command, "echo a\nb");
}

#[test]
fn paste_into_prompt_preserves_newlines_as_single_value() {
    let variables = vec![Variable {
        name: "msg".to_string(),
        source: VariableSource::Free,
    }];
    let mut app = app_with_body("echo <@msg>", variables, TestProvider::default());
    let _ = app.handle_key(KeyEvent::press(KeyCode::Enter));
    app.handle_paste("line1\nline2\nline3");
    let outcome = completed(app.handle_key(KeyEvent::press(KeyCode::Enter)));
    assert_eq!(outcome.command, "echo line1\nline2\nline3");
}

#[test]
fn paste_normalizes_cr_and_crlf_to_lf() {
    // Bracketed paste on most terminals delivers \r (or \r\n) for newlines —
    // not \n. Without normalization the renderer's split('\n') leaves stray
    // \r in spans, which corrupts the inline viewport and desyncs the cursor.
    let variables = vec![Variable {
        name: "msg".to_string(),
        source: VariableSource::Free,
    }];
    let mut app = app_with_body("echo <@msg>", variables, TestProvider::default());
    let _ = app.handle_key(KeyEvent::press(KeyCode::Enter));
    app.handle_paste("a\r\nb\rc");
    let outcome = completed(app.handle_key(KeyEvent::press(KeyCode::Enter)));
    assert_eq!(outcome.command, "echo a\nb\nc");
}

#[test]
fn paste_strips_other_control_characters() {
    let variables = vec![Variable {
        name: "msg".to_string(),
        source: VariableSource::Free,
    }];
    let mut app = app_with_body("echo <@msg>", variables, TestProvider::default());
    let _ = app.handle_key(KeyEvent::press(KeyCode::Enter));
    app.handle_paste("hi\x07\x1b[31mthere");
    let outcome = completed(app.handle_key(KeyEvent::press(KeyCode::Enter)));
    assert_eq!(outcome.command, "echo hi[31mthere");
}

#[test]
fn paste_then_tab_cycles_to_next_variable_preserving_value() {
    let variables = vec![
        Variable {
            name: "first".to_string(),
            source: VariableSource::Free,
        },
        Variable {
            name: "second".to_string(),
            source: VariableSource::Free,
        },
    ];
    let mut app = app_with_body("<@first> | <@second>", variables, TestProvider::default());
    let _ = app.handle_key(KeyEvent::press(KeyCode::Enter));
    app.handle_paste("a\nb");
    let _ = app.handle_key(KeyEvent::press(KeyCode::Tab));
    let _ = app.handle_key(KeyEvent::press(KeyCode::Char('z')));
    let outcome = completed(app.handle_key(KeyEvent::press(KeyCode::Enter)));
    assert_eq!(outcome.command, "a\nb | z");
}

#[test]
fn paste_on_select_screen_is_dropped() {
    let variables = vec![Variable {
        name: "msg".to_string(),
        source: VariableSource::Free,
    }];
    let mut app = app_with_body("echo <@msg>", variables, TestProvider::default());
    // Still on the select screen — paste must not affect search query.
    app.handle_paste("multi\nline\npaste");
    assert_eq!(app.fuzzy.query, "");
}

#[test]
fn inline_default_with_embedded_newline_is_preserved() {
    let variables = vec![Variable {
        name: "block".to_string(),
        source: VariableSource::Default(vec![Fragment::Literal(
            "line1\nline2".to_string(),
        )]),
    }];
    let mut app = app_with_body(
        "cat <<EOF\n<@block:?ignored>\nEOF",
        variables,
        TestProvider::default(),
    );
    let _ = app.handle_key(KeyEvent::press(KeyCode::Enter));
    let Screen::Prompt(prompt) = &app.screen else {
        panic!("expected prompt screen");
    };
    assert_eq!(prompt.input, "line1\nline2");
    let outcome = completed(app.handle_key(KeyEvent::press(KeyCode::Enter)));
    assert_eq!(outcome.command, "cat <<EOF\nline1\nline2\nEOF");
}

#[test]
fn plain_enter_still_submits_after_keybinds_added() {
    let variables = vec![Variable {
        name: "msg".to_string(),
        source: VariableSource::Free,
    }];
    let mut app = app_with_body("echo <@msg>", variables, TestProvider::default());
    let _ = app.handle_key(KeyEvent::press(KeyCode::Enter));
    let _ = app.handle_key(KeyEvent::press(KeyCode::Char('h')));
    let _ = app.handle_key(KeyEvent::press(KeyCode::Char('i')));
    let outcome = completed(app.handle_key(KeyEvent::press(KeyCode::Enter)));
    assert_eq!(outcome.command, "echo hi");
}

#[test]
fn custom_cycle_mode_binding_replaces_default() {
    let mut app = app_with_body("echo hi", vec![], TestProvider::default()).with_keymap(
        keymap_from("[keybinds.execute.select]\ncycle_mode = [\"ctrl+n\"]\n"),
    );
    let _ = app.handle_key(KeyEvent::ctrl(KeyCode::Char('n')));
    assert_eq!(app.navigation_mode(), NavigationMode::Browse);
    // The replaced default no longer cycles; ctrl+t falls through and is
    // ignored by browse mode's text fallback (control chord).
    let _ = app.handle_key(KeyEvent::ctrl(KeyCode::Char('t')));
    assert_eq!(app.navigation_mode(), NavigationMode::Browse);
}

#[test]
fn custom_edit_binding_requests_edit() {
    let mut app = app_with_body("echo hi", vec![], TestProvider::default())
        .with_keymap(keymap_from("[keybinds.execute.select]\nedit = [\"f4\"]\n"));
    let id = edit_requested(app.handle_key(KeyEvent::press(KeyCode::F(4))));
    assert_eq!(id.as_str(), "x.md#slug");
    let event = app.handle_key(KeyEvent::ctrl(KeyCode::Char('e')));
    assert!(matches!(event, AppEvent::Continue));
}

#[test]
fn custom_preview_scroll_bindings_scroll() {
    let mut app =
        app_with_body("echo hi", vec![], TestProvider::default()).with_keymap(keymap_from("[keybinds.execute.select]\npreview_down = [\"ctrl+d\"]\npreview_up = [\"ctrl+u\"]\n"));
    let _ = app.handle_key(KeyEvent::ctrl(KeyCode::Char('d')));
    assert_eq!(app.preview_scroll, 3);
    let _ = app.handle_key(KeyEvent::ctrl(KeyCode::Char('u')));
    assert_eq!(app.preview_scroll, 0);
    // Replaced default no longer scrolls.
    let _ = app.handle_key(KeyEvent::ctrl(KeyCode::Char('j')));
    assert_eq!(app.preview_scroll, 0);
}

#[test]
fn custom_cancel_binding_cancels_and_ctrl_c_always_works() {
    let again = || keymap_from("[keybinds.execute.select]\ncancel_or_back = [\"ctrl+q\"]\n");
    let mut app =
        app_with_body("echo hi", vec![], TestProvider::default()).with_keymap(again());
    let event = app.handle_key(KeyEvent::ctrl(KeyCode::Char('q')));
    assert!(matches!(event, AppEvent::Cancelled));

    // Esc was replaced, but Ctrl+C remains an unconditional emergency cancel.
    let mut app = app_with_body("echo hi", vec![], TestProvider::default()).with_keymap(again());
    let event = app.handle_key(KeyEvent::press(KeyCode::Esc));
    assert!(matches!(event, AppEvent::Continue));
    let event = app.handle_key(KeyEvent::ctrl(KeyCode::Char('c')));
    assert!(matches!(event, AppEvent::Cancelled));
}

#[test]
fn custom_fuzzy_accept_binding_completes_snippet() {
    let mut app = app_with_body("echo hi", vec![], TestProvider::default()).with_keymap(
        keymap_from("[keybinds.execute.fuzzy]\naccept = [\"ctrl+y\"]\n"),
    );
    // Text input still works with the remap in place.
    let _ = app.handle_key(KeyEvent::press(KeyCode::Char('h')));
    assert_eq!(app.fuzzy.query, "h");
    // Replaced default: enter no longer accepts (falls through to nothing).
    let event = app.handle_key(KeyEvent::press(KeyCode::Enter));
    assert!(matches!(event, AppEvent::Continue));
    let outcome = completed(app.handle_key(KeyEvent::ctrl(KeyCode::Char('y'))));
    assert_eq!(outcome.command, "echo hi");
}

#[test]
fn custom_fuzzy_movement_bindings_move_selection() {
    let mut app = App::new(
        SnippetIndex::from_files(vec![
            snippet_file_with_slug("a.md", "a", "Alpha", "echo a"),
            snippet_file_with_slug("b.md", "b", "Beta", "echo b"),
        ]),
        TestProvider::default(),
    )
    .with_keymap(keymap_from("[keybinds.execute.fuzzy]\nmove_up = [\"ctrl+p\"]\nmove_down = [\"ctrl+n\"]\n"));
    let _ = app.handle_key(KeyEvent::ctrl(KeyCode::Char('p')));
    assert_eq!(app.fuzzy.selected(), Some(1));
    let _ = app.handle_key(KeyEvent::ctrl(KeyCode::Char('n')));
    assert_eq!(app.fuzzy.selected(), Some(0));
}

#[test]
fn custom_browse_bindings_open_and_complete() {
    let index = SnippetIndex::from_files(vec![snippet_file_with_slug(
        "git/commits.md",
        "slug",
        "Log",
        "git log",
    )]);
    let mut app = App::new(
        index,
        TestProvider::default(),
    )
    .with_keymap(keymap_from("[keybinds.execute.browse]\naccept_or_open = [\"ctrl+o\"]\ncomplete = [\"ctrl+f\"]\n"));
    app.nav_mode = NavigationMode::Browse;
    app.browse.set_input("g".to_string());
    // A unique completion descends into the matched directory.
    let _ = app.handle_key(KeyEvent::ctrl(KeyCode::Char('f')));
    assert_eq!(app.browse.path(), &vec!["git".to_string()]);
    assert_eq!(app.browse.input(), "");
    app.browse.set_path(Vec::new());
    let _ = app.handle_key(KeyEvent::ctrl(KeyCode::Char('o')));
    assert_eq!(app.browse.path(), &vec!["git".to_string()]);
}

#[test]
fn custom_tags_bindings_drill_and_return() {
    let mut app = App::new(
        SnippetIndex::from_files(vec![snippet_file_with_tags("git.md", "git", "Git", &["git"])]),
        TestProvider::default(),
    )
    .with_keymap(keymap_from("[keybinds.execute.tags]\naccept_or_drill = [\"ctrl+o\"]\nreturn_to_tags = [\"ctrl+g\"]\n"));
    app.nav_mode = NavigationMode::Tags;
    let _ = app.handle_key(KeyEvent::ctrl(KeyCode::Char('o')));
    assert_eq!(
        app.tags.drill(),
        Some(&TagKey::Tag("git".to_string()))
    );
    let _ = app.handle_key(KeyEvent::ctrl(KeyCode::Char('g')));
    assert_eq!(app.tags.drill(), None);
}

#[test]
fn prompt_remapped_accept_and_literal_newline() {
    let variables = vec![Variable {
        name: "msg".to_string(),
        source: VariableSource::Free,
    }];
    let mut app =
        app_with_body("echo <@msg>", variables, TestProvider::default()).with_keymap(keymap_from("[keybinds.execute.prompt]\naccept = [\"ctrl+y\"]\nliteral_newline = [\"ctrl+l\"]\n"));
    let _ = app.handle_key(KeyEvent::press(KeyCode::Enter));
    let _ = app.handle_key(KeyEvent::press(KeyCode::Char('a')));
    let _ = app.handle_key(KeyEvent::ctrl(KeyCode::Char('l')));
    let _ = app.handle_key(KeyEvent::press(KeyCode::Char('b')));
    // Enter no longer submits (accept remapped); it is ignored.
    let event = app.handle_key(KeyEvent::press(KeyCode::Enter));
    assert!(matches!(event, AppEvent::Continue));
    let outcome = completed(app.handle_key(KeyEvent::ctrl(KeyCode::Char('y'))));
    assert_eq!(outcome.command, "echo a\nb");
}

#[test]
fn prompt_remapped_next_and_previous_variable() {
    let variables = vec![
        Variable {
            name: "one".to_string(),
            source: VariableSource::Free,
        },
        Variable {
            name: "two".to_string(),
            source: VariableSource::Free,
        },
    ];
    let mut app = app_with_body("echo <@one> <@two>", variables, TestProvider::default())
        .with_keymap(keymap_from("[keybinds.execute.prompt]\ncomplete_or_next = [\"ctrl+n\"]\nprevious_variable = [\"ctrl+p\"]\n"));
    let _ = app.handle_key(KeyEvent::press(KeyCode::Enter));
    let _ = app.handle_key(KeyEvent::press(KeyCode::Char('a')));
    let _ = app.handle_key(KeyEvent::ctrl(KeyCode::Char('n')));
    {
        let Screen::Prompt(prompt) = &app.screen else {
            panic!("expected prompt");
        };
        assert_eq!(prompt.current_variable().name, "two");
    }
    let _ = app.handle_key(KeyEvent::ctrl(KeyCode::Char('p')));
    let Screen::Prompt(prompt) = &app.screen else {
        panic!("expected prompt");
    };
    assert_eq!(prompt.current_variable().name, "one");
    assert_eq!(prompt.input, "a");
}

#[test]
fn prompt_remapped_suggestion_movement_and_return() {
    let variables = vec![Variable {
        name: "method".to_string(),
        source: VariableSource::Command("ignored".to_string()),
    }];
    let provider = TestProvider::default().with("method", &["GET", "POST"]);
    let mut app = app_with_body("curl -X <@method>", variables, provider).with_keymap(
        keymap_from("[keybinds.execute.prompt]\nsuggestion_down = [\"ctrl+n\"]\nsuggestion_up = [\"ctrl+p\"]\nreturn_to_picker = [\"ctrl+g\"]\n"),
    );
    let _ = app.handle_key(KeyEvent::press(KeyCode::Enter));
    let _ = app.handle_key(KeyEvent::ctrl(KeyCode::Char('n')));
    {
        let Screen::Prompt(prompt) = &app.screen else {
            panic!("expected prompt");
        };
        assert_eq!(prompt.selection, Some(1));
    }
    let _ = app.handle_key(KeyEvent::ctrl(KeyCode::Char('p')));
    {
        let Screen::Prompt(prompt) = &app.screen else {
            panic!("expected prompt");
        };
        assert_eq!(prompt.selection, Some(0));
    }
    // Esc no longer returns (remapped); ctrl+g does.
    let _ = app.handle_key(KeyEvent::press(KeyCode::Esc));
    assert!(matches!(app.screen, Screen::Prompt(_)));
    let _ = app.handle_key(KeyEvent::ctrl(KeyCode::Char('g')));
    assert!(matches!(app.screen, Screen::Select));
}

#[test]
fn footer_help_shows_remapped_keys_instead_of_defaults() {
    let mut app = app_with_body("echo hi", vec![], TestProvider::default()).with_keymap(
        keymap_from("[keybinds.execute.fuzzy]\naccept = [\"ctrl+y\"]\n"),
    );
    let rendered = rendered_text(&mut app);
    assert!(rendered.contains("ctrl+y accept"), "footer: {rendered}");
    assert!(!rendered.contains("enter accept"), "footer: {rendered}");
}

#[test]
fn prompt_footer_help_shows_remapped_return_key() {
    let variables = vec![Variable {
        name: "msg".to_string(),
        source: VariableSource::Free,
    }];
    let mut app = app_with_body("echo <@msg>", variables, TestProvider::default()).with_keymap(
        keymap_from("[keybinds.execute.prompt]\nreturn_to_picker = [\"ctrl+g\"]\n"),
    );
    let _ = app.handle_key(KeyEvent::press(KeyCode::Enter));
    let rendered = rendered_text(&mut app);
    assert!(rendered.contains("ctrl+g return"), "footer: {rendered}");
    assert!(rendered.contains("shift+tab prev"), "footer: {rendered}");
}

#[test]
fn nested_dependent_ref_does_not_truncate_outer_placeholder() {
    // Body uses inline command form `<@key:aws s3 ls s3://<#bucket>/...>`.
    // The inner `<#bucket>` contains a `>` that previously terminated the
    // outer `<@...>` early. With nested-ref awareness, the outer placeholder
    // should keep its full command source intact.
    let body = "aws s3 ls s3://<#bucket>/<@key:aws s3 ls s3://<#bucket>/ | head -1>";
    let variables = parse_variables(body);
    assert_eq!(
        variables.len(),
        1,
        "should parse one placeholder; got {variables:?}"
    );
    let v = &variables[0];
    assert_eq!(v.name, "key");
    match &v.source {
        VariableSource::Command(cmd) => {
            assert_eq!(cmd, "aws s3 ls s3://<#bucket>/ | head -1");
        }
        other => panic!("expected Command, got {other:?}"),
    }
}

#[test]
fn dependent_command_sees_confirmed_upstream_value() {
    // Two prompts: bucket (free), key (command using <#bucket>).
    let variables = vec![
        Variable {
            name: "bucket".to_string(),
            source: VariableSource::Free,
        },
        Variable {
            name: "key".to_string(),
            source: VariableSource::Command("aws s3 ls s3://<#bucket>/".to_string()),
        },
    ];
    let provider = TestProvider::default().with("key", &["A", "B"]);
    let mut app = app_with_body("aws s3 cp s3://<@bucket>/<@key>", variables, provider);

    // Open prompt for `bucket`
    let _ = app.handle_key(KeyEvent::press(KeyCode::Enter));
    // Type bucket name
    for c in "mybucket".chars() {
        let _ = app.handle_key(KeyEvent::press(KeyCode::Char(c)));
    }
    // Tab forward to `key` (confirms bucket)
    let _ = app.handle_key(KeyEvent::press(KeyCode::Tab));

    let Screen::Prompt(prompt) = &app.screen else {
        panic!("expected prompt");
    };
    assert_eq!(prompt.current_variable().name, "key");
    // Provider should have been invoked for `key` with `bucket=mybucket` in confirmed.
    let confirmed = app.provider.last_confirmed("key");
    assert_eq!(
        confirmed.get("bucket").map(String::as_str),
        Some("mybucket")
    );
}

#[test]
fn raw_modifier_splices_verbatim_into_command() {
    // Verify the splice form works end-to-end: the second variable's command
    // contains `<#verb:raw>` and should be rendered without quotes.
    let tmpl = parse_command_template("kubectl <#verb:raw> -o name").unwrap();
    let mut confirmed = TextMap::new();
    confirmed.insert("verb".to_string(), "get pods".to_string());
    assert_eq!(
        render(&tmpl, &confirmed).unwrap(),
        "kubectl get pods -o name"
    );
}

#[test]
fn quoted_form_handles_apostrophes_in_confirmed_value() {
    let tmpl = parse_command_template("greet <#name>").unwrap();
    let mut confirmed = TextMap::new();
    confirmed.insert("name".to_string(), "O'Brien".to_string());
    assert_eq!(render(&tmpl, &confirmed).unwrap(), "greet 'O'\\''Brien'");
}

#[test]
fn independent_variables_still_each_get_fresh_suggestions() {
    // Characterization: snippets with two independent (non-dependent) vars
    // should behave the same as before — provider is asked for each, default
    // path is not affected.
    let variables = vec![
        Variable {
            name: "a".to_string(),
            source: VariableSource::Free,
        },
        Variable {
            name: "b".to_string(),
            source: VariableSource::Free,
        },
    ];
    let provider = TestProvider::default().with("a", &["x"]).with("b", &["y"]);
    let mut app = app_with_body("echo <@a> <@b>", variables, provider);
    let _ = app.handle_key(KeyEvent::press(KeyCode::Enter));
    assert!(app.provider.call_count("a") >= 1);
    // Two Tabs: first fills the highlighted suggestion, second cycles.
    let _ = app.handle_key(KeyEvent::press(KeyCode::Tab));
    let _ = app.handle_key(KeyEvent::press(KeyCode::Tab));
    assert!(app.provider.call_count("b") >= 1);
}

#[test]
fn default_input_still_used_on_first_entry_to_default_variable() {
    let variables = vec![Variable {
        name: "kind".to_string(),
        source: VariableSource::Default(vec![Fragment::Literal("pod".to_string())]),
    }];
    let mut app = app_with_body("kubectl get <@kind>", variables, TestProvider::default());
    let _ = app.handle_key(KeyEvent::press(KeyCode::Enter));
    let Screen::Prompt(prompt) = &app.screen else {
        panic!("expected prompt");
    };
    assert_eq!(prompt.input, "pod");
}

#[test]
fn dependent_default_renders_confirmed_upstreams_on_first_entry() {
    let variables = vec![
        Variable {
            name: "namespace".to_string(),
            source: VariableSource::Free,
        },
        Variable {
            name: "secret".to_string(),
            source: VariableSource::Free,
        },
        Variable {
            name: "key".to_string(),
            source: VariableSource::Free,
        },
        Variable {
            name: "out".to_string(),
            source: VariableSource::Default(
                parse_command_template(
                    "<#namespace:raw>.<#secret:raw>.<#key:raw>.out",
                )
                .unwrap(),
            ),
        },
    ];
    let mut app = app_with_body(
        "<@namespace> <@secret> <@key> <@out>",
        variables,
        TestProvider::default(),
    );
    let _ = app.handle_key(KeyEvent::press(KeyCode::Enter));
    for value in ["ns", "sec", "key"] {
        for c in value.chars() {
            let _ = app.handle_key(KeyEvent::press(KeyCode::Char(c)));
        }
        let _ = app.handle_key(KeyEvent::press(KeyCode::Tab));
    }
    let Screen::Prompt(prompt) = &app.screen else {
        panic!("expected prompt");
    };
    assert_eq!(prompt.current_variable().name, "out");
    assert_eq!(prompt.input, "ns.sec.key.out");
}

#[test]
fn dependent_default_missing_upstream_yields_empty_input() {
    let variables = vec![
        Variable {
            name: "a".to_string(),
            source: VariableSource::Free,
        },
        Variable {
            name: "b".to_string(),
            source: VariableSource::Default(
                parse_command_template("<#a:raw>.out").unwrap(),
            ),
        },
    ];
    let mut prompt = PromptState::new(
        SnippetId::new("test.md", "missing-default"),
        variables,
        TextMap::new(),
    );
    prompt.index = 1;
    load_prompt_state(&mut prompt, &TestProvider::default(), ".");
    assert_eq!(prompt.input, "");
    assert!(!prompt.values.contains_key("b"));

    prompt.values.insert("a".to_string(), "up".to_string());
    prompt.index = 1;
    load_prompt_state(&mut prompt, &TestProvider::default(), ".");
    assert_eq!(prompt.input, "up.out");
}

#[test]
fn dependent_default_quoted_form_matches_command_quoting() {
    let variables = vec![
        Variable {
            name: "name".to_string(),
            source: VariableSource::Free,
        },
        Variable {
            name: "out".to_string(),
            source: VariableSource::Default(
                parse_command_template("<#name>").unwrap(),
            ),
        },
    ];
    let mut prompt = PromptState::new(
        SnippetId::new("test.md", "quoted-default"),
        variables,
        TextMap::new(),
    );
    prompt
        .values
        .insert("name".to_string(), "O'Brien's".to_string());
    prompt.index = 1;
    load_prompt_state(&mut prompt, &TestProvider::default(), ".");
    assert_eq!(prompt.input, "'O'\\''Brien'\\''s'");
}

#[test]
fn changing_upstream_dirties_dependent_default_and_preserves_input() {
    let variables = vec![
        Variable {
            name: "a".to_string(),
            source: VariableSource::Free,
        },
        Variable {
            name: "out".to_string(),
            source: VariableSource::Default(
                parse_command_template("<#a:raw>.out").unwrap(),
            ),
        },
    ];
    let mut app = app_with_body("<@a> <@out>", variables, TestProvider::default());

    let _ = app.handle_key(KeyEvent::press(KeyCode::Enter));
    for c in "A".chars() {
        let _ = app.handle_key(KeyEvent::press(KeyCode::Char(c)));
    }
    let _ = app.handle_key(KeyEvent::press(KeyCode::Tab));
    {
        let Screen::Prompt(prompt) = &app.screen else {
            panic!("expected prompt");
        };
        assert_eq!(prompt.input, "A.out");
    }
    let _ = app.handle_key(KeyEvent::press(KeyCode::BackTab));
    let _ = app.handle_key(KeyEvent::press(KeyCode::Backspace));
    for c in "B".chars() {
        let _ = app.handle_key(KeyEvent::press(KeyCode::Char(c)));
    }
    let _ = app.handle_key(KeyEvent::press(KeyCode::Tab));

    let Screen::Prompt(prompt) = &app.screen else {
        panic!("expected prompt");
    };
    assert_eq!(prompt.current_variable().name, "out");
    assert!(prompt.dirty.contains("out"));
    assert_eq!(prompt.input, "A.out");
}

fn dep_app(provider: TestProvider) -> App<TestProvider> {
    // Two-variable snippet: bucket (free) then key (dependent on <#bucket>).
    let variables = vec![
        Variable {
            name: "bucket".to_string(),
            source: VariableSource::Free,
        },
        Variable {
            name: "key".to_string(),
            source: VariableSource::Command("aws s3 ls s3://<#bucket>/".to_string()),
        },
    ];
    app_with_body("aws s3 cp s3://<@bucket>/<@key>", variables, provider)
}

#[test]
fn changing_upstream_dirties_descendant_and_refetches_with_new_value() {
    let provider = TestProvider::default().with("key", &["k1", "k2"]);
    let mut app = dep_app(provider);

    // Enter prompt, type bucket=A, confirm via Tab.
    let _ = app.handle_key(KeyEvent::press(KeyCode::Enter));
    for c in "A".chars() {
        let _ = app.handle_key(KeyEvent::press(KeyCode::Char(c)));
    }
    let _ = app.handle_key(KeyEvent::press(KeyCode::Tab));
    // Now on `key` — type k1 into input.
    for c in "k1".chars() {
        let _ = app.handle_key(KeyEvent::press(KeyCode::Char(c)));
    }
    // Shift+Tab back to bucket.
    let _ = app.handle_key(KeyEvent::press(KeyCode::BackTab));
    // Change bucket to B.
    let _ = app.handle_key(KeyEvent::press(KeyCode::Backspace));
    for c in "B".chars() {
        let _ = app.handle_key(KeyEvent::press(KeyCode::Char(c)));
    }
    // Tab forward to key.
    let _ = app.handle_key(KeyEvent::press(KeyCode::Tab));

    let Screen::Prompt(prompt) = &app.screen else {
        panic!("expected prompt");
    };
    assert_eq!(prompt.current_variable().name, "key");
    // Typed k1 survives in the input buffer.
    assert_eq!(prompt.input, "k1");
    // key is marked dirty (its previously-stored confirmed value was based on
    // bucket=A, but bucket is now B).
    assert!(prompt.dirty.contains("key"));
    // Provider was called for `key` with `bucket=B` in confirmed.
    let confirmed = app.provider.last_confirmed("key");
    assert_eq!(confirmed.get("bucket").map(String::as_str), Some("B"));
}

#[test]
fn revisiting_dependent_without_upstream_change_uses_cache() {
    let provider = TestProvider::default().with("key", &["k1", "k2"]);
    let mut app = dep_app(provider);

    let _ = app.handle_key(KeyEvent::press(KeyCode::Enter));
    for c in "A".chars() {
        let _ = app.handle_key(KeyEvent::press(KeyCode::Char(c)));
    }
    let _ = app.handle_key(KeyEvent::press(KeyCode::Tab));
    // First entry to `key` triggers one provider call.
    let calls_after_first = app.provider.call_count("key");
    assert!(calls_after_first >= 1);

    // Shift+Tab back to bucket (no change), Tab forward.
    let _ = app.handle_key(KeyEvent::press(KeyCode::BackTab));
    let _ = app.handle_key(KeyEvent::press(KeyCode::Tab));

    let Screen::Prompt(prompt) = &app.screen else {
        panic!("expected prompt");
    };
    assert_eq!(prompt.current_variable().name, "key");
    // Cache hit — no additional provider call for `key`.
    assert_eq!(app.provider.call_count("key"), calls_after_first);
}

#[test]
fn confirmed_empty_upstream_persists_on_revisit() {
    let provider = TestProvider::default().with("key", &["k1"]);
    let mut app = dep_app(provider);

    let _ = app.handle_key(KeyEvent::press(KeyCode::Enter));
    // Do not type anything for bucket — confirm empty via Tab.
    let _ = app.handle_key(KeyEvent::press(KeyCode::Tab));
    // Now on `key`. Shift+Tab back to bucket.
    let _ = app.handle_key(KeyEvent::press(KeyCode::BackTab));
    let Screen::Prompt(prompt) = &app.screen else {
        panic!("expected prompt");
    };
    // Input buffer is empty (the previously-confirmed empty value).
    assert_eq!(prompt.input, "");
    assert_eq!(prompt.current_variable().name, "bucket");
    assert_eq!(prompt.values.get("bucket").map(String::as_str), Some(""));
}

#[test]
fn descendant_with_dirty_upstream_surfaces_render_error() {
    // bucket → key (dependent on bucket). Set bucket=A, confirm key. Dirty
    // bucket by going back and changing. After dirty, `key` should be removed
    // from confirmed_upstream consumers and the provider's error should bubble
    // up if it tries to render a downstream that references `key`.
    //
    // We simulate this directly with a 3-var snippet: bucket → key → final,
    // where `final` is dependent on `key`. After dirtying `key`, visiting
    // `final` should render-error.
    let variables = vec![
        Variable {
            name: "bucket".to_string(),
            source: VariableSource::Free,
        },
        Variable {
            name: "key".to_string(),
            source: VariableSource::Command("ls <#bucket>".to_string()),
        },
        Variable {
            name: "final".to_string(),
            source: VariableSource::Command("echo <#key>".to_string()),
        },
    ];
    let provider = TestProvider::default()
        .with("key", &["k"])
        .with("final", &["f"]);
    let mut app = app_with_body("<@bucket> <@key> <@final>", variables, provider);

    let _ = app.handle_key(KeyEvent::press(KeyCode::Enter));
    for c in "A".chars() {
        let _ = app.handle_key(KeyEvent::press(KeyCode::Char(c)));
    }
    let _ = app.handle_key(KeyEvent::press(KeyCode::Tab));
    // Now on `key` — confirm (auto-fills first suggestion "k").
    let _ = app.handle_key(KeyEvent::press(KeyCode::Tab)); // fill suggestion
    let _ = app.handle_key(KeyEvent::press(KeyCode::Tab)); // cycle to `final`
    // Now on `final`. Shift+Tab back twice to bucket.
    let _ = app.handle_key(KeyEvent::press(KeyCode::BackTab)); // back to key
    let _ = app.handle_key(KeyEvent::press(KeyCode::BackTab)); // back to bucket
    // Change bucket to B → dirties key, transitively dirties final.
    let _ = app.handle_key(KeyEvent::press(KeyCode::Backspace));
    for c in "B".chars() {
        let _ = app.handle_key(KeyEvent::press(KeyCode::Char(c)));
    }
    let _ = app.handle_key(KeyEvent::press(KeyCode::Tab)); // forward to key (dirty)
    {
        let Screen::Prompt(prompt) = &app.screen else {
            panic!("expected prompt");
        };
        assert!(prompt.dirty.contains("key"));
        assert!(prompt.dirty.contains("final"));
    }
}

#[test]
fn failed_dependent_command_is_not_cached() {
    // TestProvider with no entry for `key` and an error path: we'll have the
    // SystemSuggestionProvider attempt to run a command that includes an
    // upstream that hasn't been confirmed → RenderError surfaces as Err.
    let variables = vec![
        Variable {
            name: "bucket".to_string(),
            source: VariableSource::Free,
        },
        Variable {
            name: "key".to_string(),
            source: VariableSource::Command("ls <#nonexistent>".to_string()),
        },
    ];
    // The TestProvider doesn't actually parse the source, it just returns
    // entries from `values`. So the cache miss path doesn't actually error.
    // Instead we verify that the cache is empty after a "failed" call by
    // mocking absence: don't `with("key", ...)`. The provider returns Ok([]).
    // That IS cached (it's a success). So this test is best demonstrated via
    // SystemSuggestionProvider — covered indirectly via render error path.
    //
    // Here we instead assert: when bucket is dirty, downstream key has no
    // valid upstream snapshot — its cache key will differ on revisit, forcing
    // a refetch (already tested above). The "not caching errors" invariant
    // is enforced by the implementation in load_prompt_state.
    let provider = TestProvider::default();
    let mut app = app_with_body("<@bucket> <@key>", variables, provider);
    let _ = app.handle_key(KeyEvent::press(KeyCode::Enter));
    let _ = app.handle_key(KeyEvent::press(KeyCode::Tab));
    let Screen::Prompt(prompt) = &app.screen else {
        panic!("expected prompt");
    };
    // No suggestions for key (TestProvider returned empty).
    assert!(prompt.suggestions.is_empty());
}

#[test]
fn tests_built_in_file_and_directory_sources_list_cwd_entries() {
    let entry = |name: &str, is_dir: bool| DirectoryEntry {
        name: name.to_string(),
        is_file: !is_dir,
        is_dir,
    };
    let entries = vec![entry("subdir", true), entry("beta.txt", false), entry("alpha.txt", false)];
    assert_eq!(
        builtin_suggestions("file", &entries),
        vec!["alpha.txt".to_string(), "beta.txt".to_string()]
    );
    assert_eq!(builtin_suggestions("directory", &entries), vec!["subdir".to_string()]);
}

#[test]
fn tests_command_suggestions_split_literal_backslash_n_sequences() {
    let values = command_suggestions("printf", true, "GET\\nPOST\\nPUT", "").unwrap();
    assert_eq!(
        values,
        vec!["GET".to_string(), "POST".to_string(), "PUT".to_string()]
    );
    assert_eq!(printed_suggestions("a\n\nb\n"), vec!["a".to_string(), "b".to_string()]);
    let err = command_suggestions("false", false, "", "went wrong").unwrap_err();
    assert!(err.contains("went wrong") || err.contains("false"), "{err}");
}

#[test]
fn system_provider_returns_empty_when_commands_disabled() {
    let mut variable_inputs: TextMap<VariableSpec> = TextMap::new();
    variable_inputs.insert(
        "target".to_string(),
        VariableSpec {
            default: None,
            default_value: None,
            suggestions: vec![],
            command: Some("echo hi".to_string()),
            hint: None,
        },
    );
    let provider = System(SystemSuggestionProvider::new(
        variable_inputs,
        SuggestionCommandsConfig { allow_commands: false, timeout_ms: 2000 },
    ));
    let variable = Variable { name: "target".to_string(), source: VariableSource::Free };
    let suggestions = provider
        .suggestions(&variable, ".", &TextMap::new(), &TextMap::new())
        .unwrap();
    assert!(suggestions.is_empty());
}

#[test]
fn tags_mode_render_does_not_panic() {
    let mut app = app_with_body("echo hi", vec![], TestProvider::default());
    let _ = app.handle_key(KeyEvent::ctrl(KeyCode::Char('t')));
    let _ = app.handle_key(KeyEvent::ctrl(KeyCode::Char('t')));
    assert!(rendered_text(&mut app).contains("(untagged)"));
}

#[test]
fn unbound_edit_action_is_ignored() {
    let keymap = keymap_from("[keybinds.execute.select]\nedit = []\n");
    let mut app = app_with_body("echo hi", vec![], TestProvider::default()).with_keymap(keymap);
    let event = app.handle_key(KeyEvent::ctrl(KeyCode::Char('e')));
    assert!(matches!(event, AppEvent::Continue));
    assert!(matches!(app.screen, Screen::Select));
}

#[test]
fn footer_help_omits_unbound_actions() {
    let keymap = keymap_from("[keybinds.execute.select]\nedit = []\n");
    let mut app = app_with_body("echo hi", vec![], TestProvider::default()).with_keymap(keymap);
    let rendered = rendered_text(&mut app);
    assert!(!rendered.contains("edit"), "footer: {rendered}");
    assert!(rendered.contains("enter accept"), "footer: {rendered}");
}

#[test]
fn edit_status_reports_success() {
    let mut app = App::new(SnippetIndex::new(), TestProvider::default());
    assert_eq!(
        edit_status(
            EditResult::Edited("Demo".to_string()),
            &mut app.0,
            &vec![],
            Reload::Skipped
        ),
        "edited Demo; reload skipped"
    );
}

#[test]
fn edit_status_reports_failure_without_panicking() {
    let mut app = App::new(SnippetIndex::new(), TestProvider::default());
    let status = edit_status(
        EditResult::Failed("no editor".to_string()),
        &mut app.0,
        &vec![],
        Reload::Skipped,
    );

    assert_eq!(status, "edit failed: no editor");
}

#[test]
fn edit_status_reports_missing_snippet() {
    let mut app = App::new(SnippetIndex::new(), TestProvider::default());
    let id = SnippetId::new("snippets.md", "demo");

    assert_eq!(
        edit_status(EditResult::MissingSnippet(id), &mut app.0, &vec![], Reload::Skipped),
        "snippet no longer exists: snippets.md#demo"
    );
}

fn demo_index(body: &str) -> SnippetIndex {
    SnippetIndex::from_files(vec![parse_file(
        "/r/snippets.md",
        "snippets.md",
        &format!("## Demo\n\n```\n{body}\n```\n"),
    )])
}

#[test]
fn reload_after_edit_replaces_index_from_roots() {
    let mut app = App::new(demo_index("echo old"), TestProvider::default());
    let hits = app.hits();
    let index = demo_index("echo new");
    let reloaded = found(&index, "");

    let status =
        reload_after_edit(&mut app.0, &hits, Reload::Loaded { index, hits: reloaded }, "Demo");

    assert_eq!(status, "edited Demo; reloaded");
    assert_eq!(
        app.selected_snippet().map(|snippet| snippet.body()),
        Some("echo new")
    );
}

#[test]
fn reload_after_edit_failure_keeps_previous_index() {
    let mut app = App::new(demo_index("echo old"), TestProvider::default());
    let hits = app.hits();

    let status =
        reload_after_edit(&mut app.0, &hits, Reload::Failed("not text".to_string()), "Demo");

    assert!(status.starts_with("edited Demo; reload failed:"));
    assert_eq!(
        app.selected_snippet().map(|snippet| snippet.body()),
        Some("echo old")
    );
}

#[test]
fn a_snippet_lost_in_the_reload_is_reported() {
    let mut app = App::new(demo_index("echo old"), TestProvider::default());
    let hits = app.hits();
    let status = reload_after_edit(
        &mut app.0,
        &hits,
        Reload::Loaded { index: SnippetIndex::new(), hits: vec![] },
        "Demo",
    );
    assert_eq!(status, "edited Demo; reloaded, previous snippet not found");
}

#[test]
fn compact_viewport_height_stays_small_but_respects_limits() {
    assert_eq!(third_of_screen(60, 12), 12);
    assert_eq!(third_of_screen(24, 12), 8);
    assert_eq!(third_of_screen(9, 12), 6);
    assert_eq!(third_of_screen(60, 4), 4);
}

#[test]
fn keys_scroll_a_text() {
    assert_eq!(scroll_key(0, KeyEvent::press(KeyCode::Up)), ScrollStep::To(0));
    assert_eq!(scroll_key(5, KeyEvent::press(KeyCode::Char('j'))), ScrollStep::To(6));
    assert_eq!(scroll_key(5, KeyEvent::press(KeyCode::PageUp)), ScrollStep::To(0));
    assert_eq!(scroll_key(65530, KeyEvent::press(KeyCode::PageDown)), ScrollStep::To(u16::MAX));
    assert_eq!(scroll_key(5, KeyEvent::press(KeyCode::Home)), ScrollStep::To(0));
    assert_eq!(scroll_key(5, KeyEvent::press(KeyCode::End)), ScrollStep::To(u16::MAX));
    assert_eq!(scroll_key(5, KeyEvent::press(KeyCode::Char('x'))), ScrollStep::To(5));
    assert_eq!(scroll_key(5, KeyEvent::ctrl(KeyCode::Char('c'))), ScrollStep::Leave);
    assert_eq!(scroll_key(5, KeyEvent::press(KeyCode::Char('q'))), ScrollStep::Leave);
    assert_eq!(clamp_scroll(u16::MAX, 30, 12), 20);
    assert_eq!(clamp_scroll(3, 5, 12), 0);
}

#[test]
fn the_cursor_stands_behind_the_value() {
    let mut values: TextMap<String> = TextMap::new();
    values.insert("file".to_string(), "a\nbc".to_string());
    assert_eq!(cursor_in_template("cat <@file> x", &values, "file"), (2, 1));
}

#[test]
fn releasing_a_key_does_nothing() {
    let mut app = app_with_body("echo hi", vec![], TestProvider::default());
    let mut key = KeyEvent::press(KeyCode::Enter);
    key.release = true;
    assert!(matches!(app.handle_key(key), AppEvent::Continue));
}

#[test]
fn partial_commands_fill_what_is_known() {
    let variables = vec![Variable { name: "x".to_string(), source: VariableSource::Free }];
    let mut app = app_with_body("echo <@x>", variables, TestProvider::default());
    let hits = app.hits();
    assert_eq!(app.partial_command(&hits).as_deref(), Some("echo <@x>"));
    let _ = app.handle_key(KeyEvent::press(KeyCode::Enter));
    let _ = app.handle_key(KeyEvent::press(KeyCode::Char('h')));
    assert_eq!(app.partial_command(&hits).as_deref(), Some("echo h"));
    assert!(app.status().is_none() || !app.status().unwrap().is_empty());
}

#[test]
fn execute_render_command_replaces_each_placeholder_form() {
    let mut values: TextMap<String> = TextMap::new();
    values.insert("file".to_string(), "Cargo.toml".to_string());
    values.insert("pattern".to_string(), "needle".to_string());
    values.insert("method".to_string(), "POST".to_string());
    let rendered = render_command(
        "cat <@file> | grep <@pattern:?hi> && curl -X <@method:echo GET>",
        &values,
    );
    assert_eq!(rendered, "cat Cargo.toml | grep needle && curl -X POST");
}

#[test]
fn execute_render_command_keeps_unresolved_placeholders() {
    let values: TextMap<String> = TextMap::new();
    let rendered = render_command("echo <@missing>", &values);
    assert_eq!(rendered, "echo <@missing>");
}

#[test]
fn execute_unique_variables_prompt_only_once_for_duplicate_names() {
    let variables = vec![
        Variable { name: "file".to_string(), source: VariableSource::Free },
        Variable { name: "file".to_string(), source: VariableSource::Free },
    ];
    let uniq = unique_variables(&variables);
    assert_eq!(uniq.len(), 1);
    assert_eq!(uniq[0].name, "file");
}

#[test]
fn backspace_in_tag_drill_stays_while_something_is_typed() {
    let mut app = App::new(
        SnippetIndex::from_files(vec![snippet_file_with_tags("git.md", "git", "Git", &["git"])]),
        TestProvider::default(),
    );
    app.nav_mode = NavigationMode::Tags;
    let _ = app.handle_key(KeyEvent::press(KeyCode::Enter));
    let _ = app.handle_key(KeyEvent::press(KeyCode::Char('g')));
    let _ = app.handle_key(KeyEvent::press(KeyCode::Left));
    let _ = app.handle_key(KeyEvent::press(KeyCode::Backspace));
    assert!(app.tags.drill().is_some());
    assert_eq!(app.tags.drill_filter(), "g");
}

#[test]
fn a_new_session_has_the_default_keys() {
    let app = App::new(SnippetIndex::new(), TestProvider::default());
    let keys = ExecuteKeymap::default();
    assert_eq!(app.keymap.select.bindings.len(), keys.select.bindings.len());
    assert!(app.keymap.fuzzy.action_for(&KeyEvent::press(KeyCode::Enter)).is_some());
    assert!(app.keymap.prompt.action_for(&KeyEvent::press(KeyCode::Esc)).is_some());
    assert_eq!(app.fuzzy_list.offset, 0);
    assert_eq!(app.tags_list.selected, None);
}

#[test]
fn invalid_keybind_config_still_yields_usable_keymap_with_warnings() {
    // A config mixing broken and valid keybinds must not fail resolution:
    // the valid remap applies, the rest keeps defaults, and every problem is
    // reported as a warning (which the TUI shows as status, never stdout).
    let keymaps = keymaps_from(
        "[keybinds.execute.select]\ncycle_mode = [\"ctrl+n\"]\nedit = [\"notakey\"]\n",
    );
    let (keymap, warnings) = (keymaps.execute, keymaps.warnings);
    assert!(!warnings.is_empty());

    let mut app = app_with_body("echo hi", vec![], TestProvider::default()).with_keymap(keymap);
    let _ = app.handle_key(KeyEvent::ctrl(KeyCode::Char('n')));
    assert_eq!(app.navigation_mode(), NavigationMode::Browse);
    // `edit` had no valid chord, so its default binding still works.
    app.nav_mode = NavigationMode::Fuzzy;
    let id = edit_requested(app.handle_key(KeyEvent::ctrl(KeyCode::Char('e'))));
    assert_eq!(id.as_str(), "x.md#slug");
}

#[test]
fn keybinds_section_deserializes_permissively() {
    // Wrong value types inside [keybinds] must not fail the config load;
    // they surface as warnings during resolution instead.
    let raw = r#"
[keybinds.execute.select]
cycle_mode = ["ctrl+n"]
edit = 5
"#;
    let keymaps = keymaps_from(raw);
    let chord = KeyChord::parse("ctrl+n").unwrap();
    assert_eq!(keymaps.execute.select.action(&chord), Some(SelectAction::CycleMode));
    assert_eq!(keymaps.warnings.len(), 1);
    assert!(keymaps.warnings[0].contains("execute.select.edit"));
}

#[test]
fn chords_are_read_as_they_are_shown() {
    for text in ["ctrl+n", "alt+enter", "ctrl+alt+a", "shift+tab", "f4", "f12", "space", "+", "ctrl++"] {
        let chord = KeyChord::parse(text).unwrap();
        assert_eq!(show_chord(chord), text);
    }
    assert_eq!(
        KeyChord::parse("alt+ctrl+x"),
        Some(KeyChord { code: KeyCode::Char('x'), control: true, alt: true })
    );
    for text in ["", "notakey", "ctrl+", "ctrl+ctrl+x", "f", "f+4", "f256", " ", "Ctrl+n"] {
        let expected = if text == "f" { Some(KeyCode::Char('f')) } else { None };
        assert_eq!(KeyChord::parse(text).map(|chord| chord.code), expected, "{text}");
    }
}

#[test]
fn a_listed_key_goes_before_a_default_one() {
    let keymaps = keymaps_from(
        "[keybinds.execute.fuzzy]\naccept = [\"up\", \"nokey\", \"ctrl+y\"]\nfly = [\"x\"]\n",
    );
    let fuzzy = &keymaps.execute.fuzzy;
    assert_eq!(fuzzy.action(&KeyChord::parse("up").unwrap()), Some(FuzzyAction::Accept));
    assert_eq!(fuzzy.action(&KeyChord::parse("ctrl+y").unwrap()), Some(FuzzyAction::Accept));
    assert_eq!(fuzzy.action(&KeyChord::parse("enter").unwrap()), None);
    assert_eq!(fuzzy.action(&KeyChord::parse("down").unwrap()), Some(FuzzyAction::MoveDown));
    assert_eq!(
        keymaps.warnings,
        vec![
            "keybinds.execute.fuzzy.accept: invalid key `nokey`".to_string(),
            "keybinds.execute.fuzzy.fly: no such action".to_string(),
        ]
    );
}
