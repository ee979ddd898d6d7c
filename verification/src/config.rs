//! Configuration: themes, search weights and the paths that the program uses,
//! put together from the config file and the environment.

use vstd::prelude::*;
use crate::domain::VariableSpec;
use crate::keybinds;
use crate::keybinds::{KeySetting, Keymaps};
use crate::path;
use crate::style;
use crate::style::{Color, Style};
use crate::text;
use crate::text_map::TextMap;

verus! {

broadcast use vstd::string::group_string_axioms;

/// What is wrong with a configuration.
#[derive(Debug, PartialEq, Eq)]
pub struct ConfigError {
    pub message: String,
}

/// Paths used throughout the program.
#[derive(Debug, PartialEq, Eq)]
pub struct Paths {
    /// Where snippets are searched, in order: from the environment, from the
    /// config file, then the default directory.
    pub snippet_roots: Vec<String>,
    /// The default snippets directory.
    pub xdg_snippets_dir: String,
    /// Whether roots were set by the environment or the config file.
    pub snippet_overrides_active: bool,
    /// Where usage events are kept.
    pub state_file: String,
    /// The config file.
    pub config_file: String,
}

/// What a [`Paths`] holds.
pub struct PathsView {
    pub snippet_roots: Seq<Seq<char>>,
    pub xdg_snippets_dir: Seq<char>,
    pub snippet_overrides_active: bool,
    pub state_file: Seq<char>,
    pub config_file: Seq<char>,
}

impl View for Paths {
    type V = PathsView;

    open spec fn view(&self) -> PathsView {
        PathsView {
            snippet_roots: text::texts(self.snippet_roots@),
            xdg_snippets_dir: self.xdg_snippets_dir@,
            snippet_overrides_active: self.snippet_overrides_active,
            state_file: self.state_file@,
            config_file: self.config_file@,
        }
    }
}

/// The environment variables that matter, and the current directory.
#[derive(Debug, PartialEq, Eq)]
pub struct Environment {
    /// `PEANUTBUTTER_PATH`, where it is valid text.
    pub peanutbutter_path: Option<String>,
    /// Whether `PEANUTBUTTER_PATH` is set at all.
    pub peanutbutter_path_set: bool,
    /// `PB_STATE_FILE`.
    pub pb_state_file: Option<String>,
    /// `PB_CONFIG_FILE`.
    pub pb_config_file: Option<String>,
    /// `XDG_CONFIG_HOME`.
    pub xdg_config_home: Option<String>,
    /// `XDG_STATE_HOME`.
    pub xdg_state_home: Option<String>,
    /// `HOME`.
    pub home: Option<String>,
    /// The current directory, where it is known.
    pub current_dir: Option<String>,
}

/// Suppression options for one lint.
#[derive(Debug, PartialEq, Eq)]
pub struct LintRuleConfig {
    /// Drop the lint's findings altogether.
    pub disable: bool,
    /// Globs on snippet paths below their root.
    pub ignore_file: Vec<String>,
    /// Globs on command text.
    pub ignore_command: Vec<String>,
}

impl Default for LintRuleConfig {
    /// Nothing is suppressed.
    fn default() -> (rule: Self)
        ensures
            !rule.disable,
            rule.ignore_file@.len() == 0,
            rule.ignore_command@.len() == 0,
    {
        LintRuleConfig { disable: false, ignore_file: Vec::new(), ignore_command: Vec::new() }
    }
}

/// Suppression options by lint code.
pub type LintConfig = TextMap<LintRuleConfig>;

/// How suggestion commands are run.
#[derive(Debug, Clone, Copy, PartialEq, Eq)]
pub struct SuggestionCommandsConfig {
    /// How long a command may run, in milliseconds.
    pub timeout_ms: u64,
    /// Whether commands are run at all.
    pub allow_commands: bool,
}

impl Default for SuggestionCommandsConfig {
    /// Two seconds, and commands are run.
    fn default() -> (config: Self)
        ensures
            config == (SuggestionCommandsConfig { timeout_ms: 2000, allow_commands: true }),
    {
        SuggestionCommandsConfig { timeout_ms: 2000, allow_commands: true }
    }
}

/// Layout of the terminal interface.
#[derive(Debug, Clone, Copy, PartialEq, Eq)]
pub struct UiConfig {
    /// Rows of the inline viewport, at least one.
    pub height: u16,
}

impl Default for UiConfig {
    /// Twenty rows.
    fn default() -> (config: Self)
        ensures
            config.height == 20,
    {
        UiConfig { height: 20 }
    }
}

/// What a match in each field of a snippet counts.
#[derive(Debug, Clone, Copy, PartialEq, Eq)]
pub struct FuzzyWeights {
    pub name: u32,
    pub tag: u32,
    pub frontmatter_name: u32,
    pub description: u32,
    pub path: u32,
    pub command: u32,
}

impl FuzzyWeights {
    /// The weights used where none are configured.
    pub open spec fn standard() -> FuzzyWeights {
        FuzzyWeights {
            name: 30,
            tag: 20,
            frontmatter_name: 15,
            description: 10,
            path: 10,
            command: 8,
        }
    }
}

impl Default for FuzzyWeights {
    /// Names count most, commands least.
    fn default() -> (weights: Self)
        ensures
            weights == FuzzyWeights::standard(),
    {
        FuzzyWeights {
            name: 30,
            tag: 20,
            frontmatter_name: 15,
            description: 10,
            path: 10,
            command: 8,
        }
    }
}

/// Description of a variable from the config file.
pub type VariableInputConfig = VariableSpec;

/// A style for each role of the interface.
#[derive(Debug, Clone, Copy, PartialEq, Eq)]
pub struct Theme {
    /// Counters, separators and help text.
    pub chrome: Style,
    /// Labels and headings.
    pub emphasis: Style,
    /// Characters that matched the query.
    pub fuzzy_highlight: Style,
    /// The marker beside the highlighted row.
    pub selected_marker: Style,
    /// The text of the highlighted row.
    pub selected_item: Style,
    /// Placeholders that are not filled.
    pub placeholder: Style,
    /// The placeholder that is being edited.
    pub active_prompt: Style,
    /// Lines between parts of the screen.
    pub divider: Style,
    /// Borders.
    pub border: Style,
    /// Error messages.
    pub error: Style,
}

/// The colours that a theme is made of.
#[derive(Debug, Clone, Copy, PartialEq, Eq)]
pub struct ThemePalette {
    pub accent: Color,
    pub muted: Color,
    pub selected_bg: Color,
    pub selected_fg: Color,
    pub prompt_fg: Color,
    pub prompt_bg: Color,
    pub error_fg: Color,
}

/// The theme used where none is named.
pub open spec fn default_theme() -> Theme {
    let plain = Style::plain();
    Theme {
        chrome: plain.with_fg(Color::Gray).with_modifier(style::DIM),
        emphasis: plain.with_modifier(style::BOLD),
        fuzzy_highlight: plain.with_fg(Color::Red).with_modifier(style::BOLD),
        selected_marker: plain.with_fg(Color::Red).with_bg(Color::DarkGray),
        selected_item: plain.with_bg(Color::DarkGray).with_modifier(style::BOLD),
        placeholder: plain.with_fg(Color::Gray).with_modifier(style::DIM),
        active_prompt: plain.with_fg(Color::Black).with_bg(Color::White).with_modifier(style::BOLD),
        divider: plain.with_fg(Color::DarkGray),
        border: plain.with_fg(Color::DarkGray),
        error: plain.with_fg(Color::Red).with_bg(Color::DarkGray),
    }
}

/// The theme made of a palette.
pub open spec fn palette_theme(palette: ThemePalette) -> Theme {
    let plain = Style::plain();
    Theme {
        chrome: plain.with_fg(palette.muted).with_modifier(style::DIM),
        emphasis: plain.with_modifier(style::BOLD),
        fuzzy_highlight: plain.with_fg(palette.accent).with_modifier(style::BOLD),
        selected_marker: plain.with_fg(palette.accent).with_bg(palette.selected_bg),
        selected_item: plain.with_fg(palette.selected_fg).with_bg(
            palette.selected_bg,
        ).with_modifier(style::BOLD),
        placeholder: plain.with_fg(palette.muted).with_modifier(style::DIM),
        active_prompt: plain.with_fg(palette.prompt_fg).with_bg(palette.prompt_bg).with_modifier(
            style::BOLD,
        ),
        divider: plain.with_fg(palette.muted),
        border: plain.with_fg(palette.muted),
        error: plain.with_fg(palette.error_fg).with_bg(palette.selected_bg),
    }
}

/// The theme `gruvbox`.
pub open spec fn gruvbox_theme() -> Theme {
    let base = palette_theme(
        ThemePalette {
            accent: Color::Rgb(0xd6, 0xb4, 0x8a),
            muted: Color::Rgb(0x8a, 0x74, 0x64),
            selected_bg: Color::Rgb(0x33, 0x28, 0x21),
            selected_fg: Color::Rgb(0xf2, 0xdf, 0xc7),
            prompt_fg: Color::Rgb(0x20, 0x1a, 0x17),
            prompt_bg: Color::Rgb(0xd6, 0xb4, 0x8a),
            error_fg: Color::Rgb(0xe0, 0x6c, 0x75),
        },
    );
    Theme {
        emphasis: base.emphasis.with_fg(Color::Rgb(0xd6, 0xb4, 0x8a)),
        border: base.border.with_fg(Color::Rgb(0xa0, 0x6a, 0x3b)),
        ..base
    }
}

/// The theme `catppuccin`.
pub open spec fn catppuccin_theme() -> Theme {
    palette_theme(
        ThemePalette {
            accent: Color::Rgb(0xf5, 0xc2, 0xe7),
            muted: Color::Rgb(0x6c, 0x70, 0x86),
            selected_bg: Color::Rgb(0x31, 0x34, 0x4a),
            selected_fg: Color::Rgb(0xcd, 0xd6, 0xf4),
            prompt_fg: Color::Rgb(0x1e, 0x1e, 0x2e),
            prompt_bg: Color::Rgb(0x89, 0xb4, 0xfa),
            error_fg: Color::Rgb(0xf3, 0x8b, 0xa8),
        },
    )
}

/// The theme `nord`.
pub open spec fn nord_theme() -> Theme {
    palette_theme(
        ThemePalette {
            accent: Color::Rgb(0x88, 0xc0, 0xd0),
            muted: Color::Rgb(0x81, 0xa1, 0xc1),
            selected_bg: Color::Rgb(0x3b, 0x42, 0x52),
            selected_fg: Color::Rgb(0xec, 0xef, 0xf4),
            prompt_fg: Color::Rgb(0x2e, 0x34, 0x40),
            prompt_bg: Color::Rgb(0xa3, 0xbe, 0x8c),
            error_fg: Color::Rgb(0xbf, 0x61, 0x6a),
        },
    )
}

/// The theme `monochrome`, without colours.
pub open spec fn monochrome_theme() -> Theme {
    let plain = Style::plain();
    let strong = plain.with_modifier(style::BOLD | style::REVERSED);
    Theme {
        chrome: plain.with_modifier(style::DIM),
        emphasis: plain.with_modifier(style::BOLD),
        fuzzy_highlight: plain.with_modifier(style::BOLD),
        selected_marker: plain.with_modifier(style::REVERSED),
        selected_item: strong,
        placeholder: plain.with_modifier(style::DIM),
        active_prompt: strong,
        divider: plain.with_modifier(style::DIM),
        border: plain.with_modifier(style::DIM),
        error: strong,
    }
}

/// The built-in theme of a name.
pub open spec fn theme_named(name: Seq<char>) -> Option<Theme> {
    if name == "default"@ {
        Some(default_theme())
    } else if name == "gruvbox"@ {
        Some(gruvbox_theme())
    } else if name == "catppuccin"@ {
        Some(catppuccin_theme())
    } else if name == "nord"@ {
        Some(nord_theme())
    } else if name == "monochrome"@ {
        Some(monochrome_theme())
    } else {
        None
    }
}

/// The names of the built-in themes.
pub open spec fn theme_names() -> Seq<Seq<char>> {
    seq!["default"@, "gruvbox"@, "catppuccin"@, "nord"@, "monochrome"@]
}

/// The message for a theme that does not exist.
pub open spec fn unknown_theme(name: Seq<char>, known: Seq<Seq<char>>) -> Seq<char> {
    "unknown theme "@ + name + "; expected one of: "@ + text::join_of(known, ", "@)
}

fn unknown_theme_error(name: &str, known: &Vec<String>) -> (error: ConfigError)
    ensures
        error.message@ == unknown_theme(name@, text::texts(known@)),
{
    let mut message = "unknown theme ".to_owned();
    message.append(name);
    message.append("; expected one of: ");
    let list = text::join_texts(known, ", ");
    message.append(list.as_str());
    ConfigError { message }
}

impl Default for Theme {
    /// The theme used where none is named.
    fn default() -> (theme: Self)
        ensures
            theme == default_theme(),
    {
        let plain = Style::default();
        Theme {
            chrome: plain.fg(Color::Gray).add_modifier(style::DIM),
            emphasis: plain.add_modifier(style::BOLD),
            fuzzy_highlight: plain.fg(Color::Red).add_modifier(style::BOLD),
            selected_marker: plain.fg(Color::Red).bg(Color::DarkGray),
            selected_item: plain.bg(Color::DarkGray).add_modifier(style::BOLD),
            placeholder: plain.fg(Color::Gray).add_modifier(style::DIM),
            active_prompt: plain.fg(Color::Black).bg(Color::White).add_modifier(style::BOLD),
            divider: plain.fg(Color::DarkGray),
            border: plain.fg(Color::DarkGray),
            error: plain.fg(Color::Red).bg(Color::DarkGray),
        }
    }
}

impl Theme {
    /// The names of the built-in themes.
    pub fn built_in_names() -> (names: Vec<String>)
        ensures
            text::texts(names@) == theme_names(),
    {
        let names: Vec<String> = vec![
            "default".to_owned(),
            "gruvbox".to_owned(),
            "catppuccin".to_owned(),
            "nord".to_owned(),
            "monochrome".to_owned(),
        ];
        assert(text::texts(names@) =~= theme_names());
        names
    }

    /// The theme `gruvbox`.
    pub fn gruvbox() -> (theme: Theme)
        ensures
            theme == gruvbox_theme(),
    {
        let base = Theme::from_palette(
            ThemePalette {
                accent: Color::Rgb(0xd6, 0xb4, 0x8a),
                muted: Color::Rgb(0x8a, 0x74, 0x64),
                selected_bg: Color::Rgb(0x33, 0x28, 0x21),
                selected_fg: Color::Rgb(0xf2, 0xdf, 0xc7),
                prompt_fg: Color::Rgb(0x20, 0x1a, 0x17),
                prompt_bg: Color::Rgb(0xd6, 0xb4, 0x8a),
                error_fg: Color::Rgb(0xe0, 0x6c, 0x75),
            },
        );
        Theme {
            emphasis: base.emphasis.fg(Color::Rgb(0xd6, 0xb4, 0x8a)),
            border: base.border.fg(Color::Rgb(0xa0, 0x6a, 0x3b)),
            ..base
        }
    }

    /// The theme `catppuccin`.
    pub fn catppuccin() -> (theme: Theme)
        ensures
            theme == catppuccin_theme(),
    {
        Theme::from_palette(
            ThemePalette {
                accent: Color::Rgb(0xf5, 0xc2, 0xe7),
                muted: Color::Rgb(0x6c, 0x70, 0x86),
                selected_bg: Color::Rgb(0x31, 0x34, 0x4a),
                selected_fg: Color::Rgb(0xcd, 0xd6, 0xf4),
                prompt_fg: Color::Rgb(0x1e, 0x1e, 0x2e),
                prompt_bg: Color::Rgb(0x89, 0xb4, 0xfa),
                error_fg: Color::Rgb(0xf3, 0x8b, 0xa8),
            },
        )
    }

    /// The theme `nord`.
    pub fn nord() -> (theme: Theme)
        ensures
            theme == nord_theme(),
    {
        Theme::from_palette(
            ThemePalette {
                accent: Color::Rgb(0x88, 0xc0, 0xd0),
                muted: Color::Rgb(0x81, 0xa1, 0xc1),
                selected_bg: Color::Rgb(0x3b, 0x42, 0x52),
                selected_fg: Color::Rgb(0xec, 0xef, 0xf4),
                prompt_fg: Color::Rgb(0x2e, 0x34, 0x40),
                prompt_bg: Color::Rgb(0xa3, 0xbe, 0x8c),
                error_fg: Color::Rgb(0xbf, 0x61, 0x6a),
            },
        )
    }

    /// The theme `monochrome`, without colours.
    pub fn monochrome() -> (theme: Theme)
        ensures
            theme == monochrome_theme(),
    {
        let plain = Style::default();
        let strong = plain.add_modifier(style::BOLD | style::REVERSED);
        Theme {
            chrome: plain.add_modifier(style::DIM),
            emphasis: plain.add_modifier(style::BOLD),
            fuzzy_highlight: plain.add_modifier(style::BOLD),
            selected_marker: plain.add_modifier(style::REVERSED),
            selected_item: strong,
            placeholder: plain.add_modifier(style::DIM),
            active_prompt: strong,
            divider: plain.add_modifier(style::DIM),
            border: plain.add_modifier(style::DIM),
            error: strong,
        }
    }

    /// The built-in theme of a name.
    pub fn named(name: &str) -> (theme: Result<Theme, ConfigError>)
        ensures
            match theme {
                Ok(t) => theme_named(name@) == Some(t),
                Err(e) => theme_named(name@) is None && e.message@ == unknown_theme(
                    name@,
                    theme_names(),
                ),
            },
    {
        if text::same_text(name, "default") {
            Ok(Theme::default())
        } else if text::same_text(name, "gruvbox") {
            Ok(Theme::gruvbox())
        } else if text::same_text(name, "catppuccin") {
            Ok(Theme::catppuccin())
        } else if text::same_text(name, "nord") {
            Ok(Theme::nord())
        } else if text::same_text(name, "monochrome") {
            Ok(Theme::monochrome())
        } else {
            Err(unknown_theme_error(name, &Theme::built_in_names()))
        }
    }

    /// The theme made of a palette.
    pub fn from_palette(palette: ThemePalette) -> (theme: Theme)
        ensures
            theme == palette_theme(palette),
    {
        let plain = Style::default();
        Theme {
            chrome: plain.fg(palette.muted).add_modifier(style::DIM),
            emphasis: plain.add_modifier(style::BOLD),
            fuzzy_highlight: plain.fg(palette.accent).add_modifier(style::BOLD),
            selected_marker: plain.fg(palette.accent).bg(palette.selected_bg),
            selected_item: plain.fg(palette.selected_fg).bg(palette.selected_bg).add_modifier(
                style::BOLD,
            ),
            placeholder: plain.fg(palette.muted).add_modifier(style::DIM),
            active_prompt: plain.fg(palette.prompt_fg).bg(palette.prompt_bg).add_modifier(
                style::BOLD,
            ),
            divider: plain.fg(palette.muted),
            border: plain.fg(palette.muted),
            error: plain.fg(palette.error_fg).bg(palette.selected_bg),
        }
    }

    /// The theme that the config file describes. A theme named on the command
    /// line is taken as it is, without the file's colours laid over it.
    pub fn from_raw(raw: &ThemeFileConfig, cli_theme: Option<&str>) -> (theme: Result<
        Theme,
        ConfigError,
    >)
        ensures
            result_view(theme) == match cli_theme {
                Some(name) => raw.base_of(name@),
                None => match raw.base_of(
                    match raw.name {
                        Some(name) => name@,
                        None => "default"@,
                    },
                ) {
                    Ok(base) => raw.colors.applied(base),
                    Err(e) => Err(e),
                },
            },
    {
        match cli_theme {
            Some(name) => raw.base_theme(name),
            None => {
                let base = match &raw.name {
                    Some(name) => raw.base_theme(name.as_str()),
                    None => raw.base_theme("default"),
                };
                match base {
                    Ok(theme) => raw.colors.apply(theme),
                    Err(e) => Err(e),
                }
            },
        }
    }

    /// The themes that can be chosen, each with its name: the built-in ones,
    /// then those of the config file that are complete.
    pub fn selectable(raw: &ThemeFileConfig) -> (themes: Vec<(String, Theme)>)
        ensures
            named_views(themes@) == builtin_themes() + complete_themes(
                raw.custom.keys(),
                raw.custom@,
            ),
    {
        let mut out: Vec<(String, Theme)> = Vec::new();
        out.push(("default".to_owned(), Theme::default()));
        out.push(("gruvbox".to_owned(), Theme::gruvbox()));
        out.push(("catppuccin".to_owned(), Theme::catppuccin()));
        out.push(("nord".to_owned(), Theme::nord()));
        out.push(("monochrome".to_owned(), Theme::monochrome()));
        assert(named_views(out@) =~= builtin_themes());
        let n: usize = raw.custom.len();
        let ghost keys = raw.custom.keys();
        let mut i: usize = 0;
        assert(keys.take(0) =~= Seq::<Seq<char>>::empty());
        assert(named_views(out@) =~= builtin_themes() + complete_themes(keys.take(0), raw.custom@));
        while i < n
            invariant
                i <= n == keys.len(),
                keys == raw.custom.keys(),
                named_views(out@) == builtin_themes() + complete_themes(
                    keys.take(i as int),
                    raw.custom@,
                ),
            decreases n - i,
        {
            let ghost before = out@;
            assert(keys.take(i + 1).drop_last() =~= keys.take(i as int));
            let name = raw.custom.key_at(i);
            match raw.custom.value_at(i).to_theme() {
                Ok(theme) => {
                    out.push((name.clone(), theme));
                    assert(named_views(out@) =~= named_views(before).push((name@, theme)));
                    assert(named_views(before).push((name@, theme)) =~= builtin_themes()
                        + complete_themes(keys.take(i as int), raw.custom@).push((name@, theme)));
                },
                Err(_) => {},
            }
            i = i + 1;
        }
        assert(keys.take(n as int) =~= keys);
        out
    }
}

/// Themes with their names.
pub open spec fn named_views(themes: Seq<(String, Theme)>) -> Seq<(Seq<char>, Theme)> {
    themes.map_values(|t: (String, Theme)| (t.0@, t.1))
}

/// The built-in themes with their names.
pub open spec fn builtin_themes() -> Seq<(Seq<char>, Theme)> {
    seq![
        ("default"@, default_theme()),
        ("gruvbox"@, gruvbox_theme()),
        ("catppuccin"@, catppuccin_theme()),
        ("nord"@, nord_theme()),
        ("monochrome"@, monochrome_theme()),
    ]
}

/// The themes of the config file that are complete, in order.
pub open spec fn complete_themes(
    names: Seq<Seq<char>>,
    custom: Map<Seq<char>, ThemeColorConfig>,
) -> Seq<(Seq<char>, Theme)>
    decreases names.len(),
{
    if names.len() == 0 {
        Seq::empty()
    } else {
        let before = complete_themes(names.drop_last(), custom);
        match custom[names.last()].whole_theme() {
            Ok(theme) => before.push((names.last(), theme)),
            Err(_) => before,
        }
    }
}

/// A theme, or the message of what is wrong.
pub open spec fn result_view<T>(result: Result<T, ConfigError>) -> Result<T, Seq<char>> {
    match result {
        Ok(t) => Ok(t),
        Err(e) => Err(e.message@),
    }
}

/// The `[theme]` section of the config file.
pub struct ThemeFileConfig {
    /// Name of the theme to start from.
    pub name: Option<String>,
    /// Colours laid over it.
    pub colors: ThemeColorConfig,
    /// Themes of one's own, by name.
    pub custom: TextMap<ThemeColorConfig>,
}

impl ThemeFileConfig {
    /// The theme of a name: one's own before a built-in one.
    pub open spec fn base_of(&self, name: Seq<char>) -> Result<Theme, Seq<char>> {
        if self.custom@.contains_key(name) {
            self.custom@[name].whole_theme()
        } else {
            match theme_named(name) {
                Some(theme) => Ok(theme),
                None => Err(unknown_theme(name, theme_names() + self.custom.keys())),
            }
        }
    }

    /// The theme of a name.
    pub fn base_theme(&self, name: &str) -> (theme: Result<Theme, ConfigError>)
        ensures
            result_view(theme) == self.base_of(name@),
    {
        match self.custom.get(name) {
            Some(colors) => colors.to_theme(),
            None => match Theme::named(name) {
                Ok(theme) => Ok(theme),
                Err(_) => {
                    let mut known = Theme::built_in_names();
                    let mut more = theme_keys(&self.custom);
                    let ghost a = known@;
                    let ghost b = more@;
                    known.append(&mut more);
                    assert(text::texts(a + b) =~= text::texts(a) + text::texts(b));
                    Err(unknown_theme_error(name, &known))
                },
            },
        }
    }
}

/// The names of one's own themes, in order.
fn theme_keys(custom: &TextMap<ThemeColorConfig>) -> (names: Vec<String>)
    ensures
        text::texts(names@) == custom.keys(),
{
    let n: usize = custom.len();
    let mut out: Vec<String> = Vec::new();
    let mut i: usize = 0;
    assert(text::texts(out@) =~= custom.keys().take(0));
    while i < n
        invariant
            i <= n == custom.keys().len(),
            text::texts(out@) == custom.keys().take(i as int),
        decreases n - i,
    {
        let key = custom.key_at(i);
        proof {
            text::lemma_texts_push(out@, *key);
            assert(custom.keys().take(i as int).push(key@) =~= custom.keys().take(i + 1));
        }
        out.push(key.clone());
        i = i + 1;
    }
    assert(custom.keys().take(n as int) =~= custom.keys());
    out
}

/// The colours of a theme as written in the config file.
#[derive(Debug, PartialEq, Eq)]
pub struct ThemeColorConfig {
    pub accent: Option<String>,
    pub muted: Option<String>,
    pub selected_bg: Option<String>,
    pub selected_fg: Option<String>,
    pub prompt_active_fg: Option<String>,
    pub prompt_active_bg: Option<String>,
    pub prompt_fg: Option<String>,
    pub prompt_bg: Option<String>,
    pub error_fg: Option<String>,
}

impl Default for ThemeColorConfig {
    /// No colours.
    fn default() -> (colors: Self)
        ensures
            colors == (ThemeColorConfig {
                accent: None,
                muted: None,
                selected_bg: None,
                selected_fg: None,
                prompt_active_fg: None,
                prompt_active_bg: None,
                prompt_fg: None,
                prompt_bg: None,
                error_fg: None,
            }),
    {
        ThemeColorConfig {
            accent: None,
            muted: None,
            selected_bg: None,
            selected_fg: None,
            prompt_active_fg: None,
            prompt_active_bg: None,
            prompt_fg: None,
            prompt_bg: None,
            error_fg: None,
        }
    }
}

/// A theme with a colour laid over it, where the colour is given and nothing
/// was wrong before.
pub open spec fn recolored(
    theme: Result<Theme, Seq<char>>,
    color: Option<Seq<char>>,
    set: spec_fn(Theme, Color) -> Theme,
) -> Result<Theme, Seq<char>> {
    match (theme, color) {
        (Ok(t), Some(raw)) => match color_of(raw) {
            Ok(c) => Ok(set(t, c)),
            Err(e) => Err(e),
        },
        _ => theme,
    }
}

/// The colour of a required entry.
pub open spec fn required(name: Seq<char>, value: Option<Seq<char>>) -> Result<Color, Seq<char>> {
    match value {
        None => Err("custom theme missing required color "@ + name),
        Some(raw) => color_of(raw),
    }
}

impl ThemeColorConfig {
    /// The text colour of the placeholder being edited; the older name of the
    /// entry counts where the newer is not given.
    pub open spec fn prompt_fg_text(&self) -> Option<Seq<char>> {
        if self.prompt_fg is Some {
            text::optional_text(self.prompt_fg)
        } else {
            text::optional_text(self.prompt_active_fg)
        }
    }

    /// The background of the placeholder being edited, likewise.
    pub open spec fn prompt_bg_text(&self) -> Option<Seq<char>> {
        if self.prompt_bg is Some {
            text::optional_text(self.prompt_bg)
        } else {
            text::optional_text(self.prompt_active_bg)
        }
    }

    /// `theme` with the colours laid over it.
    pub open spec fn applied(&self, theme: Theme) -> Result<Theme, Seq<char>> {
        let muted = recolored(
            Ok(theme),
            text::optional_text(self.muted),
            |t: Theme, c: Color|
                Theme {
                    chrome: t.chrome.with_fg(c),
                    placeholder: t.placeholder.with_fg(c),
                    ..t
                },
        );
        let accent = recolored(
            muted,
            text::optional_text(self.accent),
            |t: Theme, c: Color|
                Theme {
                    fuzzy_highlight: t.fuzzy_highlight.with_fg(c),
                    selected_marker: t.selected_marker.with_fg(c),
                    ..t
                },
        );
        let selected_bg = recolored(
            accent,
            text::optional_text(self.selected_bg),
            |t: Theme, c: Color|
                Theme {
                    selected_marker: t.selected_marker.with_bg(c),
                    selected_item: t.selected_item.with_bg(c),
                    error: t.error.with_bg(c),
                    ..t
                },
        );
        let selected_fg = recolored(
            selected_bg,
            text::optional_text(self.selected_fg),
            |t: Theme, c: Color| Theme { selected_item: t.selected_item.with_fg(c), ..t },
        );
        let prompt_fg = recolored(
            selected_fg,
            self.prompt_fg_text(),
            |t: Theme, c: Color| Theme { active_prompt: t.active_prompt.with_fg(c), ..t },
        );
        let prompt_bg = recolored(
            prompt_fg,
            self.prompt_bg_text(),
            |t: Theme, c: Color| Theme { active_prompt: t.active_prompt.with_bg(c), ..t },
        );
        recolored(
            prompt_bg,
            text::optional_text(self.error_fg),
            |t: Theme, c: Color| Theme { error: t.error.with_fg(c), ..t },
        )
    }

    /// The theme made of these colours alone; all of them are required.
    pub open spec fn whole_theme(&self) -> Result<Theme, Seq<char>> {
        match required("accent"@, text::optional_text(self.accent)) {
            Err(e) => Err(e),
            Ok(accent) => match required("muted"@, text::optional_text(self.muted)) {
                Err(e) => Err(e),
                Ok(muted) => match required(
                    "selected_bg"@,
                    text::optional_text(self.selected_bg),
                ) {
                    Err(e) => Err(e),
                    Ok(selected_bg) => match required(
                        "selected_fg"@,
                        text::optional_text(self.selected_fg),
                    ) {
                        Err(e) => Err(e),
                        Ok(selected_fg) => match required("prompt_fg"@, self.prompt_fg_text()) {
                            Err(e) => Err(e),
                            Ok(prompt_fg) => match required("prompt_bg"@, self.prompt_bg_text()) {
                                Err(e) => Err(e),
                                Ok(prompt_bg) => match required(
                                    "error_fg"@,
                                    text::optional_text(self.error_fg),
                                ) {
                                    Err(e) => Err(e),
                                    Ok(error_fg) => Ok(
                                        palette_theme(
                                            ThemePalette {
                                                accent,
                                                muted,
                                                selected_bg,
                                                selected_fg,
                                                prompt_fg,
                                                prompt_bg,
                                                error_fg,
                                            },
                                        ),
                                    ),
                                },
                            },
                        },
                    },
                },
            },
        }
    }

    /// `theme` with the colours laid over it.
    pub fn apply(&self, theme: Theme) -> (out: Result<Theme, ConfigError>)
        ensures
            result_view(out) == self.applied(theme),
    {
        let mut theme = theme;
        if let Some(raw) = &self.muted {
            let color = parse_color(raw.as_str())?;
            theme = Theme {
                chrome: theme.chrome.fg(color),
                placeholder: theme.placeholder.fg(color),
                ..theme
            };
        }
        if let Some(raw) = &self.accent {
            let color = parse_color(raw.as_str())?;
            theme = Theme {
                fuzzy_highlight: theme.fuzzy_highlight.fg(color),
                selected_marker: theme.selected_marker.fg(color),
                ..theme
            };
        }
        if let Some(raw) = &self.selected_bg {
            let color = parse_color(raw.as_str())?;
            theme = Theme {
                selected_marker: theme.selected_marker.bg(color),
                selected_item: theme.selected_item.bg(color),
                error: theme.error.bg(color),
                ..theme
            };
        }
        if let Some(raw) = &self.selected_fg {
            let color = parse_color(raw.as_str())?;
            theme = Theme { selected_item: theme.selected_item.fg(color), ..theme };
        }
        if let Some(raw) = self.prompt_fg() {
            let color = parse_color(raw)?;
            theme = Theme { active_prompt: theme.active_prompt.fg(color), ..theme };
        }
        if let Some(raw) = self.prompt_bg() {
            let color = parse_color(raw)?;
            theme = Theme { active_prompt: theme.active_prompt.bg(color), ..theme };
        }
        if let Some(raw) = &self.error_fg {
            let color = parse_color(raw.as_str())?;
            theme = Theme { error: theme.error.fg(color), ..theme };
        }
        Ok(theme)
    }

    /// The theme made of these colours alone.
    pub fn to_theme(&self) -> (out: Result<Theme, ConfigError>)
        ensures
            result_view(out) == self.whole_theme(),
    {
        let accent = required_color("accent", as_text(&self.accent))?;
        let muted = required_color("muted", as_text(&self.muted))?;
        let selected_bg = required_color("selected_bg", as_text(&self.selected_bg))?;
        let selected_fg = required_color("selected_fg", as_text(&self.selected_fg))?;
        let prompt_fg = required_color("prompt_fg", self.prompt_fg())?;
        let prompt_bg = required_color("prompt_bg", self.prompt_bg())?;
        let error_fg = required_color("error_fg", as_text(&self.error_fg))?;
        Ok(
            Theme::from_palette(
                ThemePalette {
                    accent,
                    muted,
                    selected_bg,
                    selected_fg,
                    prompt_fg,
                    prompt_bg,
                    error_fg,
                },
            ),
        )
    }

    fn prompt_fg(&self) -> (out: Option<&str>)
        ensures
            str_view(out) == self.prompt_fg_text(),
    {
        if self.prompt_fg.is_some() {
            as_text(&self.prompt_fg)
        } else {
            as_text(&self.prompt_active_fg)
        }
    }

    fn prompt_bg(&self) -> (out: Option<&str>)
        ensures
            str_view(out) == self.prompt_bg_text(),
    {
        if self.prompt_bg.is_some() {
            as_text(&self.prompt_bg)
        } else {
            as_text(&self.prompt_active_bg)
        }
    }
}

/// The text of an optional string slice.
pub open spec fn str_view(s: Option<&str>) -> Option<Seq<char>> {
    match s {
        Some(x) => Some(x@),
        None => None,
    }
}

fn as_text(s: &Option<String>) -> (out: Option<&str>)
    ensures
        str_view(out) == text::optional_text(*s),
{
    match s {
        Some(x) => Some(x.as_str()),
        None => None,
    }
}

fn required_color(name: &str, value: Option<&str>) -> (out: Result<Color, ConfigError>)
    ensures
        result_view(out) == required(name@, str_view(value)),
{
    match value {
        None => {
            let mut message = "custom theme missing required color ".to_owned();
            message.append(name);
            Err(ConfigError { message })
        },
        Some(raw) => parse_color(raw),
    }
}

/// The value of a hexadecimal digit.
pub open spec fn hex_value(c: char) -> Option<int> {
    if '0' <= c <= '9' {
        Some(c as int - 48)
    } else if 'a' <= c <= 'f' {
        Some(c as int - 87)
    } else if 'A' <= c <= 'F' {
        Some(c as int - 55)
    } else {
        None
    }
}

/// The value of two characters: two digits, or a plus sign and a digit.
pub open spec fn pair_value(a: char, b: char) -> Option<u8> {
    match (hex_value(a), hex_value(b)) {
        (Some(x), Some(y)) => Some((16 * x + y) as u8),
        (None, Some(y)) if a == '+' => Some(y as u8),
        _ => None,
    }
}

/// The colour of a name in small letters.
pub open spec fn color_named(name: Seq<char>) -> Option<Color> {
    if name == "reset"@ {
        Some(Color::Reset)
    } else if name == "black"@ {
        Some(Color::Black)
    } else if name == "red"@ {
        Some(Color::Red)
    } else if name == "green"@ {
        Some(Color::Green)
    } else if name == "yellow"@ {
        Some(Color::Yellow)
    } else if name == "blue"@ {
        Some(Color::Blue)
    } else if name == "magenta"@ {
        Some(Color::Magenta)
    } else if name == "cyan"@ {
        Some(Color::Cyan)
    } else if name == "gray"@ || name == "grey"@ {
        Some(Color::Gray)
    } else if name == "darkgray"@ || name == "dark_gray"@ || name == "dark-grey"@ || name
        == "darkgrey"@ {
        Some(Color::DarkGray)
    } else if name == "lightred"@ || name == "light_red"@ {
        Some(Color::LightRed)
    } else if name == "lightgreen"@ || name == "light_green"@ {
        Some(Color::LightGreen)
    } else if name == "lightyellow"@ || name == "light_yellow"@ {
        Some(Color::LightYellow)
    } else if name == "lightblue"@ || name == "light_blue"@ {
        Some(Color::LightBlue)
    } else if name == "lightmagenta"@ || name == "light_magenta"@ {
        Some(Color::LightMagenta)
    } else if name == "lightcyan"@ || name == "light_cyan"@ {
        Some(Color::LightCyan)
    } else if name == "white"@ {
        Some(Color::White)
    } else {
        None
    }
}

/// The colour that a text names: `#RRGGBB`, or a name in any case.
pub open spec fn color_of(raw: Seq<char>) -> Result<Color, Seq<char>> {
    let s = text::trim_of(raw);
    if s.len() > 0 && s[0] == '#' {
        let hex = s.skip(1);
        if crate::line_edit::byte_len(hex) != 6 {
            Err("invalid color "@ + s + ": expected #RRGGBB"@)
        } else if hex.len() != 6 {
            Err("invalid color "@ + s)
        } else {
            match (
                pair_value(hex[0], hex[1]),
                pair_value(hex[2], hex[3]),
                pair_value(hex[4], hex[5]),
            ) {
                (Some(r), Some(g), Some(b)) => Ok(Color::Rgb(r, g, b)),
                _ => Err("invalid color "@ + s),
            }
        }
    } else {
        match color_named(text::ascii_lower(s)) {
            Some(c) => Ok(c),
            None => Err("unknown color "@ + text::ascii_lower(s)),
        }
    }
}

fn hex_digit(c: char) -> (v: Option<u8>)
    ensures
        match v {
            Some(x) => hex_value(c) == Some(x as int) && x < 16,
            None => hex_value(c) is None,
        },
{
    if '0' <= c && c <= '9' {
        Some(c as u8 - 48)
    } else if 'a' <= c && c <= 'f' {
        Some(c as u8 - 87)
    } else if 'A' <= c && c <= 'F' {
        Some(c as u8 - 55)
    } else {
        None
    }
}

fn hex_pair(a: char, b: char) -> (v: Option<u8>)
    ensures
        v == pair_value(a, b),
{
    match (hex_digit(a), hex_digit(b)) {
        (Some(x), Some(y)) => Some(16 * x + y),
        (None, Some(y)) => if a == '+' {
            Some(y)
        } else {
            None
        },
        _ => None,
    }
}

fn parse_named_color(name: &str) -> (color: Option<Color>)
    ensures
        color == color_named(name@),
{
    if text::same_text(name, "reset") {
        Some(Color::Reset)
    } else if text::same_text(name, "black") {
        Some(Color::Black)
    } else if text::same_text(name, "red") {
        Some(Color::Red)
    } else if text::same_text(name, "green") {
        Some(Color::Green)
    } else if text::same_text(name, "yellow") {
        Some(Color::Yellow)
    } else if text::same_text(name, "blue") {
        Some(Color::Blue)
    } else if text::same_text(name, "magenta") {
        Some(Color::Magenta)
    } else if text::same_text(name, "cyan") {
        Some(Color::Cyan)
    } else if text::same_text(name, "gray") || text::same_text(name, "grey") {
        Some(Color::Gray)
    } else if text::same_text(name, "darkgray") || text::same_text(name, "dark_gray")
        || text::same_text(name, "dark-grey") || text::same_text(name, "darkgrey") {
        Some(Color::DarkGray)
    } else if text::same_text(name, "lightred") || text::same_text(name, "light_red") {
        Some(Color::LightRed)
    } else if text::same_text(name, "lightgreen") || text::same_text(name, "light_green") {
        Some(Color::LightGreen)
    } else if text::same_text(name, "lightyellow") || text::same_text(name, "light_yellow") {
        Some(Color::LightYellow)
    } else if text::same_text(name, "lightblue") || text::same_text(name, "light_blue") {
        Some(Color::LightBlue)
    } else if text::same_text(name, "lightmagenta") || text::same_text(name, "light_magenta") {
        Some(Color::LightMagenta)
    } else if text::same_text(name, "lightcyan") || text::same_text(name, "light_cyan") {
        Some(Color::LightCyan)
    } else if text::same_text(name, "white") {
        Some(Color::White)
    } else {
        None
    }
}

/// The colour that a text names.
pub fn parse_color(raw: &str) -> (color: Result<Color, ConfigError>)
    ensures
        result_view(color) == color_of(raw@),
{
    let trimmed = text::trim(raw);
    let chars = text::chars_of(trimmed.as_str());
    if chars.len() > 0 && chars[0] == '#' {
        let hex = text::sub_chars(&chars, 1, chars.len());
        assert(hex@ =~= chars@.skip(1));
        let hex_text = text::string_of(&hex);
        let mut message = "invalid color ".to_owned();
        message.append(trimmed.as_str());
        if crate::line_edit::byte_count(hex_text.as_str()) != 6 {
            message.append(": expected #RRGGBB");
            return Err(ConfigError { message });
        }
        if hex.len() != 6 {
            return Err(ConfigError { message });
        }
        match (hex_pair(hex[0], hex[1]), hex_pair(hex[2], hex[3]), hex_pair(hex[4], hex[5])) {
            (Some(r), Some(g), Some(b)) => Ok(Color::Rgb(r, g, b)),
            _ => Err(ConfigError { message }),
        }
    } else {
        let lower = text::ascii_lower_text(trimmed.as_str());
        match parse_named_color(lower.as_str()) {
            Some(color) => Ok(color),
            None => {
                let mut message = "unknown color ".to_owned();
                message.append(lower.as_str());
                Err(ConfigError { message })
            },
        }
    }
}

/// What the config file says, but for the numbers of the frecency formula.
pub struct FileConfig {
    /// Snippet roots.
    pub snippets: Vec<String>,
    /// Where usage events are kept.
    pub state_file: Option<String>,
    /// Rows of the inline viewport.
    pub height: Option<u16>,
    /// What a match in each field counts.
    pub fuzzy: FuzzyWeightsFileConfig,
    /// Descriptions of variables.
    pub variables: TextMap<VariableInputConfig>,
    /// The theme.
    pub theme: ThemeFileConfig,
    /// How long a suggestion command may run, in milliseconds.
    pub timeout_ms: Option<u64>,
    /// Whether suggestion commands are run at all.
    pub allow_commands: Option<bool>,
    /// Suppression options by lint code.
    pub lint: LintConfig,
    /// The keys of actions.
    pub keybinds: Vec<KeySetting>,
}

/// What a match in each field counts, as written in the config file. `body` is
/// the older name of `command`.
#[derive(Debug, Clone, Copy, PartialEq, Eq)]
pub struct FuzzyWeightsFileConfig {
    pub name: Option<u32>,
    pub tag: Option<u32>,
    pub frontmatter_name: Option<u32>,
    pub description: Option<u32>,
    pub path: Option<u32>,
    pub command: Option<u32>,
    pub body: Option<u32>,
}

impl FuzzyWeightsFileConfig {
    /// No weights.
    pub open spec fn none() -> FuzzyWeightsFileConfig {
        FuzzyWeightsFileConfig {
            name: None,
            tag: None,
            frontmatter_name: None,
            description: None,
            path: None,
            command: None,
            body: None,
        }
    }
}

/// A value, or what stands for it where none is given.
pub open spec fn value_or<T>(value: Option<T>, other: T) -> T {
    match value {
        Some(v) => v,
        None => other,
    }
}

/// The weights with those of the file in place of the standard ones.
pub open spec fn weights_of(file: FuzzyWeightsFileConfig) -> FuzzyWeights {
    FuzzyWeights {
        name: value_or(file.name, 30),
        tag: value_or(file.tag, 20),
        frontmatter_name: value_or(file.frontmatter_name, 15),
        description: value_or(file.description, 10),
        path: value_or(file.path, 10),
        command: value_or(
            if file.command is Some {
                file.command
            } else {
                file.body
            },
            8,
        ),
    }
}

impl Default for FileConfig {
    /// What an absent file says.
    fn default() -> (file: Self)
        ensures
            text::texts(file.snippets@) == Seq::<Seq<char>>::empty(),
            file.state_file is None,
            file.height is None,
            file.fuzzy == FuzzyWeightsFileConfig::none(),
            file.variables@ == Map::<Seq<char>, VariableInputConfig>::empty(),
            file.theme.name is None,
            file.theme.colors.applied(default_theme()) == Ok::<Theme, Seq<char>>(default_theme()),
            file.theme.custom@ == Map::<Seq<char>, ThemeColorConfig>::empty(),
            file.timeout_ms is None,
            file.allow_commands is None,
            file.lint@ == Map::<Seq<char>, LintRuleConfig>::empty(),
            file.keybinds@.len() == 0,
    {
        let file = FileConfig {
            snippets: Vec::new(),
            state_file: None,
            height: None,
            fuzzy: FuzzyWeightsFileConfig {
                name: None,
                tag: None,
                frontmatter_name: None,
                description: None,
                path: None,
                command: None,
                body: None,
            },
            variables: TextMap::new(),
            theme: ThemeFileConfig {
                name: None,
                colors: ThemeColorConfig::default(),
                custom: TextMap::new(),
            },
            timeout_ms: None,
            allow_commands: None,
            lint: TextMap::new(),
            keybinds: Vec::new(),
        };
        assert(text::texts(file.snippets@) =~= Seq::<Seq<char>>::empty());
        file
    }
}

/// The configuration of the program, but for the numbers of the frecency
/// formula.
pub struct AppConfig {
    pub paths: Paths,
    pub ui: UiConfig,
    pub fuzzy: FuzzyWeights,
    pub variables: TextMap<VariableInputConfig>,
    pub theme: Theme,
    pub suggestion_commands: SuggestionCommandsConfig,
    pub lint: LintConfig,
    pub keybinds: Keymaps,
}

/// A text that is not empty; `None` for any other.
pub open spec fn filled(s: Option<Seq<char>>) -> Option<Seq<char>> {
    match s {
        Some(x) => if x.len() > 0 {
            Some(x)
        } else {
            None
        },
        None => None,
    }
}

/// The home directory: `HOME`, else the current directory, else `.`.
pub open spec fn home_of(env: Environment) -> Seq<char> {
    if env.home is Some {
        env.home->0@
    } else if env.current_dir is Some {
        env.current_dir->0@
    } else {
        "."@
    }
}

/// Where configuration lies.
pub open spec fn config_home_of(env: Environment) -> Seq<char> {
    match filled(text::optional_text(env.xdg_config_home)) {
        Some(dir) => dir,
        None => path::joined(home_of(env), ".config"@),
    }
}

/// Where state lies.
pub open spec fn state_home_of(env: Environment) -> Seq<char> {
    match filled(text::optional_text(env.xdg_state_home)) {
        Some(dir) => dir,
        None => path::joined(path::joined(home_of(env), ".local"@), "state"@),
    }
}

/// The default snippets directory.
pub open spec fn snippets_dir_of(env: Environment) -> Seq<char> {
    path::joined(path::joined(config_home_of(env), "peanutbutter"@), "snippets"@)
}

/// The config file.
pub open spec fn config_file_of(env: Environment) -> Seq<char> {
    match filled(text::optional_text(env.pb_config_file)) {
        Some(file) => file,
        None => path::joined(
            path::joined(config_home_of(env), "peanutbutter"@),
            "config.toml"@,
        ),
    }
}

/// Where usage events are kept.
pub open spec fn state_file_of(file: Option<Seq<char>>, env: Environment) -> Seq<char> {
    match filled(text::optional_text(env.pb_state_file)) {
        Some(path) => path,
        None => match file {
            Some(path) => path,
            None => path::joined(path::joined(state_home_of(env), "peanutbutter"@), "state.tsv"@),
        },
    }
}

/// Whether `roots` holds a path with the same components.
pub open spec fn has_path(roots: Seq<Seq<char>>, path: Seq<char>) -> bool {
    exists|i: int|
        0 <= i < roots.len() && path::components_of(#[trigger] roots[i]) == path::components_of(
            path,
        )
}

/// The paths in order, without those that came before.
pub open spec fn distinct_paths(paths: Seq<Seq<char>>) -> Seq<Seq<char>>
    decreases paths.len(),
{
    if paths.len() == 0 {
        Seq::empty()
    } else {
        let before = distinct_paths(paths.drop_last());
        if has_path(before, paths.last()) {
            before
        } else {
            before.push(paths.last())
        }
    }
}

/// The pieces of a list that are not empty.
pub open spec fn filled_pieces(pieces: Seq<Seq<char>>) -> Seq<Seq<char>>
    decreases pieces.len(),
{
    if pieces.len() == 0 {
        Seq::empty()
    } else if pieces.last().len() > 0 {
        filled_pieces(pieces.drop_last()).push(pieces.last())
    } else {
        filled_pieces(pieces.drop_last())
    }
}

/// The snippet roots of the environment: a list with colons between paths.
pub open spec fn env_roots(env: Environment) -> Seq<Seq<char>> {
    match env.peanutbutter_path {
        Some(list) => filled_pieces(text::split_of(list@, ':')),
        None => Seq::empty(),
    }
}

/// The paths that a file and the environment lead to.
pub open spec fn paths_of(
    snippets: Seq<Seq<char>>,
    state_file: Option<Seq<char>>,
    env: Environment,
) -> PathsView {
    PathsView {
        snippet_roots: distinct_paths(
            (env_roots(env) + snippets).push(snippets_dir_of(env)),
        ),
        xdg_snippets_dir: snippets_dir_of(env),
        snippet_overrides_active: env.peanutbutter_path_set || snippets.len() > 0,
        state_file: state_file_of(state_file, env),
        config_file: config_file_of(env),
    }
}

fn filled_text(s: &Option<String>) -> (out: Option<String>)
    ensures
        text::optional_text(out) == filled(text::optional_text(*s)),
{
    match s {
        Some(x) => if x.as_str().is_empty() {
            None
        } else {
            Some(x.clone())
        },
        None => None,
    }
}

fn home_dir(env: &Environment) -> (out: String)
    ensures
        out@ == home_of(*env),
{
    match &env.home {
        Some(home) => home.clone(),
        None => match &env.current_dir {
            Some(dir) => dir.clone(),
            None => ".".to_owned(),
        },
    }
}

fn xdg_config_home(env: &Environment) -> (out: String)
    ensures
        out@ == config_home_of(*env),
{
    match filled_text(&env.xdg_config_home) {
        Some(dir) => dir,
        None => {
            let home = home_dir(env);
            path::join(home.as_str(), ".config")
        },
    }
}

fn xdg_state_home(env: &Environment) -> (out: String)
    ensures
        out@ == state_home_of(*env),
{
    match filled_text(&env.xdg_state_home) {
        Some(dir) => dir,
        None => {
            let home = home_dir(env);
            let local = path::join(home.as_str(), ".local");
            path::join(local.as_str(), "state")
        },
    }
}

/// The default snippets directory.
pub fn xdg_snippets_dir(env: &Environment) -> (out: String)
    ensures
        out@ == snippets_dir_of(*env),
{
    let home = xdg_config_home(env);
    let own = path::join(home.as_str(), "peanutbutter");
    path::join(own.as_str(), "snippets")
}

/// The config file.
pub fn resolve_config_file(env: &Environment) -> (out: String)
    ensures
        out@ == config_file_of(*env),
{
    match filled_text(&env.pb_config_file) {
        Some(file) => file,
        None => {
            let home = xdg_config_home(env);
            let own = path::join(home.as_str(), "peanutbutter");
            path::join(own.as_str(), "config.toml")
        },
    }
}

/// Where usage events are kept.
pub fn resolve_state_file(state_file: &Option<String>, env: &Environment) -> (out: String)
    ensures
        out@ == state_file_of(text::optional_text(*state_file), *env),
{
    match filled_text(&env.pb_state_file) {
        Some(path) => path,
        None => match state_file {
            Some(path) => path.clone(),
            None => {
                let home = xdg_state_home(env);
                let own = path::join(home.as_str(), "peanutbutter");
                path::join(own.as_str(), "state.tsv")
            },
        },
    }
}

/// Puts `path` behind `roots` unless a path with the same components is there.
fn push_unique(roots: &mut Vec<String>, path: &str)
    ensures
        text::texts(final(roots)@) == if has_path(text::texts(old(roots)@), path@) {
            text::texts(old(roots)@)
        } else {
            text::texts(old(roots)@).push(path@)
        },
{
    let ghost before = text::texts(roots@);
    let mut i: usize = 0;
    while i < roots.len()
        invariant
            i <= roots@.len(),
            roots == old(roots),
            before == text::texts(roots@),
            forall|j: int|
                0 <= j < i ==> path::components_of(#[trigger] before[j]) != path::components_of(
                    path@,
                ),
        decreases roots@.len() - i,
    {
        assert(before[i as int] == roots@[i as int]@);
        if path::same_path(roots[i].as_str(), path) {
            return ;
        }
        i = i + 1;
    }
    let owned = path.to_owned();
    proof {
        text::lemma_texts_push(roots@, owned);
    }
    roots.push(owned);
}

/// The snippet roots in order, none twice: those of the environment, those of
/// the file, then the default directory.
pub fn resolve_snippet_roots(snippets: &Vec<String>, env: &Environment, xdg_default: &str) -> (roots:
    Vec<String>)
    ensures
        text::texts(roots@) == distinct_paths(
            (env_roots(*env) + text::texts(snippets@)).push(xdg_default@),
        ),
{
    let mut all: Vec<String> = Vec::new();
    assert(text::texts(all@) =~= Seq::<Seq<char>>::empty());
    match &env.peanutbutter_path {
        Some(list) => {
            let pieces = text::split_text(list.as_str(), ':');
            let ghost views = text::texts(pieces@);
            let mut i: usize = 0;
            assert(views.take(0) =~= Seq::<Seq<char>>::empty());
            while i < pieces.len()
                invariant
                    i <= pieces@.len(),
                    views == text::texts(pieces@),
                    text::texts(all@) == filled_pieces(views.take(i as int)),
                decreases pieces@.len() - i,
            {
                assert(views.take(i + 1).drop_last() =~= views.take(i as int));
                assert(views.take(i + 1).last() == pieces@[i as int]@);
                if !pieces[i].as_str().is_empty() {
                    proof {
                        text::lemma_texts_push(all@, pieces@[i as int]);
                    }
                    all.push(pieces[i].clone());
                }
                i = i + 1;
            }
            assert(views.take(views.len() as int) =~= views);
        },
        None => {},
    }
    let mut more = text::copy_texts(snippets);
    let ghost a = all@;
    let ghost b = more@;
    all.append(&mut more);
    assert(text::texts(a + b) =~= text::texts(a) + text::texts(b));
    let last = xdg_default.to_owned();
    proof {
        text::lemma_texts_push(all@, last);
    }
    all.push(last);
    let ghost paths = text::texts(all@);
    let mut roots: Vec<String> = Vec::new();
    let mut i: usize = 0;
    assert(paths.take(0) =~= Seq::<Seq<char>>::empty());
    assert(text::texts(roots@) =~= Seq::<Seq<char>>::empty());
    while i < all.len()
        invariant
            i <= all@.len(),
            paths == text::texts(all@),
            text::texts(roots@) == distinct_paths(paths.take(i as int)),
        decreases all@.len() - i,
    {
        assert(paths.take(i + 1).drop_last() =~= paths.take(i as int));
        assert(paths.take(i + 1).last() == all@[i as int]@);
        push_unique(&mut roots, all[i].as_str());
        i = i + 1;
    }
    assert(paths.take(paths.len() as int) =~= paths);
    roots
}

/// The paths that a file and the environment lead to.
pub fn resolve_paths(
    snippets: &Vec<String>,
    state_file: &Option<String>,
    env: &Environment,
) -> (paths: Paths)
    ensures
        paths@ == paths_of(text::texts(snippets@), text::optional_text(*state_file), *env),
{
    let xdg = xdg_snippets_dir(env);
    Paths {
        snippet_roots: resolve_snippet_roots(snippets, env, xdg.as_str()),
        xdg_snippets_dir: xdg,
        snippet_overrides_active: env.peanutbutter_path_set || snippets.len() > 0,
        state_file: resolve_state_file(state_file, env),
        config_file: resolve_config_file(env),
    }
}

/// The paths where there is no config file.
pub fn default_paths(env: &Environment) -> (paths: Paths)
    ensures
        paths@ == paths_of(Seq::empty(), None, *env),
{
    let none: Vec<String> = Vec::new();
    assert(text::texts(none@) =~= Seq::<Seq<char>>::empty());
    resolve_paths(&none, &None, env)
}

fn or_weight(value: Option<u32>, other: u32) -> (out: u32)
    ensures
        out == value_or(value, other),
{
    match value {
        Some(v) => v,
        None => other,
    }
}

/// The weights with those of the file in place of the standard ones.
pub fn resolve_weights(file: FuzzyWeightsFileConfig) -> (weights: FuzzyWeights)
    ensures
        weights == weights_of(file),
{
    FuzzyWeights {
        name: or_weight(file.name, 30),
        tag: or_weight(file.tag, 20),
        frontmatter_name: or_weight(file.frontmatter_name, 15),
        description: or_weight(file.description, 10),
        path: or_weight(file.path, 10),
        command: or_weight(
            if file.command.is_some() {
                file.command
            } else {
                file.body
            },
            8,
        ),
    }
}

/// Puts the configuration together from what the file says and the
/// environment. A theme named on the command line counts in place of the
/// file's. Only the theme can be wrong.
pub fn load_with_theme_override(
    file: FileConfig,
    env: &Environment,
    theme_name: Option<&str>,
) -> (config: Result<AppConfig, ConfigError>)
    ensures
        ({
            let theme = match theme_name {
                Some(name) => file.theme.base_of(name@),
                None => match file.theme.base_of(
                    match file.theme.name {
                        Some(name) => name@,
                        None => "default"@,
                    },
                ) {
                    Ok(base) => file.theme.colors.applied(base),
                    Err(e) => Err(e),
                },
            };
            match config {
                Err(e) => theme == Err::<Theme, Seq<char>>(e.message@),
                Ok(c) => {
                    &&& theme == Ok::<Theme, Seq<char>>(c.theme)
                    &&& c.paths@ == paths_of(
                        text::texts(file.snippets@),
                        text::optional_text(file.state_file),
                        *env,
                    )
                    &&& c.ui.height == if value_or(file.height, 20) == 0 {
                        1u16
                    } else {
                        value_or(file.height, 20)
                    }
                    &&& c.suggestion_commands.timeout_ms == value_or(file.timeout_ms, 2000)
                    &&& c.suggestion_commands.allow_commands == value_or(file.allow_commands, true)
                    &&& c.fuzzy == weights_of(file.fuzzy)
                    &&& c.variables == file.variables
                    &&& c.lint == file.lint
                    &&& keybinds::resolves(
                        c.keybinds,
                        keybinds::setting_views(file.keybinds@),
                    )
                },
            }
        }),
{
    let paths = resolve_paths(&file.snippets, &file.state_file, env);
    let theme = Theme::from_raw(&file.theme, theme_name)?;
    let height: u16 = match file.height {
        Some(h) => h,
        None => 20,
    };
    Ok(
        AppConfig {
            paths,
            ui: UiConfig {
                height: if height == 0 {
                    1
                } else {
                    height
                },
            },
            suggestion_commands: SuggestionCommandsConfig {
                timeout_ms: match file.timeout_ms {
                    Some(ms) => ms,
                    None => 2000,
                },
                allow_commands: match file.allow_commands {
                    Some(allow) => allow,
                    None => true,
                },
            },
            fuzzy: resolve_weights(file.fuzzy),
            variables: file.variables,
            theme,
            lint: file.lint,
            keybinds: Keymaps::resolve(&file.keybinds),
        },
    )
}

/// The names that completion offers for a theme: the built-in ones, then
/// one's own.
pub fn theme_completion_names(theme: &ThemeFileConfig) -> (names: Vec<String>)
    ensures
        text::texts(names@) == theme_names() + theme.custom.keys(),
{
    let mut names = Theme::built_in_names();
    let mut more = theme_keys(&theme.custom);
    let ghost a = names@;
    let ghost b = more@;
    names.append(&mut more);
    assert(text::texts(a + b) =~= text::texts(a) + text::texts(b));
    names
}

/// The name of the theme that the file asks for.
pub fn resolved_theme_name(theme: &ThemeFileConfig) -> (name: String)
    ensures
        name@ == match theme.name {
            Some(n) => n@,
            None => "default"@,
        },
{
    match &theme.name {
        Some(name) => name.clone(),
        None => "default".to_owned(),
    }
}

proof fn lemma_distinct_keeps(paths: Seq<Seq<char>>, i: int)
    requires
        0 <= i < paths.len(),
    ensures
        has_path(distinct_paths(paths), paths[i]),
    decreases paths.len(),
{
    let before = distinct_paths(paths.drop_last());
    let after = distinct_paths(paths);
    if i < paths.len() - 1 {
        lemma_distinct_keeps(paths.drop_last(), i);
        let k = choose|k: int|
            0 <= k < before.len() && path::components_of(#[trigger] before[k])
                == path::components_of(paths[i]);
        assert(after[k] == before[k]);
    } else if has_path(before, paths.last()) {
        assert(after == before);
    } else {
        assert(after[before.len() as int] == paths.last());
    }
}

/// No snippet root stands in the list twice, and each path that was given,
/// the default directory among them, stands there in some spelling.
pub proof fn law_roots_are_distinct_and_complete(paths: Seq<Seq<char>>)
    ensures
        forall|i: int, j: int|
            0 <= i < j < distinct_paths(paths).len() ==> path::components_of(
                #[trigger] distinct_paths(paths)[i],
            ) != path::components_of(#[trigger] distinct_paths(paths)[j]),
        forall|i: int|
            0 <= i < paths.len() ==> has_path(distinct_paths(paths), #[trigger] paths[i]),
    decreases paths.len(),
{
    assert forall|i: int| 0 <= i < paths.len() implies has_path(
        distinct_paths(paths),
        #[trigger] paths[i],
    ) by {
        lemma_distinct_keeps(paths, i);
    }
    if paths.len() > 0 {
        law_roots_are_distinct_and_complete(paths.drop_last());
        let before = distinct_paths(paths.drop_last());
        let after = distinct_paths(paths);
        assert forall|i: int, j: int| 0 <= i < j < after.len() implies path::components_of(
            #[trigger] after[i],
        ) != path::components_of(#[trigger] after[j]) by {
            assert(after[i] == before[i]);
            if j < before.len() {
                assert(after[j] == before[j]);
            }
        }
    }
}

/// A weight of the config file counts, and the standard one where the file gives
/// none. The older name of the weight of commands counts where the newer is not
/// given.
pub proof fn law_given_weights_count(file: FuzzyWeightsFileConfig)
    ensures
        ({
            let weights = weights_of(file);
            let standard = FuzzyWeights::standard();
            &&& file.name matches Some(w) ==> weights.name == w
            &&& file.tag matches Some(w) ==> weights.tag == w
            &&& file.frontmatter_name matches Some(w) ==> weights.frontmatter_name == w
            &&& file.description matches Some(w) ==> weights.description == w
            &&& file.path matches Some(w) ==> weights.path == w
            &&& file.command matches Some(w) ==> weights.command == w
            &&& file.command is None && file.body is Some ==> weights.command == file.body->0
            &&& file.name is None ==> weights.name == standard.name
            &&& file.tag is None ==> weights.tag == standard.tag
            &&& file.frontmatter_name is None ==> weights.frontmatter_name
                == standard.frontmatter_name
            &&& file.description is None ==> weights.description == standard.description
            &&& file.path is None ==> weights.path == standard.path
            &&& file.command is None && file.body is None ==> weights.command == standard.command
        }),
{
}

/// The colour that an entry gives, as a result that is used only where it is one.
pub open spec fn given(entry: Option<Seq<char>>) -> Color {
    color_of(entry->0)->Ok_0
}

/// Colours laid over a theme set what they stand for. What is not given stays.
pub proof fn law_colours_are_laid_over(colors: ThemeColorConfig, before: Theme, after: Theme)
    requires
        colors.applied(before) == Ok::<Theme, Seq<char>>(after),
    ensures
        ({
            let accent = text::optional_text(colors.accent);
            let muted = text::optional_text(colors.muted);
            let back = text::optional_text(colors.selected_bg);
            let front = text::optional_text(colors.selected_fg);
            let error = text::optional_text(colors.error_fg);
            &&& accent is Some ==> after.fuzzy_highlight.fg == Some(given(accent))
                && after.selected_marker.fg == Some(given(accent))
            &&& accent is None ==> after.fuzzy_highlight.fg == before.fuzzy_highlight.fg
                && after.selected_marker.fg == before.selected_marker.fg
            &&& muted is Some ==> after.chrome.fg == Some(given(muted)) && after.placeholder.fg
                == Some(given(muted))
            &&& muted is None ==> after.chrome == before.chrome && after.placeholder
                == before.placeholder
            &&& back is Some ==> after.selected_marker.bg == Some(given(back))
                && after.selected_item.bg == Some(given(back)) && after.error.bg == Some(
                given(back),
            )
            &&& back is None ==> after.selected_marker.bg == before.selected_marker.bg
                && after.selected_item.bg == before.selected_item.bg && after.error.bg
                == before.error.bg
            &&& front is Some ==> after.selected_item.fg == Some(given(front))
            &&& front is None ==> after.selected_item.fg == before.selected_item.fg
            &&& colors.prompt_fg_text() is Some ==> after.active_prompt.fg == Some(
                given(colors.prompt_fg_text()),
            )
            &&& colors.prompt_fg_text() is None ==> after.active_prompt.fg
                == before.active_prompt.fg
            &&& colors.prompt_bg_text() is Some ==> after.active_prompt.bg == Some(
                given(colors.prompt_bg_text()),
            )
            &&& colors.prompt_bg_text() is None ==> after.active_prompt.bg
                == before.active_prompt.bg
            &&& error is Some ==> after.error.fg == Some(given(error))
            &&& error is None ==> after.error.fg == before.error.fg
            &&& after.emphasis == before.emphasis
            &&& after.divider == before.divider
            &&& after.border == before.border
        }),
{
}

/// A colour behind a number sign is read from its hexadecimal digits, two for each
/// of red, green and blue.
pub proof fn law_hex_colours(r: char, s: char, g: char, h: char, b: char, c: char)
    requires
        hex_value(r) is Some && hex_value(s) is Some && hex_value(g) is Some && hex_value(h) is Some
            && hex_value(b) is Some && hex_value(c) is Some,
    ensures
        color_of(seq!['#', r, s, g, h, b, c]) == Ok::<Color, Seq<char>>(
            Color::Rgb(
                (16 * hex_value(r)->0 + hex_value(s)->0) as u8,
                (16 * hex_value(g)->0 + hex_value(h)->0) as u8,
                (16 * hex_value(b)->0 + hex_value(c)->0) as u8,
            ),
        ),
{
    let raw = seq!['#', r, s, g, h, b, c];
    assert(raw.last() == c);
    text::law_trimmed_text_stays(raw);
    let hex = raw.skip(1);
    assert(hex =~= seq![r, s, g, h, b, c]);
    reveal_with_fuel(crate::line_edit::byte_len, 7);
    assert(hex.drop_last() =~= seq![r, s, g, h, b]);
    assert(seq![r, s, g, h, b].drop_last() =~= seq![r, s, g, h]);
    assert(seq![r, s, g, h].drop_last() =~= seq![r, s, g]);
    assert(seq![r, s, g].drop_last() =~= seq![r, s]);
    assert(seq![r, s].drop_last() =~= seq![r]);
    assert(seq![r].drop_last() =~= Seq::<char>::empty());
    assert(crate::line_edit::byte_len(hex) == 6);
}

/// The name of a colour may be written in small or capital letters, with white space
/// around it.
pub proof fn law_colour_names_ignore_case(a: Seq<char>, b: Seq<char>)
    requires
        text::ascii_lower(text::trim_of(a)) == text::ascii_lower(text::trim_of(b)),
        text::trim_of(a).len() > 0 ==> text::trim_of(a)[0] != '#',
        text::trim_of(b).len() > 0 ==> text::trim_of(b)[0] != '#',
    ensures
        color_of(a) == color_of(b),
{
}

/// The environment says where files lie, before the config file does. Where neither
/// does they lie below the home directory.
pub proof fn law_where_files_lie(
    snippets: Seq<Seq<char>>,
    state_file: Option<Seq<char>>,
    env: Environment,
)
    ensures
        ({
            let paths = paths_of(snippets, state_file, env);
            let state = text::optional_text(env.pb_state_file);
            let config = text::optional_text(env.pb_config_file);
            &&& state is Some && state->0.len() > 0 ==> paths.state_file == state->0
            &&& (state is None || state->0.len() == 0) && state_file is Some ==> paths.state_file
                == state_file->0
            &&& config is Some && config->0.len() > 0 ==> paths.config_file == config->0
            &&& paths.snippet_overrides_active <==> env.peanutbutter_path_set || snippets.len() > 0
            &&& has_path(paths.snippet_roots, paths.xdg_snippets_dir)
        }),
{
    let all = (env_roots(env) + snippets).push(snippets_dir_of(env));
    law_roots_are_distinct_and_complete(all);
    assert(all[all.len() - 1] == snippets_dir_of(env));
}

/// Roots keep their order: those of the environment come first, then those of the
/// config file, and the default directory comes last. One that was there before is
/// left out.
pub proof fn law_roots_keep_their_order(first: Seq<Seq<char>>, more: Seq<Seq<char>>)
    ensures
        distinct_paths(first).is_prefix_of(distinct_paths(first + more)),
        forall|i: int|
            0 <= i < distinct_paths(first).len() ==> first.contains(
                #[trigger] distinct_paths(first)[i],
            ),
    decreases more.len(), first.len(),
{
    if more.len() > 0 {
        assert((first + more).drop_last() =~= first + more.drop_last());
        law_roots_keep_their_order(first, more.drop_last());
        let before = distinct_paths(first + more.drop_last());
        let after = distinct_paths(first + more);
        assert(before =~= after.take(before.len() as int));
        let front = distinct_paths(first);
        assert(front =~= before.take(front.len() as int));
        assert(front =~= after.take(front.len() as int));
    } else {
        assert(first + more =~= first);
        if first.len() > 0 {
            law_roots_keep_their_order(first.drop_last(), more);
            let before = distinct_paths(first.drop_last());
            assert forall|i: int| 0 <= i < distinct_paths(first).len() implies first.contains(
                #[trigger] distinct_paths(first)[i],
            ) by {
                if i < before.len() {
                    assert(distinct_paths(first)[i] == before[i]);
                    let k = first.drop_last().index_of(before[i]);
                    assert(first[k] == before[i]);
                } else {
                    assert(first[first.len() - 1] == first.last());
                }
            }
        }
    }
}

/// The roots of the environment are the paths between colons, in order, without
/// empty ones.
pub proof fn law_roots_of_the_environment(pieces: Seq<Seq<char>>)
    ensures
        filled_pieces(pieces) == pieces.filter(|piece: Seq<char>| piece.len() > 0),
    decreases pieces.len(),
{
    reveal(Seq::filter);
    if pieces.len() > 0 {
        law_roots_of_the_environment(pieces.drop_last());
    } else {
        assert(filled_pieces(pieces) =~= pieces.filter(|piece: Seq<char>| piece.len() > 0));
    }
}

/// A theme of one's own comes before a built-in one of the same name, and a name that
/// is neither is an error.
pub proof fn law_own_themes_come_first(file: ThemeFileConfig, name: Seq<char>)
    ensures
        file.custom@.contains_key(name) ==> file.base_of(name) == file.custom@[name].whole_theme(),
        !file.custom@.contains_key(name) && theme_names().contains(name) ==> file.base_of(name) is Ok,
        !file.custom@.contains_key(name) && !theme_names().contains(name) ==> file.base_of(
            name,
        ) is Err,
{
    let names = theme_names();
    if theme_names().contains(name) {
        let k = names.index_of(name);
        assert(names[k] == name);
        assert(k == 0 || k == 1 || k == 2 || k == 3 || k == 4);
    } else {
        assert(names.contains(names[0]));
        assert(names.contains(names[1]));
        assert(names.contains(names[2]));
        assert(names.contains(names[3]));
        assert(names.contains(names[4]));
    }
}

/// A theme of one's own needs each of its colours, and is made of them.
pub proof fn law_own_themes_need_every_colour(colors: ThemeColorConfig)
    ensures
        colors.whole_theme() is Ok ==> {
            let theme = colors.whole_theme()->Ok_0;
            let accent = given(text::optional_text(colors.accent));
            let muted = given(text::optional_text(colors.muted));
            let back = given(text::optional_text(colors.selected_bg));
            &&& colors.accent is Some && colors.muted is Some && colors.selected_bg is Some
            &&& colors.selected_fg is Some && colors.error_fg is Some
            &&& colors.prompt_fg_text() is Some && colors.prompt_bg_text() is Some
            &&& theme.fuzzy_highlight.fg == Some(accent) && theme.selected_marker.fg == Some(accent)
            &&& theme.chrome.fg == Some(muted) && theme.placeholder.fg == Some(muted)
            &&& theme.divider.fg == Some(muted) && theme.border.fg == Some(muted)
            &&& theme.selected_item.bg == Some(back) && theme.selected_marker.bg == Some(back)
            &&& theme.error.bg == Some(back)
            &&& theme.selected_item.fg == Some(given(text::optional_text(colors.selected_fg)))
            &&& theme.active_prompt.fg == Some(given(colors.prompt_fg_text()))
            &&& theme.active_prompt.bg == Some(given(colors.prompt_bg_text()))
            &&& theme.error.fg == Some(given(text::optional_text(colors.error_fg)))
        },
{
}

/// Where nothing else is set, the config file and the snippets lie below the
/// directory for configuration, and the uses below that for state. These are named
/// by the environment, or lie in the home directory.
pub proof fn law_default_places(env: Environment, dir: Seq<char>)
    ensures
        ({
            let config = text::optional_text(env.xdg_config_home);
            let state = text::optional_text(env.xdg_state_home);
            let own = path::joined(dir, "peanutbutter"@);
            let bare_config = config is None || config->0.len() == 0;
            let bare_state = state is None || state->0.len() == 0;
            let home = text::optional_text(env.home);
            let at_config = (!bare_config && dir == config->0) || (bare_config && home is Some
                && dir == path::joined(home->0, ".config"@));
            let at_state = (!bare_state && dir == state->0) || (bare_state && home is Some && dir
                == path::joined(path::joined(home->0, ".local"@), "state"@));
            &&& at_config ==> snippets_dir_of(env) == path::joined(own, "snippets"@)
            &&& at_config && env.pb_config_file is None ==> config_file_of(env) == path::joined(
                own,
                "config.toml"@,
            )
            &&& at_state && env.pb_state_file is None ==> state_file_of(None, env) == path::joined(
                own,
                "state.tsv"@,
            )
        }),
{
}

} // verus!
