//! Settings: colours, themes, weights and paths.

use peanutbutter::config::{
    default_paths, load_with_theme_override, parse_color, resolve_config_file, resolve_paths,
    resolve_state_file, resolve_weights, resolved_theme_name, theme_completion_names,
    xdg_snippets_dir, Environment, FileConfig, FuzzyWeights, FuzzyWeightsFileConfig, Theme,
    ThemeColorConfig, ThemeFileConfig,
};
use peanutbutter::style::Color;
use peanutbutter::text_map::TextMap;

fn env() -> Environment {
    Environment {
        peanutbutter_path: None,
        peanutbutter_path_set: false,
        pb_state_file: None,
        pb_config_file: None,
        xdg_config_home: None,
        xdg_state_home: None,
        home: Some("/home/me".to_string()),
        current_dir: Some("/here".to_string()),
    }
}

fn no_theme() -> ThemeFileConfig {
    ThemeFileConfig { name: None, colors: ThemeColorConfig::default(), custom: TextMap::new() }
}

fn no_weights() -> FuzzyWeightsFileConfig {
    FuzzyWeightsFileConfig {
        name: None,
        tag: None,
        frontmatter_name: None,
        description: None,
        path: None,
        command: None,
        body: None,
    }
}

fn no_file() -> FileConfig {
    FileConfig {
        snippets: vec![],
        state_file: None,
        height: None,
        fuzzy: no_weights(),
        variables: TextMap::new(),
        theme: no_theme(),
        timeout_ms: None,
        allow_commands: None,
        lint: TextMap::new(),
        keybinds: vec![],
    }
}

fn complete(colors: [&str; 7]) -> ThemeColorConfig {
    ThemeColorConfig {
        accent: Some(colors[0].to_string()),
        muted: Some(colors[1].to_string()),
        selected_bg: Some(colors[2].to_string()),
        selected_fg: Some(colors[3].to_string()),
        prompt_fg: Some(colors[4].to_string()),
        prompt_bg: Some(colors[5].to_string()),
        error_fg: Some(colors[6].to_string()),
        ..ThemeColorConfig::default()
    }
}

#[test]
fn theme_accepts_named_and_hex_colors() {
    let theme = Theme::from_raw(
        &ThemeFileConfig {
            colors: ThemeColorConfig {
                accent: Some("#112233".to_string()),
                muted: Some("dark_gray".to_string()),
                selected_bg: Some("blue".to_string()),
                selected_fg: Some("white".to_string()),
                prompt_active_fg: Some("yellow".to_string()),
                prompt_active_bg: Some("#445566".to_string()),
                error_fg: Some("red".to_string()),
                ..ThemeColorConfig::default()
            },
            ..no_theme()
        },
        None,
    )
    .unwrap();

    assert_eq!(theme.selected_marker.fg, Some(Color::Rgb(0x11, 0x22, 0x33)));
    assert_eq!(theme.selected_item.bg, Some(Color::Blue));
    assert_eq!(theme.active_prompt.bg, Some(Color::Rgb(0x44, 0x55, 0x66)));
}

#[test]
fn theme_name_selects_builtin_and_cli_skips_overrides() {
    let raw = ThemeFileConfig {
        name: Some("gruvbox".to_string()),
        colors: ThemeColorConfig {
            accent: Some("red".to_string()),
            ..ThemeColorConfig::default()
        },
        ..no_theme()
    };

    let config_theme = Theme::from_raw(&raw, None).unwrap();
    let cli_theme = Theme::from_raw(&raw, Some("nord")).unwrap();

    assert_eq!(config_theme.selected_marker.fg, Some(Color::Red));
    assert_eq!(cli_theme, Theme::nord());
    assert_eq!(resolved_theme_name(&raw), "gruvbox");
}

#[test]
fn named_custom_theme_requires_complete_block() {
    let mut raw = no_theme();
    raw.name = Some("mytheme".to_string());
    raw.colors.accent = Some("red".to_string());
    raw.custom.insert(
        "mytheme".to_string(),
        complete(["#c678dd", "#5c6370", "#3e4451", "#abb2bf", "#282c34", "#61afef", "#e06c75"]),
    );
    let theme = Theme::from_raw(&raw, None).unwrap();

    assert_eq!(theme.selected_marker.fg, Some(Color::Red));
    assert_eq!(theme.active_prompt.bg, Some(Color::Rgb(0x61, 0xaf, 0xef)));

    let mut partial = no_theme();
    partial.custom.insert(
        "half".to_string(),
        ThemeColorConfig { accent: Some("red".to_string()), ..ThemeColorConfig::default() },
    );
    assert!(partial.base_theme("half").is_err());
}

#[test]
fn multiple_named_custom_themes_are_independently_selectable() {
    let mut theme = no_theme();
    theme.custom.insert(
        "one".to_string(),
        complete(["#111111", "#222222", "#333333", "#444444", "#555555", "#666666", "#777777"]),
    );
    theme.custom.insert(
        "two".to_string(),
        complete(["#aaaaaa", "#bbbbbb", "#cccccc", "#dddddd", "#eeeeee", "#ffffff", "#123456"]),
    );

    let one = theme.base_theme("one").unwrap();
    let two = theme.base_theme("two").unwrap();
    assert_eq!(one.selected_marker.fg, Some(Color::Rgb(0x11, 0x11, 0x11)));
    assert_eq!(two.selected_marker.fg, Some(Color::Rgb(0xaa, 0xaa, 0xaa)));

    let err = theme.base_theme("three").unwrap_err();
    assert!(err.message.contains("one, two"));

    let names = theme_completion_names(&theme);
    assert!(names.contains(&"one".to_string()) && names.contains(&"nord".to_string()));
    assert!(Theme::selectable(&theme).iter().any(|(name, t)| name == "two" && *t == two));
}

#[test]
fn unknown_theme_name_is_clear_error() {
    let raw = ThemeFileConfig { name: Some("wat".to_string()), ..no_theme() };
    let err = Theme::from_raw(&raw, None).unwrap_err();
    assert!(err.message.contains("unknown theme wat"));
}

#[test]
fn parse_color_rejects_unknown_values() {
    assert!(parse_color("wat").is_err());
    assert!(parse_color("#12345").is_err());
    assert!(parse_color("#gggggg").is_err());
    assert_eq!(parse_color("light_blue"), Ok(Color::LightBlue));
    assert_eq!(parse_color("#0a0B0c"), Ok(Color::Rgb(10, 11, 12)));
}

#[test]
fn built_in_themes_have_names() {
    for name in Theme::built_in_names() {
        assert!(Theme::named(&name).is_ok(), "{name}");
    }
    assert_eq!(Theme::named("gruvbox"), Ok(Theme::gruvbox()));
    assert_eq!(Theme::named("catppuccin"), Ok(Theme::catppuccin()));
    assert_eq!(Theme::named("monochrome"), Ok(Theme::monochrome()));
}

#[test]
fn fuzzy_command_weight_accepts_legacy_body_alias() {
    let legacy = FuzzyWeightsFileConfig { body: Some(7), ..no_weights() };
    assert_eq!(resolve_weights(legacy).command, 7);

    let both = FuzzyWeightsFileConfig { command: Some(9), body: Some(7), ..no_weights() };
    assert_eq!(resolve_weights(both).command, 9);
    assert_eq!(resolve_weights(no_weights()), FuzzyWeights::default());
}

#[test]
fn paths_come_from_the_environment_and_the_file() {
    let mut env = env();
    assert_eq!(xdg_snippets_dir(&env), "/home/me/.config/peanutbutter/snippets");
    assert_eq!(resolve_config_file(&env), "/home/me/.config/peanutbutter/config.toml");
    let paths = default_paths(&env);
    assert_eq!(paths.snippet_roots, vec!["/home/me/.config/peanutbutter/snippets"]);
    assert!(!paths.snippet_overrides_active);

    env.peanutbutter_path = Some("/a:/b".to_string());
    env.peanutbutter_path_set = true;
    let paths = resolve_paths(&vec!["/c".to_string()], &None, &env);
    assert_eq!(
        paths.snippet_roots,
        vec!["/a", "/b", "/c", "/home/me/.config/peanutbutter/snippets"]
    );
    assert!(paths.snippet_overrides_active);

    env.pb_state_file = Some("/s.tsv".to_string());
    assert_eq!(resolve_state_file(&None, &env), "/s.tsv");
}

#[test]
fn settings_left_out_have_defaults() {
    let config = load_with_theme_override(no_file(), &env(), None).unwrap();
    assert_eq!(config.ui.height, 20);
    assert_eq!(config.suggestion_commands.timeout_ms, 2000);
    assert!(config.suggestion_commands.allow_commands);
    assert_eq!(config.theme, Theme::default());
    assert_eq!(config.fuzzy, FuzzyWeights::default());

    let mut file = no_file();
    file.height = Some(0);
    file.timeout_ms = Some(5);
    file.allow_commands = Some(false);
    let config = load_with_theme_override(file, &env(), Some("nord")).unwrap();
    assert_eq!(config.ui.height, 1);
    assert_eq!(config.suggestion_commands.timeout_ms, 5);
    assert!(!config.suggestion_commands.allow_commands);
    assert_eq!(config.theme, Theme::nord());
    assert!(load_with_theme_override(no_file(), &env(), Some("wat")).is_err());
}
