//! Verified core of a terminal snippet manager: parsing, indexing, search,
//! navigation, prompting and the text shown on screen.

pub mod text;
pub mod text_map;
pub mod line_edit;
pub mod path;
pub mod style;
pub mod command_template;
pub mod glob;
pub mod domain;
pub mod index;
pub mod browse;
pub mod config;
pub mod keybinds;
pub mod frecency;
pub mod edit_distance;
pub mod needle;
pub mod fuzzy;
pub mod search;
pub mod gc;
pub mod frontmatter;
pub mod parser;
pub mod completions;
pub mod discovery;
pub mod edit;
pub mod history_trial;
pub mod execute;
pub mod cli;
pub mod docs;
