//! Picking a command out of the shell's history.

use peanutbutter::config::Theme;
use peanutbutter::execute::render::layout::Rect;
use peanutbutter::needle::MAX_TERM;
use peanutbutter::history_trial::{
    handle_key, parse_history_payload, render, types_char, HistoryOutcome, HistoryTrialState,
};
use peanutbutter::keybinds::{KeyCode, KeyEvent};

#[test]
fn parse_history_payload_splits_trims_and_dedups_keeping_newest() {
    let raw = "git status\u{1F}  cargo test \u{1F}\u{1F}git status\u{1F}ls";
    assert_eq!(
        parse_history_payload(raw),
        vec!["git status", "cargo test", "ls"]
    );
    assert!(parse_history_payload("").is_empty());
}

#[test]
fn parse_history_payload_accepts_newline_separated_stdin_format() {
    let raw = "git status\n  cargo test \n\ngit status\nls\n";
    assert_eq!(
        parse_history_payload(raw),
        vec!["git status", "cargo test", "ls"]
    );
}

#[test]
fn empty_query_lists_all_entries_in_recency_order() {
    let state =
        HistoryTrialState::new(vec!["newest".into(), "middle".into(), "oldest".into()], "");
    assert_eq!(state.visible(), vec!["newest", "middle", "oldest"]);
    assert_eq!(state.selected(), Some("newest"));
}

#[test]
fn typing_filters_fuzzily_and_ranks_by_score() {
    let mut state = HistoryTrialState::new(
        vec![
            "cargo test".into(),
            "git commit".into(),
            "cat notes.txt".into(),
        ],
        "",
    );
    for c in "cargo".chars() {
        state.type_char(c);
    }
    assert_eq!(state.selected(), Some("cargo test"));
    assert!(!state.visible().contains(&"git commit"));
}

#[test]
fn equal_scores_keep_recency_order() {
    let mut state = HistoryTrialState::new(vec!["echo one".into(), "echo two".into()], "");
    for c in "echo".chars() {
        state.type_char(c);
    }
    assert_eq!(state.visible(), vec!["echo one", "echo two"]);
}

#[test]
fn seed_query_prefills_filter_but_is_dropped_when_nothing_matches() {
    let entries: Vec<String> = vec!["cargo test".into(), "git push".into()];
    let seeded = HistoryTrialState::new(entries.clone(), "cargo");
    assert_eq!(seeded.filter(), "cargo");
    assert_eq!(seeded.visible(), vec!["cargo test"]);

    let unmatched = HistoryTrialState::new(entries, "zzzznope");
    assert_eq!(unmatched.filter(), "");
    assert_eq!(unmatched.visible().len(), 2);
}

#[test]
fn enter_picks_the_selected_entry() {
    let mut state = HistoryTrialState::new(vec!["one".into(), "two".into()], "");
    state.move_cursor(1);
    assert_eq!(
        handle_key(&mut state, &KeyEvent::press(KeyCode::Enter)),
        Some(HistoryOutcome::Picked("two".into()))
    );
}

#[test]
fn enter_on_empty_list_keeps_looping() {
    let mut state = HistoryTrialState::new(vec!["one".into()], "");
    for c in "nomatch".chars() {
        state.type_char(c);
    }
    assert_eq!(handle_key(&mut state, &KeyEvent::press(KeyCode::Enter)), None);
}

#[test]
fn ctrl_t_falls_through_to_snippets_and_esc_cancels() {
    let mut state = HistoryTrialState::new(vec!["one".into()], "");
    assert_eq!(
        handle_key(&mut state, &KeyEvent::ctrl(KeyCode::Char('t'))),
        Some(HistoryOutcome::Snippets)
    );
    assert_eq!(
        handle_key(&mut state, &KeyEvent::press(KeyCode::Esc)),
        Some(HistoryOutcome::Cancelled)
    );
    assert_eq!(
        handle_key(&mut state, &KeyEvent::ctrl(KeyCode::Char('c'))),
        Some(HistoryOutcome::Cancelled)
    );
}

#[test]
fn cursor_wraps_and_ctrl_p_n_navigate() {
    let mut state = HistoryTrialState::new(vec!["a".into(), "b".into()], "");
    handle_key(&mut state, &KeyEvent::ctrl(KeyCode::Char('n')));
    assert_eq!(state.selected(), Some("b"));
    handle_key(&mut state, &KeyEvent::ctrl(KeyCode::Char('n')));
    assert_eq!(state.selected(), Some("a"));
    handle_key(&mut state, &KeyEvent::ctrl(KeyCode::Char('p')));
    assert_eq!(state.selected(), Some("b"));
}

#[test]
fn typing_and_deleting_goes_through_keys() {
    let mut state = HistoryTrialState::new(vec!["cargo test".into(), "git push".into()], "");
    assert_eq!(handle_key(&mut state, &KeyEvent::press(KeyCode::Char('g'))), None);
    assert_eq!(state.filter(), "g");
    assert_eq!(handle_key(&mut state, &KeyEvent::press(KeyCode::Backspace)), None);
    assert_eq!(state.filter(), "");
    assert_eq!(state.cursor(), 0);
}

#[test]
fn an_area_without_rows_shows_nothing() {
    let state = HistoryTrialState::new(vec!["one".into()], "");
    let none = render(
        Rect { x: 0, y: 0, width: 20, height: 0 },
        &state,
        &Theme::default(),
    );
    assert!(none.is_none());
    let some = render(
        Rect { x: 0, y: 0, width: 20, height: 10 },
        &state,
        &Theme::default(),
    );
    assert!(some.is_some());
}

#[test]
fn a_full_query_still_takes_other_keys() {
    let entries = vec!["a".repeat(MAX_TERM)];
    let mut state = HistoryTrialState::new(entries, &"a".repeat(MAX_TERM));
    assert_eq!(state.filter().len(), MAX_TERM);
    assert!(types_char(&KeyEvent::press(KeyCode::Char('a'))));
    assert!(!types_char(&KeyEvent::ctrl(KeyCode::Char('a'))));
    assert!(!types_char(&KeyEvent::press(KeyCode::Esc)));
    assert_eq!(handle_key(&mut state, &KeyEvent::press(KeyCode::Backspace)), None);
    assert_eq!(state.filter().len(), MAX_TERM - 1);
    assert_eq!(
        handle_key(&mut state, &KeyEvent::press(KeyCode::Esc)),
        Some(HistoryOutcome::Cancelled)
    );
}

#[test]
fn joined_history_reads_back() {
    let commands = parse_history_payload(" git log\u{1F}ls\n\u{1F}git log\ncd .. ");
    assert_eq!(commands, vec!["git log", "ls", "cd .."]);
    assert_eq!(parse_history_payload(&commands.join("\n")), commands);
    assert_eq!(parse_history_payload(&commands.join("\u{1F}")), commands);
}
