//! Levels of a picker.

use peanutbutter::execute::tree_picker::TreePicker;

#[test]
fn descend_remembers_child_on_parent_frame() {
    let mut p: TreePicker<String> = TreePicker::new();
    p.type_char('d');
    p.descend("docker".to_string());
    assert_eq!(p.depth(), 1);
    assert_eq!(p.path(), &["docker".to_string()]);
    // Parent frame (now hidden) should still hold "d" and descended_from.
    assert_eq!(p.frames()[0].filter, "d");
    assert_eq!(p.frames()[0].descended_from.as_deref(), Some("docker"));
}

#[test]
fn ascend_then_restore_places_cursor_on_descended_child() {
    let mut p: TreePicker<String> = TreePicker::new();
    p.type_char('d');
    p.descend("docker".to_string());
    // Now in "docker"; type something then go back up.
    p.type_char('x');
    let popped = p.ascend();
    assert_eq!(popped.as_deref(), Some("docker"));
    // Parent filter preserved.
    assert_eq!(p.filter(), "d");
    let visible = vec!["delta".to_string(), "docker".to_string()];
    p.restore_selection(&visible, |s: &String| Some(s.clone()));
    assert_eq!(p.selection(), Some(1));
}

#[test]
fn restore_falls_back_to_zero_when_child_missing() {
    let mut p: TreePicker<String> = TreePicker::new();
    p.descend("gone".to_string());
    p.ascend();
    let visible = vec!["other".to_string()];
    p.restore_selection(&visible, |s: &String| Some(s.clone()));
    assert_eq!(p.selection(), Some(0));
}

#[test]
fn ascend_at_root_returns_none() {
    let mut p: TreePicker<String> = TreePicker::new();
    assert!(p.ascend().is_none());
    assert_eq!(p.depth(), 0);
}

#[test]
fn input_backspace_only_edits_filter() {
    let mut p: TreePicker<String> = TreePicker::new();
    p.type_char('a');
    p.type_char('b');
    assert!(p.input_backspace());
    assert_eq!(p.filter(), "a");
    assert!(p.input_backspace());
    assert_eq!(p.filter(), "");
    assert!(!p.input_backspace());
}
