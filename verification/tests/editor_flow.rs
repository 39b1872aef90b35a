//! Tests for the field model and the editor state machine: the default
//! document, form building and layout, cyclic navigation, edits and
//! commits, and the end-to-end session scenario.

use egawari::editor::{cursor_down, cursor_up, editor_step, EditorState, KeyEvent, StepAction};
use egawari::fields::{
    assign_rows, build_sections, ConfigKeyLocation, ConfigKeySlot, ConfigKeyType,
};
use egawari::numbers::parse_number;
use egawari::settings::default_config;

fn chars(s: &str) -> Vec<char> {
    s.chars().collect()
}

#[test]
fn default_document_reference_platform() {
    let conf = default_config(true);
    assert_eq!(conf.input.name, "");
    let d = conf.display.expect("display group expected");
    assert_eq!(d.display.as_deref(), Some(":0"));
    assert_eq!(d.screen, 0);
}

#[test]
fn default_document_other_platform() {
    let conf = default_config(false);
    assert_eq!(conf.input.name, "");
    assert!(conf.display.is_none());
}

#[test]
fn build_sections_shape() {
    let conf = default_config(true);
    let ss = build_sections(&conf);
    assert_eq!(ss.len(), 2);
    assert_eq!(ss[0].name, chars("Input"));
    assert_eq!(ss[0].keys.len(), 2);
    assert_eq!(ss[0].keys[0].key_type, ConfigKeyType::Button);
    assert_eq!(ss[0].keys[0].name, chars("Automatic Setup"));
    assert_eq!(ss[0].keys[1].key_type, ConfigKeyType::Text);
    assert_eq!(ss[0].keys[1].slot, Some(ConfigKeySlot::InputName));
    assert_eq!(ss[0].keys[1].name, chars("Name"));
    assert_eq!(ss[1].name, chars("Display"));
    assert_eq!(ss[1].keys.len(), 3);
    assert_eq!(ss[1].keys[1].slot, Some(ConfigKeySlot::DisplayName));
    assert_eq!(ss[1].keys[2].slot, Some(ConfigKeySlot::DisplayScreen));
    assert_eq!(ss[1].keys[2].name, chars("Screen"));
}

#[test]
fn build_sections_without_display_group() {
    let conf = default_config(false);
    let ss = build_sections(&conf);
    assert_eq!(ss.len(), 1);
    assert_eq!(ss[0].keys.len(), 2);
}

#[test]
fn layout_assigns_monotonic_rows() {
    let conf = default_config(true);
    let ss = assign_rows(&build_sections(&conf));
    let rows: Vec<i32> = ss
        .iter()
        .flat_map(|s| s.keys.iter().map(|k| k.ypos))
        .collect();
    assert_eq!(rows, vec![3, 4, 7, 8, 9]);
}

#[test]
fn val_xpos_counts_prefix_and_name() {
    let conf = default_config(true);
    let ss = build_sections(&conf);
    // " => Name = " is eleven characters; the value starts right after.
    assert_eq!(ss[0].keys[1].val_xpos(), 11);
}

#[test]
fn cursor_cycles_down_and_up() {
    let conf = default_config(true);
    let ss = build_sections(&conf);
    let start = ConfigKeyLocation { section: 0, key: 1 };
    let mut loc = start;
    for _ in 0..5 {
        loc = cursor_down(&ss, loc);
    }
    assert_eq!(loc, start);
    for _ in 0..5 {
        loc = cursor_up(&ss, loc);
    }
    assert_eq!(loc, start);
}

#[test]
fn cursor_wraps_at_both_ends() {
    let conf = default_config(true);
    let ss = build_sections(&conf);
    let first = ConfigKeyLocation { section: 0, key: 0 };
    let last = ConfigKeyLocation { section: 1, key: 2 };
    assert_eq!(cursor_up(&ss, first), last);
    assert_eq!(cursor_down(&ss, last), first);
}

#[test]
fn parse_number_filters_digits() {
    assert_eq!(parse_number(&chars("12a3")), Some(123));
    assert_eq!(parse_number(&chars("0")), Some(0));
    assert_eq!(parse_number(&chars("")), None);
    assert_eq!(parse_number(&chars("abc")), None);
    assert_eq!(parse_number(&chars("999")), None);
}

#[test]
fn number_commit_filters_and_writes() {
    let mut conf = default_config(true);
    let ss = build_sections(&conf);
    let mut st = EditorState::new();
    // Navigate to the screen field.
    for _ in 0..4 {
        assert_eq!(
            editor_step(&mut st, &ss, &mut conf, KeyEvent::Down),
            StepAction::Continue
        );
    }
    assert_eq!(st.cur, ConfigKeyLocation { section: 1, key: 2 });
    assert_eq!(editor_step(&mut st, &ss, &mut conf, KeyEvent::Space), StepAction::Continue);
    assert!(st.editing);
    assert_eq!(st.buf, chars("0"));
    // Replace the seeded value with "12a3"; non-digits fall away at commit.
    assert_eq!(editor_step(&mut st, &ss, &mut conf, KeyEvent::Backspace), StepAction::Continue);
    for c in "12a3".chars() {
        editor_step(&mut st, &ss, &mut conf, KeyEvent::Printable(c));
    }
    assert_eq!(editor_step(&mut st, &ss, &mut conf, KeyEvent::Enter), StepAction::Continue);
    assert!(!st.editing);
    assert_eq!(conf.display.as_ref().unwrap().screen, 123);
}

#[test]
fn number_commit_without_digits_is_rejected() {
    let mut conf = default_config(true);
    let ss = build_sections(&conf);
    let mut st = EditorState::new();
    for _ in 0..4 {
        editor_step(&mut st, &ss, &mut conf, KeyEvent::Down);
    }
    editor_step(&mut st, &ss, &mut conf, KeyEvent::Space);
    editor_step(&mut st, &ss, &mut conf, KeyEvent::Backspace);
    assert_eq!(st.buf, chars(""));
    // An empty buffer is rejected: the editor stays in the edit and the
    // field keeps its value.
    assert_eq!(editor_step(&mut st, &ss, &mut conf, KeyEvent::Enter), StepAction::Reject);
    assert!(st.editing);
    assert_eq!(conf.display.as_ref().unwrap().screen, 0);
    // So is a buffer with no digits at all.
    for c in "abc".chars() {
        editor_step(&mut st, &ss, &mut conf, KeyEvent::Printable(c));
    }
    assert_eq!(editor_step(&mut st, &ss, &mut conf, KeyEvent::Enter), StepAction::Reject);
    assert!(st.editing);
    assert_eq!(conf.display.as_ref().unwrap().screen, 0);
}

#[test]
fn text_commit_is_verbatim() {
    let mut conf = default_config(true);
    let ss = build_sections(&conf);
    let mut st = EditorState::new();
    editor_step(&mut st, &ss, &mut conf, KeyEvent::Down);
    editor_step(&mut st, &ss, &mut conf, KeyEvent::Space);
    assert!(st.editing);
    // Delimiter characters commit verbatim, with no re-escaping.
    for c in "[a] (b) \"c\" 'd' <e>".chars() {
        let key = if c == ' ' { KeyEvent::Space } else { KeyEvent::Printable(c) };
        editor_step(&mut st, &ss, &mut conf, key);
    }
    assert_eq!(editor_step(&mut st, &ss, &mut conf, KeyEvent::Enter), StepAction::Continue);
    assert_eq!(conf.input.name, "[a] (b) \"c\" 'd' <e>");
}

#[test]
fn reentering_an_edit_seeds_the_committed_value() {
    let mut conf = default_config(true);
    let ss = build_sections(&conf);
    let mut st = EditorState::new();
    editor_step(&mut st, &ss, &mut conf, KeyEvent::Down);
    editor_step(&mut st, &ss, &mut conf, KeyEvent::Space);
    for c in "pad".chars() {
        editor_step(&mut st, &ss, &mut conf, KeyEvent::Printable(c));
    }
    editor_step(&mut st, &ss, &mut conf, KeyEvent::Enter);
    assert!(!st.editing);
    // A new edit on the same field starts from the committed value.
    editor_step(&mut st, &ss, &mut conf, KeyEvent::Space);
    assert!(st.editing);
    assert_eq!(st.buf, chars("pad"));
}

#[test]
fn escape_discards_the_buffer() {
    let mut conf = default_config(true);
    let ss = build_sections(&conf);
    let mut st = EditorState::new();
    editor_step(&mut st, &ss, &mut conf, KeyEvent::Down);
    editor_step(&mut st, &ss, &mut conf, KeyEvent::Space);
    for c in "junk".chars() {
        editor_step(&mut st, &ss, &mut conf, KeyEvent::Printable(c));
    }
    assert_eq!(editor_step(&mut st, &ss, &mut conf, KeyEvent::Escape), StepAction::Continue);
    assert!(!st.editing);
    assert_eq!(conf.input.name, "");
}

#[test]
fn space_on_a_button_fires_the_trigger() {
    let mut conf = default_config(true);
    let ss = build_sections(&conf);
    let mut st = EditorState::new();
    assert_eq!(editor_step(&mut st, &ss, &mut conf, KeyEvent::Space), StepAction::Trigger);
    assert!(!st.editing);
    assert_eq!(st.cur, ConfigKeyLocation { section: 0, key: 0 });
}

#[test]
fn session_edits_name_and_exits() {
    // Load the default document on the reference platform, edit the input
    // name, confirm, and end the session: the document to be persisted
    // carries the new name.
    let mut conf = default_config(true);
    let ss = build_sections(&conf);
    assert_eq!(ss.len(), 2);
    let mut st = EditorState::new();
    assert_eq!(editor_step(&mut st, &ss, &mut conf, KeyEvent::Down), StepAction::Continue);
    assert_eq!(editor_step(&mut st, &ss, &mut conf, KeyEvent::Space), StepAction::Continue);
    assert_eq!(st.buf, chars(""));
    for c in "Wacom Tablet".chars() {
        let key = if c == ' ' { KeyEvent::Space } else { KeyEvent::Printable(c) };
        assert_eq!(editor_step(&mut st, &ss, &mut conf, key), StepAction::Continue);
    }
    assert_eq!(editor_step(&mut st, &ss, &mut conf, KeyEvent::Enter), StepAction::Continue);
    assert_eq!(editor_step(&mut st, &ss, &mut conf, KeyEvent::Enter), StepAction::Exit);
    assert_eq!(conf.input.name, "Wacom Tablet");
}
