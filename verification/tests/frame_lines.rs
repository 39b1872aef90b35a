//! Tests for the frame text: key rows, section headers, and the live value
//! display while editing.

use egawari::fields::build_sections;
use egawari::numbers::fmt_u8;
use egawari::render::{edit_value_line, key_line, quote_value, section_header_line};
use egawari::settings::default_config;

fn chars(s: &str) -> Vec<char> {
    s.chars().collect()
}

#[test]
fn button_row_shows_braced_name() {
    let conf = default_config(true);
    let ss = build_sections(&conf);
    assert_eq!(
        key_line(&ss[0].keys[0], &conf),
        chars(" => \x1b[0;39m{{Automatic Setup}}")
    );
}

#[test]
fn text_row_shows_quoted_value() {
    let conf = default_config(true);
    let ss = build_sections(&conf);
    assert_eq!(key_line(&ss[0].keys[1], &conf), chars(" => Name = \x1b[0;39m\"\""));
    assert_eq!(
        key_line(&ss[1].keys[1], &conf),
        chars(" => Display = \x1b[0;39m\":0\"")
    );
}

#[test]
fn number_row_shows_raw_digits() {
    let conf = default_config(true);
    let ss = build_sections(&conf);
    assert_eq!(key_line(&ss[1].keys[2], &conf), chars(" => Screen = \x1b[0;39m0"));
}

#[test]
fn header_row_escapes_its_brackets() {
    let conf = default_config(true);
    let ss = build_sections(&conf);
    assert_eq!(section_header_line(&ss[0].name), chars("=\\[Input\\]="));
}

#[test]
fn quoting_escapes_quotes_and_backslashes() {
    assert_eq!(quote_value(&chars("a\"b\\c")), chars("\"a\\\"b\\\\c\""));
}

#[test]
fn edit_display_quotes_text_and_keeps_numbers_raw() {
    let conf = default_config(true);
    let ss = build_sections(&conf);
    assert_eq!(
        edit_value_line(&ss[0].keys[1], &chars("abc")),
        chars("\x1b[0;39m\"abc\"")
    );
    assert_eq!(
        edit_value_line(&ss[1].keys[2], &chars("12")),
        chars("\x1b[0;39m12")
    );
}

#[test]
fn digits_of_bytes() {
    assert_eq!(fmt_u8(0), chars("0"));
    assert_eq!(fmt_u8(7), chars("7"));
    assert_eq!(fmt_u8(42), chars("42"));
    assert_eq!(fmt_u8(255), chars("255"));
}
