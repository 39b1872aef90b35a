//! Tests for the attribute translator: code parsing, verbatim fragments,
//! and the surrounding attribute framing.

use egawari::surface::{escaped_to_ops, TermOp};

fn chars(s: &str) -> Vec<char> {
    s.chars().collect()
}

#[test]
fn leading_code_becomes_attribute_ops() {
    let ops = escaped_to_ops("\x1b[1;32mHi");
    assert_eq!(
        ops,
        vec![
            TermOp::Color(9),
            TermOp::Bold(true),
            TermOp::Text(chars("")),
            TermOp::Bold(true),
            TermOp::Color(2),
            TermOp::Text(chars("Hi")),
            TermOp::Color(9),
            TermOp::Bold(false),
        ]
    );
}

#[test]
fn plain_bold_digit_toggles_off() {
    let ops = escaped_to_ops("A\x1b[0;39m B");
    assert_eq!(
        ops,
        vec![
            TermOp::Color(9),
            TermOp::Bold(true),
            TermOp::Text(chars("A")),
            TermOp::Bold(false),
            TermOp::Color(9),
            TermOp::Text(chars(" B")),
            TermOp::Color(9),
            TermOp::Bold(false),
        ]
    );
}

#[test]
fn single_digit_color_field_keeps_current_color() {
    // A one-digit color field carries no index past its leading digit, so
    // no color change is made: bold resets while the color stays.
    let ops = escaped_to_ops("\x1b[0;9mX");
    assert_eq!(
        ops,
        vec![
            TermOp::Color(9),
            TermOp::Bold(true),
            TermOp::Text(chars("")),
            TermOp::Bold(false),
            TermOp::Text(chars("X")),
            TermOp::Color(9),
            TermOp::Bold(false),
        ]
    );
}

#[test]
fn fragment_with_late_code_is_written_verbatim() {
    // A code-shaped run past the fragment's head is not a leading code:
    // the fragment is written verbatim, with no attribute change.
    let ops = escaped_to_ops("x[1;32my\x1b[1;36mZ");
    assert_eq!(
        ops,
        vec![
            TermOp::Color(9),
            TermOp::Bold(true),
            TermOp::Text(chars("x[1;32my")),
            TermOp::Bold(true),
            TermOp::Color(6),
            TermOp::Text(chars("Z")),
            TermOp::Color(9),
            TermOp::Bold(false),
        ]
    );
}

#[test]
fn fragment_without_code_is_written_verbatim() {
    let ops = escaped_to_ops("[;m");
    assert_eq!(
        ops,
        vec![
            TermOp::Color(9),
            TermOp::Bold(true),
            TermOp::Text(chars("[;m")),
            TermOp::Color(9),
            TermOp::Bold(false),
        ]
    );
}
