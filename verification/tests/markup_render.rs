//! Tests for the markup renderer: character classes, the arrow exception,
//! delimiter spans, escaped delimiters, and the neutral rewrite inside
//! spans.

use egawari::markup::color_str_escape;

#[test]
fn class_run_is_wrapped() {
    assert_eq!(color_str_escape("a+b"), "a\x1b[1;36m+\x1b[1;39mb");
}

#[test]
fn arrow_exception_collapses() {
    // A lone `=` before `>` is re-collapsed into one arrow styling.
    assert_eq!(
        color_str_escape(" => 'Hi!'"),
        " \x1b[1;36m=>\x1b[1;39m \x1b[0;32m'\x1b[0;39mHi!\x1b[0;32m'\x1b[1;39m"
    );
}

#[test]
fn long_equals_run_is_not_an_arrow() {
    assert_eq!(
        color_str_escape("---===a=b===---"),
        "\x1b[0;32m---\x1b[1;39m\x1b[1;32m===\x1b[1;39ma\x1b[1;32m=\x1b[1;39mb\x1b[1;32m===\x1b[1;39m\x1b[0;32m---\x1b[1;39m"
    );
}

#[test]
fn delimiter_span_colors_delimiters_and_interior() {
    assert_eq!(
        color_str_escape("[x]"),
        "\x1b[1;32m[\x1b[0;39mx\x1b[1;32m]\x1b[1;39m"
    );
    assert_eq!(
        color_str_escape("<k>"),
        "\x1b[1;32m<\x1b[0;39mk\x1b[1;32m>\x1b[1;39m"
    );
    assert_eq!(
        color_str_escape("\"q\""),
        "\x1b[1;32m\"\x1b[0;39mq\x1b[1;32m\"\x1b[1;39m"
    );
}

#[test]
fn resets_inside_span_become_neutral() {
    // The class pass wraps `-` and closes with a reset to the document
    // default; inside the bracket span that reset is rewritten to the
    // span's neutral color, so no default reset remains in the interior.
    let out = color_str_escape("[a-b]");
    assert_eq!(
        out,
        "\x1b[1;32m[\x1b[0;39ma\x1b[0;32m-\x1b[0;39mb\x1b[1;32m]\x1b[1;39m"
    );
    let interior = &out["\x1b[1;32m[\x1b[0;39m".len()..out.len() - "\x1b[1;32m]\x1b[1;39m".len()];
    assert!(!interior.contains("\x1b[1;39m"));
}

#[test]
fn escaped_delimiters_stay_literal() {
    // `\[x\]` must not be treated as a delimiter span: the escape marker
    // goes away and the literal characters take the class's style.
    assert_eq!(
        color_str_escape("\\[x\\]"),
        "\x1b[1;32m[\x1b[1;39mx\x1b[1;32m]\x1b[1;39m"
    );
}

#[test]
fn escaped_header_line() {
    assert_eq!(
        color_str_escape("=\\[Input\\]="),
        "\x1b[1;32m=\x1b[1;39m\x1b[1;32m[\x1b[1;39mInput\x1b[1;32m]\x1b[1;39m\x1b[1;32m=\x1b[1;39m"
    );
}

#[test]
fn different_delimiter_kinds_nest() {
    assert_eq!(
        color_str_escape("[(a)]"),
        "\x1b[1;32m[\x1b[0;39m\x1b[0;32m(\x1b[0;39ma\x1b[0;32m)\x1b[1;39m\x1b[1;32m]\x1b[1;39m"
    );
    assert_eq!(
        color_str_escape("(\"q\")"),
        "\x1b[0;32m(\x1b[0;39m\x1b[1;32m\"\x1b[0;39mq\x1b[1;32m\"\x1b[1;39m\x1b[0;32m)\x1b[1;39m"
    );
}

#[test]
fn same_kind_does_not_nest() {
    // The shortest span wins; an inner opener of the same kind stays
    // literal inside the interior.
    assert_eq!(
        color_str_escape("[a[b]"),
        "\x1b[1;32m[\x1b[0;39ma[b\x1b[1;32m]\x1b[1;39m"
    );
}

#[test]
fn span_with_surrounding_text() {
    assert_eq!(
        color_str_escape("x[ab]y"),
        "x\x1b[1;32m[\x1b[0;39mab\x1b[1;32m]\x1b[1;39my"
    );
}

#[test]
fn unclosed_delimiter_is_plain() {
    assert_eq!(color_str_escape("(a"), "(a");
}

#[test]
fn empty_input_stays_empty() {
    assert_eq!(color_str_escape(""), "");
}

#[test]
fn rendering_is_not_idempotent() {
    // Rendering already-rendered text corrupts styling; integration code
    // must never feed rendered output back into the renderer.
    let once = color_str_escape("+");
    let twice = color_str_escape(&once);
    assert_ne!(once, twice);
}
