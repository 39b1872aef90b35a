//! The markup engine: renders a lightweight in-text markup language into
//! escape-coded text.
//!
//! Rendering runs in three passes over the characters:
//! 1. the character-class pass wraps every maximal run of a styled character
//!    class in a style-start/style-reset pair, re-collapsing a fragmented
//!    `=>` arrow as a final exception;
//! 2. the delimiter pass finds, for each of five delimiter kinds, the
//!    shortest span between an opening character and the next unescaped
//!    closing character, styles the delimiters themselves and the interior,
//!    and rewrites reset markers already inside the span to the span's
//!    neutral color;
//! 3. the escape-unwrapping pass replaces a backslash-escaped delimiter
//!    character by the styled literal character.
//!
//! Rendering is deterministic and total, but not idempotent: rendering
//! already-rendered text can mis-trigger rules, so integration code must
//! never feed the output back in.

use vstd::prelude::*;

verus! {

/// The escape marker character that introduces a style code.
pub const MARK: char = '\u{1b}';

/// A style code: the escape marker, a bold digit and a color digit in the
/// form `[b;3cm`.
pub open spec fn style_code(bold: char, color: char) -> Seq<char> {
    seq![MARK, '[', bold, ';', '3', color, 'm']
}

/// The style-reset code that closes every styled run: bold, default color.
pub open spec fn reset_code() -> Seq<char> {
    style_code('1', '9')
}

/// The neutral code used for text strictly between delimiters: plain,
/// default color.
pub open spec fn neutral_code() -> Seq<char> {
    style_code('0', '9')
}

/// The style of a character class, as a (bold digit, color digit) pair,
/// or `None` for characters outside every class.
pub open spec fn class_of(c: char) -> Option<(char, char)> {
    if c == '+' {
        Some(('1', '6'))
    } else if c == ':' || c == '/' || c == '=' {
        Some(('1', '2'))
    } else if c == ',' || c == '-' || c == '|' {
        Some(('0', '2'))
    } else if c == '*' {
        Some(('1', '1'))
    } else if c == '{' || c == '}' {
        Some(('1', '5'))
    } else {
        None
    }
}

/// Length of the maximal prefix of `s` whose characters all belong to the
/// class styled `k`.
pub open spec fn run_length(s: Seq<char>, k: (char, char)) -> nat
    decreases s.len(),
{
    if s.len() > 0 && class_of(s[0]) == Some(k) {
        1 + run_length(s.skip(1), k)
    } else {
        0
    }
}

/// The maximal class run at the head of a sequence is at least one character
/// and no longer than the sequence.
pub proof fn lemma_run_length_bounds(s: Seq<char>, k: (char, char))
    ensures
        run_length(s, k) <= s.len(),
        s.len() > 0 && class_of(s[0]) == Some(k) ==> run_length(s, k) >= 1,
    decreases s.len(),
{
    if s.len() > 0 && class_of(s[0]) == Some(k) {
        lemma_run_length_bounds(s.skip(1), k);
    }
}

/// The character-class pass: wrap every maximal run of a styled class in its
/// style code and a reset, except that a lone `=` immediately followed by `>`
/// is collapsed into a single arrow styling.
pub open spec fn class_pass(s: Seq<char>) -> Seq<char>
    decreases s.len(),
{
    if s.len() == 0 {
        Seq::empty()
    } else {
        match class_of(s[0]) {
            None => seq![s[0]] + class_pass(s.skip(1)),
            Some(k) => {
                proof {
                    lemma_run_length_bounds(s, k);
                }
                let n = run_length(s, k);
                if s[0] == '=' && n == 1 && s.len() >= 2 && s[1] == '>' {
                    style_code('1', '6') + seq!['=', '>'] + reset_code() + class_pass(s.skip(2))
                } else {
                    style_code(k.0, k.1) + s.take(n as int) + reset_code() + class_pass(
                        s.skip(n as int),
                    )
                }
            },
        }
    }
}

/// Index of the first occurrence of `c` in `s`, if any.
pub open spec fn find_in(s: Seq<char>, c: char) -> Option<int>
    decreases s.len(),
{
    if s.len() == 0 {
        None
    } else if s[0] == c {
        Some(0)
    } else {
        match find_in(s.skip(1), c) {
            Some(j) => Some(j + 1),
            None => None,
        }
    }
}

/// A found occurrence lies inside the sequence and holds the character.
pub proof fn lemma_find_in_bounds(s: Seq<char>, c: char)
    ensures
        match find_in(s, c) {
            Some(j) => 0 <= j < s.len() && s[j] == c,
            None => true,
        },
    decreases s.len(),
{
    if s.len() > 0 && s[0] != c {
        lemma_find_in_bounds(s.skip(1), c);
    }
}

/// Index of the first closing delimiter `c` in `s`, scanning over units:
/// a backslash together with its following character counts as one escaped
/// unit and can never close.
pub open spec fn find_close(s: Seq<char>, c: char) -> Option<int>
    decreases s.len(),
{
    if s.len() == 0 {
        None
    } else if s[0] == c {
        Some(0)
    } else if s[0] == '\\' && s.len() >= 2 {
        match find_close(s.skip(2), c) {
            Some(j) => Some(j + 2),
            None => None,
        }
    } else {
        match find_close(s.skip(1), c) {
            Some(j) => Some(j + 1),
            None => None,
        }
    }
}

/// A found closing delimiter lies inside the sequence and holds the
/// character.
pub proof fn lemma_find_close_bounds(s: Seq<char>, c: char)
    ensures
        match find_close(s, c) {
            Some(j) => 0 <= j < s.len() && s[j] == c,
            None => true,
        },
    decreases s.len(),
{
    if s.len() == 0 {
    } else if s[0] == c {
    } else if s[0] == '\\' && s.len() >= 2 {
        lemma_find_close_bounds(s.skip(2), c);
    } else {
        lemma_find_close_bounds(s.skip(1), c);
    }
}

/// Rewrite every style-reset code inside a delimited span to the span's
/// neutral color, so that class styling nested in the span resets to
/// "default-within-delimiter" rather than the document default.
pub open spec fn rewrite_resets(s: Seq<char>) -> Seq<char>
    decreases s.len(),
{
    if s.len() >= 7 && s.take(7) == reset_code() {
        neutral_code() + rewrite_resets(s.skip(7))
    } else if s.len() == 0 {
        Seq::empty()
    } else {
        seq![s[0]] + rewrite_resets(s.skip(1))
    }
}

/// One delimiter pass: style the shortest span from an opening character `o`
/// to the next unescaped closing character `c` with the delimiter style
/// `(bold, color)`, give the interior the neutral color, and rewrite reset
/// codes inside the interior to the neutral color. Style codes are skipped
/// atomically so that their characters never open a span, and an opening
/// character with no closer is left as plain text.
pub open spec fn delim_pass(s: Seq<char>, o: char, c: char, bold: char, color: char) -> Seq<char>
    decreases s.len(),
{
    if s.len() == 0 {
        Seq::empty()
    } else if s[0] == MARK {
        match find_in(s, 'm') {
            Some(j) => {
                proof {
                    lemma_find_in_bounds(s, 'm');
                }
                s.take(j + 1) + delim_pass(s.skip(j + 1), o, c, bold, color)
            },
            None => s,
        }
    } else if s[0] == '\\' && s.len() >= 2 {
        s.take(2) + delim_pass(s.skip(2), o, c, bold, color)
    } else if s[0] == o {
        match find_close(s.skip(1), c) {
            Some(j) => {
                proof {
                    lemma_find_close_bounds(s.skip(1), c);
                }
                style_code(bold, color) + seq![o] + neutral_code() + rewrite_resets(
                    s.skip(1).take(j),
                ) + style_code(bold, color) + seq![c] + reset_code() + delim_pass(
                    s.skip(2 + j),
                    o,
                    c,
                    bold,
                    color,
                )
            },
            None => seq![o] + delim_pass(s.skip(1), o, c, bold, color),
        }
    } else {
        seq![s[0]] + delim_pass(s.skip(1), o, c, bold, color)
    }
}

/// Delimiter characters styled with the bright delimiter color when escaped.
pub open spec fn bright_escape(c: char) -> bool {
    c == '[' || c == ']' || c == '"' || c == '<' || c == '>'
}

/// Delimiter characters styled with the soft delimiter color when escaped.
pub open spec fn soft_escape(c: char) -> bool {
    c == '(' || c == ')' || c == '\''
}

/// The escape-unwrapping pass: a backslash immediately before a delimiter
/// character is removed and the literal character is styled with its
/// delimiter kind's color.
pub open spec fn escape_pass(s: Seq<char>) -> Seq<char>
    decreases s.len(),
{
    if s.len() >= 2 && s[0] == '\\' && bright_escape(s[1]) {
        style_code('1', '2') + seq![s[1]] + reset_code() + escape_pass(s.skip(2))
    } else if s.len() >= 2 && s[0] == '\\' && soft_escape(s[1]) {
        style_code('0', '2') + seq![s[1]] + reset_code() + escape_pass(s.skip(2))
    } else if s.len() == 0 {
        Seq::empty()
    } else {
        seq![s[0]] + escape_pass(s.skip(1))
    }
}

/// The five delimiter passes in their fixed priority order: square, round,
/// double-quote, single-quote, angle.
pub open spec fn delimiter_passes(s: Seq<char>) -> Seq<char> {
    let s1 = delim_pass(s, '[', ']', '1', '2');
    let s2 = delim_pass(s1, '(', ')', '0', '2');
    let s3 = delim_pass(s2, '"', '"', '1', '2');
    let s4 = delim_pass(s3, '\'', '\'', '0', '2');
    delim_pass(s4, '<', '>', '1', '2')
}

/// The whole rendering pipeline: class pass, then the delimiter passes,
/// then escape unwrapping.
pub open spec fn render_spec(s: Seq<char>) -> Seq<char> {
    escape_pass(delimiter_passes(class_pass(s)))
}

/// Whether a sequence holds none of the given four characters.
pub open spec fn free_of(s: Seq<char>, c1: char, c2: char, c3: char, c4: char) -> bool {
    forall|t: int| 0 <= t < s.len() ==> s[t] != c1 && s[t] != c2 && s[t] != c3 && s[t] != c4
}

/// The first unescaped closing delimiter after an interior free of closers
/// and escapes stands right after the interior.
proof fn lemma_find_close_after(b: Seq<char>, rest: Seq<char>, c: char)
    requires
        forall|t: int| 0 <= t < b.len() ==> b[t] != c && b[t] != '\\',
    ensures
        find_close(b + seq![c] + rest, c) == Some(b.len() as int),
    decreases b.len(),
{
    let s = b + seq![c] + rest;
    if b.len() == 0 {
        assert(s[0] == c);
    } else {
        assert(s[0] == b[0]);
        assert(s.skip(1) =~= b.skip(1) + seq![c] + rest);
        lemma_find_close_after(b.skip(1), rest, c);
    }
}

/// Rewriting the resets inside a span leaves no reset to the document
/// default: every style-reset code inside the interior now points to the
/// span's neutral color, so nested class styling inside a delimited span
/// reads as default-within-delimiter, never default overall.
pub proof fn lemma_rewrite_no_default_reset(s: Seq<char>)
    ensures
        forall|i: int|
            0 <= i && i + 7 <= rewrite_resets(s).len() ==> #[trigger] rewrite_resets(s).subrange(
                i,
                i + 7,
            ) != reset_code(),
    decreases s.len(),
{
    let out = rewrite_resets(s);
    if s.len() >= 7 && s.take(7) == reset_code() {
        lemma_rewrite_no_default_reset(s.skip(7));
        let out2 = rewrite_resets(s.skip(7));
        assert forall|i: int| 0 <= i && i + 7 <= out.len() implies #[trigger] out.subrange(
            i,
            i + 7,
        ) != reset_code() by {
            if i >= 7 {
                assert(out2.subrange(i - 7, (i - 7) + 7) != reset_code());
                assert(out.subrange(i, i + 7) =~= out2.subrange(i - 7, (i - 7) + 7));
            } else if i == 0 {
                assert(out.subrange(0, 7) =~= neutral_code());
                assert(neutral_code()[2] != reset_code()[2]);
            } else {
                assert(out.subrange(i, i + 7)[0] == neutral_code()[i]);
                assert(neutral_code()[i] != MARK);
                assert(reset_code()[0] == MARK);
            }
        }
    } else if s.len() > 0 {
        lemma_rewrite_no_default_reset(s.skip(1));
        let out2 = rewrite_resets(s.skip(1));
        assert forall|i: int| 0 <= i && i + 7 <= out.len() implies #[trigger] out.subrange(
            i,
            i + 7,
        ) != reset_code() by {
            if i >= 1 {
                assert(out2.subrange(i - 1, (i - 1) + 7) != reset_code());
                assert(out.subrange(i, i + 7) =~= out2.subrange(i - 1, (i - 1) + 7));
            } else {
                if out.subrange(0, 7) == reset_code() {
                    assert(out[0] == s[0]);
                    assert(s[0] == MARK);
                    assert(forall|t: int|
                        0 <= t < 6 ==> #[trigger] out2[t] == out.subrange(0, 7)[t + 1]);
                    assert(forall|t: int| 0 <= t < 6 ==> #[trigger] out2[t] != MARK);
                    lemma_rewrite_copies(s.skip(1), 6);
                    assert(s.len() >= 7);
                    assert(forall|t: int| 0 <= t < 6 ==> #[trigger] out2[t] == s.skip(1)[t]);
                    assert(forall|t: int| 0 <= t < 6 ==> #[trigger] s.skip(1)[t] == s[t + 1]);
                    assert forall|t: int| 0 <= t < 7 implies s.take(7)[t] == reset_code()[t] by {
                        if t == 0 {
                        } else {
                            assert(s.take(7)[t] == s[t]);
                            assert(s[t] == out2[t - 1]);
                            assert(out2[t - 1] == out.subrange(0, 7)[t]);
                        }
                    }
                    assert(s.take(7) =~= reset_code());
                    assert(false);
                }
            }
        }
    }
}

/// While the rewritten output shows no escape marker, it copies the input
/// character for character.
proof fn lemma_rewrite_copies(s: Seq<char>, k: int)
    requires
        0 <= k,
        k <= rewrite_resets(s).len(),
        forall|t: int| 0 <= t < k ==> rewrite_resets(s)[t] != MARK,
    ensures
        k <= s.len(),
        forall|t: int| 0 <= t < k ==> rewrite_resets(s)[t] == s[t],
    decreases s.len(),
{
    let out = rewrite_resets(s);
    if k == 0 {
    } else if s.len() >= 7 && s.take(7) == reset_code() {
        assert(out[0] == neutral_code()[0]);
        assert(neutral_code()[0] == MARK);
        assert(false);
    } else {
        assert(s.len() > 0);
        assert(out[0] == s[0]);
        let out2 = rewrite_resets(s.skip(1));
        assert(forall|t: int| 1 <= t < k ==> #[trigger] out[t] == out2[t - 1]);
        assert(forall|t: int| 0 <= t < k - 1 ==> #[trigger] out2[t] == out[t + 1]);
        assert(forall|t: int| 0 <= t < k - 1 ==> #[trigger] out2[t] != MARK);
        lemma_rewrite_copies(s.skip(1), k - 1);
        assert(forall|t: int| 1 <= t < k ==> #[trigger] out2[t - 1] == s.skip(1)[t - 1]);
        assert(forall|t: int| 1 <= t < k ==> #[trigger] s.skip(1)[t - 1] == s[t]);
    }
}

/// The delimiter pass on a span with balanced, unescaped delimiters: with a
/// prefix free of delimiters, escapes and markers, and an interior free of
/// delimiters and escapes, the pass colors exactly the opening and closing
/// characters with the delimiter's style, gives the interior the neutral
/// style, rewrites the interior's resets to the neutral color, and carries
/// on after the span.
pub proof fn lemma_delimiter_span(
    a: Seq<char>,
    b: Seq<char>,
    rest: Seq<char>,
    o: char,
    c: char,
    bold: char,
    color: char,
)
    requires
        free_of(a, o, c, '\\', MARK),
        forall|t: int| 0 <= t < b.len() ==> b[t] != o && b[t] != c && b[t] != '\\',
        o != '\\' && o != MARK,
        c != '\\' && c != MARK,
    ensures
        delim_pass(a + seq![o] + b + seq![c] + rest, o, c, bold, color) == a + style_code(
            bold,
            color,
        ) + seq![o] + neutral_code() + rewrite_resets(b) + style_code(bold, color) + seq![c]
            + reset_code() + delim_pass(rest, o, c, bold, color),
    decreases a.len(),
{
    let s = a + seq![o] + b + seq![c] + rest;
    if a.len() == 0 {
        assert(s[0] == o);
        assert(s.skip(1) =~= b + seq![c] + rest);
        lemma_find_close_after(b, rest, c);
        let j = b.len() as int;
        assert(s.skip(1).take(j) =~= b);
        assert(s.skip(2 + j) =~= rest);
        assert(delim_pass(s, o, c, bold, color) == style_code(bold, color) + seq![o]
            + neutral_code() + rewrite_resets(b) + style_code(bold, color) + seq![c]
            + reset_code() + delim_pass(rest, o, c, bold, color));
        assert(a + style_code(bold, color) =~= style_code(bold, color));
        assert(delim_pass(s, o, c, bold, color) =~= a + style_code(bold, color) + seq![o]
            + neutral_code() + rewrite_resets(b) + style_code(bold, color) + seq![c]
            + reset_code() + delim_pass(rest, o, c, bold, color));
    } else {
        assert(s[0] == a[0]);
        assert(s.skip(1) =~= a.skip(1) + seq![o] + b + seq![c] + rest);
        lemma_delimiter_span(a.skip(1), b, rest, o, c, bold, color);
        assert(delim_pass(s, o, c, bold, color) == seq![s[0]] + delim_pass(
            s.skip(1),
            o,
            c,
            bold,
            color,
        ));
        assert(seq![a[0]] + a.skip(1) =~= a);
        assert(delim_pass(s, o, c, bold, color) =~= a + style_code(bold, color) + seq![o]
            + neutral_code() + rewrite_resets(b) + style_code(bold, color) + seq![c]
            + reset_code() + delim_pass(rest, o, c, bold, color));
    }
}

/// An escaped delimiter never opens a span: the delimiter pass copies the
/// escape pair and carries on, so escaped delimiters stay literal through
/// the delimiter passes.
pub proof fn lemma_escaped_delimiter_literal(d: char, rest: Seq<char>, o: char, c: char, bold: char, color: char)
    ensures
        delim_pass(seq!['\\', d] + rest, o, c, bold, color) == seq!['\\', d] + delim_pass(
            rest,
            o,
            c,
            bold,
            color,
        ),
{
    let s = seq!['\\', d] + rest;
    assert(s[0] == '\\' && s.len() >= 2);
    assert(s[0] != MARK);
    assert(s.take(2) =~= seq!['\\', d]);
    assert(s.skip(2) =~= rest);
}

/// The escape-unwrapping pass removes the escape marker and styles the
/// literal delimiter character with its delimiter kind's style.
pub proof fn lemma_escape_unwrap(d: char, rest: Seq<char>)
    requires
        bright_escape(d) || soft_escape(d),
    ensures
        bright_escape(d) ==> escape_pass(seq!['\\', d] + rest) == style_code('1', '2') + seq![d]
            + reset_code() + escape_pass(rest),
        soft_escape(d) ==> escape_pass(seq!['\\', d] + rest) == style_code('0', '2') + seq![d]
            + reset_code() + escape_pass(rest),
{
    let s = seq!['\\', d] + rest;
    assert(s[0] == '\\' && s[1] == d && s.len() >= 2);
    assert(s.skip(2) =~= rest);
}

/// Whether the text holds a plus sign: a styled class character that no
/// pass ever removes, used below to witness that rendering is not
/// idempotent.
pub open spec fn has_plus(s: Seq<char>) -> bool {
    exists|i: int| 0 <= i < s.len() && s[i] == '+'
}

/// The reset rewrite changes codes in place: it never changes the length.
proof fn lemma_rewrite_len(s: Seq<char>)
    ensures
        rewrite_resets(s).len() == s.len(),
    decreases s.len(),
{
    if s.len() >= 7 && s.take(7) == reset_code() {
        lemma_rewrite_len(s.skip(7));
    } else if s.len() > 0 {
        lemma_rewrite_len(s.skip(1));
    }
}

/// The reset rewrite keeps every plus sign.
proof fn lemma_rewrite_keeps_plus(s: Seq<char>)
    requires
        has_plus(s),
    ensures
        has_plus(rewrite_resets(s)),
    decreases s.len(),
{
    let out = rewrite_resets(s);
    let w = choose|i: int| 0 <= i < s.len() && s[i] == '+';
    if s.len() >= 7 && s.take(7) == reset_code() {
        assert(forall|t: int| 0 <= t < 7 ==> s[t] == #[trigger] reset_code()[t]);
        assert(w >= 7);
        assert(s.skip(7)[w - 7] == '+');
        lemma_rewrite_keeps_plus(s.skip(7));
        let w2 = choose|i: int|
            0 <= i < rewrite_resets(s.skip(7)).len() && rewrite_resets(s.skip(7))[i] == '+';
        assert(out[7 + w2] == '+');
    } else if w == 0 {
        assert(out[0] == '+');
    } else {
        assert(s.skip(1)[w - 1] == '+');
        lemma_rewrite_keeps_plus(s.skip(1));
        let w2 = choose|i: int|
            0 <= i < rewrite_resets(s.skip(1)).len() && rewrite_resets(s.skip(1))[i] == '+';
        assert(out[1 + w2] == '+');
    }
}

/// The class pass never shrinks the text, and where the text holds a plus
/// sign it grows by at least a full style/reset pair, keeping the plus.
proof fn lemma_class_pass_grows(s: Seq<char>)
    ensures
        class_pass(s).len() >= s.len(),
        has_plus(s) ==> class_pass(s).len() >= s.len() + 14 && has_plus(class_pass(s)),
    decreases s.len(),
{
    if s.len() == 0 {
        return ;
    }
    let out = class_pass(s);
    match class_of(s[0]) {
        None => {
            lemma_class_pass_grows(s.skip(1));
            if has_plus(s) {
                let w = choose|i: int| 0 <= i < s.len() && s[i] == '+';
                assert(w >= 1);
                assert(s.skip(1)[w - 1] == '+');
                assert(has_plus(s.skip(1)));
                let w2 = choose|i: int|
                    0 <= i < class_pass(s.skip(1)).len() && class_pass(s.skip(1))[i] == '+';
                assert(out[1 + w2] == '+');
            }
        },
        Some(k) => {
            let n = run_length(s, k) as int;
            lemma_run_length_bounds(s, k);
            if s[0] == '=' && n == 1 && s.len() >= 2 && s[1] == '>' {
                lemma_class_pass_grows(s.skip(2));
                assert(out == style_code('1', '6') + seq!['=', '>'] + reset_code() + class_pass(
                    s.skip(2),
                ));
                if has_plus(s) {
                    let w = choose|i: int| 0 <= i < s.len() && s[i] == '+';
                    assert(w >= 2);
                    assert(s.skip(2)[w - 2] == '+');
                    assert(has_plus(s.skip(2)));
                    let w2 = choose|i: int|
                        0 <= i < class_pass(s.skip(2)).len() && class_pass(s.skip(2))[i] == '+';
                    assert(out[16 + w2] == '+');
                }
            } else {
                lemma_class_pass_grows(s.skip(n));
                assert(out == style_code(k.0, k.1) + s.take(n) + reset_code() + class_pass(
                    s.skip(n),
                ));
                if has_plus(s) {
                    let w = choose|i: int| 0 <= i < s.len() && s[i] == '+';
                    if w < n {
                        assert(out[7 + w] == s.take(n)[w]);
                        assert(out[7 + w] == '+');
                    } else {
                        assert(s.skip(n)[w - n] == '+');
                        assert(has_plus(s.skip(n)));
                        let w2 = choose|i: int|
                            0 <= i < class_pass(s.skip(n)).len() && class_pass(s.skip(n))[i]
                                == '+';
                        assert(out[14 + n + w2] == '+');
                    }
                }
            }
        },
    }
}

/// A delimiter pass never shrinks the text and keeps every plus sign.
proof fn lemma_delim_pass_grows(s: Seq<char>, o: char, c: char, bold: char, color: char)
    ensures
        delim_pass(s, o, c, bold, color).len() >= s.len(),
        has_plus(s) ==> has_plus(delim_pass(s, o, c, bold, color)),
    decreases s.len(),
{
    if s.len() == 0 {
        return ;
    }
    let out = delim_pass(s, o, c, bold, color);
    if s[0] == MARK {
        match find_in(s, 'm') {
            Some(j) => {
                lemma_find_in_bounds(s, 'm');
                lemma_delim_pass_grows(s.skip(j + 1), o, c, bold, color);
                assert(out == s.take(j + 1) + delim_pass(s.skip(j + 1), o, c, bold, color));
                if has_plus(s) {
                    let w = choose|i: int| 0 <= i < s.len() && s[i] == '+';
                    if w <= j {
                        assert(out[w] == s.take(j + 1)[w]);
                        assert(out[w] == '+');
                    } else {
                        assert(s.skip(j + 1)[w - (j + 1)] == '+');
                        assert(has_plus(s.skip(j + 1)));
                        let rec = delim_pass(s.skip(j + 1), o, c, bold, color);
                        let w2 = choose|i: int| 0 <= i < rec.len() && rec[i] == '+';
                        assert(out[j + 1 + w2] == '+');
                    }
                }
            },
            None => {
                assert(out == s);
            },
        }
    } else if s[0] == '\\' && s.len() >= 2 {
        lemma_delim_pass_grows(s.skip(2), o, c, bold, color);
        assert(out == s.take(2) + delim_pass(s.skip(2), o, c, bold, color));
        if has_plus(s) {
            let w = choose|i: int| 0 <= i < s.len() && s[i] == '+';
            if w <= 1 {
                assert(out[w] == s.take(2)[w]);
                assert(out[w] == '+');
            } else {
                assert(s.skip(2)[w - 2] == '+');
                assert(has_plus(s.skip(2)));
                let rec = delim_pass(s.skip(2), o, c, bold, color);
                let w2 = choose|i: int| 0 <= i < rec.len() && rec[i] == '+';
                assert(out[2 + w2] == '+');
            }
        }
    } else if s[0] == o {
        match find_close(s.skip(1), c) {
            Some(j) => {
                lemma_find_close_bounds(s.skip(1), c);
                let b = s.skip(1).take(j);
                lemma_rewrite_len(b);
                lemma_delim_pass_grows(s.skip(2 + j), o, c, bold, color);
                let rec = delim_pass(s.skip(2 + j), o, c, bold, color);
                assert(out == style_code(bold, color) + seq![o] + neutral_code()
                    + rewrite_resets(b) + style_code(bold, color) + seq![c] + reset_code() + rec);
                if has_plus(s) {
                    let w = choose|i: int| 0 <= i < s.len() && s[i] == '+';
                    if w == 0 {
                        assert(out[7] == o);
                        assert(out[7] == '+');
                    } else if w <= j {
                        assert(b[w - 1] == s[w]);
                        assert(has_plus(b));
                        lemma_rewrite_keeps_plus(b);
                        let w2 = choose|i: int|
                            0 <= i < rewrite_resets(b).len() && rewrite_resets(b)[i] == '+';
                        assert(out[15 + w2] == '+');
                    } else if w == j + 1 {
                        assert(s[j + 1] == s.skip(1)[j]);
                        assert(out[22 + j] == c);
                        assert(out[22 + j] == '+');
                    } else {
                        assert(s.skip(2 + j)[w - (2 + j)] == '+');
                        assert(has_plus(s.skip(2 + j)));
                        let w2 = choose|i: int| 0 <= i < rec.len() && rec[i] == '+';
                        assert(out[30 + j + w2] == '+');
                    }
                }
            },
            None => {
                lemma_delim_pass_grows(s.skip(1), o, c, bold, color);
                assert(out == seq![o] + delim_pass(s.skip(1), o, c, bold, color));
                if has_plus(s) {
                    let w = choose|i: int| 0 <= i < s.len() && s[i] == '+';
                    if w == 0 {
                        assert(out[0] == '+');
                    } else {
                        assert(s.skip(1)[w - 1] == '+');
                        assert(has_plus(s.skip(1)));
                        let rec = delim_pass(s.skip(1), o, c, bold, color);
                        let w2 = choose|i: int| 0 <= i < rec.len() && rec[i] == '+';
                        assert(out[1 + w2] == '+');
                    }
                }
            },
        }
    } else {
        lemma_delim_pass_grows(s.skip(1), o, c, bold, color);
        assert(out == seq![s[0]] + delim_pass(s.skip(1), o, c, bold, color));
        if has_plus(s) {
            let w = choose|i: int| 0 <= i < s.len() && s[i] == '+';
            if w == 0 {
                assert(out[0] == '+');
            } else {
                assert(s.skip(1)[w - 1] == '+');
                assert(has_plus(s.skip(1)));
                let rec = delim_pass(s.skip(1), o, c, bold, color);
                let w2 = choose|i: int| 0 <= i < rec.len() && rec[i] == '+';
                assert(out[1 + w2] == '+');
            }
        }
    }
}

/// The escape-unwrapping pass never shrinks the text and keeps every plus
/// sign.
proof fn lemma_escape_pass_grows(s: Seq<char>)
    ensures
        escape_pass(s).len() >= s.len(),
        has_plus(s) ==> has_plus(escape_pass(s)),
    decreases s.len(),
{
    if s.len() == 0 {
        return ;
    }
    let out = escape_pass(s);
    if s.len() >= 2 && s[0] == '\\' && (bright_escape(s[1]) || soft_escape(s[1])) {
        lemma_escape_pass_grows(s.skip(2));
        if has_plus(s) {
            let w = choose|i: int| 0 <= i < s.len() && s[i] == '+';
            assert(w >= 2);
            assert(s.skip(2)[w - 2] == '+');
            assert(has_plus(s.skip(2)));
            let w2 = choose|i: int|
                0 <= i < escape_pass(s.skip(2)).len() && escape_pass(s.skip(2))[i] == '+';
            assert(out[15 + w2] == '+');
        }
    } else {
        lemma_escape_pass_grows(s.skip(1));
        assert(out == seq![s[0]] + escape_pass(s.skip(1)));
        if has_plus(s) {
            let w = choose|i: int| 0 <= i < s.len() && s[i] == '+';
            if w == 0 {
                assert(out[0] == '+');
            } else {
                assert(s.skip(1)[w - 1] == '+');
                assert(has_plus(s.skip(1)));
                let w2 = choose|i: int|
                    0 <= i < escape_pass(s.skip(1)).len() && escape_pass(s.skip(1))[i] == '+';
                assert(out[1 + w2] == '+');
            }
        }
    }
}

/// Rendering strictly grows any text that holds a plus sign — by at least
/// a full style/reset pair — and the rendered text holds one again.
proof fn lemma_render_grows(s: Seq<char>)
    requires
        has_plus(s),
    ensures
        has_plus(render_spec(s)),
        render_spec(s).len() >= s.len() + 14,
{
    let s1 = class_pass(s);
    lemma_class_pass_grows(s);
    let s2 = delim_pass(s1, '[', ']', '1', '2');
    lemma_delim_pass_grows(s1, '[', ']', '1', '2');
    let s3 = delim_pass(s2, '(', ')', '0', '2');
    lemma_delim_pass_grows(s2, '(', ')', '0', '2');
    let s4 = delim_pass(s3, '"', '"', '1', '2');
    lemma_delim_pass_grows(s3, '"', '"', '1', '2');
    let s5 = delim_pass(s4, '\'', '\'', '0', '2');
    lemma_delim_pass_grows(s4, '\'', '\'', '0', '2');
    let s6 = delim_pass(s5, '<', '>', '1', '2');
    lemma_delim_pass_grows(s5, '<', '>', '1', '2');
    lemma_escape_pass_grows(s6);
}

/// Rendering is not idempotent: on any text that holds a plus sign,
/// rendering the rendered text gives something else, because every pass
/// keeps the plus and each render wraps it in one more style/reset pair.
/// Integration code must therefore never feed rendered text back into the
/// renderer.
pub proof fn lemma_render_not_idempotent(s: Seq<char>)
    requires
        has_plus(s),
    ensures
        render_spec(render_spec(s)) != render_spec(s),
{
    lemma_render_grows(s);
    lemma_render_grows(render_spec(s));
}

/// Append a style code to the output.
fn push_style_code(out: &mut Vec<char>, bold: char, color: char)
    ensures
        final(out)@ == old(out)@ + style_code(bold, color),
{
    out.push(MARK);
    out.push('[');
    out.push(bold);
    out.push(';');
    out.push('3');
    out.push(color);
    out.push('m');
    assert(out@ =~= old(out)@ + style_code(bold, color));
}

/// Append a range of the input characters to the output.
fn push_range(out: &mut Vec<char>, v: &Vec<char>, from: usize, to: usize)
    requires
        from <= to <= v.len(),
    ensures
        final(out)@ == old(out)@ + v@.subrange(from as int, to as int),
{
    let mut j = from;
    while j < to
        invariant
            from <= j <= to <= v.len(),
            out@ == old(out)@ + v@.subrange(from as int, j as int),
        decreases to - j,
    {
        out.push(v[j]);
        j = j + 1;
        assert(out@ =~= old(out)@ + v@.subrange(from as int, j as int));
    }
}

/// Executable class lookup.
fn class_of_exec(c: char) -> (r: Option<(char, char)>)
    ensures
        r == class_of(c),
{
    if c == '+' {
        Some(('1', '6'))
    } else if c == ':' || c == '/' || c == '=' {
        Some(('1', '2'))
    } else if c == ',' || c == '-' || c == '|' {
        Some(('0', '2'))
    } else if c == '*' {
        Some(('1', '1'))
    } else if c == '{' || c == '}' {
        Some(('1', '5'))
    } else {
        None
    }
}

/// Measure the maximal class run starting at position `i`.
fn run_length_exec(v: &Vec<char>, i: usize, k: (char, char)) -> (n: usize)
    requires
        i <= v.len(),
    ensures
        n == run_length(v@.skip(i as int), k),
        i + n <= v.len(),
{
    let mut j = i;
    loop
        invariant
            i <= j <= v.len(),
            run_length(v@.skip(i as int), k) == (j - i) + run_length(v@.skip(j as int), k),
        decreases v.len() - j,
    {
        let more = if j < v.len() {
            match class_of_exec(v[j]) {
                Some(kj) => kj.0 == k.0 && kj.1 == k.1,
                None => false,
            }
        } else {
            false
        };
        proof {
            lemma_run_length_bounds(v@.skip(j as int), k);
        }
        if !more {
            assert(run_length(v@.skip(j as int), k) == 0);
            return j - i;
        }
        assert(v@.skip(j as int)[0] == v@[j as int]);
        assert(v@.skip(j as int).skip(1) =~= v@.skip(j as int + 1));
        j = j + 1;
    }
}

/// The character-class pass, executable form.
pub fn class_pass_exec(v: &Vec<char>) -> (out: Vec<char>)
    ensures
        out@ == class_pass(v@),
{
    let mut out: Vec<char> = Vec::new();
    let mut i: usize = 0;
    proof {
        assert(v@.skip(0) =~= v@);
        assert(Seq::<char>::empty() + class_pass(v@) =~= class_pass(v@));
    }
    while i < v.len()
        invariant
            i <= v.len(),
            class_pass(v@) == out@ + class_pass(v@.skip(i as int)),
        decreases v.len() - i,
    {
        let ghost s = v@.skip(i as int);
        assert(s[0] == v@[i as int]);
        let c = v[i];
        match class_of_exec(c) {
            None => {
                out.push(c);
                i = i + 1;
                proof {
                    assert(s.skip(1) =~= v@.skip(i as int));
                    assert(class_pass(s) == seq![c] + class_pass(s.skip(1)));
                }
            },
            Some(k) => {
                let n = run_length_exec(v, i, k);
                proof {
                    lemma_run_length_bounds(s, k);
                }
                assert(n >= 1);
                if c == '=' && n == 1 && i + 1 < v.len() && v[i + 1] == '>' {
                    assert(s.len() >= 2 && s[1] == v@[i as int + 1]);
                    push_style_code(&mut out, '1', '6');
                    out.push('=');
                    out.push('>');
                    push_style_code(&mut out, '1', '9');
                    i = i + 2;
                    proof {
                        assert(s.skip(2) =~= v@.skip(i as int));
                        assert(class_pass(s) == style_code('1', '6') + seq!['=', '>']
                            + reset_code() + class_pass(s.skip(2)));
                    }
                } else {
                    assert(!(s[0] == '=' && run_length(s, k) == 1 && s.len() >= 2 && s[1] == '>'));
                    push_style_code(&mut out, k.0, k.1);
                    push_range(&mut out, v, i, i + n);
                    push_style_code(&mut out, '1', '9');
                    i = i + n;
                    proof {
                        assert(s.skip(n as int) =~= v@.skip(i as int));
                        assert(s.take(n as int) =~= v@.subrange(i - n, i as int));
                        assert(class_pass(s) == style_code(k.0, k.1) + s.take(n as int)
                            + reset_code() + class_pass(s.skip(n as int)));
                    }
                }
            },
        }
    }
    proof {
        assert(v@.skip(v@.len() as int) =~= Seq::<char>::empty());
        assert(out@ =~= class_pass(v@));
    }
    out
}

/// Find the first occurrence of `c` at or after position `i`.
pub(crate) fn find_in_exec(v: &Vec<char>, i: usize, c: char) -> (r: Option<usize>)
    requires
        i <= v.len(),
    ensures
        match r {
            Some(j) => i <= j < v.len() && find_in(v@.skip(i as int), c) == Some(j - i),
            None => find_in(v@.skip(i as int), c) == None::<int>,
        },
{
    let mut j = i;
    while j < v.len()
        invariant
            i <= j <= v.len(),
            match find_in(v@.skip(j as int), c) {
                Some(t) => find_in(v@.skip(i as int), c) == Some(t + (j - i)),
                None => find_in(v@.skip(i as int), c) == None::<int>,
            },
            forall|t: int| i <= t < j ==> v@[t] != c,
        decreases v.len() - j,
    {
        assert(v@.skip(j as int)[0] == v@[j as int]);
        if v[j] == c {
            assert(find_in(v@.skip(j as int), c) == Some(0int));
            return Some(j);
        }
        assert(v@.skip(j as int).skip(1) =~= v@.skip(j as int + 1));
        j = j + 1;
    }
    assert(v@.skip(j as int) =~= Seq::<char>::empty());
    None
}

/// Find the first unescaped closing delimiter `c` at or after position `i`,
/// treating a backslash and its following character as one escaped unit.
fn find_close_exec(v: &Vec<char>, i: usize, c: char) -> (r: Option<usize>)
    requires
        i <= v.len(),
    ensures
        match r {
            Some(j) => i <= j < v.len() && v@[j as int] == c && find_close(v@.skip(i as int), c)
                == Some(j - i),
            None => find_close(v@.skip(i as int), c) == None::<int>,
        },
{
    let mut j = i;
    loop
        invariant
            i <= j <= v.len(),
            match find_close(v@.skip(j as int), c) {
                Some(t) => find_close(v@.skip(i as int), c) == Some(t + (j - i)),
                None => find_close(v@.skip(i as int), c) == None::<int>,
            },
        decreases v.len() - j,
    {
        if j >= v.len() {
            assert(v@.skip(j as int) =~= Seq::<char>::empty());
            return None;
        }
        assert(v@.skip(j as int)[0] == v@[j as int]);
        if v[j] == c {
            assert(find_close(v@.skip(j as int), c) == Some(0int));
            return Some(j);
        }
        if v[j] == '\\' && j + 1 < v.len() {
            assert(v@.skip(j as int).len() >= 2);
            assert(v@.skip(j as int).skip(2) =~= v@.skip(j as int + 2));
            j = j + 2;
        } else {
            assert(v@.skip(j as int).skip(1) =~= v@.skip(j as int + 1));
            j = j + 1;
        }
    }
}

/// Whether a full style-reset code stands at position `j`, inside the bound
/// `to`.
fn reset_at(v: &Vec<char>, j: usize, to: usize) -> (r: bool)
    requires
        j <= to <= v.len(),
    ensures
        r == {
            let s = v@.subrange(j as int, to as int);
            s.len() >= 7 && s.take(7) == reset_code()
        },
{
    let ghost s = v@.subrange(j as int, to as int);
    let r = to - j >= 7 && v[j] == MARK && v[j + 1] == '[' && v[j + 2] == '1' && v[j + 3] == ';'
        && v[j + 4] == '3' && v[j + 5] == '9' && v[j + 6] == 'm';
    proof {
        if j + 7 <= to {
            assert(forall|t: int| 0 <= t < 7 ==> s.take(7)[t] == v@[j + t]);
            if r {
                assert(s.take(7) =~= reset_code());
            } else {
                assert(s.take(7) != reset_code());
            }
        }
    }
    r
}

/// Append the characters of `v` between `from` and `to` with every
/// style-reset code rewritten to the neutral code.
fn append_rewritten(out: &mut Vec<char>, v: &Vec<char>, from: usize, to: usize)
    requires
        from <= to <= v.len(),
    ensures
        final(out)@ == old(out)@ + rewrite_resets(v@.subrange(from as int, to as int)),
{
    let ghost sub = v@.subrange(from as int, to as int);
    let mut j = from;
    proof {
        assert(sub.skip(0) =~= sub);
    }
    while j < to
        invariant
            from <= j <= to <= v.len(),
            sub == v@.subrange(from as int, to as int),
            out@ + rewrite_resets(sub.skip(j - from)) == old(out)@ + rewrite_resets(sub),
        decreases to - j,
    {
        let ghost s = sub.skip(j - from);
        assert(s =~= v@.subrange(j as int, to as int));
        if reset_at(v, j, to) {
            push_style_code(out, '0', '9');
            assert(s.skip(7) =~= sub.skip(j + 7 - from));
            assert(rewrite_resets(s) == neutral_code() + rewrite_resets(s.skip(7)));
            j = j + 7;
        } else {
            assert(s[0] == v@[j as int]);
            assert(!(s.len() >= 7 && s.take(7) == reset_code()));
            out.push(v[j]);
            assert(s.skip(1) =~= sub.skip(j + 1 - from));
            assert(rewrite_resets(s) == seq![s[0]] + rewrite_resets(s.skip(1)));
            j = j + 1;
        }
    }
    proof {
        assert(sub.skip(to - from) =~= Seq::<char>::empty());
        assert(out@ =~= old(out)@ + rewrite_resets(sub));
    }
}

/// One delimiter pass, executable form.
#[verifier::rlimit(60)]
pub fn delim_pass_exec(v: &Vec<char>, o: char, c: char, bold: char, color: char) -> (out: Vec<
    char,
>)
    ensures
        out@ == delim_pass(v@, o, c, bold, color),
{
    let mut out: Vec<char> = Vec::new();
    let mut i: usize = 0;
    proof {
        assert(v@.skip(0) =~= v@);
        assert(Seq::<char>::empty() + delim_pass(v@, o, c, bold, color) =~= delim_pass(
            v@,
            o,
            c,
            bold,
            color,
        ));
    }
    while i < v.len()
        invariant
            i <= v.len(),
            delim_pass(v@, o, c, bold, color) == out@ + delim_pass(
                v@.skip(i as int),
                o,
                c,
                bold,
                color,
            ),
        decreases v.len() - i,
    {
        let ghost s = v@.skip(i as int);
        assert(s[0] == v@[i as int]);
        let c0 = v[i];
        if c0 == MARK {
            match find_in_exec(v, i, 'm') {
                Some(j) => {
                    push_range(&mut out, v, i, j + 1);
                    proof {
                        let t = j - i;
                        assert(find_in(s, 'm') == Some(t));
                        assert(s.take(t + 1) =~= v@.subrange(i as int, j + 1));
                        assert(s.skip(t + 1) =~= v@.skip(j + 1));
                        assert(delim_pass(s, o, c, bold, color) == s.take(t + 1) + delim_pass(
                            s.skip(t + 1),
                            o,
                            c,
                            bold,
                            color,
                        ));
                    }
                    i = j + 1;
                },
                None => {
                    push_range(&mut out, v, i, v.len());
                    proof {
                        assert(s =~= v@.subrange(i as int, v@.len() as int));
                        assert(delim_pass(s, o, c, bold, color) == s);
                    }
                    i = v.len();
                },
            }
        } else if c0 == '\\' && i + 1 < v.len() {
            assert(s.len() >= 2);
            push_range(&mut out, v, i, i + 2);
            proof {
                assert(s.take(2) =~= v@.subrange(i as int, i + 2));
                assert(s.skip(2) =~= v@.skip(i + 2));
                assert(delim_pass(s, o, c, bold, color) == s.take(2) + delim_pass(
                    s.skip(2),
                    o,
                    c,
                    bold,
                    color,
                ));
            }
            i = i + 2;
        } else if c0 == o {
            assert(!(s[0] == '\\' && s.len() >= 2));
            match find_close_exec(v, i + 1, c) {
                Some(j) => {
                    push_style_code(&mut out, bold, color);
                    out.push(o);
                    push_style_code(&mut out, '0', '9');
                    append_rewritten(&mut out, v, i + 1, j);
                    push_style_code(&mut out, bold, color);
                    out.push(c);
                    push_style_code(&mut out, '1', '9');
                    proof {
                        let t = j - (i + 1);
                        assert(s.skip(1) =~= v@.skip(i + 1));
                        assert(find_close(s.skip(1), c) == Some(t));
                        assert(s.skip(1).take(t) =~= v@.subrange(i + 1, j as int));
                        assert(s.skip(2 + t) =~= v@.skip(j + 1));
                        assert(delim_pass(s, o, c, bold, color) == style_code(bold, color)
                            + seq![o] + neutral_code() + rewrite_resets(s.skip(1).take(t))
                            + style_code(bold, color) + seq![c] + reset_code() + delim_pass(
                            s.skip(2 + t),
                            o,
                            c,
                            bold,
                            color,
                        ));
                    }
                    i = j + 1;
                },
                None => {
                    out.push(o);
                    proof {
                        assert(s.skip(1) =~= v@.skip(i + 1));
                        assert(find_close(s.skip(1), c) == None::<int>);
                        assert(delim_pass(s, o, c, bold, color) == seq![o] + delim_pass(
                            s.skip(1),
                            o,
                            c,
                            bold,
                            color,
                        ));
                    }
                    i = i + 1;
                },
            }
        } else {
            out.push(c0);
            proof {
                assert(s.skip(1) =~= v@.skip(i + 1));
                assert(delim_pass(s, o, c, bold, color) == seq![s[0]] + delim_pass(
                    s.skip(1),
                    o,
                    c,
                    bold,
                    color,
                ));
            }
            i = i + 1;
        }
    }
    proof {
        assert(v@.skip(v@.len() as int) =~= Seq::<char>::empty());
        assert(out@ =~= delim_pass(v@, o, c, bold, color));
    }
    out
}

/// Executable test for the bright escaped delimiter characters.
fn bright_escape_exec(c: char) -> (r: bool)
    ensures
        r == bright_escape(c),
{
    c == '[' || c == ']' || c == '"' || c == '<' || c == '>'
}

/// Executable test for the soft escaped delimiter characters.
fn soft_escape_exec(c: char) -> (r: bool)
    ensures
        r == soft_escape(c),
{
    c == '(' || c == ')' || c == '\''
}

/// The escape-unwrapping pass, executable form.
pub fn escape_pass_exec(v: &Vec<char>) -> (out: Vec<char>)
    ensures
        out@ == escape_pass(v@),
{
    let mut out: Vec<char> = Vec::new();
    let mut i: usize = 0;
    proof {
        assert(v@.skip(0) =~= v@);
        assert(Seq::<char>::empty() + escape_pass(v@) =~= escape_pass(v@));
    }
    while i < v.len()
        invariant
            i <= v.len(),
            escape_pass(v@) == out@ + escape_pass(v@.skip(i as int)),
        decreases v.len() - i,
    {
        let ghost s = v@.skip(i as int);
        assert(s[0] == v@[i as int]);
        let c0 = v[i];
        if c0 == '\\' && i + 1 < v.len() {
            assert(s.len() >= 2 && s[1] == v@[i as int + 1]);
            let c1 = v[i + 1];
            if bright_escape_exec(c1) {
                push_style_code(&mut out, '1', '2');
                out.push(c1);
                push_style_code(&mut out, '1', '9');
                proof {
                    assert(s.skip(2) =~= v@.skip(i + 2));
                    assert(escape_pass(s) == style_code('1', '2') + seq![s[1]] + reset_code()
                        + escape_pass(s.skip(2)));
                }
                i = i + 2;
            } else if soft_escape_exec(c1) {
                push_style_code(&mut out, '0', '2');
                out.push(c1);
                push_style_code(&mut out, '1', '9');
                proof {
                    assert(s.skip(2) =~= v@.skip(i + 2));
                    assert(escape_pass(s) == style_code('0', '2') + seq![s[1]] + reset_code()
                        + escape_pass(s.skip(2)));
                }
                i = i + 2;
            } else {
                out.push(c0);
                proof {
                    assert(s.skip(1) =~= v@.skip(i + 1));
                    assert(escape_pass(s) == seq![s[0]] + escape_pass(s.skip(1)));
                }
                i = i + 1;
            }
        } else {
            out.push(c0);
            proof {
                assert(s.skip(1) =~= v@.skip(i + 1));
                assert(escape_pass(s) == seq![s[0]] + escape_pass(s.skip(1)));
            }
            i = i + 1;
        }
    }
    proof {
        assert(v@.skip(v@.len() as int) =~= Seq::<char>::empty());
        assert(out@ =~= escape_pass(v@));
    }
    out
}

/// Render markup over a character vector: the full three-pass pipeline.
pub fn render_chars(v: &Vec<char>) -> (out: Vec<char>)
    ensures
        out@ == render_spec(v@),
{
    let s0 = class_pass_exec(v);
    let s1 = delim_pass_exec(&s0, '[', ']', '1', '2');
    let s2 = delim_pass_exec(&s1, '(', ')', '0', '2');
    let s3 = delim_pass_exec(&s2, '"', '"', '1', '2');
    let s4 = delim_pass_exec(&s3, '\'', '\'', '0', '2');
    let s5 = delim_pass_exec(&s4, '<', '>', '1', '2');
    escape_pass_exec(&s5)
}

/// Collect the characters of a string slice into a vector.
pub fn str_to_chars(s: &str) -> (r: Vec<char>)
    ensures
        r@ == s@,
{
    let n = s.unicode_len();
    let mut r: Vec<char> = Vec::new();
    let mut i: usize = 0;
    while i < n
        invariant
            i <= n,
            n == s@.len(),
            r@ == s@.take(i as int),
        decreases n - i,
    {
        r.push(s.get_char(i));
        i = i + 1;
        assert(r@ =~= s@.take(i as int));
    }
    proof {
        assert(s@.take(n as int) =~= s@);
    }
    r
}

/// Relies on `String::from_iter` by way of `Iterator::collect` over a char
/// iterator: the collected string holds exactly the characters of the
/// vector, in order.
#[verifier::external_body]
pub fn chars_to_string(v: &Vec<char>) -> (r: String)
    ensures
        r@ == v@,
{
    v.iter().collect()
}

/// Render markup over a string: converts a lightweight in-text markup
/// language into escape-coded text. Deterministic and total; not
/// idempotent, so callers must never feed rendered output back in.
pub fn color_str_escape(string: &str) -> (r: String)
    ensures
        r@ == render_spec(string@),
{
    let v = str_to_chars(string);
    let rendered = render_chars(&v);
    chars_to_string(&rendered)
}

} // verus!
