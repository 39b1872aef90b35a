//! The attribute translator: converts escape-coded text into a sequence of
//! discrete terminal-attribute operations.
//!
//! A grid-addressed display surface cannot interpret raw escape bytes; it
//! takes operations: set bold on or off, set the active color slot, write
//! literal text. The translator splits the escape-coded text on the escape
//! marker and parses each fragment's leading `bold;color` code into such
//! operations. A fragment with no recognizable leading code is written
//! verbatim, with no attribute change.

use vstd::prelude::*;
use crate::markup::{MARK, find_in};

verus! {

/// A terminal attribute operation, specification form.
pub enum SpecOp {
    /// Turn the bold attribute on or off.
    Bold(bool),
    /// Select the color slot with the given index (9 is the default slot).
    Color(u8),
    /// Write literal text at the current cursor position.
    Text(Seq<char>),
}

/// A terminal attribute operation, executable form.
#[derive(Debug, PartialEq, Eq)]
pub enum TermOp {
    /// Turn the bold attribute on or off.
    Bold(bool),
    /// Select the color slot with the given index (9 is the default slot).
    Color(u8),
    /// Write literal text at the current cursor position.
    Text(Vec<char>),
}

impl View for TermOp {
    type V = SpecOp;

    open spec fn view(&self) -> SpecOp {
        match self {
            TermOp::Bold(b) => SpecOp::Bold(*b),
            TermOp::Color(x) => SpecOp::Color(*x),
            TermOp::Text(v) => SpecOp::Text(v@),
        }
    }
}

impl DeepView for TermOp {
    type V = SpecOp;

    open spec fn deep_view(&self) -> SpecOp {
        self.view()
    }
}

/// Whether a character is a decimal digit.
pub open spec fn is_digit(c: char) -> bool {
    '0' <= c && c <= '9'
}

/// Numeric value of a digit character.
pub open spec fn digit_val(c: char) -> nat {
    (c as nat - '0' as nat) as nat
}

/// Length of the maximal digit prefix of `s`.
pub open spec fn digit_run(s: Seq<char>) -> nat
    decreases s.len(),
{
    if s.len() > 0 && is_digit(s[0]) {
        1 + digit_run(s.skip(1))
    } else {
        0
    }
}

/// The digit run is bounded by the sequence and consists of digits.
pub proof fn lemma_digit_run(s: Seq<char>)
    ensures
        digit_run(s) <= s.len(),
        forall|t: int| 0 <= t < digit_run(s) ==> is_digit(s[t]),
    decreases s.len(),
{
    if s.len() > 0 && is_digit(s[0]) {
        lemma_digit_run(s.skip(1));
        assert(forall|t: int| 1 <= t < digit_run(s) ==> s[t] == s.skip(1)[t - 1]);
    }
}

/// Base-ten value of a digit sequence (zero when empty).
pub open spec fn digits_val(s: Seq<char>) -> nat
    decreases s.len(),
{
    if s.len() == 0 {
        0
    } else {
        digits_val(s.drop_last()) * 10 + digit_val(s.last())
    }
}

/// Whether a recognizable `bold;color` code leads the fragment: an opening
/// bracket at the head, a possibly empty digit run, a semicolon, a nonempty
/// digit run, and a terminating `m`.
pub open spec fn leading_code(f: Seq<char>) -> bool {
    &&& f.len() >= 1
    &&& f[0] == '['
    &&& {
        let a = digit_run(f.skip(1)) as int;
        &&& 1 + a < f.len()
        &&& f[1 + a] == ';'
        &&& {
            let b = digit_run(f.skip(a + 2)) as int;
            &&& b >= 1
            &&& 2 + a + b < f.len()
            &&& f[2 + a + b] == 'm'
        }
    }
}

/// The operations for one fragment of escape-coded text.
///
/// With a leading code: a bold toggle (on exactly when the bold field is the
/// single digit one), a color selection when the color field carries an
/// index past its leading digit that fits a byte, then the remaining text.
/// An oversized color index makes no color change, so that translation is
/// total and a redraw always completes. With no recognizable leading code:
/// the fragment verbatim, with no attribute change.
pub open spec fn frag_ops(f: Seq<char>) -> Seq<SpecOp> {
    if leading_code(f) {
        let a = digit_run(f.skip(1)) as int;
        let b = digit_run(f.skip(a + 2)) as int;
        let bold = f.subrange(1, a + 1) == seq!['1'];
        let color_rest = f.subrange(a + 3, a + 2 + b);
        let color_ops: Seq<SpecOp> = if color_rest.len() > 0 && digits_val(color_rest) <= 255 {
            seq![SpecOp::Color(digits_val(color_rest) as u8)]
        } else {
            Seq::empty()
        };
        seq![SpecOp::Bold(bold)] + color_ops + seq![SpecOp::Text(f.skip(a + 3 + b))]
    } else {
        seq![SpecOp::Text(f)]
    }
}

/// The operations for escape-coded text: the fragments between escape
/// markers, each translated in order.
pub open spec fn frags_ops(s: Seq<char>) -> Seq<SpecOp>
    decreases s.len(),
{
    match find_in(s, MARK) {
        Some(j) => {
            proof {
                crate::markup::lemma_find_in_bounds(s, MARK);
            }
            frag_ops(s.take(j)) + frags_ops(s.skip(j + 1))
        },
        None => frag_ops(s),
    }
}

/// The whole translation: the surface starts on the default color slot with
/// bold set, runs the fragment operations, and is left on the default color
/// slot with bold cleared.
pub open spec fn translate_spec(s: Seq<char>) -> Seq<SpecOp> {
    seq![SpecOp::Color(9), SpecOp::Bold(true)] + frags_ops(s) + seq![
        SpecOp::Color(9),
        SpecOp::Bold(false),
    ]
}

/// Copy a range of characters into a fresh vector.
fn copy_range(v: &Vec<char>, from: usize, to: usize) -> (r: Vec<char>)
    requires
        from <= to <= v.len(),
    ensures
        r@ == v@.subrange(from as int, to as int),
{
    let mut r: Vec<char> = Vec::new();
    let mut j = from;
    while j < to
        invariant
            from <= j <= to <= v.len(),
            r@ == v@.subrange(from as int, j as int),
        decreases to - j,
    {
        r.push(v[j]);
        j = j + 1;
        assert(r@ =~= v@.subrange(from as int, j as int));
    }
    r
}

/// Measure the maximal digit run starting at position `i`.
fn digit_run_exec(f: &Vec<char>, i: usize) -> (n: usize)
    requires
        i <= f.len(),
    ensures
        n == digit_run(f@.skip(i as int)),
        i + n <= f.len(),
{
    let mut j = i;
    loop
        invariant
            i <= j <= f.len(),
            digit_run(f@.skip(i as int)) == (j - i) + digit_run(f@.skip(j as int)),
        decreases f.len() - j,
    {
        let more = j < f.len() && '0' <= f[j] && f[j] <= '9';
        proof {
            lemma_digit_run(f@.skip(j as int));
        }
        if !more {
            if j < f.len() {
                assert(f@.skip(j as int)[0] == f@[j as int]);
            }
            assert(digit_run(f@.skip(j as int)) == 0);
            return j - i;
        }
        assert(f@.skip(j as int)[0] == f@[j as int]);
        assert(f@.skip(j as int).skip(1) =~= f@.skip(j as int + 1));
        j = j + 1;
    }
}

/// Executable test for a recognizable leading code.
fn leading_code_exec(f: &Vec<char>) -> (r: bool)
    ensures
        r == leading_code(f@),
{
    if f.len() == 0 {
        return false;
    }
    if f[0] != '[' {
        return false;
    }
    let a = digit_run_exec(f, 1);
    if !(1 + a < f.len()) {
        return false;
    }
    if f[1 + a] != ';' {
        return false;
    }
    let b = digit_run_exec(f, 2 + a);
    if b < 1 {
        return false;
    }
    if !(2 + a + b < f.len()) {
        return false;
    }
    if f[2 + a + b] != 'm' {
        return false;
    }
    true
}

/// Parse a digit range as a byte value, reporting an oversized value.
fn digits_to_u8(f: &Vec<char>, from: usize, to: usize) -> (r: Option<u8>)
    requires
        from <= to <= f.len(),
        forall|t: int| from <= t < to ==> is_digit(f@[t]),
    ensures
        match r {
            Some(x) => digits_val(f@.subrange(from as int, to as int)) <= 255 && x as nat
                == digits_val(f@.subrange(from as int, to as int)),
            None => digits_val(f@.subrange(from as int, to as int)) > 255,
        },
{
    let mut acc: u32 = 0;
    let mut big = false;
    let mut j = from;
    proof {
        assert(f@.subrange(from as int, from as int) =~= Seq::<char>::empty());
    }
    while j < to
        invariant
            from <= j <= to <= f.len(),
            forall|t: int| from <= t < to ==> is_digit(f@[t]),
            !big ==> acc <= 255 && acc as nat == digits_val(f@.subrange(from as int, j as int)),
            big ==> digits_val(f@.subrange(from as int, j as int)) > 255,
        decreases to - j,
    {
        let ghost pref = f@.subrange(from as int, j as int);
        let ghost pref2 = f@.subrange(from as int, j as int + 1);
        proof {
            assert(pref2.drop_last() =~= pref);
            assert(pref2.last() == f@[j as int]);
        }
        let d: u32 = (f[j] as u32) - ('0' as u32);
        assert(d == digit_val(f@[j as int]));
        if big {
            assert(digits_val(pref2) == digits_val(pref) * 10 + digit_val(pref2.last()));
        } else {
            let next = acc * 10 + d;
            if next > 255 {
                big = true;
            } else {
                acc = next;
            }
        }
        j = j + 1;
    }
    if big {
        None
    } else {
        Some(acc as u8)
    }
}

/// Append the operations of one fragment.
fn frag_ops_exec(out: &mut Vec<TermOp>, f: &Vec<char>)
    ensures
        final(out).deep_view() == old(out).deep_view() + frag_ops(f@),
{
    let ghost pre = out.deep_view();
    if leading_code_exec(f) {
        let a = digit_run_exec(f, 1);
        let b = digit_run_exec(f, 2 + a);
        assert(2 + a + b < f.len() && b >= 1);
        let bold = a == 1 && f[1] == '1';
        proof {
            if a == 1 {
                assert(f@.subrange(1, 2) =~= seq![f@[1]]);
                if f@[1] == '1' {
                    assert(f@.subrange(1, 1 + a as int) =~= seq!['1']);
                } else {
                    assert(f@.subrange(1, 1 + a as int) != seq!['1']);
                }
            } else {
                assert(f@.subrange(1, 1 + a as int).len() != 1);
                assert(f@.subrange(1, 1 + a as int) != seq!['1']);
            }
        }
        out.push(TermOp::Bold(bold));
        let ghost color_rest = f@.subrange(a + 3, a + 2 + b as int);
        if b >= 2 {
            proof {
                lemma_digit_run(f@.skip(2 + a as int));
                assert(forall|t: int|
                    0 <= t < b ==> #[trigger] f@.skip(2 + a as int)[t] == f@[2 + a as int + t]);
                assert(color_rest =~= f@.subrange(3 + a as int, 2 + a + b as int));
                assert forall|u: int| 3 + a <= u < 2 + a + b implies is_digit(f@[u]) by {
                    let t = u - 2 - (a as int);
                    assert(f@.skip(2 + a as int)[t] == f@[u]);
                    assert(is_digit(f@.skip(2 + a as int)[t]));
                }
            }
            match digits_to_u8(f, 3 + a, 2 + a + b) {
                Some(x) => {
                    out.push(TermOp::Color(x));
                },
                None => {},
            }
        } else {
            assert(color_rest.len() == 0);
        }
        let rest = copy_range(f, 3 + a + b, f.len());
        proof {
            assert(rest@ =~= f@.skip(a + 3 + b as int));
        }
        out.push(TermOp::Text(rest));
        assert(out.deep_view() =~= pre + frag_ops(f@));
    } else {
        let whole = copy_range(f, 0, f.len());
        proof {
            assert(whole@ =~= f@);
        }
        out.push(TermOp::Text(whole));
        assert(out.deep_view() =~= pre + frag_ops(f@));
    }
}

/// Translate escape-coded text into terminal attribute operations, as a
/// value a display driver can replay.
pub fn escaped_to_ops(escaped: &str) -> (ops: Vec<TermOp>)
    ensures
        ops.deep_view() == translate_spec(escaped@),
{
    let v = crate::markup::str_to_chars(escaped);
    let mut ops: Vec<TermOp> = Vec::new();
    ops.push(TermOp::Color(9));
    ops.push(TermOp::Bold(true));
    let ghost pre = seq![SpecOp::Color(9), SpecOp::Bold(true)];
    assert(ops.deep_view() =~= pre);
    let mut i: usize = 0;
    let mut done = false;
    proof {
        assert(v@.skip(0) =~= v@);
    }
    while !done
        invariant
            i <= v.len(),
            done ==> ops.deep_view() == pre + frags_ops(v@),
            !done ==> pre + frags_ops(v@) == ops.deep_view() + frags_ops(v@.skip(i as int)),
        decreases v.len() - i, (if done {
            0int
        } else {
            1int
        }),
    {
        let ghost s = v@.skip(i as int);
        match crate::markup::find_in_exec(&v, i, MARK) {
            Some(j) => {
                let frag = copy_range(&v, i, j);
                frag_ops_exec(&mut ops, &frag);
                proof {
                    let t = j - i;
                    assert(find_in(s, MARK) == Some(t));
                    assert(s.take(t) =~= v@.subrange(i as int, j as int));
                    assert(s.skip(t + 1) =~= v@.skip(j + 1));
                    assert(frags_ops(s) == frag_ops(s.take(t)) + frags_ops(s.skip(t + 1)));
                }
                i = j + 1;
            },
            None => {
                let frag = copy_range(&v, i, v.len());
                frag_ops_exec(&mut ops, &frag);
                proof {
                    assert(s =~= v@.subrange(i as int, v@.len() as int));
                    assert(frags_ops(s) == frag_ops(s));
                }
                i = v.len();
                done = true;
            },
        }
    }
    ops.push(TermOp::Color(9));
    ops.push(TermOp::Bold(false));
    assert(ops.deep_view() =~= translate_spec(escaped@));
    ops
}

} // verus!
