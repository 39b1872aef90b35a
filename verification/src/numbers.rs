//! Decimal formatting and parsing for the bounded small-integer fields.

use vstd::prelude::*;
use crate::surface::{is_digit, digit_val, digits_val};

verus! {

/// The digit character for a value below ten.
pub open spec fn digit_char(d: nat) -> char {
    if d == 0 {
        '0'
    } else if d == 1 {
        '1'
    } else if d == 2 {
        '2'
    } else if d == 3 {
        '3'
    } else if d == 4 {
        '4'
    } else if d == 5 {
        '5'
    } else if d == 6 {
        '6'
    } else if d == 7 {
        '7'
    } else if d == 8 {
        '8'
    } else {
        '9'
    }
}

/// The base-ten digits of a positive value, empty for zero.
pub open spec fn digits_rec(n: nat) -> Seq<char>
    decreases n,
{
    if n == 0 {
        Seq::empty()
    } else {
        digits_rec(n / 10) + seq![digit_char(n % 10)]
    }
}

/// The base-ten digit string of a byte value, `0` included.
pub open spec fn u8_digits(n: u8) -> Seq<char> {
    if n == 0 {
        seq!['0']
    } else {
        digits_rec(n as nat)
    }
}

/// The digits kept from an edit buffer: every decimal digit character, in
/// order, with everything else dropped.
pub open spec fn filter_digits(s: Seq<char>) -> Seq<char>
    decreases s.len(),
{
    if s.len() == 0 {
        Seq::empty()
    } else if is_digit(s[0]) {
        seq![s[0]] + filter_digits(s.skip(1))
    } else {
        filter_digits(s.skip(1))
    }
}

/// The kept characters are all digits.
pub proof fn lemma_filter_digits(s: Seq<char>)
    ensures
        forall|t: int| 0 <= t < filter_digits(s).len() ==> is_digit(filter_digits(s)[t]),
    decreases s.len(),
{
    if s.len() > 0 {
        lemma_filter_digits(s.skip(1));
        assert forall|t: int|
            0 <= t < filter_digits(s).len() implies is_digit(filter_digits(s)[t]) by {
            if is_digit(s[0]) {
                if t == 0 {
                    assert(filter_digits(s)[0] == s[0]);
                } else {
                    assert(filter_digits(s)[t] == filter_digits(s.skip(1))[t - 1]);
                }
            } else {
                assert(filter_digits(s) == filter_digits(s.skip(1)));
            }
        }
    }
}

/// The committed value of an edit buffer for a number field: the buffer's
/// digits parsed in base ten, rejected when no digit stands in the buffer
/// or the value does not fit the field's byte range.
pub open spec fn number_value(s: Seq<char>) -> Option<u8> {
    let ds = filter_digits(s);
    if ds.len() == 0 || digits_val(ds) > 255 {
        None
    } else {
        Some(digits_val(ds) as u8)
    }
}

/// The digit character of a value below ten, executable form.
fn digit_char_exec(d: u8) -> (c: char)
    requires
        d < 10,
    ensures
        c == digit_char(d as nat),
{
    if d == 0 {
        '0'
    } else if d == 1 {
        '1'
    } else if d == 2 {
        '2'
    } else if d == 3 {
        '3'
    } else if d == 4 {
        '4'
    } else if d == 5 {
        '5'
    } else if d == 6 {
        '6'
    } else if d == 7 {
        '7'
    } else if d == 8 {
        '8'
    } else {
        '9'
    }
}

/// Format a byte value as its base-ten digit string.
pub fn fmt_u8(n: u8) -> (r: Vec<char>)
    ensures
        r@ == u8_digits(n),
{
    let mut r: Vec<char> = Vec::new();
    if n == 0 {
        r.push('0');
        assert(r@ =~= u8_digits(n));
        return r;
    }
    let h = n / 100;
    let t = (n / 10) % 10;
    let o = n % 10;
    if n >= 100 {
        r.push(digit_char_exec(h));
        r.push(digit_char_exec(t));
        r.push(digit_char_exec(o));
    } else if n >= 10 {
        r.push(digit_char_exec(t));
        r.push(digit_char_exec(o));
    } else {
        r.push(digit_char_exec(o));
    }
    proof {
        let m = n as nat;
        assert(digits_rec(m) == digits_rec(m / 10) + seq![digit_char(m % 10)]);
        if m >= 10 {
            assert(digits_rec(m / 10) == digits_rec(m / 10 / 10) + seq![digit_char(m / 10 % 10)]);
            if m >= 100 {
                assert(digits_rec(m / 10 / 10) == digits_rec(m / 10 / 10 / 10) + seq![
                    digit_char(m / 10 / 10 % 10),
                ]);
                assert(m / 10 / 10 / 10 == 0) by (nonlinear_arith)
                    requires
                        m < 256,
                ;
            } else {
                assert(m / 10 / 10 == 0) by (nonlinear_arith)
                    requires
                        m < 100,
                ;
            }
        } else {
            assert(m / 10 == 0);
        }
        assert(h == m / 100 && t == m / 10 % 10 && o == m % 10);
        assert(m / 100 == m / 10 / 10) by (nonlinear_arith);
        assert(r@ =~= u8_digits(n));
    }
    r
}

/// Parse an edit buffer as a number-field commit: keep the digits, read
/// them in base ten, reject an empty digit string or an oversized value.
pub fn parse_number(buf: &Vec<char>) -> (r: Option<u8>)
    ensures
        r == number_value(buf@),
{
    let mut ds: Vec<char> = Vec::new();
    let mut i: usize = 0;
    proof {
        assert(buf@.skip(0) =~= buf@);
        assert(Seq::<char>::empty() + filter_digits(buf@) =~= filter_digits(buf@));
    }
    while i < buf.len()
        invariant
            i <= buf.len(),
            filter_digits(buf@) == ds@ + filter_digits(buf@.skip(i as int)),
        decreases buf.len() - i,
    {
        let ghost s = buf@.skip(i as int);
        assert(s[0] == buf@[i as int]);
        let c = buf[i];
        if '0' <= c && c <= '9' {
            ds.push(c);
        }
        proof {
            assert(s.skip(1) =~= buf@.skip(i as int + 1));
        }
        i = i + 1;
    }
    proof {
        assert(buf@.skip(buf@.len() as int) =~= Seq::<char>::empty());
        assert(ds@ =~= filter_digits(buf@));
        lemma_filter_digits(buf@);
    }
    if ds.len() == 0 {
        return None;
    }
    let mut acc: u32 = 0;
    let mut big = false;
    let mut j: usize = 0;
    proof {
        assert(ds@.subrange(0, 0) =~= Seq::<char>::empty());
    }
    while j < ds.len()
        invariant
            j <= ds.len(),
            ds@ == filter_digits(buf@),
            forall|t: int| 0 <= t < ds@.len() ==> is_digit(ds@[t]),
            !big ==> acc <= 255 && acc as nat == digits_val(ds@.subrange(0, j as int)),
            big ==> digits_val(ds@.subrange(0, j as int)) > 255,
        decreases ds.len() - j,
    {
        let ghost pref = ds@.subrange(0, j as int);
        let ghost pref2 = ds@.subrange(0, j as int + 1);
        proof {
            assert(pref2.drop_last() =~= pref);
            assert(pref2.last() == ds@[j as int]);
        }
        let d: u32 = (ds[j] as u32) - ('0' as u32);
        assert(d == digit_val(ds@[j as int]));
        if big {
            assert(digits_val(pref2) == digits_val(pref) * 10 + digit_val(pref2.last()));
        } else {
            let next = acc * 10 + d;
            if next > 255 {
                big = true;
            } else {
                acc = next;
            }
        }
        j = j + 1;
    }
    proof {
        assert(ds@.subrange(0, ds@.len() as int) =~= ds@);
    }
    if big {
        None
    } else {
        Some(acc as u8)
    }
}

} // verus!
