//! Frame text for the editor's redraw: the raw markup lines for section
//! headers and key rows, and the live value display while editing. The
//! session renders these through the markup engine and hands the result to
//! the attribute translator.

use vstd::prelude::*;
use crate::fields::{ConfigKey, ConfigKeyType, key_wf};
use crate::settings::Config;
use crate::markup::neutral_code;
use crate::editor::{slot_value_str, slot_value_chars};

verus! {

/// The escape written for one character of a quoted value: quotes and
/// backslashes carry a backslash, the common control characters their
/// letter form, everything else stands as itself.
pub open spec fn quote_escape(c: char) -> Seq<char> {
    if c == '"' {
        seq!['\\', '"']
    } else if c == '\\' {
        seq!['\\', '\\']
    } else if c == '\n' {
        seq!['\\', 'n']
    } else if c == '\r' {
        seq!['\\', 'r']
    } else if c == '\t' {
        seq!['\\', 't']
    } else {
        seq![c]
    }
}

/// The body of a quoted value: every character escaped.
pub open spec fn quote_body(s: Seq<char>) -> Seq<char>
    decreases s.len(),
{
    if s.len() == 0 {
        Seq::empty()
    } else {
        quote_escape(s[0]) + quote_body(s.skip(1))
    }
}

/// A value shown quoted: double quotes around the escaped body.
pub open spec fn quoted(s: Seq<char>) -> Seq<char> {
    seq!['"'] + quote_body(s) + seq!['"']
}

/// The arrow prefix that starts every key row.
pub open spec fn arrow_prefix() -> Seq<char> {
    seq![' ', '=', '>', ' ']
}

/// The raw markup of a button row: the arrow, then the name in braces on
/// the neutral color.
pub open spec fn button_line_spec(name: Seq<char>) -> Seq<char> {
    arrow_prefix() + neutral_code() + seq!['{', '{'] + name + seq!['}', '}']
}

/// The raw markup of a key row: buttons show their braced name; text and
/// number keys show `name = value`, the value on the neutral color, text
/// values quoted.
pub open spec fn key_line_spec(k: ConfigKey, c: Config) -> Seq<char> {
    if k.key_type == ConfigKeyType::Button {
        button_line_spec(k.name@)
    } else {
        match k.slot {
            Some(slot) => arrow_prefix() + k.name@ + seq![' ', '=', ' '] + neutral_code() + (
            if k.key_type == ConfigKeyType::Text {
                quoted(slot_value_str(c, slot))
            } else {
                slot_value_str(c, slot)
            }),
            None => Seq::empty(),
        }
    }
}

/// The raw markup of a section header row: the name in escaped brackets
/// between equals signs.
pub open spec fn header_line_spec(name: Seq<char>) -> Seq<char> {
    seq!['=', '\\', '['] + name + seq!['\\', ']', '=']
}

/// The live value display while editing: the buffer on the neutral color,
/// quoted for text keys and raw for number keys.
pub open spec fn edit_value_spec(k: ConfigKey, buf: Seq<char>) -> Seq<char> {
    neutral_code() + (if k.key_type == ConfigKeyType::Text {
        quoted(buf)
    } else {
        buf
    })
}

/// Append every character of `v`.
fn push_chars(out: &mut Vec<char>, v: &Vec<char>)
    ensures
        final(out)@ == old(out)@ + v@,
{
    let mut j: usize = 0;
    while j < v.len()
        invariant
            j <= v.len(),
            out@ == old(out)@ + v@.subrange(0, j as int),
        decreases v.len() - j,
    {
        out.push(v[j]);
        j = j + 1;
        assert(out@ =~= old(out)@ + v@.subrange(0, j as int));
    }
    assert(out@ =~= old(out)@ + v@);
}

/// Append the neutral style code.
fn push_neutral(out: &mut Vec<char>)
    ensures
        final(out)@ == old(out)@ + neutral_code(),
{
    out.push(crate::markup::MARK);
    out.push('[');
    out.push('0');
    out.push(';');
    out.push('3');
    out.push('9');
    out.push('m');
    assert(out@ =~= old(out)@ + neutral_code());
}

/// Append the arrow prefix.
fn push_arrow(out: &mut Vec<char>)
    ensures
        final(out)@ == old(out)@ + arrow_prefix(),
{
    out.push(' ');
    out.push('=');
    out.push('>');
    out.push(' ');
    assert(out@ =~= old(out)@ + arrow_prefix());
}

/// Quote a value for display.
pub fn quote_value(v: &Vec<char>) -> (r: Vec<char>)
    ensures
        r@ == quoted(v@),
{
    let mut r: Vec<char> = Vec::new();
    r.push('"');
    let mut j: usize = 0;
    proof {
        assert(v@.skip(0) =~= v@);
        assert(Seq::<char>::empty() + quote_body(v@) =~= quote_body(v@));
    }
    while j < v.len()
        invariant
            j <= v.len(),
            r@.len() >= 1,
            r@[0] == '"',
            quote_body(v@) == r@.skip(1) + quote_body(v@.skip(j as int)),
        decreases v.len() - j,
    {
        let ghost s = v@.skip(j as int);
        let ghost r0 = r@;
        assert(s[0] == v@[j as int]);
        let c = v[j];
        if c == '"' || c == '\\' {
            r.push('\\');
            r.push(c);
        } else if c == '\n' {
            r.push('\\');
            r.push('n');
        } else if c == '\r' {
            r.push('\\');
            r.push('r');
        } else if c == '\t' {
            r.push('\\');
            r.push('t');
        } else {
            r.push(c);
        }
        proof {
            assert(s.skip(1) =~= v@.skip(j as int + 1));
            assert(quote_body(s) == quote_escape(s[0]) + quote_body(s.skip(1)));
            assert(r@.skip(1) =~= r0.skip(1) + quote_escape(s[0]));
        }
        j = j + 1;
    }
    proof {
        assert(v@.skip(v@.len() as int) =~= Seq::<char>::empty());
    }
    r.push('"');
    proof {
        assert(r@ =~= quoted(v@));
    }
    r
}

/// Build the raw markup of a section header row.
pub fn section_header_line(name: &Vec<char>) -> (r: Vec<char>)
    ensures
        r@ == header_line_spec(name@),
{
    let mut r: Vec<char> = Vec::new();
    r.push('=');
    r.push('\\');
    r.push('[');
    push_chars(&mut r, name);
    r.push('\\');
    r.push(']');
    r.push('=');
    assert(r@ =~= header_line_spec(name@));
    r
}

/// Build the raw markup of a key row from the live document.
pub fn key_line(key: &ConfigKey, conf: &Config) -> (r: Vec<char>)
    requires
        key_wf(*key, *conf),
    ensures
        r@ == key_line_spec(*key, *conf),
{
    let mut r: Vec<char> = Vec::new();
    if key.key_type == ConfigKeyType::Button {
        push_arrow(&mut r);
        push_neutral(&mut r);
        r.push('{');
        r.push('{');
        push_chars(&mut r, &key.name);
        r.push('}');
        r.push('}');
        assert(r@ =~= key_line_spec(*key, *conf));
        r
    } else {
        match key.slot {
            Some(slot) => {
                push_arrow(&mut r);
                push_chars(&mut r, &key.name);
                r.push(' ');
                r.push('=');
                r.push(' ');
                push_neutral(&mut r);
                let value = slot_value_chars(conf, slot);
                if key.key_type == ConfigKeyType::Text {
                    let q = quote_value(&value);
                    push_chars(&mut r, &q);
                } else {
                    push_chars(&mut r, &value);
                }
                assert(r@ =~= key_line_spec(*key, *conf));
                r
            },
            None => {
                proof {
                    assert(false);
                }
                r
            },
        }
    }
}

/// Build the live value display for the current edit.
pub fn edit_value_line(key: &ConfigKey, buf: &Vec<char>) -> (r: Vec<char>)
    ensures
        r@ == edit_value_spec(*key, buf@),
{
    let mut r: Vec<char> = Vec::new();
    push_neutral(&mut r);
    if key.key_type == ConfigKeyType::Text {
        let q = quote_value(buf);
        push_chars(&mut r, &q);
    } else {
        push_chars(&mut r, buf);
    }
    assert(r@ =~= edit_value_spec(*key, buf@));
    r
}

} // verus!
