//! Deterministic production of JSON text. The crate writes its own JSON so
//! that every byte handed to the template engine or to the cluster API is a
//! specified function of the data it was built from.
use vstd::prelude::*;

use crate::text::append_str;
use crate::text::digit_char;

verus! {

/// The hexadecimal digit `d` as a lower-case character; meaningful for `d < 16`.
pub open spec fn hex_char(d: nat) -> char {
    if d < 10 {
        digit_char(d)
    } else if d == 10 {
        'a'
    } else if d == 11 {
        'b'
    } else if d == 12 {
        'c'
    } else if d == 13 {
        'd'
    } else if d == 14 {
        'e'
    } else {
        'f'
    }
}

fn hex_char_exec(d: u32) -> (r: char)
    requires
        d < 16,
    ensures
        r == hex_char(d as nat),
{
    if d == 0 {
        '0'
    } else if d == 1 {
        '1'
    } else if d == 2 {
        '2'
    } else if d == 3 {
        '3'
    } else if d == 4 {
        '4'
    } else if d == 5 {
        '5'
    } else if d == 6 {
        '6'
    } else if d == 7 {
        '7'
    } else if d == 8 {
        '8'
    } else if d == 9 {
        '9'
    } else if d == 10 {
        'a'
    } else if d == 11 {
        'b'
    } else if d == 12 {
        'c'
    } else if d == 13 {
        'd'
    } else if d == 14 {
        'e'
    } else {
        'f'
    }
}

/// How one character appears inside a JSON string literal: quotes and
/// backslashes get a backslash escape, control characters a `\u00XX`
/// escape, every other character stands for itself.
pub open spec fn esc_char(c: char) -> Seq<char> {
    if c == '"' {
        seq!['\\', '"']
    } else if c == '\\' {
        seq!['\\', '\\']
    } else if (c as u32) < 32 {
        seq!['\\', 'u', '0', '0', hex_char(((c as u32) / 16) as nat), hex_char(
            ((c as u32) % 16) as nat,
        )]
    } else {
        seq![c]
    }
}

/// The body of a JSON string literal holding exactly the characters of `s`.
pub open spec fn json_escape(s: Seq<char>) -> Seq<char>
    decreases s.len(),
{
    if s.len() == 0 {
        Seq::empty()
    } else {
        json_escape(s.drop_last()) + esc_char(s.last())
    }
}

/// A complete JSON string literal holding the characters of `s`.
pub open spec fn json_string(s: Seq<char>) -> Seq<char> {
    seq!['"'] + json_escape(s) + seq!['"']
}

fn push_escaped_char(out: &mut Vec<char>, c: char)
    ensures
        final (out)@ == old(out)@ + esc_char(c),
{
    if c == '"' {
        out.push('\\');
        out.push('"');
    } else if c == '\\' {
        out.push('\\');
        out.push('\\');
    } else if (c as u32) < 32 {
        let x = c as u32;
        out.push('\\');
        out.push('u');
        out.push('0');
        out.push('0');
        out.push(hex_char_exec(x / 16));
        out.push(hex_char_exec(x % 16));
    } else {
        out.push(c);
    }
    proof {
        assert(out@ =~= old(out)@ + esc_char(c));
    }
}

/// Append the escaped body of a JSON string literal for `v` to `out`.
pub fn append_json_escaped(out: &mut Vec<char>, v: &Vec<char>)
    ensures
        final (out)@ == old(out)@ + json_escape(v@),
{
    let n = v.len();
    let mut i: usize = 0;
    while i < n
        invariant
            n == v@.len(),
            i <= n,
            out@ == old(out)@ + json_escape(v@.take(i as int)),
        decreases n - i,
    {
        push_escaped_char(out, v[i]);
        proof {
            assert(v@.take(i + 1).drop_last() =~= v@.take(i as int));
            assert(v@.take(i + 1).last() == v@[i as int]);
        }
        i = i + 1;
    }
    proof {
        assert(v@.take(n as int) =~= v@);
    }
}

/// Append a complete JSON string literal for `v` to `out`.
pub fn append_json_string(out: &mut Vec<char>, v: &Vec<char>)
    ensures
        final (out)@ == old(out)@ + json_string(v@),
{
    out.push('"');
    append_json_escaped(out, v);
    out.push('"');
    proof {
        assert(out@ =~= old(out)@ + json_string(v@));
    }
}

/// Append a complete JSON string literal for the string slice `s` to `out`.
pub fn append_json_string_str(out: &mut Vec<char>, s: &str)
    ensures
        final (out)@ == old(out)@ + json_string(s@),
{
    let v = crate::text::to_chars(s);
    append_json_string(out, &v)
}

} // verus!
