//! Character and string groundwork shared by the whole crate: conversion
//! between `String` and `Vec<char>`, the lexicographic order on character
//! sequences, ASCII-case-insensitive comparison, decimal formatting and
//! whitespace handling.
use vstd::prelude::*;

verus! {

/// The whitespace characters this crate recognises (the ASCII ones).
pub open spec fn spec_is_space(c: char) -> bool {
    c == ' ' || c == '\t' || c == '\n' || c == '\r' || c == '\u{c}'
}

pub fn is_space(c: char) -> (r: bool)
    ensures
        r == spec_is_space(c),
{
    c == ' ' || c == '\t' || c == '\n' || c == '\r' || c == '\u{c}'
}

/// All characters of `s` are whitespace.
pub open spec fn all_space(s: Seq<char>) -> bool {
    forall|i: int| 0 <= i < s.len() ==> spec_is_space(s[i])
}

/// The characters of a string slice, one per element.
pub fn to_chars(s: &str) -> (r: Vec<char>)
    ensures
        r@ == s@,
{
    let n = s.unicode_len();
    let mut r: Vec<char> = Vec::new();
    let mut i: usize = 0;
    while i < n
        invariant
            n == s@.len(),
            i <= n,
            r@ == s@.take(i as int),
        decreases n - i,
    {
        r.push(s.get_char(i));
        proof {
            assert(r@ =~= s@.take(i + 1));
        }
        i = i + 1;
    }
    proof {
        assert(r@ =~= s@);
    }
    r
}

/// Relies on `String`'s `FromIterator<char>` implementation: collecting
/// an iterator of characters yields the string of exactly those characters.
#[verifier::external_body]
pub fn from_chars(v: &Vec<char>) -> (s: String)
    ensures
        s@ == v@,
{
    v.iter().collect()
}

/// Append the characters of `s` to `out`.
pub fn append_str(out: &mut Vec<char>, s: &str)
    ensures
        final (out)@ == old(out)@ + s@,
{
    let n = s.unicode_len();
    let mut i: usize = 0;
    while i < n
        invariant
            n == s@.len(),
            i <= n,
            out@ == old(out)@ + s@.take(i as int),
        decreases n - i,
    {
        out.push(s.get_char(i));
        proof {
            assert(out@ =~= old(out)@ + s@.take(i + 1));
        }
        i = i + 1;
    }
    proof {
        assert(old(out)@ + s@.take(n as int) =~= old(out)@ + s@);
    }
}

/// Append the characters of `v` to `out`.
pub fn append_chars(out: &mut Vec<char>, v: &Vec<char>)
    ensures
        final (out)@ == old(out)@ + v@,
{
    let n = v.len();
    let mut i: usize = 0;
    while i < n
        invariant
            n == v@.len(),
            i <= n,
            out@ == old(out)@ + v@.take(i as int),
        decreases n - i,
    {
        out.push(v[i]);
        proof {
            assert(out@ =~= old(out)@ + v@.take(i + 1));
        }
        i = i + 1;
    }
    proof {
        assert(old(out)@ + v@.take(n as int) =~= old(out)@ + v@);
    }
}

/// Strict lexicographic order on character sequences, by code point.
/// This is the order `str`'s `Ord` gives: UTF-8 byte order coincides with
/// code-point order.
pub open spec fn lex_lt(a: Seq<char>, b: Seq<char>) -> bool
    decreases a.len(),
{
    if b.len() == 0 {
        false
    } else if a.len() == 0 {
        true
    } else if a[0] != b[0] {
        (a[0] as u32) < (b[0] as u32)
    } else {
        lex_lt(a.skip(1), b.skip(1))
    }
}

pub open spec fn lex_le(a: Seq<char>, b: Seq<char>) -> bool {
    a == b || lex_lt(a, b)
}

/// Of `lex_lt(a, b)`, `a == b`, `lex_lt(b, a)` exactly one holds.
pub proof fn lemma_lex_trichotomy(a: Seq<char>, b: Seq<char>)
    ensures
        lex_lt(a, b) || a == b || lex_lt(b, a),
        lex_lt(a, b) ==> a != b && !lex_lt(b, a),
        lex_lt(b, a) ==> a != b && !lex_lt(a, b),
    decreases a.len(),
{
    if a.len() == 0 || b.len() == 0 {
        if a.len() == 0 && b.len() == 0 {
            assert(a =~= b);
        }
    } else if a[0] != b[0] {
        assert((a[0] as u32) != (b[0] as u32)) by {
            vstd::utf8::char_u32_cast(a[0], a[0] as u32);
            vstd::utf8::char_u32_cast(b[0], b[0] as u32);
        }
    } else {
        lemma_lex_trichotomy(a.skip(1), b.skip(1));
        if a.skip(1) == b.skip(1) {
            assert(a =~= b) by {
                assert forall|i: int| 0 <= i < a.len() implies a[i] == b[i] by {
                    if i > 0 {
                        assert(a.skip(1)[i - 1] == b.skip(1)[i - 1]);
                    }
                }
                assert(a.len() == b.len());
            }
        }
        if a == b {
            assert(a.skip(1) =~= b.skip(1));
        }
    }
}

pub proof fn lemma_lex_transitive(a: Seq<char>, b: Seq<char>, c: Seq<char>)
    requires
        lex_lt(a, b),
        lex_lt(b, c),
    ensures
        lex_lt(a, c),
    decreases a.len(),
{
    if c.len() == 0 {
        assert(false);
    } else if b.len() == 0 {
        assert(false);
    } else if a.len() == 0 {
    } else {
        if a[0] != b[0] {
            if b[0] != c[0] {
                assert((a[0] as u32) < (c[0] as u32));
                if a[0] == c[0] {
                    assert(false);
                }
            }
        } else {
            if b[0] != c[0] {
                if a[0] == c[0] {
                    assert(false);
                }
            } else {
                lemma_lex_transitive(a.skip(1), b.skip(1), c.skip(1));
            }
        }
    }
}

/// If two sequences agree on their first `i` characters, their order is
/// decided by the remainders.
pub proof fn lemma_lex_skip(a: Seq<char>, b: Seq<char>, i: int)
    requires
        0 <= i <= a.len(),
        i <= b.len(),
        a.take(i) == b.take(i),
    ensures
        lex_lt(a, b) == lex_lt(a.skip(i), b.skip(i)),
    decreases i,
{
    if i > 0 {
        assert(a[0] == b[0]) by {
            assert(a.take(i)[0] == a[0]);
            assert(b.take(i)[0] == b[0]);
        }
        assert(a.skip(1).take(i - 1) =~= b.skip(1).take(i - 1)) by {
            assert forall|j: int| 0 <= j < i - 1 implies #[trigger] a.skip(1)[j] == b.skip(1)[j] by {
                assert(a.take(i)[j + 1] == a[j + 1]);
                assert(b.take(i)[j + 1] == b[j + 1]);
            }
        }
        lemma_lex_skip(a.skip(1), b.skip(1), i - 1);
        assert(a.skip(1).skip(i - 1) =~= a.skip(i));
        assert(b.skip(1).skip(i - 1) =~= b.skip(i));
        assert(a.len() > 0 && b.len() > 0);
    } else {
        assert(a.skip(0) =~= a);
        assert(b.skip(0) =~= b);
    }
}

/// Compare two character vectors under the lexicographic order.
pub fn chars_lt(a: &Vec<char>, b: &Vec<char>) -> (r: bool)
    ensures
        r == lex_lt(a@, b@),
{
    let an = a.len();
    let bn = b.len();
    let mut i: usize = 0;
    loop
        invariant
            an == a@.len(),
            bn == b@.len(),
            i <= an,
            i <= bn,
            a@.take(i as int) == b@.take(i as int),
        decreases an - i,
    {
        if i == bn {
            // b is exhausted: a is not smaller.
            proof {
                lemma_lex_skip(a@, b@, i as int);
                assert(b@.skip(i as int) =~= Seq::<char>::empty());
            }
            return false;
        }
        if i == an {
            // a is a strict prefix of b.
            proof {
                lemma_lex_skip(a@, b@, i as int);
                assert(a@.skip(i as int) =~= Seq::<char>::empty());
            }
            return true;
        }
        let ca = a[i];
        let cb = b[i];
        if ca != cb {
            proof {
                lemma_lex_skip(a@, b@, i as int);
                assert(a@.skip(i as int)[0] == a@[i as int]);
                assert(b@.skip(i as int)[0] == b@[i as int]);
            }
            return (ca as u32) < (cb as u32);
        }
        proof {
            assert(a@.take(i + 1) =~= b@.take(i + 1)) by {
                assert forall|j: int| 0 <= j < i + 1 implies #[trigger] a@[j] == b@[j] by {
                    if j < i {
                        assert(a@.take(i as int)[j] == b@.take(i as int)[j]);
                    }
                }
            }
        }
        i = i + 1;
    }
}

/// Compare two strings under the lexicographic order.
pub fn str_lt(a: &str, b: &str) -> (r: bool)
    ensures
        r == lex_lt(a@, b@),
{
    let av = to_chars(a);
    let bv = to_chars(b);
    chars_lt(&av, &bv)
}

/// Equality of two strings, decided character by character.
pub fn str_eq(a: &str, b: &str) -> (r: bool)
    ensures
        r == (a@ == b@),
{
    let av = to_chars(a);
    let bv = to_chars(b);
    let lt1 = chars_lt(&av, &bv);
    let lt2 = chars_lt(&bv, &av);
    proof {
        lemma_lex_trichotomy(a@, b@);
    }
    !lt1 && !lt2
}

/// Lower-casing of an ASCII letter's code point; other code points are kept.
pub open spec fn lower_u32(x: u32) -> u32 {
    if 65 <= x <= 90 {
        (x + 32) as u32
    } else {
        x
    }
}

/// The two sequences are equal up to ASCII case.
pub open spec fn eq_ignore_case(a: Seq<char>, b: Seq<char>) -> bool {
    a.len() == b.len() && forall|i: int|
        0 <= i < a.len() ==> lower_u32(a[i] as u32) == lower_u32(b[i] as u32)
}

/// ASCII-case-insensitive string equality, as `str::eq_ignore_ascii_case`
/// decides it.
pub fn str_eq_ignore_ascii_case(a: &str, b: &str) -> (r: bool)
    ensures
        r == eq_ignore_case(a@, b@),
{
    let av = to_chars(a);
    let bv = to_chars(b);
    if av.len() != bv.len() {
        return false;
    }
    let n = av.len();
    let mut i: usize = 0;
    while i < n
        invariant
            av@ == a@,
            bv@ == b@,
            n == a@.len(),
            n == b@.len(),
            i <= n,
            forall|j: int| 0 <= j < i ==> lower_u32(a@[j] as u32) == lower_u32(b@[j] as u32),
        decreases n - i,
    {
        let xa = av[i] as u32;
        let xb = bv[i] as u32;
        let la = if 65 <= xa && xa <= 90 {
            xa + 32
        } else {
            xa
        };
        let lb = if 65 <= xb && xb <= 90 {
            xb + 32
        } else {
            xb
        };
        if la != lb {
            return false;
        }
        i = i + 1;
    }
    true
}

/// The decimal digit `d` as a character; meaningful for `d < 10`.
pub open spec fn digit_char(d: nat) -> char {
    if d == 0 {
        '0'
    } else if d == 1 {
        '1'
    } else if d == 2 {
        '2'
    } else if d == 3 {
        '3'
    } else if d == 4 {
        '4'
    } else if d == 5 {
        '5'
    } else if d == 6 {
        '6'
    } else if d == 7 {
        '7'
    } else if d == 8 {
        '8'
    } else {
        '9'
    }
}

/// The decimal notation of `n`, most significant digit first, no sign and
/// no leading zero.
pub open spec fn spec_dec(n: nat) -> Seq<char>
    decreases n,
{
    if n < 10 {
        seq![digit_char(n)]
    } else {
        spec_dec(n / 10).push(digit_char(n % 10))
    }
}

fn digit_char_exec(d: u64) -> (r: char)
    requires
        d < 10,
    ensures
        r == digit_char(d as nat),
{
    if d == 0 {
        '0'
    } else if d == 1 {
        '1'
    } else if d == 2 {
        '2'
    } else if d == 3 {
        '3'
    } else if d == 4 {
        '4'
    } else if d == 5 {
        '5'
    } else if d == 6 {
        '6'
    } else if d == 7 {
        '7'
    } else if d == 8 {
        '8'
    } else {
        '9'
    }
}

/// Append the decimal notation of `n` to `out`.
pub fn append_dec(out: &mut Vec<char>, n: u64)
    ensures
        final (out)@ == old(out)@ + spec_dec(n as nat),
    decreases n,
{
    if n < 10 {
        out.push(digit_char_exec(n));
        proof {
            assert(out@ =~= old(out)@ + spec_dec(n as nat));
        }
    } else {
        append_dec(out, n / 10);
        out.push(digit_char_exec(n % 10));
        proof {
            assert(out@ =~= old(out)@ + spec_dec(n as nat));
        }
    }
}

/// `s` begins with `p`.
pub open spec fn starts_with(s: Seq<char>, p: Seq<char>) -> bool {
    s.len() >= p.len() && s.take(p.len() as int) == p
}

/// No hyphen occurs in `s`.
pub open spec fn hyphen_free(s: Seq<char>) -> bool {
    forall|i: int| 0 <= i < s.len() ==> s[i] != '-'
}

/// The characters of each string of a sequence of pairs.
pub open spec fn pair_views(s: Seq<(String, String)>) -> Seq<(Seq<char>, Seq<char>)> {
    s.map_values(|p: (String, String)| (p.0@, p.1@))
}

/// The characters of each string of a sequence.
pub open spec fn strs_views(s: Seq<String>) -> Seq<Seq<char>> {
    s.map_values(|x: String| x@)
}

/// The length of the leading run of non-whitespace characters.
pub open spec fn token_len(s: Seq<char>) -> nat
    decreases s.len(),
{
    if s.len() == 0 || spec_is_space(s[0]) {
        0
    } else {
        1 + token_len(s.skip(1))
    }
}

pub proof fn lemma_token_len_bound(s: Seq<char>)
    ensures
        token_len(s) <= s.len(),
    decreases s.len(),
{
    if s.len() > 0 && !spec_is_space(s[0]) {
        lemma_token_len_bound(s.skip(1));
    }
}

/// The whitespace-separated tokens of `s`, in order.
pub open spec fn split_ws(s: Seq<char>) -> Seq<Seq<char>>
    decreases s.len(),
    via split_ws_decreases
{
    if s.len() == 0 {
        Seq::<Seq<char>>::empty()
    } else if spec_is_space(s[0]) {
        split_ws(s.skip(1))
    } else {
        seq![s.take(1 + token_len(s.skip(1)) as int)] + split_ws(
            s.skip(1 + token_len(s.skip(1)) as int),
        )
    }
}

#[via_fn]
proof fn split_ws_decreases(s: Seq<char>) {
    if s.len() > 0 && !spec_is_space(s[0]) {
        lemma_token_len_bound(s.skip(1));
    }
}

/// A maximal non-whitespace run `[i, j)` is the leading token of
/// `s.skip(i)`.
pub proof fn lemma_token_len_at(s: Seq<char>, i: int, j: int)
    requires
        0 <= i <= j <= s.len(),
        forall|k: int| i <= k < j ==> !spec_is_space(s[k]),
        j == s.len() || spec_is_space(s[j]),
    ensures
        token_len(s.skip(i)) == j - i,
    decreases j - i,
{
    if i == j {
        if i < s.len() {
            assert(s.skip(i)[0] == s[i]);
        }
    } else {
        assert(s.skip(i)[0] == s[i]);
        assert(s.skip(i).skip(1) =~= s.skip(i + 1));
        lemma_token_len_at(s, i + 1, j);
    }
}

/// A maximal whitespace run ends where the next token begins: skipping
/// it does not change the split.
pub proof fn lemma_split_ws_skip_space(s: Seq<char>, i: int)
    requires
        0 <= i < s.len(),
        spec_is_space(s[i]),
    ensures
        split_ws(s.skip(i)) == split_ws(s.skip(i + 1)),
{
    assert(s.skip(i)[0] == s[i]);
    assert(s.skip(i).skip(1) =~= s.skip(i + 1));
}

/// Split a string on runs of (ASCII) whitespace, dropping empty pieces,
/// as the tokens of an argument string are split.
pub fn split_whitespace_tokens(s: &str) -> (r: Vec<String>)
    ensures
        strs_views(r@) == split_ws(s@),
{
    let cv = to_chars(s);
    let n = cv.len();
    let mut r: Vec<String> = Vec::new();
    let mut i: usize = 0;
    proof {
        assert(cv@.skip(0) =~= cv@);
        assert(strs_views(r@) + split_ws(cv@.skip(0)) =~= split_ws(cv@));
    }
    while i < n
        invariant
            n == cv@.len(),
            cv@ == s@,
            i <= n,
            strs_views(r@) + split_ws(cv@.skip(i as int)) == split_ws(cv@),
        decreases n - i,
    {
        if is_space(cv[i]) {
            proof {
                lemma_split_ws_skip_space(cv@, i as int);
            }
            i = i + 1;
        } else {
            // collect the token [i, j)
            let mut j: usize = i + 1;
            let mut tok: Vec<char> = Vec::new();
            tok.push(cv[i]);
            while j < n && !is_space(cv[j])
                invariant
                    n == cv@.len(),
                    i < j <= n,
                    tok@ == cv@.subrange(i as int, j as int),
                    forall|k: int| i <= k < j ==> !spec_is_space(cv@[k]),
                decreases n - j,
            {
                tok.push(cv[j]);
                proof {
                    assert(tok@ =~= cv@.subrange(i as int, j + 1));
                }
                j = j + 1;
            }
            proof {
                lemma_token_len_at(cv@, i + 1, j as int);
                assert(cv@.skip(i as int)[0] == cv@[i as int]);
                assert(cv@.skip(i as int).skip(1) =~= cv@.skip(i + 1));
                let tl = 1 + token_len(cv@.skip(i + 1)) as int;
                assert(tl == j - i);
                assert(cv@.skip(i as int).take(tl) =~= cv@.subrange(i as int, j as int));
                assert(cv@.skip(i as int).skip(tl) =~= cv@.skip(j as int));
                assert(split_ws(cv@.skip(i as int)) == seq![cv@.subrange(i as int, j as int)]
                    + split_ws(cv@.skip(j as int)));
            }
            let ghost prev = r@;
            r.push(from_chars(&tok));
            proof {
                assert(strs_views(r@) =~= strs_views(prev) + seq![cv@.subrange(
                    i as int,
                    j as int,
                )]);
                assert(strs_views(r@) + split_ws(cv@.skip(j as int)) =~= split_ws(cv@));
            }
            i = j;
        }
    }
    proof {
        assert(cv@.skip(n as int) =~= Seq::<char>::empty());
        assert(split_ws(Seq::<char>::empty()) =~= Seq::<Seq<char>>::empty());
        assert(strs_views(r@) =~= split_ws(cv@));
    }
    r
}

} // verus!
