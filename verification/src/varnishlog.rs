//! The log-stream parser: reassembling per-transaction records from the
//! line-oriented trace output of the cache process. Each line either
//! fills one field of the accumulator, appends one header pair, or -- when
//! blank -- finishes the record. The line grammar is stated here over
//! character sequences and every step of the parser is held to it.
use vstd::prelude::*;

use crate::text::all_space;
use crate::text::from_chars;
use crate::text::is_space;
use crate::text::pair_views;
use crate::text::spec_is_space;
use crate::text::starts_with;
use crate::text::to_chars;

verus! {

// ---------------------------------------------------------------------------
// Character classes and runs
// ---------------------------------------------------------------------------
/// A word character: an ASCII letter, digit or underscore.
pub open spec fn spec_is_word(c: char) -> bool {
    ('a' <= c && c <= 'z') || ('A' <= c && c <= 'Z') || ('0' <= c && c <= '9') || c == '_'
}

pub open spec fn spec_is_digit(c: char) -> bool {
    '0' <= c && c <= '9'
}

/// The length of the leading whitespace run.
pub open spec fn ws_run_len(s: Seq<char>) -> nat
    decreases s.len(),
{
    if s.len() == 0 || !spec_is_space(s[0]) {
        0
    } else {
        1 + ws_run_len(s.skip(1))
    }
}

/// The length of the leading word-character run.
pub open spec fn word_run_len(s: Seq<char>) -> nat
    decreases s.len(),
{
    if s.len() == 0 || !spec_is_word(s[0]) {
        0
    } else {
        1 + word_run_len(s.skip(1))
    }
}

/// The length of the leading digit run.
pub open spec fn digit_run_len(s: Seq<char>) -> nat
    decreases s.len(),
{
    if s.len() == 0 || !spec_is_digit(s[0]) {
        0
    } else {
        1 + digit_run_len(s.skip(1))
    }
}

proof fn lemma_ws_run_at(s: Seq<char>, j: int)
    requires
        0 <= j <= s.len(),
        forall|k: int| 0 <= k < j ==> spec_is_space(s[k]),
        j == s.len() || !spec_is_space(s[j]),
    ensures
        ws_run_len(s) == j,
    decreases j,
{
    if j == 0 {
    } else {
        assert(s.skip(1) =~= s.subrange(1, s.len() as int));
        assert forall|k: int| 0 <= k < j - 1 implies spec_is_space(s.skip(1)[k]) by {
            assert(s.skip(1)[k] == s[k + 1]);
        }
        assert(j - 1 == s.skip(1).len() || !spec_is_space(s.skip(1)[j - 1]));
        lemma_ws_run_at(s.skip(1), j - 1);
    }
}

proof fn lemma_word_run_at(s: Seq<char>, j: int)
    requires
        0 <= j <= s.len(),
        forall|k: int| 0 <= k < j ==> spec_is_word(s[k]),
        j == s.len() || !spec_is_word(s[j]),
    ensures
        word_run_len(s) == j,
    decreases j,
{
    if j > 0 {
        assert forall|k: int| 0 <= k < j - 1 implies spec_is_word(s.skip(1)[k]) by {
            assert(s.skip(1)[k] == s[k + 1]);
        }
        assert(j - 1 == s.skip(1).len() || !spec_is_word(s.skip(1)[j - 1]));
        lemma_word_run_at(s.skip(1), j - 1);
    }
}

proof fn lemma_digit_run_at(s: Seq<char>, j: int)
    requires
        0 <= j <= s.len(),
        forall|k: int| 0 <= k < j ==> spec_is_digit(s[k]),
        j == s.len() || !spec_is_digit(s[j]),
    ensures
        digit_run_len(s) == j,
    decreases j,
{
    if j > 0 {
        assert forall|k: int| 0 <= k < j - 1 implies spec_is_digit(s.skip(1)[k]) by {
            assert(s.skip(1)[k] == s[k + 1]);
        }
        assert(j - 1 == s.skip(1).len() || !spec_is_digit(s.skip(1)[j - 1]));
        lemma_digit_run_at(s.skip(1), j - 1);
    }
}

// ---------------------------------------------------------------------------
// The line grammar: the four capture shapes
// ---------------------------------------------------------------------------
/// A line of the shape `<prefix><whitespace><word>...`: the prefix, at
/// least one whitespace character, then the captured maximal word run.
pub open spec fn word_capture(line: Seq<char>, p: Seq<char>) -> Option<Seq<char>> {
    if !starts_with(line, p) {
        None
    } else {
        let rest = line.skip(p.len() as int);
        let w = ws_run_len(rest);
        let d = word_run_len(rest.skip(w as int));
        if w >= 1 && d >= 1 {
            Some(rest.skip(w as int).take(d as int))
        } else {
            None
        }
    }
}

/// As `word_capture`, with a digit run.
pub open spec fn digit_capture(line: Seq<char>, p: Seq<char>) -> Option<Seq<char>> {
    if !starts_with(line, p) {
        None
    } else {
        let rest = line.skip(p.len() as int);
        let w = ws_run_len(rest);
        let d = digit_run_len(rest.skip(w as int));
        if w >= 1 && d >= 1 {
            Some(rest.skip(w as int).take(d as int))
        } else {
            None
        }
    }
}

/// A line of the shape `<prefix><whitespace><anything>`: the prefix, its
/// whitespace run, then everything after it. When only whitespace
/// follows, the last whitespace character is the capture, as a greedy
/// whitespace run gives one character back for a non-empty capture.
pub open spec fn rest_capture(line: Seq<char>, p: Seq<char>) -> Option<Seq<char>> {
    if !starts_with(line, p) {
        None
    } else {
        let rest = line.skip(p.len() as int);
        if rest.len() >= 2 && spec_is_space(rest[0]) {
            let w = ws_run_len(rest);
            if w < rest.len() {
                Some(rest.skip(w as int))
            } else {
                Some(rest.skip(w - 1))
            }
        } else {
            None
        }
    }
}

/// A colon at `q` splits the remainder into a key of at least one
/// character and, after at least one whitespace character, a value of at
/// least one character.
pub open spec fn valid_colon(k: Seq<char>, q: int) -> bool {
    1 <= q && q + 3 <= k.len() && k[q] == ':' && spec_is_space(k[q + 1])
}

/// The last splitting colon at or below `from`, `-1` when none exists.
pub open spec fn last_colon_idx(k: Seq<char>, from: int) -> int
    decreases
            (if from >= 1 {
                from
            } else {
                0
            }),
{
    if from < 1 {
        -1
    } else if valid_colon(k, from) {
        from
    } else {
        last_colon_idx(k, from - 1)
    }
}

/// A header line `<prefix><whitespace><key>:<whitespace><value>`: the key
/// runs to the last splitting colon (the greedy reading), the value is
/// what follows that colon's whitespace run.
pub open spec fn kv_capture(line: Seq<char>, p: Seq<char>) -> Option<(Seq<char>, Seq<char>)> {
    if !starts_with(line, p) {
        None
    } else {
        let rest = line.skip(p.len() as int);
        if rest.len() == 0 || !spec_is_space(rest[0]) {
            None
        } else {
            let w = ws_run_len(rest);
            let k = rest.skip(w as int);
            let q = last_colon_idx(k, k.len() - 1);
            if q < 0 {
                None
            } else {
                let t = k.skip(q + 1);
                let wv = ws_run_len(t);
                let value = if wv < t.len() {
                    t.skip(wv as int)
                } else {
                    t.skip(wv - 1)
                };
                Some((k.take(q), value))
            }
        }
    }
}

// ---------------------------------------------------------------------------
// The accumulator
// ---------------------------------------------------------------------------
/// The state of the transaction being reassembled.
#[derive(Debug)]
pub struct RequestState {
    pub method: String,
    pub url: String,
    pub protocol: String,
    pub req_headers: Vec<(String, String)>,
    pub resp_status: String,
    pub resp_reason: String,
    pub resp_headers: Vec<(String, String)>,
    pub beresp_status: String,
    pub beresp_reason: String,
    pub beresp_headers: Vec<(String, String)>,
}

/// The mathematical value of the accumulator.
pub struct RequestStateV {
    pub method: Seq<char>,
    pub url: Seq<char>,
    pub protocol: Seq<char>,
    pub req_headers: Seq<(Seq<char>, Seq<char>)>,
    pub resp_status: Seq<char>,
    pub resp_reason: Seq<char>,
    pub resp_headers: Seq<(Seq<char>, Seq<char>)>,
    pub beresp_status: Seq<char>,
    pub beresp_reason: Seq<char>,
    pub beresp_headers: Seq<(Seq<char>, Seq<char>)>,
}

impl View for RequestState {
    type V = RequestStateV;

    open spec fn view(&self) -> RequestStateV {
        RequestStateV {
            method: self.method@,
            url: self.url@,
            protocol: self.protocol@,
            req_headers: pair_views(self.req_headers@),
            resp_status: self.resp_status@,
            resp_reason: self.resp_reason@,
            resp_headers: pair_views(self.resp_headers@),
            beresp_status: self.beresp_status@,
            beresp_reason: self.beresp_reason@,
            beresp_headers: pair_views(self.beresp_headers@),
        }
    }
}

/// The empty accumulator.
pub open spec fn empty_request_state() -> RequestStateV {
    RequestStateV {
        method: Seq::<char>::empty(),
        url: Seq::<char>::empty(),
        protocol: Seq::<char>::empty(),
        req_headers: Seq::<(Seq<char>, Seq<char>)>::empty(),
        resp_status: Seq::<char>::empty(),
        resp_reason: Seq::<char>::empty(),
        resp_headers: Seq::<(Seq<char>, Seq<char>)>::empty(),
        beresp_status: Seq::<char>::empty(),
        beresp_reason: Seq::<char>::empty(),
        beresp_headers: Seq::<(Seq<char>, Seq<char>)>::empty(),
    }
}

impl Default for RequestState {
    fn default() -> (r: Self)
        ensures
            r@ == empty_request_state(),
    {
        let r = RequestState {
            method: String::new(),
            url: String::new(),
            protocol: String::new(),
            req_headers: Vec::new(),
            resp_status: String::new(),
            resp_reason: String::new(),
            resp_headers: Vec::new(),
            beresp_status: String::new(),
            beresp_reason: String::new(),
            beresp_headers: Vec::new(),
        };
        proof {
            assert(pair_views(r.req_headers@) =~= Seq::<(Seq<char>, Seq<char>)>::empty());
            assert(pair_views(r.resp_headers@) =~= Seq::<(Seq<char>, Seq<char>)>::empty());
            assert(pair_views(r.beresp_headers@) =~= Seq::<(Seq<char>, Seq<char>)>::empty());
        }
        r
    }
}

impl RequestState {
    /// Reset every field, as after a record is emitted.
    pub fn clear(&mut self)
        ensures
            final (self)@ == empty_request_state(),
    {
        self.method = String::new();
        self.url = String::new();
        self.protocol = String::new();
        self.req_headers = Vec::new();
        self.resp_status = String::new();
        self.resp_reason = String::new();
        self.resp_headers = Vec::new();
        self.beresp_status = String::new();
        self.beresp_reason = String::new();
        self.beresp_headers = Vec::new();
        proof {
            assert(pair_views(Seq::<(String, String)>::empty()) =~= Seq::<
                (Seq<char>, Seq<char>),
            >::empty());
        }
    }
}

fn clone_pairs(v: &Vec<(String, String)>) -> (r: Vec<(String, String)>)
    ensures
        pair_views(r@) == pair_views(v@),
{
    let mut r: Vec<(String, String)> = Vec::new();
    let n = v.len();
    let mut i: usize = 0;
    while i < n
        invariant
            n == v@.len(),
            i <= n,
            r@.len() == i,
            forall|k: int|
                0 <= k < i ==> (#[trigger] r@[k]).0@ == v@[k].0@ && r@[k].1@ == v@[k].1@,
        decreases n - i,
    {
        r.push((v[i].0.clone(), v[i].1.clone()));
        i = i + 1;
    }
    proof {
        assert(pair_views(r@) =~= pair_views(v@));
    }
    r
}

/// Take the accumulated record out, leaving the accumulator empty.
fn take_record(state: &mut RequestState) -> (r: RequestState)
    ensures
        r@ == old(state)@,
        final (state)@ == empty_request_state(),
{
    let r = RequestState {
        method: state.method.clone(),
        url: state.url.clone(),
        protocol: state.protocol.clone(),
        req_headers: clone_pairs(&state.req_headers),
        resp_status: state.resp_status.clone(),
        resp_reason: state.resp_reason.clone(),
        resp_headers: clone_pairs(&state.resp_headers),
        beresp_status: state.beresp_status.clone(),
        beresp_reason: state.beresp_reason.clone(),
        beresp_headers: clone_pairs(&state.beresp_headers),
    };
    state.clear();
    r
}

/// One header per line, under the given marker.
pub open spec fn hdr_lines(marker: Seq<char>, hs: Seq<(Seq<char>, Seq<char>)>) -> Seq<char>
    decreases hs.len(),
{
    if hs.len() == 0 {
        Seq::<char>::empty()
    } else {
        hdr_lines(marker, hs.drop_last()) + marker + hs.last().0 + ": "@ + hs.last().1 + "\n"@
    }
}

/// The displayed form of a record: the request line, the request and
/// response headers, and -- when a backend response was seen -- its status
/// and headers.
pub open spec fn spec_display(st: RequestStateV) -> Seq<char> {
    st.method + " "@ + st.protocol + " "@ + st.url + " | "@ + st.resp_status + " "@
        + st.resp_reason + "\n"@ + hdr_lines(">> "@, st.req_headers) + hdr_lines(
        "  << "@,
        st.resp_headers,
    ) + (if st.beresp_status.len() > 0 && st.beresp_reason.len() > 0 {
        "    <<< "@ + st.beresp_status + " "@ + st.beresp_reason + "\n"@ + hdr_lines(
            "    <<< "@,
            st.beresp_headers,
        )
    } else {
        Seq::<char>::empty()
    })
}

fn append_hdr_lines(out: &mut Vec<char>, marker: &str, hs: &Vec<(String, String)>)
    ensures
        final (out)@ == old(out)@ + hdr_lines(marker@, pair_views(hs@)),
{
    let n = hs.len();
    let ghost hv = pair_views(hs@);
    let mut i: usize = 0;
    proof {
        assert(hv.take(0) =~= Seq::<(Seq<char>, Seq<char>)>::empty());
        assert(out@ =~= old(out)@ + hdr_lines(marker@, hv.take(0)));
    }
    while i < n
        invariant
            n == hs@.len(),
            hv == pair_views(hs@),
            i <= n,
            out@ == old(out)@ + hdr_lines(marker@, hv.take(i as int)),
        decreases n - i,
    {
        crate::text::append_str(out, marker);
        crate::text::append_str(out, hs[i].0.as_str());
        crate::text::append_str(out, ": ");
        crate::text::append_str(out, hs[i].1.as_str());
        crate::text::append_str(out, "\n");
        proof {
            assert(hv.take(i + 1).drop_last() =~= hv.take(i as int));
            assert(hv.take(i + 1).last() == hv[i as int]);
            assert(hv[i as int].0 == hs@[i as int].0@ && hv[i as int].1 == hs@[i as int].1@);
            assert(out@ =~= old(out)@ + hdr_lines(marker@, hv.take(i + 1)));
        }
        i = i + 1;
    }
    proof {
        assert(hv.take(n as int) =~= hv);
    }
}

impl RequestState {
    /// The record as readable text, one line for the request, one per
    /// header, and the backend response when one was seen.
    pub fn display_text(&self) -> (r: String)
        ensures
            r@ == spec_display(self@),
    {
        let mut out: Vec<char> = Vec::new();
        crate::text::append_str(&mut out, self.method.as_str());
        crate::text::append_str(&mut out, " ");
        crate::text::append_str(&mut out, self.protocol.as_str());
        crate::text::append_str(&mut out, " ");
        crate::text::append_str(&mut out, self.url.as_str());
        crate::text::append_str(&mut out, " | ");
        crate::text::append_str(&mut out, self.resp_status.as_str());
        crate::text::append_str(&mut out, " ");
        crate::text::append_str(&mut out, self.resp_reason.as_str());
        crate::text::append_str(&mut out, "\n");
        append_hdr_lines(&mut out, ">> ", &self.req_headers);
        append_hdr_lines(&mut out, "  << ", &self.resp_headers);
        if self.beresp_status.as_str().unicode_len() > 0 && self.beresp_reason.as_str().unicode_len()
            > 0 {
            crate::text::append_str(&mut out, "    <<< ");
            crate::text::append_str(&mut out, self.beresp_status.as_str());
            crate::text::append_str(&mut out, " ");
            crate::text::append_str(&mut out, self.beresp_reason.as_str());
            crate::text::append_str(&mut out, "\n");
            append_hdr_lines(&mut out, "    <<< ", &self.beresp_headers);
        }
        proof {
            assert(out@ =~= spec_display(self@));
        }
        from_chars(&out)
    }
}

// ---------------------------------------------------------------------------
// One line's effect
// ---------------------------------------------------------------------------
/// What one non-blank line does to the accumulator: the first matching
/// shape, in this fixed order, fills its field or appends its header
/// pair; a line matching none is ignored.
pub open spec fn spec_apply_line(st: RequestStateV, line: Seq<char>) -> RequestStateV {
    if word_capture(line, "-   ReqMethod"@) is Some {
        RequestStateV { method: word_capture(line, "-   ReqMethod"@)->0, ..st }
    } else if rest_capture(line, "-   ReqURL"@) is Some {
        RequestStateV { url: rest_capture(line, "-   ReqURL"@)->0, ..st }
    } else if rest_capture(line, "-   ReqProtocol"@) is Some {
        RequestStateV { protocol: rest_capture(line, "-   ReqProtocol"@)->0, ..st }
    } else if kv_capture(line, "-   ReqHeader"@) is Some {
        RequestStateV { req_headers: st.req_headers.push(kv_capture(line, "-   ReqHeader"@)->0), ..st }
    } else if digit_capture(line, "-   RespStatus"@) is Some {
        RequestStateV { resp_status: digit_capture(line, "-   RespStatus"@)->0, ..st }
    } else if rest_capture(line, "-   RespReason"@) is Some {
        RequestStateV { resp_reason: rest_capture(line, "-   RespReason"@)->0, ..st }
    } else if kv_capture(line, "-   RespHeader"@) is Some {
        RequestStateV {
            resp_headers: st.resp_headers.push(kv_capture(line, "-   RespHeader"@)->0),
            ..st
        }
    } else if digit_capture(line, "--  BerespStatus"@) is Some {
        RequestStateV { beresp_status: digit_capture(line, "--  BerespStatus"@)->0, ..st }
    } else if rest_capture(line, "--  BerespReason"@) is Some {
        RequestStateV { beresp_reason: rest_capture(line, "--  BerespReason"@)->0, ..st }
    } else if kv_capture(line, "--  BerespHeader"@) is Some {
        RequestStateV {
            beresp_headers: st.beresp_headers.push(kv_capture(line, "--  BerespHeader"@)->0),
            ..st
        }
    } else {
        st
    }
}

// ---------------------------------------------------------------------------
// Executable recognition
// ---------------------------------------------------------------------------
fn is_word_exec(c: char) -> (r: bool)
    ensures
        r == spec_is_word(c),
{
    ('a' <= c && c <= 'z') || ('A' <= c && c <= 'Z') || ('0' <= c && c <= '9') || c == '_'
}

fn is_digit_exec(c: char) -> (r: bool)
    ensures
        r == spec_is_digit(c),
{
    '0' <= c && c <= '9'
}

fn tail_from(cv: &Vec<char>, i: usize) -> (r: Vec<char>)
    requires
        i <= cv@.len(),
    ensures
        r@ == cv@.skip(i as int),
{
    let mut r: Vec<char> = Vec::new();
    let n = cv.len();
    let mut j: usize = i;
    while j < n
        invariant
            i <= j <= n,
            n == cv@.len(),
            r@ == cv@.subrange(i as int, j as int),
        decreases n - j,
    {
        r.push(cv[j]);
        proof {
            assert(r@ =~= cv@.subrange(i as int, j + 1));
        }
        j = j + 1;
    }
    proof {
        assert(cv@.subrange(i as int, n as int) =~= cv@.skip(i as int));
    }
    r
}

fn starts_with_exec(cv: &Vec<char>, p: &str) -> (r: bool)
    ensures
        r == starts_with(cv@, p@),
{
    let pl = p.unicode_len();
    if cv.len() < pl {
        return false;
    }
    let mut i: usize = 0;
    while i < pl
        invariant
            pl == p@.len(),
            pl <= cv@.len(),
            i <= pl,
            forall|k: int| 0 <= k < i ==> cv@[k] == p@[k],
        decreases pl - i,
    {
        if cv[i] != p.get_char(i) {
            proof {
                assert(cv@.take(pl as int)[i as int] == cv@[i as int]);
            }
            return false;
        }
        i = i + 1;
    }
    proof {
        assert(cv@.take(pl as int) =~= p@);
    }
    true
}

fn ws_run_exec(s: &Vec<char>, from: usize) -> (r: usize)
    requires
        from <= s@.len(),
    ensures
        from + r <= s@.len(),
        r == ws_run_len(s@.skip(from as int)),
{
    let n = s.len();
    let mut j: usize = from;
    while j < n && is_space(s[j])
        invariant
            from <= j <= n,
            n == s@.len(),
            forall|k: int| from <= k < j ==> spec_is_space(s@[k]),
        decreases n - j,
    {
        j = j + 1;
    }
    proof {
        lemma_runs_from(s@, from as int, j as int);
    }
    j - from
}

proof fn lemma_runs_from(s: Seq<char>, i: int, j: int)
    requires
        0 <= i <= j <= s.len(),
        forall|k: int| i <= k < j ==> spec_is_space(s[k]),
        j == s.len() || !spec_is_space(s[j]),
    ensures
        ws_run_len(s.skip(i)) == j - i,
{
    let t = s.skip(i);
    assert forall|k: int| 0 <= k < j - i implies spec_is_space(t[k]) by {
        assert(t[k] == s[k + i]);
    }
    assert(j - i == t.len() || !spec_is_space(t[j - i]));
    lemma_ws_run_at(t, j - i);
}

fn word_run_exec(s: &Vec<char>, from: usize) -> (r: usize)
    requires
        from <= s@.len(),
    ensures
        from + r <= s@.len(),
        r == word_run_len(s@.skip(from as int)),
{
    let n = s.len();
    let mut j: usize = from;
    while j < n && is_word_exec(s[j])
        invariant
            from <= j <= n,
            n == s@.len(),
            forall|k: int| from <= k < j ==> spec_is_word(s@[k]),
        decreases n - j,
    {
        j = j + 1;
    }
    proof {
        let t = s@.skip(from as int);
        assert forall|k: int| 0 <= k < j - from implies spec_is_word(t[k]) by {
            assert(t[k] == s@[k + from]);
        }
        assert(j - from == t.len() || !spec_is_word(t[j - from]));
        lemma_word_run_at(t, j - from);
    }
    j - from
}

fn digit_run_exec(s: &Vec<char>, from: usize) -> (r: usize)
    requires
        from <= s@.len(),
    ensures
        from + r <= s@.len(),
        r == digit_run_len(s@.skip(from as int)),
{
    let n = s.len();
    let mut j: usize = from;
    while j < n && is_digit_exec(s[j])
        invariant
            from <= j <= n,
            n == s@.len(),
            forall|k: int| from <= k < j ==> spec_is_digit(s@[k]),
        decreases n - j,
    {
        j = j + 1;
    }
    proof {
        let t = s@.skip(from as int);
        assert forall|k: int| 0 <= k < j - from implies spec_is_digit(t[k]) by {
            assert(t[k] == s@[k + from]);
        }
        assert(j - from == t.len() || !spec_is_digit(t[j - from]));
        lemma_digit_run_at(t, j - from);
    }
    j - from
}

fn slice_string(s: &Vec<char>, a: usize, b: usize) -> (r: String)
    requires
        a <= b <= s@.len(),
    ensures
        r@ == s@.subrange(a as int, b as int),
{
    let mut v: Vec<char> = Vec::new();
    let mut j: usize = a;
    while j < b
        invariant
            a <= j <= b <= s@.len(),
            v@ == s@.subrange(a as int, j as int),
        decreases b - j,
    {
        v.push(s[j]);
        proof {
            assert(v@ =~= s@.subrange(a as int, j + 1));
        }
        j = j + 1;
    }
    from_chars(&v)
}

fn try_word(cv: &Vec<char>, p: &str) -> (r: Option<String>)
    ensures
        match r {
            Some(v) => word_capture(cv@, p@) == Some(v@),
            None => word_capture(cv@, p@) is None,
        },
{
    if !starts_with_exec(cv, p) {
        return None;
    }
    let pl = p.unicode_len();
    let rest = tail_from(cv, pl);
    let w = ws_run_exec(&rest, 0);
    proof {
        assert(rest@.skip(0) =~= rest@);
    }
    if w == 0 {
        return None;
    }
    let d = word_run_exec(&rest, w);
    if d == 0 {
        return None;
    }
    let rn = rest.len();
    proof {
        assert(w + d <= rn);
    }
    let cap = slice_string(&rest, w, w + d);
    proof {
        assert(rest@.subrange(w as int, (w + d) as int) =~= rest@.skip(w as int).take(d as int));
    }
    Some(cap)
}

fn try_digit(cv: &Vec<char>, p: &str) -> (r: Option<String>)
    ensures
        match r {
            Some(v) => digit_capture(cv@, p@) == Some(v@),
            None => digit_capture(cv@, p@) is None,
        },
{
    if !starts_with_exec(cv, p) {
        return None;
    }
    let pl = p.unicode_len();
    let rest = tail_from(cv, pl);
    let w = ws_run_exec(&rest, 0);
    proof {
        assert(rest@.skip(0) =~= rest@);
    }
    if w == 0 {
        return None;
    }
    let d = digit_run_exec(&rest, w);
    if d == 0 {
        return None;
    }
    let rn = rest.len();
    proof {
        assert(w + d <= rn);
    }
    let cap = slice_string(&rest, w, w + d);
    proof {
        assert(rest@.subrange(w as int, (w + d) as int) =~= rest@.skip(w as int).take(d as int));
    }
    Some(cap)
}

fn try_rest(cv: &Vec<char>, p: &str) -> (r: Option<String>)
    ensures
        match r {
            Some(v) => rest_capture(cv@, p@) == Some(v@),
            None => rest_capture(cv@, p@) is None,
        },
{
    if !starts_with_exec(cv, p) {
        return None;
    }
    let pl = p.unicode_len();
    let rest = tail_from(cv, pl);
    let n = rest.len();
    if n < 2 {
        return None;
    }
    if !is_space(rest[0]) {
        return None;
    }
    let w = ws_run_exec(&rest, 0);
    proof {
        assert(rest@.skip(0) =~= rest@);
    }
    let a = if w < n {
        w
    } else {
        w - 1
    };
    let cap = slice_string(&rest, a, n);
    proof {
        assert(rest@.subrange(a as int, n as int) =~= rest@.skip(a as int));
    }
    Some(cap)
}

fn try_kv(cv: &Vec<char>, p: &str) -> (r: Option<(String, String)>)
    ensures
        match r {
            Some(v) => kv_capture(cv@, p@) == Some((v.0@, v.1@)),
            None => kv_capture(cv@, p@) is None,
        },
{
    if !starts_with_exec(cv, p) {
        return None;
    }
    let pl = p.unicode_len();
    let rest = tail_from(cv, pl);
    let n = rest.len();
    if n == 0 {
        return None;
    }
    if !is_space(rest[0]) {
        return None;
    }
    let w = ws_run_exec(&rest, 0);
    proof {
        assert(rest@.skip(0) =~= rest@);
    }
    let k = tail_from(&rest, w);
    let kn = k.len();
    // scan for the last splitting colon
    if kn == 0 {
        proof {
            assert(last_colon_idx(k@, -1) == -1);
        }
        return None;
    }
    let mut q: usize = kn - 1;
    let found: bool;
    loop
        invariant
            kn == k@.len(),
            kn >= 1,
            q <= kn - 1,
            last_colon_idx(k@, kn - 1) == last_colon_idx(k@, q as int),
        ensures
            kn == k@.len(),
            found ==> valid_colon(k@, q as int) && last_colon_idx(k@, kn - 1) == q,
            !found ==> last_colon_idx(k@, kn - 1) < 0,
        decreases q,
    {
        let ok = q >= 1 && kn >= 4 && q <= kn - 3 && k[q] == ':' && is_space(k[q + 1]);
        proof {
            assert(ok == valid_colon(k@, q as int));
        }
        if ok {
            found = true;
            break ;
        }
        if q <= 1 {
            found = false;
            proof {
                assert(last_colon_idx(k@, 0) == -1);
                assert(last_colon_idx(k@, q as int) <= -1);
            }
            break ;
        }
        proof {
            assert(!valid_colon(k@, q as int));
        }
        q = q - 1;
    }
    if !found {
        return None;
    }
    let key = slice_string(&k, 0, q);
    proof {
        assert(k@.subrange(0, q as int) =~= k@.take(q as int));
    }
    let t = tail_from(&k, q + 1);
    let wv = ws_run_exec(&t, 0);
    proof {
        assert(t@.skip(0) =~= t@);
    }
    let tn = t.len();
    let a = if wv < tn {
        wv
    } else {
        wv - 1
    };
    proof {
        assert(t@.len() >= 2);
        assert(spec_is_space(t@[0]));
    }
    let value = slice_string(&t, a, tn);
    proof {
        assert(t@.subrange(a as int, tn as int) =~= t@.skip(a as int));
    }
    Some((key, value))
}

// ---------------------------------------------------------------------------
// The parser step
// ---------------------------------------------------------------------------
/// Feed one line of trace output to the accumulator. A blank line ends
/// the transaction: the accumulated record is handed back and the
/// accumulator reset. Any other line updates the accumulator by the first
/// matching line shape and hands back nothing.
pub fn parse_log_line(line: &str, state: &mut RequestState) -> (r: Option<RequestState>)
    ensures
        all_space(line@) ==> (r matches Some(em) && em@ == old(state)@ && final (state)@
            == empty_request_state()),
        !all_space(line@) ==> (r is None && final (state)@ == spec_apply_line(
            old(state)@,
            line@,
        )),
{
    let cv = to_chars(line);
    let n = cv.len();
    let mut blank = true;
    let mut i: usize = 0;
    while i < n
        invariant
            n == cv@.len(),
            cv@ == line@,
            i <= n,
            blank == forall|k: int| 0 <= k < i ==> spec_is_space(cv@[k]),
        decreases n - i,
    {
        if !is_space(cv[i]) {
            blank = false;
            proof {
                assert(!spec_is_space(cv@[i as int]));
            }
            i = n;
        } else {
            i = i + 1;
        }
    }
    if blank {
        let em = take_record(state);
        return Some(em);
    }
    if let Some(m) = try_word(&cv, "-   ReqMethod") {
        state.method = m;
        return None;
    }
    if let Some(u) = try_rest(&cv, "-   ReqURL") {
        state.url = u;
        return None;
    }
    if let Some(pr) = try_rest(&cv, "-   ReqProtocol") {
        state.protocol = pr;
        return None;
    }
    if let Some(kv) = try_kv(&cv, "-   ReqHeader") {
        state.req_headers.push(kv);
        proof {
            assert(pair_views(state.req_headers@) =~= old(state)@.req_headers.push(
                kv_capture(line@, "-   ReqHeader"@)->0,
            ));
        }
        return None;
    }
    if let Some(st) = try_digit(&cv, "-   RespStatus") {
        state.resp_status = st;
        return None;
    }
    if let Some(re) = try_rest(&cv, "-   RespReason") {
        state.resp_reason = re;
        return None;
    }
    if let Some(kv) = try_kv(&cv, "-   RespHeader") {
        state.resp_headers.push(kv);
        proof {
            assert(pair_views(state.resp_headers@) =~= old(state)@.resp_headers.push(
                kv_capture(line@, "-   RespHeader"@)->0,
            ));
        }
        return None;
    }
    if let Some(st) = try_digit(&cv, "--  BerespStatus") {
        state.beresp_status = st;
        return None;
    }
    if let Some(re) = try_rest(&cv, "--  BerespReason") {
        state.beresp_reason = re;
        return None;
    }
    if let Some(kv) = try_kv(&cv, "--  BerespHeader") {
        state.beresp_headers.push(kv);
        proof {
            assert(pair_views(state.beresp_headers@) =~= old(state)@.beresp_headers.push(
                kv_capture(line@, "--  BerespHeader"@)->0,
            ));
        }
        return None;
    }
    None
}

} // verus!
