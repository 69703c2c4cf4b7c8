//! The config artifact: backend records, the shared config state, the
//! deterministic template data, and rendering through the template engine.
use vstd::prelude::*;

use crate::jsontext::append_json_string_str;
use crate::jsontext::json_string;
use crate::text::append_dec;
use crate::text::append_str;
use crate::text::chars_lt;
use crate::text::from_chars;
use crate::text::lemma_lex_transitive;
use crate::text::lemma_lex_trichotomy;
use crate::text::lex_le;
use crate::text::lex_lt;
use crate::text::spec_dec;
use crate::text::to_chars;

verus! {

/// Why an update of the rendered config, or of cluster-visible state, failed.
#[derive(Debug)]
pub enum UpdateError {
    TemplateRegisterFailed,
    TemplateRenderFailed,
    WriteFailed,
    ReloadFailed(String),
    PortMissing,
    UnknownServiceType,
    ClusterIPMissing,
    ExternalNameMissing,
}

impl UpdateError {
    /// A human-readable account of the error.
    pub fn message(&self) -> (r: String)
        ensures
            self is TemplateRegisterFailed ==> r@ == "failed to register the vcl template"@,
            self is TemplateRenderFailed ==> r@ == "failed to render the vcl template"@,
            self is WriteFailed ==> r@ == "failed to write the vcl file"@,
            self matches UpdateError::ReloadFailed(s) ==> r@ == "failed to reload the vcl: "@
                + s@,
            self is PortMissing ==> r@ == "Port number is missing"@,
            self is UnknownServiceType ==> r@ == "Unknown service type"@,
            self is ClusterIPMissing ==> r@ == "Cluster IP not found"@,
            self is ExternalNameMissing ==> r@ == "External name not found"@,
    {
        match self {
            UpdateError::TemplateRegisterFailed => String::from_str(
                "failed to register the vcl template",
            ),
            UpdateError::TemplateRenderFailed => String::from_str(
                "failed to render the vcl template",
            ),
            UpdateError::WriteFailed => String::from_str("failed to write the vcl file"),
            UpdateError::ReloadFailed(s) => {
                let mut v = to_chars("failed to reload the vcl: ");
                append_str(&mut v, s.as_str());
                from_chars(&v)
            },
            UpdateError::PortMissing => String::from_str("Port number is missing"),
            UpdateError::UnknownServiceType => String::from_str("Unknown service type"),
            UpdateError::ClusterIPMissing => String::from_str("Cluster IP not found"),
            UpdateError::ExternalNameMissing => String::from_str("External name not found"),
        }
    }
}

/// One upstream routing entry, derived from one `(rule, path)` pair of an
/// Ingress. The template turns each into one backend definition of the
/// rendered file.
#[derive(Debug)]
pub struct Backend {
    /// The namespace of the Ingress the entry came from.
    pub namespace: String,
    /// The unique key of the entry within the rendered file,
    /// `<namespace>-<ingressName>-<serviceName>`.
    pub name: String,
    /// The HTTP Host match; may be empty.
    pub host: String,
    /// The HTTP path match; defaults to `/`.
    pub path: String,
    /// The upstream service short-name.
    pub service: String,
    /// Passed through to the template verbatim.
    pub path_type: String,
    /// The upstream port.
    pub port: u16,
}

/// The mathematical value of a `Backend`.
pub struct BackendV {
    pub namespace: Seq<char>,
    pub name: Seq<char>,
    pub host: Seq<char>,
    pub path: Seq<char>,
    pub service: Seq<char>,
    pub path_type: Seq<char>,
    pub port: u16,
}

impl View for Backend {
    type V = BackendV;

    open spec fn view(&self) -> BackendV {
        BackendV {
            namespace: self.namespace@,
            name: self.name@,
            host: self.host@,
            path: self.path@,
            service: self.service@,
            path_type: self.path_type@,
            port: self.port,
        }
    }
}

impl Clone for Backend {
    fn clone(&self) -> (r: Self)
        ensures
            r == *self,
    {
        Backend {
            namespace: self.namespace.clone(),
            name: self.name.clone(),
            host: self.host.clone(),
            path: self.path.clone(),
            service: self.service.clone(),
            path_type: self.path_type.clone(),
            port: self.port,
        }
    }
}

impl Backend {
    pub fn new(
        namespace: String,
        name: String,
        host: String,
        path: String,
        service: String,
        path_type: String,
        port: u16,
    ) -> (r: Self)
        ensures
            r@ == (BackendV {
                namespace: namespace@,
                name: name@,
                host: host@,
                path: path@,
                service: service@,
                path_type: path_type@,
                port: port,
            }),
    {
        Backend { namespace, name, host, path, service, port, path_type }
    }
}

/// The values of a sequence of backends.
pub open spec fn backend_views(s: Seq<Backend>) -> Seq<BackendV> {
    s.map_values(|b: Backend| b@)
}

/// The shared config state: where the artifact and its template live, the
/// free-form snippets, and the current global backend list.
pub struct Vcl {
    /// Path of the template file.
    pub template: String,
    /// Path of the rendered config artifact.
    pub file: String,
    /// Work directory of the cache process.
    pub work_folder: String,
    /// Free-form text appended near the end of the template.
    pub snippet: String,
    /// Text interpolated into the receive hook of the template.
    pub vcl_recv_snippet: String,
    /// The global backend list, rebuilt by the reconciler.
    pub backends: Vec<Backend>,
}

/// The mathematical value of a `Vcl`.
pub struct VclV {
    pub template: Seq<char>,
    pub file: Seq<char>,
    pub work_folder: Seq<char>,
    pub snippet: Seq<char>,
    pub vcl_recv_snippet: Seq<char>,
    pub backends: Seq<BackendV>,
}

impl View for Vcl {
    type V = VclV;

    open spec fn view(&self) -> VclV {
        VclV {
            template: self.template@,
            file: self.file@,
            work_folder: self.work_folder@,
            snippet: self.snippet@,
            vcl_recv_snippet: self.vcl_recv_snippet@,
            backends: backend_views(self.backends@),
        }
    }
}

impl Vcl {
    pub fn new(
        file: String,
        template: String,
        work_folder: String,
        vcl_recv_snippet: String,
        snippet: String,
    ) -> (r: Self)
        ensures
            r@ == (VclV {
                template: template@,
                file: file@,
                work_folder: work_folder@,
                snippet: snippet@,
                vcl_recv_snippet: vcl_recv_snippet@,
                backends: Seq::<BackendV>::empty(),
            }),
    {
        let r = Vcl {
            template,
            file,
            work_folder,
            snippet,
            vcl_recv_snippet,
            backends: vec![],
        };
        proof {
            assert(backend_views(r.backends@) =~= Seq::<BackendV>::empty());
        }
        r
    }
}

// ---------------------------------------------------------------------------
// Sorting backends by name
// ---------------------------------------------------------------------------
/// Insertion of `b` into `s` behind every entry whose name does not exceed
/// `b`'s: the stable insertion step.
pub open spec fn insert_by_name(b: BackendV, s: Seq<BackendV>) -> Seq<BackendV>
    decreases s.len(),
{
    if s.len() == 0 {
        seq![b]
    } else if lex_lt(b.name, s[0].name) {
        seq![b] + s
    } else {
        seq![s[0]] + insert_by_name(b, s.skip(1))
    }
}

/// Stable sort of backends by name: insertion sort, one element at a time
/// from the left.
pub open spec fn sort_by_name(s: Seq<BackendV>) -> Seq<BackendV>
    decreases s.len(),
{
    if s.len() == 0 {
        Seq::<BackendV>::empty()
    } else {
        insert_by_name(s.last(), sort_by_name(s.drop_last()))
    }
}

pub open spec fn sorted_by_name(s: Seq<BackendV>) -> bool {
    forall|i: int, j: int| 0 <= i < j < s.len() ==> lex_le(s[i].name, s[j].name)
}

pub proof fn lemma_lex_le_transitive(a: Seq<char>, b: Seq<char>, c: Seq<char>)
    requires
        lex_le(a, b),
        lex_le(b, c),
    ensures
        lex_le(a, c),
{
    if a != b && b != c {
        lemma_lex_transitive(a, b, c);
    }
}

proof fn lemma_insert_by_name_props(b: BackendV, s: Seq<BackendV>)
    requires
        sorted_by_name(s),
    ensures
        sorted_by_name(insert_by_name(b, s)),
        insert_by_name(b, s).len() == s.len() + 1,
        forall|k: int|
            0 <= k < insert_by_name(b, s).len() ==> (insert_by_name(b, s)[k] == b || s.contains(
                insert_by_name(b, s)[k],
            )),
    decreases s.len(),
{
    let r = insert_by_name(b, s);
    if s.len() == 0 {
    } else if lex_lt(b.name, s[0].name) {
        assert forall|i: int, j: int| 0 <= i < j < r.len() implies lex_le(r[i].name, r[j].name) by {
            if i == 0 {
                assert(r[j] == s[j - 1]);
                if j - 1 > 0 {
                    assert(lex_le(s[0].name, s[j - 1].name));
                }
                lemma_lex_le_transitive(b.name, s[0].name, s[j - 1].name);
            } else {
                assert(r[i] == s[i - 1] && r[j] == s[j - 1]);
            }
        }
        assert forall|k: int| 0 <= k < r.len() implies (r[k] == b || s.contains(r[k])) by {
            if k > 0 {
                assert(r[k] == s[k - 1]);
            }
        }
    } else {
        let tail = s.skip(1);
        assert(sorted_by_name(tail)) by {
            assert forall|i: int, j: int| 0 <= i < j < tail.len() implies lex_le(
                tail[i].name,
                tail[j].name,
            ) by {
                assert(tail[i] == s[i + 1] && tail[j] == s[j + 1]);
            }
        }
        lemma_insert_by_name_props(b, tail);
        let rt = insert_by_name(b, tail);
        lemma_lex_trichotomy(b.name, s[0].name);
        assert forall|i: int, j: int| 0 <= i < j < r.len() implies lex_le(r[i].name, r[j].name) by {
            if i == 0 {
                assert(r[j] == rt[j - 1]);
                if rt[j - 1] == b {
                    assert(lex_le(s[0].name, b.name));
                } else {
                    assert(tail.contains(rt[j - 1]));
                    let w = choose|w: int| 0 <= w < tail.len() && tail[w] == rt[j - 1];
                    assert(s[w + 1] == rt[j - 1]);
                    assert(lex_le(s[0].name, s[w + 1].name));
                }
            } else {
                assert(r[i] == rt[i - 1] && r[j] == rt[j - 1]);
            }
        }
        assert forall|k: int| 0 <= k < r.len() implies (r[k] == b || s.contains(r[k])) by {
            if k == 0 {
                assert(s[0] == r[0]);
                assert(s.contains(s[0]));
            } else {
                assert(r[k] == rt[k - 1]);
                if rt[k - 1] != b {
                    assert(tail.contains(rt[k - 1]));
                    let w = choose|w: int| 0 <= w < tail.len() && tail[w] == rt[k - 1];
                    assert(s[w + 1] == rt[k - 1]);
                    assert(s.contains(s[w + 1]));
                }
            }
        }
    }
}

/// The sorted sequence is sorted.
pub proof fn lemma_sort_by_name_sorted(s: Seq<BackendV>)
    ensures
        sorted_by_name(sort_by_name(s)),
        sort_by_name(s).len() == s.len(),
    decreases s.len(),
{
    if s.len() > 0 {
        lemma_sort_by_name_sorted(s.drop_last());
        lemma_insert_by_name_props(s.last(), sort_by_name(s.drop_last()));
    }
}

/// Everything in the sorted sequence stems from the input.
pub proof fn lemma_sort_by_name_contains(s: Seq<BackendV>)
    ensures
        forall|x: BackendV| #[trigger] sort_by_name(s).contains(x) ==> s.contains(x),
    decreases s.len(),
{
    if s.len() > 0 {
        let front = s.drop_last();
        lemma_sort_by_name_contains(front);
        lemma_sort_by_name_sorted(front);
        lemma_insert_by_name_props(s.last(), sort_by_name(front));
        assert forall|x: BackendV| #[trigger] sort_by_name(s).contains(x) implies s.contains(x) by {
            let k = choose|k: int| 0 <= k < sort_by_name(s).len() && sort_by_name(s)[k] == x;
            if x == s.last() {
                assert(s[s.len() - 1] == x);
            } else {
                assert(sort_by_name(front).contains(x));
                assert(front.contains(x));
                let w = choose|w: int| 0 <= w < front.len() && front[w] == x;
                assert(s[w] == x);
            }
        }
    }
}

proof fn lemma_insert_by_name_at(b: BackendV, s: Seq<BackendV>, j: int)
    requires
        sorted_by_name(s),
        0 <= j <= s.len(),
        forall|k: int| 0 <= k < j ==> !lex_lt(b.name, s[k].name),
        j < s.len() ==> lex_lt(b.name, s[j].name),
    ensures
        insert_by_name(b, s) == s.take(j) + seq![b] + s.skip(j),
    decreases j,
{
    if j == 0 {
        if s.len() == 0 {
            assert(insert_by_name(b, s) =~= s.take(0) + seq![b] + s.skip(0));
        } else {
            assert(insert_by_name(b, s) =~= s.take(0) + seq![b] + s.skip(0));
        }
    } else {
        let tail = s.skip(1);
        assert(sorted_by_name(tail)) by {
            assert forall|p: int, q: int| 0 <= p < q < tail.len() implies lex_le(
                tail[p].name,
                tail[q].name,
            ) by {
                assert(tail[p] == s[p + 1] && tail[q] == s[q + 1]);
            }
        }
        assert(forall|k: int| 0 <= k < j - 1 ==> !lex_lt(b.name, #[trigger] tail[k].name)) by {
            assert(forall|k: int| 0 <= k < j - 1 ==> #[trigger] tail[k] == s[k + 1]);
        }
        assert(j - 1 < tail.len() ==> lex_lt(b.name, tail[j - 1].name)) by {
            if j - 1 < tail.len() {
                assert(tail[j - 1] == s[j]);
            }
        }
        lemma_insert_by_name_at(b, tail, j - 1);
        assert(!lex_lt(b.name, s[0].name));
        assert(insert_by_name(b, s) == seq![s[0]] + insert_by_name(b, tail));
        assert(seq![s[0]] + (tail.take(j - 1) + seq![b] + tail.skip(j - 1)) =~= s.take(j)
            + seq![b] + s.skip(j));
    }
}

/// The backends of `input`, ordered by `name` under the lexicographic
/// order; entries with equal names keep their relative order.
pub fn sort_backends(input: &Vec<Backend>) -> (r: Vec<Backend>)
    ensures
        backend_views(r@) == sort_by_name(backend_views(input@)),
{
    let ghost iv = backend_views(input@);
    let mut out: Vec<Backend> = Vec::new();
    let n = input.len();
    let mut i: usize = 0;
    proof {
        assert(backend_views(out@) =~= sort_by_name(iv.take(0)));
    }
    while i < n
        invariant
            n == input@.len(),
            iv == backend_views(input@),
            i <= n,
            backend_views(out@) == sort_by_name(iv.take(i as int)),
        decreases n - i,
    {
        let b = input[i].clone();
        proof {
            lemma_sort_by_name_sorted(iv.take(i as int));
        }
        // find the first position whose name is strictly greater
        let bn = to_chars(b.name.as_str());
        let mut j: usize = 0;
        let m = out.len();
        loop
            invariant
                m == out@.len(),
                j <= m,
                bn@ == b@.name,
                forall|k: int|
                    0 <= k < j ==> !lex_lt(b@.name, #[trigger] backend_views(out@)[k].name),
            ensures
                j <= m,
                forall|k: int|
                    0 <= k < j ==> !lex_lt(b@.name, #[trigger] backend_views(out@)[k].name),
                j < m ==> lex_lt(b@.name, backend_views(out@)[j as int].name),
            decreases m - j,
        {
            if j == m {
                break ;
            }
            let on = to_chars(out[j].name.as_str());
            proof {
                assert(backend_views(out@)[j as int].name == out@[j as int]@.name);
            }
            if chars_lt(&bn, &on) {
                break ;
            }
            j = j + 1;
        }
        proof {
            let ov = backend_views(out@);
            lemma_sort_by_name_sorted(iv.take(i as int));
            lemma_insert_by_name_at(b@, ov, j as int);
        }
        let ghost prev = out@;
        out.insert(j, b);
        proof {
            assert(iv.take(i + 1).drop_last() =~= iv.take(i as int));
            assert(iv.take(i + 1).last() == iv[i as int]);
            assert(backend_views(out@) =~= sort_by_name(iv.take(i as int)).take(j as int)
                + seq![iv[i as int]] + sort_by_name(iv.take(i as int)).skip(j as int));
        }
        i = i + 1;
    }
    proof {
        assert(iv.take(n as int) =~= iv);
    }
    out
}

// ---------------------------------------------------------------------------
// The template data
// ---------------------------------------------------------------------------
/// The JSON object the template engine receives for one backend.
pub open spec fn backend_json(b: BackendV) -> Seq<char> {
    "{\"namespace\":"@ + json_string(b.namespace) + ",\"name\":"@ + json_string(b.name)
        + ",\"host\":"@ + json_string(b.host) + ",\"path\":"@ + json_string(b.path)
        + ",\"service\":"@ + json_string(b.service) + ",\"path_type\":"@ + json_string(b.path_type)
        + ",\"port\":"@ + spec_dec(b.port as nat) + "}"@
}

/// The JSON array of backends, in sequence order, comma separated.
pub open spec fn backends_json(bs: Seq<BackendV>) -> Seq<char>
    decreases bs.len(),
{
    if bs.len() == 0 {
        Seq::<char>::empty()
    } else if bs.len() == 1 {
        backend_json(bs[0])
    } else {
        backends_json(bs.drop_last()) + ","@ + backend_json(bs.last())
    }
}

/// The complete data map handed to the template engine: the keys `backend`,
/// `snippet` and `vcl_recv_snippet`. It is a function of the backend list
/// and the two snippets alone.
pub open spec fn data_json(backends: Seq<BackendV>, snippet: Seq<char>, recv: Seq<char>) -> Seq<
    char,
> {
    "{\"backend\":["@ + backends_json(backends) + "],\"snippet\":"@ + json_string(snippet)
        + ",\"vcl_recv_snippet\":"@ + json_string(recv) + "}"@
}

/// The data map of a config state.
pub open spec fn vcl_data_json(v: VclV) -> Seq<char> {
    data_json(v.backends, v.snippet, v.vcl_recv_snippet)
}

fn append_backend_json(out: &mut Vec<char>, b: &Backend)
    ensures
        final (out)@ == old(out)@ + backend_json(b@),
{
    append_str(out, "{\"namespace\":");
    append_json_string_str(out, b.namespace.as_str());
    append_str(out, ",\"name\":");
    append_json_string_str(out, b.name.as_str());
    append_str(out, ",\"host\":");
    append_json_string_str(out, b.host.as_str());
    append_str(out, ",\"path\":");
    append_json_string_str(out, b.path.as_str());
    append_str(out, ",\"service\":");
    append_json_string_str(out, b.service.as_str());
    append_str(out, ",\"path_type\":");
    append_json_string_str(out, b.path_type.as_str());
    append_str(out, ",\"port\":");
    append_dec(out, b.port as u64);
    append_str(out, "}");
    proof {
        assert(out@ =~= old(out)@ + backend_json(b@));
    }
}

/// The template data for `vcl` as JSON text.
pub fn build_data_json(vcl: &Vcl) -> (r: String)
    ensures
        r@ == vcl_data_json(vcl@),
{
    let mut out: Vec<char> = Vec::new();
    append_str(&mut out, "{\"backend\":[");
    let n = vcl.backends.len();
    let ghost bs = backend_views(vcl.backends@);
    let mut i: usize = 0;
    while i < n
        invariant
            n == vcl.backends@.len(),
            bs == backend_views(vcl.backends@),
            i <= n,
            out@ == "{\"backend\":["@ + backends_json(bs.take(i as int)),
        decreases n - i,
    {
        if i > 0 {
            append_str(&mut out, ",");
        }
        append_backend_json(&mut out, &vcl.backends[i]);
        proof {
            assert(bs.take(i + 1).drop_last() =~= bs.take(i as int));
            assert(bs.take(i + 1).last() == bs[i as int]);
            assert(bs[i as int] == vcl.backends@[i as int]@);
            if i == 0 {
                assert(out@ =~= "{\"backend\":["@ + backends_json(bs.take(1)));
            } else {
                assert(out@ =~= "{\"backend\":["@ + backends_json(bs.take(i + 1)));
            }
        }
        i = i + 1;
    }
    proof {
        assert(bs.take(n as int) =~= bs);
    }
    append_str(&mut out, "],\"snippet\":");
    append_json_string_str(&mut out, vcl.snippet.as_str());
    append_str(&mut out, ",\"vcl_recv_snippet\":");
    append_json_string_str(&mut out, vcl.vcl_recv_snippet.as_str());
    append_str(&mut out, "}");
    proof {
        assert(out@ =~= vcl_data_json(vcl@));
    }
    from_chars(&out)
}

// ---------------------------------------------------------------------------
// The template engine
// ---------------------------------------------------------------------------
/// Whether the template engine accepts `t` as a template. Names the outcome
/// of `handlebars::Handlebars::register_template_string`, a function of the
/// template text alone.
pub uninterp spec fn template_accepted(t: Seq<char>) -> bool;

/// Whether `serde_json::from_str` accepts `d` as JSON text; a function of
/// the text alone.
pub uninterp spec fn json_accepted(d: Seq<char>) -> bool;

/// What the template engine renders from template text `t` and the data
/// parsed from JSON text `d`: `Some(output)` when rendering succeeds, `None`
/// when it fails. Names the result of `handlebars::Handlebars::render`, a
/// function of the registered template and the data alone.
pub uninterp spec fn rendered_of(t: Seq<char>, d: Seq<char>) -> Option<Seq<char>>;

/// Relies on handlebars and serde_json:
/// `Handlebars::register_template_string` accepts or rejects a template as a
/// function of its text alone; `serde_json::from_str` parses the data text
/// as a function of that text; `Handlebars::render` then renders output as a
/// function of the template text and the data.
#[verifier::external_body]
fn hbs_render(template: &str, data_json_text: &str) -> (r: Result<String, UpdateError>)
    ensures
        r is Ok <==> (template_accepted(template@) && json_accepted(data_json_text@)
            && rendered_of(template@, data_json_text@) is Some),
        r matches Ok(s) ==> Some(s@) == rendered_of(template@, data_json_text@),
        r matches Err(e) ==> (e is TemplateRegisterFailed || e is TemplateRenderFailed),
        r matches Err(e) ==> (e is TemplateRegisterFailed <==> !template_accepted(template@)),
{
    let mut reg = handlebars::Handlebars::new();
    if reg.register_template_string("vcl", template).is_err() {
        return Err(UpdateError::TemplateRegisterFailed);
    }
    let data: serde_json::Value = match serde_json::from_str(data_json_text) {
        Ok(v) => v,
        Err(_) => return Err(UpdateError::TemplateRenderFailed),
    };
    match reg.render("vcl", &data) {
        Ok(s) => Ok(s),
        Err(_) => Err(UpdateError::TemplateRenderFailed),
    }
}

/// Render the config artifact for the state `vcl` from the template text.
/// The output is a function of the template text, the backend list and the
/// two snippets, and of nothing else. The caller owns writing the result to
/// `vcl.file` without exposing a partial file, and reloading afterwards.
pub fn update(vcl: &Vcl, template_text: &str) -> (r: Result<String, UpdateError>)
    ensures
        r is Ok <==> (template_accepted(template_text@) && json_accepted(vcl_data_json(vcl@))
            && rendered_of(template_text@, vcl_data_json(vcl@)) is Some),
        r matches Ok(s) ==> Some(s@) == rendered_of(template_text@, vcl_data_json(vcl@)),
        r matches Err(e) ==> (e is TemplateRegisterFailed || e is TemplateRenderFailed),
        r matches Err(e) ==> (e is TemplateRegisterFailed <==> !template_accepted(template_text@)),
{
    let data = build_data_json(vcl);
    hbs_render(template_text, data.as_str())
}

} // verus!
