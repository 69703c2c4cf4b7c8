//! The Ingress reconciler: the model of an observed Ingress object, its
//! parsing into backends, the per-Ingress store, and the fold of watch
//! events into render directives.
use vstd::prelude::*;

use crate::text::eq_ignore_case;
use crate::text::pair_views;
use crate::text::lemma_lex_trichotomy;
use crate::text::lex_le;
use crate::text::lex_lt;
use crate::text::str_eq;
use crate::text::str_eq_ignore_ascii_case;
use crate::text::hyphen_free;
use crate::text::starts_with;
use crate::text::str_lt;
use crate::text::to_chars;
use crate::vcl::Backend;
use crate::vcl::BackendV;
use crate::vcl::UpdateError;
use crate::vcl::Vcl;
use crate::vcl::VclV;
use crate::vcl::backend_views;
use crate::vcl::data_json;
use crate::vcl::json_accepted;
use crate::vcl::rendered_of;
use crate::vcl::sort_by_name;
use crate::vcl::sort_backends;
use crate::vcl::template_accepted;
use crate::vcl::update;
use crate::vcl::vcl_data_json;

verus! {

// ---------------------------------------------------------------------------
// The observed objects, as the reconciler reads them
// ---------------------------------------------------------------------------
/// The service behind one path of an Ingress rule.
pub struct ServiceBackendObj {
    pub name: String,
    /// `service.port.number`; absent when the port was given by name only.
    pub port_number: Option<i32>,
}

/// One path of an Ingress rule's HTTP section.
pub struct PathObj {
    pub path: Option<String>,
    pub path_type: String,
    pub service: Option<ServiceBackendObj>,
}

/// One rule of an Ingress.
pub struct RuleObj {
    pub host: Option<String>,
    /// The paths of the HTTP section; `None` when the rule has no HTTP
    /// section.
    pub paths: Option<Vec<PathObj>>,
}

/// What an Ingress's `spec` holds of interest here.
pub struct IngressSpecObj {
    pub ingress_class_name: Option<String>,
    pub rules: Option<Vec<RuleObj>>,
}

/// An observed Ingress, reduced to the fields the controller reads.
pub struct IngressObj {
    pub name: Option<String>,
    pub namespace: Option<String>,
    pub spec: Option<IngressSpecObj>,
    /// Whether the object carries a `status` stanza.
    pub has_status: bool,
}

/// `o`'s characters, or the default `d` when absent.
pub open spec fn opt_str(o: Option<String>, d: Seq<char>) -> Seq<char> {
    match o {
        Some(s) => s@,
        None => d,
    }
}

/// The backend name `<namespace>-<ingressName>-<serviceName>`.
pub open spec fn backend_name(ns: Seq<char>, ing: Seq<char>, svc: Seq<char>) -> Seq<char> {
    ns + "-"@ + ing + "-"@ + svc
}

/// What one path contributes: nothing without a backing service, an error
/// without a port number, one backend otherwise.
pub open spec fn parse_path(ns: Seq<char>, ing: Seq<char>, host: Seq<char>, p: PathObj) -> Result<
    Option<BackendV>,
    (),
> {
    match p.service {
        Some(sb) => match sb.port_number {
            Some(port) => Ok(
                Some(
                    BackendV {
                        namespace: ns,
                        name: backend_name(ns, ing, sb.name@),
                        host: host,
                        path: opt_str(p.path, "/"@),
                        service: sb.name@,
                        path_type: p.path_type@,
                        port: port as u16,
                    },
                ),
            ),
            None => Err(()),
        },
        None => Ok(None),
    }
}

pub open spec fn parse_paths(
    ns: Seq<char>,
    ing: Seq<char>,
    host: Seq<char>,
    ps: Seq<PathObj>,
) -> Result<Seq<BackendV>, ()>
    decreases ps.len(),
{
    if ps.len() == 0 {
        Ok(Seq::<BackendV>::empty())
    } else {
        match parse_paths(ns, ing, host, ps.drop_last()) {
            Ok(front) => match parse_path(ns, ing, host, ps.last()) {
                Ok(Some(b)) => Ok(front.push(b)),
                Ok(None) => Ok(front),
                Err(()) => Err(()),
            },
            Err(()) => Err(()),
        }
    }
}

pub open spec fn parse_rules(ns: Seq<char>, ing: Seq<char>, rs: Seq<RuleObj>) -> Result<
    Seq<BackendV>,
    (),
>
    decreases rs.len(),
{
    if rs.len() == 0 {
        Ok(Seq::<BackendV>::empty())
    } else {
        match parse_rules(ns, ing, rs.drop_last()) {
            Ok(front) => match rs.last().paths {
                Some(ps) => match parse_paths(ns, ing, opt_str(rs.last().host, ""@), ps@) {
                    Ok(bs) => Ok(front + bs),
                    Err(()) => Err(()),
                },
                None => Ok(front),
            },
            Err(()) => Err(()),
        }
    }
}

/// What parsing an Ingress yields: its backends in rule-and-path order, or
/// an error when some path's service lacks a port number.
pub open spec fn spec_parse_ingress(ing: IngressObj) -> Result<Seq<BackendV>, ()> {
    match ing.spec {
        None => Ok(Seq::<BackendV>::empty()),
        Some(s) => match s.rules {
            None => Ok(Seq::<BackendV>::empty()),
            Some(rs) => parse_rules(
                opt_str(ing.namespace, "default"@),
                opt_str(ing.name, "default"@),
                rs@,
            ),
        },
    }
}

/// The key under which an Ingress is stashed.
pub open spec fn ingress_key(ing: IngressObj) -> Seq<char> {
    opt_str(ing.name, "default"@)
}

proof fn lemma_parse_paths_err_persists(
    ns: Seq<char>,
    ing: Seq<char>,
    host: Seq<char>,
    ps: Seq<PathObj>,
    j: int,
)
    requires
        0 <= j <= ps.len(),
        parse_paths(ns, ing, host, ps.take(j)) is Err,
    ensures
        parse_paths(ns, ing, host, ps) is Err,
    decreases ps.len() - j,
{
    if j == ps.len() {
        assert(ps.take(j) =~= ps);
    } else {
        assert(ps.take(j + 1).drop_last() =~= ps.take(j));
        lemma_parse_paths_err_persists(ns, ing, host, ps, j + 1);
    }
}

proof fn lemma_parse_rules_err_persists(ns: Seq<char>, ing: Seq<char>, rs: Seq<RuleObj>, j: int)
    requires
        0 <= j <= rs.len(),
        parse_rules(ns, ing, rs.take(j)) is Err,
    ensures
        parse_rules(ns, ing, rs) is Err,
    decreases rs.len() - j,
{
    if j == rs.len() {
        assert(rs.take(j) =~= rs);
    } else {
        assert(rs.take(j + 1).drop_last() =~= rs.take(j));
        lemma_parse_rules_err_persists(ns, ing, rs, j + 1);
    }
}

/// Every backend an Ingress parses to carries the name built from its own
/// namespace, the Ingress's key and its own service.
pub open spec fn named_after(bs: Seq<BackendV>, key: Seq<char>) -> bool {
    forall|i: int|
        0 <= i < bs.len() ==> (#[trigger] bs[i]).name == backend_name(
            bs[i].namespace,
            key,
            bs[i].service,
        )
}

proof fn lemma_parse_paths_named(ns: Seq<char>, ing: Seq<char>, host: Seq<char>, ps: Seq<PathObj>)
    requires
        parse_paths(ns, ing, host, ps) is Ok,
    ensures
        named_after(parse_paths(ns, ing, host, ps)->Ok_0, ing),
        forall|i: int|
            0 <= i < parse_paths(ns, ing, host, ps)->Ok_0.len() ==> (#[trigger] parse_paths(
                ns,
                ing,
                host,
                ps,
            )->Ok_0[i]).namespace == ns,
    decreases ps.len(),
{
    if ps.len() > 0 {
        lemma_parse_paths_named(ns, ing, host, ps.drop_last());
    }
}

proof fn lemma_parse_rules_named(ns: Seq<char>, ing: Seq<char>, rs: Seq<RuleObj>)
    requires
        parse_rules(ns, ing, rs) is Ok,
    ensures
        named_after(parse_rules(ns, ing, rs)->Ok_0, ing),
    decreases rs.len(),
{
    if rs.len() > 0 {
        lemma_parse_rules_named(ns, ing, rs.drop_last());
        match rs.last().paths {
            Some(ps) => {
                lemma_parse_paths_named(ns, ing, opt_str(rs.last().host, ""@), ps@);
            },
            None => {},
        }
    }
}

/// Whatever `spec_parse_ingress` accepts is named after the Ingress's key.
pub proof fn lemma_parse_ingress_named(ing: IngressObj)
    requires
        spec_parse_ingress(ing) is Ok,
    ensures
        named_after(spec_parse_ingress(ing)->Ok_0, ingress_key(ing)),
{
    match ing.spec {
        None => {},
        Some(s) => match s.rules {
            None => {},
            Some(rs) => {
                lemma_parse_rules_named(
                    opt_str(ing.namespace, "default"@),
                    opt_str(ing.name, "default"@),
                    rs@,
                );
            },
        },
    }
}

/// Whether the Ingress declares the controller's class, up to ASCII case.
pub open spec fn spec_is_varnish_class(ing: IngressObj, class: Seq<char>) -> bool {
    match ing.spec {
        Some(s) => match s.ingress_class_name {
            Some(c) => eq_ignore_case(c@, class),
            None => false,
        },
        None => false,
    }
}

/// The software-side class filter: `spec.ingressClassName` must equal the
/// configured class, ASCII-case-insensitively.
pub fn is_varnish_class(ing: &IngressObj, ingress_class_name: &str) -> (r: bool)
    ensures
        r == spec_is_varnish_class(*ing, ingress_class_name@),
{
    match &ing.spec {
        Some(s) => match &s.ingress_class_name {
            Some(c) => str_eq_ignore_ascii_case(c.as_str(), ingress_class_name),
            None => false,
        },
        None => false,
    }
}

/// Parse an Ingress into its backends. Succeeds, with the backends of every
/// `(rule, path)` pair backed by a service, if and only if each such service
/// names a port number; the first missing number fails the whole Ingress.
pub fn parse_ingress_spec(ing: &IngressObj) -> (r: Result<Vec<Backend>, UpdateError>)
    ensures
        r is Ok <==> spec_parse_ingress(*ing) is Ok,
        r matches Ok(v) ==> backend_views(v@) == spec_parse_ingress(*ing)->Ok_0,
        r matches Err(e) ==> e is PortMissing && spec_parse_ingress(*ing) is Err,
{
    let mut acc: Vec<Backend> = Vec::new();
    let spec = match &ing.spec {
        Some(s) => s,
        None => {
            proof {
                assert(backend_views(acc@) =~= Seq::<BackendV>::empty());
            }
            return Ok(acc);
        },
    };
    let rules = match &spec.rules {
        Some(rs) => rs,
        None => {
            proof {
                assert(backend_views(acc@) =~= Seq::<BackendV>::empty());
            }
            return Ok(acc);
        },
    };
    let ghost ns = opt_str(ing.namespace, "default"@);
    let ghost ingn = opt_str(ing.name, "default"@);
    let nrules = rules.len();
    let mut i: usize = 0;
    proof {
        assert(backend_views(acc@) =~= Seq::<BackendV>::empty());
        assert(rules@.take(0) =~= Seq::<RuleObj>::empty());
    }
    while i < nrules
        invariant
            nrules == rules@.len(),
            i <= nrules,
            ns == opt_str(ing.namespace, "default"@),
            ingn == opt_str(ing.name, "default"@),
            ing.spec matches Some(sp) && sp.rules matches Some(rr) && rr@ == rules@,
            parse_rules(ns, ingn, rules@.take(i as int)) == Ok::<Seq<BackendV>, ()>(
                backend_views(acc@),
            ),
        decreases nrules - i,
    {
        let rule = &rules[i];
        let ghost host = opt_str(rule.host, ""@);
        match &rule.paths {
            None => {
                proof {
                    assert(rules@.take(i + 1).drop_last() =~= rules@.take(i as int));
                }
            },
            Some(paths) => {
                let ghost acc0 = backend_views(acc@);
                let npaths = paths.len();
                let mut j: usize = 0;
                proof {
                    assert(paths@.take(0) =~= Seq::<PathObj>::empty());
                    assert(backend_views(acc@) =~= acc0 + Seq::<BackendV>::empty());
                }
                while j < npaths
                    invariant
                        npaths == paths@.len(),
                        j <= npaths,
                        i < nrules,
                        nrules == rules@.len(),
                        ns == opt_str(ing.namespace, "default"@),
                        ingn == opt_str(ing.name, "default"@),
                        ing.spec matches Some(sp) && sp.rules matches Some(rr) && rr@ == rules@,
                        rules@[i as int].paths matches Some(pp) && pp@ == paths@,
                        *rule == rules@[i as int],
                        host == opt_str(rules@[i as int].host, ""@),
                        acc0 == backend_views(acc@).take(acc0.len() as int),
                        parse_rules(ns, ingn, rules@.take(i as int)) == Ok::<Seq<BackendV>, ()>(
                            acc0,
                        ),
                        parse_paths(ns, ingn, host, paths@.take(j as int)) matches Ok(got)
                            && backend_views(acc@) == acc0 + got,
                    decreases npaths - j,
                {
                    let p = &paths[j];
                    let ghost got0 = parse_paths(ns, ingn, host, paths@.take(j as int))->Ok_0;
                    proof {
                        assert(paths@.take(j + 1).drop_last() =~= paths@.take(j as int));
                        assert(paths@.take(j + 1).last() == paths@[j as int]);
                    }
                    match &p.service {
                        None => {
                            proof {
                                assert(parse_path(ns, ingn, host, paths@[j as int]) == Ok::<
                                    Option<BackendV>,
                                    (),
                                >(None));
                                assert(parse_paths(ns, ingn, host, paths@.take(j + 1)) == Ok::<
                                    Seq<BackendV>,
                                    (),
                                >(got0));
                            }
                        },
                        Some(sb) => {
                            match sb.port_number {
                                None => {
                                    proof {
                                        assert(paths@.take(j + 1).drop_last() =~= paths@.take(
                                            j as int,
                                        ));
                                        assert(parse_paths(ns, ingn, host, paths@.take(j + 1))
                                            is Err);
                                        lemma_parse_paths_err_persists(
                                            ns,
                                            ingn,
                                            host,
                                            paths@,
                                            j + 1,
                                        );
                                        assert(rules@.take(i + 1).drop_last() =~= rules@.take(
                                            i as int,
                                        ));
                                        assert(parse_rules(ns, ingn, rules@.take(i + 1)) is Err);
                                        lemma_parse_rules_err_persists(ns, ingn, rules@, i + 1);
                                    }
                                    return Err(UpdateError::PortMissing);
                                },
                                Some(port) => {
                                    let namespace = match &ing.namespace {
                                        Some(s) => s.clone(),
                                        None => String::from_str("default"),
                                    };
                                    let ing_name = match &ing.name {
                                        Some(s) => s.clone(),
                                        None => String::from_str("default"),
                                    };
                                    let host_s = match &rule.host {
                                        Some(h) => h.clone(),
                                        None => String::from_str(""),
                                    };

                                    let path_s = match &p.path {
                                        Some(q) => q.clone(),
                                        None => String::from_str("/"),
                                    };
                                    let mut namev = to_chars(namespace.as_str());
                                    crate::text::append_str(&mut namev, "-");
                                    crate::text::append_str(&mut namev, ing_name.as_str());
                                    crate::text::append_str(&mut namev, "-");
                                    crate::text::append_str(&mut namev, sb.name.as_str());
                                    let bname = crate::text::from_chars(&namev);
                                    #[verifier::truncate]
                                    let port16 = port as u16;
                                    let b = Backend::new(
                                        namespace,
                                        bname,
                                        host_s,
                                        path_s,
                                        sb.name.clone(),
                                        p.path_type.clone(),
                                        port16,
                                    );
                                    let ghost prev = backend_views(acc@);
                                    acc.push(b);
                                    proof {
                                        let pp = parse_path(ns, ingn, host, paths@[j as int]);
                                        assert(pp is Ok && pp->Ok_0 is Some);
                                        assert(b@ == pp->Ok_0->0);
                                        assert(backend_views(acc@) =~= prev + seq![b@]);
                                        assert(parse_paths(ns, ingn, host, paths@.take(j + 1))
                                            == Ok::<Seq<BackendV>, ()>(got0.push(b@)));
                                        assert(backend_views(acc@) =~= acc0 + got0.push(b@));
                                    }
                                },
                            }
                        },
                    }
                    proof {
                        let got1 = parse_paths(ns, ingn, host, paths@.take(j + 1));
                        assert(got1 is Ok);
                        assert(backend_views(acc@) =~= acc0 + got1->Ok_0);
                        assert(acc0 == backend_views(acc@).take(acc0.len() as int)) by {
                            assert(backend_views(acc@).take(acc0.len() as int) =~= acc0);
                        }
                    }
                    j = j + 1;
                }
                proof {
                    assert(paths@.take(npaths as int) =~= paths@);
                    assert(rules@.take(i + 1).drop_last() =~= rules@.take(i as int));
                    assert(rules@.take(i + 1).last() == rules@[i as int]);
                }
            },
        }
        proof {
            assert(rules@.take(i + 1).drop_last() =~= rules@.take(i as int));
        }
        i = i + 1;
    }
    proof {
        assert(rules@.take(nrules as int) =~= rules@);
    }
    Ok(acc)
}

// ---------------------------------------------------------------------------
// The per-Ingress store
// ---------------------------------------------------------------------------
/// One stashed Ingress: its key and its parsed backends.
pub struct IngressEntry {
    pub name: String,
    pub backends: Vec<Backend>,
}

/// The mathematical value of an entry.
pub struct EntryV {
    pub name: Seq<char>,
    pub backends: Seq<BackendV>,
}

impl View for IngressEntry {
    type V = EntryV;

    open spec fn view(&self) -> EntryV {
        EntryV { name: self.name@, backends: backend_views(self.backends@) }
    }
}

pub open spec fn entry_views(s: Seq<IngressEntry>) -> Seq<EntryV> {
    s.map_values(|e: IngressEntry| e@)
}

/// Some entry carries the key `k`.
pub open spec fn keys_has(s: Seq<EntryV>, k: Seq<char>) -> bool {
    exists|i: int| 0 <= i < s.len() && s[i].name == k
}

/// The position of the entry keyed `k`; meaningful when `keys_has(s, k)`.
pub open spec fn key_idx(s: Seq<EntryV>, k: Seq<char>) -> int {
    choose|i: int| 0 <= i < s.len() && s[i].name == k
}

/// The per-Ingress map as a mathematical map from key to backends.
pub open spec fn entries_map(s: Seq<EntryV>) -> Map<Seq<char>, Seq<BackendV>> {
    Map::new(|k: Seq<char>| keys_has(s, k), |k: Seq<char>| s[key_idx(s, k)].backends)
}

/// The store's invariant: keys strictly ascending, hence unique. Iteration
/// order is therefore a function of the map alone, never of insertion
/// history.
pub open spec fn wf_entries(s: Seq<EntryV>) -> bool {
    forall|i: int, j: int| 0 <= i < j < s.len() ==> lex_lt(s[i].name, s[j].name)
}

/// Every stashed backend is named after its own entry's key.
pub open spec fn names_consistent(s: Seq<EntryV>) -> bool {
    forall|i: int| 0 <= i < s.len() ==> named_after((#[trigger] s[i]).backends, s[i].name)
}

proof fn lemma_key_idx_unique(s: Seq<EntryV>, i: int, k: Seq<char>)
    requires
        wf_entries(s),
        0 <= i < s.len(),
        s[i].name == k,
    ensures
        keys_has(s, k),
        key_idx(s, k) == i,
{
    let w = key_idx(s, k);
    assert(0 <= w < s.len() && s[w].name == k);
    if w < i {
        assert(lex_lt(s[w].name, s[i].name));
        lemma_lex_trichotomy(s[w].name, s[i].name);
    } else if i < w {
        assert(lex_lt(s[i].name, s[w].name));
        lemma_lex_trichotomy(s[i].name, s[w].name);
    }
}

/// The authoritative scratchpad of the reconciler: the per-Ingress backend
/// lists, keyed by Ingress name, kept in ascending key order.
pub struct IngressStore {
    pub entries: Vec<IngressEntry>,
}

impl View for IngressStore {
    type V = Seq<EntryV>;

    open spec fn view(&self) -> Seq<EntryV> {
        entry_views(self.entries@)
    }
}

impl IngressStore {
    pub open spec fn wf(self) -> bool {
        wf_entries(self@) && names_consistent(self@)
    }

    /// The per-Ingress map this store holds.
    pub open spec fn as_map(self) -> Map<Seq<char>, Seq<BackendV>> {
        entries_map(self@)
    }

    /// An empty store.
    pub fn new() -> (r: Self)
        ensures
            r.wf(),
            r@ == Seq::<EntryV>::empty(),
            r.as_map() == Map::<Seq<char>, Seq<BackendV>>::empty(),
    {
        let r = IngressStore { entries: Vec::new() };
        proof {
            assert(r@ =~= Seq::<EntryV>::empty());
            assert(r.as_map() =~= Map::<Seq<char>, Seq<BackendV>>::empty());
        }
        r
    }

    /// Stash `backends` under `name`, replacing what the key held.
    fn insert_entry(&mut self, name: String, backends: Vec<Backend>)
        requires
            old(self).wf(),
            named_after(backend_views(backends@), name@),
        ensures
            final (self).wf(),
            final (self).as_map() == old(self).as_map().insert(name@, backend_views(backends@)),
    {
        let ghost s0 = self@;
        let n = self.entries.len();
        let mut j: usize = 0;
        loop
            invariant
                n == self.entries@.len(),
                j <= n,
                s0 == self@,
                forall|k: int| 0 <= k < j ==> lex_lt(#[trigger] self@[k].name, name@),
            ensures
                j <= n,
                s0 == self@,
                n == self.entries@.len(),
                forall|k: int| 0 <= k < j ==> lex_lt(#[trigger] self@[k].name, name@),
                j < n ==> !lex_lt(self@[j as int].name, name@),
            decreases n - j,
        {
            if j == n {
                break ;
            }
            proof {
                assert(self@[j as int].name == self.entries@[j as int]@.name);
            }
            if !str_lt(self.entries[j].name.as_str(), name.as_str()) {
                break ;
            }
            j = j + 1;
        }
        let found = if j < n {
            str_eq(self.entries[j].name.as_str(), name.as_str())
        } else {
            false
        };
        let e = IngressEntry { name, backends };
        if found {
            self.entries.remove(j);
            let ghost mid = self@;
            self.entries.insert(j, e);
            proof {
                let s1 = self@;
                assert(mid =~= s0.remove(j as int));
                assert(s1 =~= s0.update(j as int, e@)) by {
                    assert(s1 =~= mid.insert(j as int, e@));
                }
                assert forall|p: int, q: int| 0 <= p < q < s1.len() implies lex_lt(
                    s1[p].name,
                    s1[q].name,
                ) by {
                    assert(s1[p] == if p == j {
                        e@
                    } else {
                        s0[p]
                    });
                    assert(s1[q] == if q == j {
                        e@
                    } else {
                        s0[q]
                    });
                    assert(s0[j as int].name == e@.name);
                }
                assert(names_consistent(s1)) by {
                    assert forall|p: int| 0 <= p < s1.len() implies named_after(
                        (#[trigger] s1[p]).backends,
                        s1[p].name,
                    ) by {
                        if p != j {
                            assert(s1[p] == s0[p]);
                        }
                    }
                }
                assert(entries_map(s1) =~= entries_map(s0).insert(e@.name, e@.backends)) by {
                    assert forall|k: Seq<char>| #[trigger]
                        keys_has(s1, k) == entries_map(s0).insert(e@.name, e@.backends).dom()
                            .contains(k) by {
                        if keys_has(s1, k) {
                            let w = choose|w: int| 0 <= w < s1.len() && s1[w].name == k;
                            if w == j {
                                assert(k == e@.name);
                            } else {
                                assert(s0[w].name == k);
                            }
                        }
                        if k == e@.name {
                            assert(s1[j as int].name == k);
                        } else if keys_has(s0, k) {
                            let w = choose|w: int| 0 <= w < s0.len() && s0[w].name == k;
                            assert(w != j);
                            assert(s1[w].name == k);
                        }
                    }
                    assert forall|k: Seq<char>| keys_has(s1, k) implies #[trigger] entries_map(
                        s1,
                    )[k] == entries_map(s0).insert(e@.name, e@.backends)[k] by {
                        let w = key_idx(s1, k);
                        assert(0 <= w < s1.len() && s1[w].name == k);
                        if k == e@.name {
                            lemma_key_idx_unique(s1, j as int, k);
                        } else {
                            assert(w != j);
                            assert(s0[w].name == k);
                            lemma_key_idx_unique(s0, w, k);
                            assert(entries_map(s0)[k] == s0[w].backends);
                        }
                    }
                }
            }
        } else {
            self.entries.insert(j, e);
            proof {
                let s1 = self@;
                assert(s1 =~= s0.insert(j as int, e@));
                if j < n {
                    lemma_lex_trichotomy(s0[j as int].name, e@.name);
                }
                assert forall|p: int, q: int| 0 <= p < q < s1.len() implies lex_lt(
                    s1[p].name,
                    s1[q].name,
                ) by {
                    if p < j && q == j {
                    } else if p == j && q > j {
                        assert(s1[q] == s0[q - 1]);
                        if q - 1 > j {
                            assert(lex_lt(s0[j as int].name, s0[q - 1].name));
                            crate::vcl::lemma_lex_le_transitive(
                                e@.name,
                                s0[j as int].name,
                                s0[q - 1].name,
                            );
                        }
                    } else if q < j {
                        assert(s1[p] == s0[p] && s1[q] == s0[q]);
                    } else if p > j {
                        assert(s1[p] == s0[p - 1] && s1[q] == s0[q - 1]);
                    } else {
                        // p < j < q
                        assert(s1[p] == s0[p] && s1[q] == s0[q - 1]);
                        if q - 1 > j - 1 && q - 1 < s0.len() && j <= q - 1 {
                            if q - 1 == j {
                                crate::vcl::lemma_lex_le_transitive(
                                    s0[p].name,
                                    e@.name,
                                    s1[q].name,
                                );
                            } else {
                                assert(lex_lt(s0[p].name, s0[q - 1].name));
                            }
                        }
                    }
                }
                assert(names_consistent(s1)) by {
                    assert forall|p: int| 0 <= p < s1.len() implies named_after(
                        (#[trigger] s1[p]).backends,
                        s1[p].name,
                    ) by {
                        if p < j {
                            assert(s1[p] == s0[p]);
                        } else if p > j {
                            assert(s1[p] == s0[p - 1]);
                        }
                    }
                }
                assert(!keys_has(s0, e@.name)) by {
                    if keys_has(s0, e@.name) {
                        let w = choose|w: int| 0 <= w < s0.len() && s0[w].name == e@.name;
                        if w < j {
                            lemma_lex_trichotomy(s0[w].name, e@.name);
                        } else if w == j as int {
                        } else {
                            assert(lex_lt(s0[j as int].name, s0[w].name));
                            lemma_lex_trichotomy(s0[j as int].name, e@.name);
                            crate::text::lemma_lex_transitive(
                                e@.name,
                                s0[j as int].name,
                                s0[w].name,
                            );
                            lemma_lex_trichotomy(e@.name, s0[w].name);
                        }
                    }
                }
                assert(entries_map(s1) =~= entries_map(s0).insert(e@.name, e@.backends)) by {
                    assert forall|k: Seq<char>| #[trigger]
                        keys_has(s1, k) == entries_map(s0).insert(e@.name, e@.backends).dom()
                            .contains(k) by {
                        if keys_has(s1, k) {
                            let w = choose|w: int| 0 <= w < s1.len() && s1[w].name == k;
                            if w == j {
                                assert(k == e@.name);
                            } else if w < j {
                                assert(s0[w].name == k);
                            } else {
                                assert(s0[w - 1].name == k);
                            }
                        }
                        if k == e@.name {
                            assert(s1[j as int].name == k);
                        } else if keys_has(s0, k) {
                            let w = choose|w: int| 0 <= w < s0.len() && s0[w].name == k;
                            if w < j {
                                assert(s1[w].name == k);
                            } else {
                                assert(s1[w + 1].name == k);
                            }
                        }
                    }
                    assert forall|k: Seq<char>| keys_has(s1, k) implies #[trigger] entries_map(
                        s1,
                    )[k] == entries_map(s0).insert(e@.name, e@.backends)[k] by {
                        let w = key_idx(s1, k);
                        assert(0 <= w < s1.len() && s1[w].name == k);
                        if k == e@.name {
                            lemma_key_idx_unique(s1, j as int, k);
                        } else {
                            assert(w != j);
                            if w < j {
                                assert(s0[w].name == k);
                                lemma_key_idx_unique(s0, w, k);
                                assert(entries_map(s0)[k] == s0[w].backends);
                            } else {
                                assert(s0[w - 1].name == k);
                                lemma_key_idx_unique(s0, w - 1, k);
                                assert(entries_map(s0)[k] == s0[w - 1].backends);
                            }
                        }
                    }
                }
            }
        }
    }

    /// Drop the entry keyed `name`, if any.
    fn remove_entry(&mut self, name: &str)
        requires
            old(self).wf(),
        ensures
            final (self).wf(),
            final (self).as_map() == old(self).as_map().remove(name@),
    {
        let ghost s0 = self@;
        let n = self.entries.len();
        let mut j: usize = 0;
        loop
            invariant
                n == self.entries@.len(),
                j <= n,
                s0 == self@,
                forall|k: int| 0 <= k < j ==> self@[k].name != name@,
            ensures
                s0 == self@,
                n == self.entries@.len(),
                j <= n,
                forall|k: int| 0 <= k < j ==> self@[k].name != name@,
                j < n ==> self@[j as int].name == name@,
            decreases n - j,
        {
            if j == n {
                break ;
            }
            proof {
                assert(self@[j as int].name == self.entries@[j as int]@.name);
            }
            if str_eq(self.entries[j].name.as_str(), name) {
                break ;
            }
            j = j + 1;
        }
        if j == n {
            proof {
                assert(!keys_has(s0, name@));
                assert(entries_map(s0) =~= entries_map(s0).remove(name@));
            }
            return ;
        }
        self.entries.remove(j);
        proof {
            let s1 = self@;
            assert(s1 =~= s0.remove(j as int));
            assert forall|p: int, q: int| 0 <= p < q < s1.len() implies lex_lt(
                s1[p].name,
                s1[q].name,
            ) by {
                assert(s1[p] == if p < j {
                    s0[p]
                } else {
                    s0[p + 1]
                });
                assert(s1[q] == if q < j {
                    s0[q]
                } else {
                    s0[q + 1]
                });
            }
            assert(names_consistent(s1)) by {
                assert forall|p: int| 0 <= p < s1.len() implies named_after(
                    (#[trigger] s1[p]).backends,
                    s1[p].name,
                ) by {
                    if p < j {
                        assert(s1[p] == s0[p]);
                    } else {
                        assert(s1[p] == s0[p + 1]);
                    }
                }
            }
            assert(entries_map(s1) =~= entries_map(s0).remove(name@)) by {
                assert forall|k: Seq<char>| #[trigger]
                    keys_has(s1, k) == entries_map(s0).remove(name@).dom().contains(k) by {
                    if keys_has(s1, k) {
                        let w = choose|w: int| 0 <= w < s1.len() && s1[w].name == k;
                        if w < j {
                            assert(s0[w].name == k);
                            if k == name@ {
                                lemma_key_idx_unique(s0, w, k);
                                lemma_key_idx_unique(s0, j as int, k);
                            }
                        } else {
                            assert(s0[w + 1].name == k);
                            if k == name@ {
                                lemma_key_idx_unique(s0, w + 1, k);
                                lemma_key_idx_unique(s0, j as int, k);
                            }
                        }
                    }
                    if keys_has(s0, k) && k != name@ {
                        let w = choose|w: int| 0 <= w < s0.len() && s0[w].name == k;
                        assert(w != j);
                        if w < j {
                            assert(s1[w].name == k);
                        } else {
                            assert(s1[w - 1].name == k);
                        }
                    }
                }
                assert forall|k: Seq<char>| keys_has(s1, k) implies #[trigger] entries_map(
                    s1,
                )[k] == entries_map(s0).remove(name@)[k] by {
                    let w = key_idx(s1, k);
                    assert(0 <= w < s1.len() && s1[w].name == k);
                    if w < j {
                        assert(s0[w].name == k);
                        lemma_key_idx_unique(s0, w, k);
                    } else {
                        assert(s0[w + 1].name == k);
                        lemma_key_idx_unique(s0, w + 1, k);
                    }
                }
            }
        }
    }
}

// ---------------------------------------------------------------------------
// Event handling
// ---------------------------------------------------------------------------
/// Stash the backends of `ingress` under its key, if it declares the
/// controller's class and parses; an Ingress of another class, or one that
/// fails to parse, leaves the store untouched (the failing Ingress is
/// excluded but others remain).
pub fn handle_ingress_event(
    ingress: &IngressObj,
    ingress_class_name: &str,
    backends: &mut IngressStore,
)
    requires
        old(backends).wf(),
    ensures
        final (backends).wf(),
        spec_is_varnish_class(*ingress, ingress_class_name@) && spec_parse_ingress(*ingress)
            is Ok ==> final (backends).as_map() == old(backends).as_map().insert(
            ingress_key(*ingress),
            spec_parse_ingress(*ingress)->Ok_0,
        ),
        !(spec_is_varnish_class(*ingress, ingress_class_name@) && spec_parse_ingress(*ingress)
            is Ok) ==> final (backends)@ == old(backends)@,
{
    if !is_varnish_class(ingress, ingress_class_name) {
        return ;
    }
    let ing_name = match &ingress.name {
        Some(s) => s.clone(),
        None => String::from_str("default"),
    };
    match parse_ingress_spec(ingress) {
        Ok(bbs) => {
            proof {
                lemma_parse_ingress_named(*ingress);
            }
            backends.insert_entry(ing_name, bbs);
        },
        Err(_) => {},
    }
}

/// The key a `Delete` event removes: the Ingress's name, or the empty
/// string when absent.
pub open spec fn delete_key(ing: IngressObj) -> Seq<char> {
    opt_str(ing.name, ""@)
}

/// Drop the entry of a deleted Ingress of the controller's class.
pub fn handle_ingress_delete(
    ingress: &IngressObj,
    ingress_class_name: &str,
    backends: &mut IngressStore,
)
    requires
        old(backends).wf(),
    ensures
        final (backends).wf(),
        spec_is_varnish_class(*ingress, ingress_class_name@) ==> final (backends).as_map() == old(
            backends,
        ).as_map().remove(delete_key(*ingress)),
        !spec_is_varnish_class(*ingress, ingress_class_name@) ==> final (backends)@ == old(
            backends,
        )@,
{
    if !is_varnish_class(ingress, ingress_class_name) {
        return ;
    }
    let name = match &ingress.name {
        Some(s) => s.clone(),
        None => String::from_str(""),
    };
    backends.remove_entry(name.as_str());
}

// ---------------------------------------------------------------------------
// The global backend list
// ---------------------------------------------------------------------------
/// The flat backend list the renderer receives: the entries in ascending
/// key order, each entry's backends sorted by name. A function of the
/// store's entries alone.
pub open spec fn spec_global_backends(s: Seq<EntryV>) -> Seq<BackendV>
    decreases s.len(),
{
    if s.len() == 0 {
        Seq::<BackendV>::empty()
    } else {
        spec_global_backends(s.drop_last()) + sort_by_name(s.last().backends)
    }
}

/// Flatten the store into the global backend list.
pub fn global_backends(store: &IngressStore) -> (r: Vec<Backend>)
    ensures
        backend_views(r@) == spec_global_backends(store@),
{
    let mut r: Vec<Backend> = Vec::new();
    let n = store.entries.len();
    let mut i: usize = 0;
    proof {
        assert(backend_views(r@) =~= Seq::<BackendV>::empty());
        assert(store@.take(0) =~= Seq::<EntryV>::empty());
    }
    while i < n
        invariant
            n == store.entries@.len(),
            i <= n,
            backend_views(r@) == spec_global_backends(store@.take(i as int)),
        decreases n - i,
    {
        let mut sorted = sort_backends(&store.entries[i].backends);
        let ghost prev = r@;
        let ghost sv = sorted@;
        r.append(&mut sorted);
        proof {
            assert(store@.take(i + 1).drop_last() =~= store@.take(i as int));
            assert(store@.take(i + 1).last() == store@[i as int]);
            assert(store@[i as int] == store.entries@[i as int]@);
            assert(backend_views(r@) =~= backend_views(prev) + backend_views(sv));
        }
        i = i + 1;
    }
    proof {
        assert(store@.take(n as int) =~= store@);
    }
    r
}

/// Rebuild the global backend list from the store, write it into the
/// config state, and render. `Ok` carries the rendered artifact; the caller
/// writes it to `vcl.file` without exposing a partial file and only then
/// reloads, so a reload always follows a successful render of the state it
/// serves.
pub fn reconcile_backends(vcl: &mut Vcl, backends: &IngressStore, template_text: &str) -> (r:
    Result<String, UpdateError>)
    requires
        backends.wf(),
    ensures
        final (vcl)@ == (VclV { backends: spec_global_backends(backends@), ..old(vcl)@ }),
        r is Ok <==> (template_accepted(template_text@) && json_accepted(
            vcl_data_json(final (vcl)@),
        ) && rendered_of(template_text@, vcl_data_json(final (vcl)@)) is Some),
        r matches Ok(s) ==> Some(s@) == rendered_of(template_text@, vcl_data_json(final (vcl)@)),
        r matches Err(e) ==> (e is TemplateRegisterFailed || e is TemplateRenderFailed),
        r matches Err(e) ==> (e is TemplateRegisterFailed <==> !template_accepted(template_text@)),
{
    let backends_list = global_backends(backends);
    vcl.backends = backends_list;
    update(vcl, template_text)
}

/// One event of the Ingress watch stream.
pub enum IngressEvent {
    Init,
    InitApply(IngressObj),
    InitDone,
    Apply(IngressObj),
    Delete(IngressObj),
}

/// Which events drive a render and reload: every settled change. `Init`
/// marks nothing and `InitApply` only stashes, so that the initial list
/// costs one reload, at `InitDone`, rather than one per item.
pub open spec fn spec_triggers_reload(ev: IngressEvent) -> bool {
    ev is Apply || ev is Delete || ev is InitDone
}

/// How one event changes the per-Ingress map.
pub open spec fn spec_apply_event(
    m: Map<Seq<char>, Seq<BackendV>>,
    ev: IngressEvent,
    class: Seq<char>,
) -> Map<Seq<char>, Seq<BackendV>> {
    match ev {
        IngressEvent::Init => m,
        IngressEvent::InitDone => m,
        IngressEvent::InitApply(o) => if spec_is_varnish_class(o, class) && spec_parse_ingress(o)
            is Ok {
            m.insert(ingress_key(o), spec_parse_ingress(o)->Ok_0)
        } else {
            m
        },
        IngressEvent::Apply(o) => if spec_is_varnish_class(o, class) && spec_parse_ingress(o)
            is Ok {
            m.insert(ingress_key(o), spec_parse_ingress(o)->Ok_0)
        } else {
            m
        },
        IngressEvent::Delete(o) => if spec_is_varnish_class(o, class) {
            m.remove(delete_key(o))
        } else {
            m
        },
    }
}

/// What one handled event asks of the caller.
pub enum StepOutcome {
    /// Nothing to do: the event was a marker or an initial stash.
    NoChange,
    /// Rendering succeeded; write the artifact, then reload.
    Render(String),
    /// Rendering failed. The Ingress reconciler exits non-zero on this;
    /// the ConfigMap watcher logs it and keeps the previous artifact.
    RenderFailed(UpdateError),
}

/// Fold one Ingress watch event into the store and the config state.
/// A render directive is handed out exactly for the events that settle a
/// change (`Apply`, `Delete`, `InitDone`), and `Render` carries the
/// artifact of the state it was rendered from: a reload is never asked for
/// without that prior successful render.
pub fn process_ingress_event(
    ev: &IngressEvent,
    ingress_class_name: &str,
    backends: &mut IngressStore,
    vcl: &mut Vcl,
    template_text: &str,
) -> (r: StepOutcome)
    requires
        old(backends).wf(),
    ensures
        final (backends).wf(),
        final (backends).as_map() == spec_apply_event(
            old(backends).as_map(),
            *ev,
            ingress_class_name@,
        ),
        r is NoChange <==> !spec_triggers_reload(*ev),
        !spec_triggers_reload(*ev) ==> final (vcl)@ == old(vcl)@,
        spec_triggers_reload(*ev) ==> final (vcl)@ == (VclV {
            backends: spec_global_backends(final (backends)@),
            ..old(vcl)@
        }),
        spec_triggers_reload(*ev) ==> ((r is Render) <==> (template_accepted(template_text@)
            && json_accepted(vcl_data_json(final (vcl)@)) && rendered_of(
            template_text@,
            vcl_data_json(final (vcl)@),
        ) is Some)),
        r matches StepOutcome::Render(s) ==> Some(s@) == rendered_of(
            template_text@,
            vcl_data_json(final (vcl)@),
        ),
        r matches StepOutcome::RenderFailed(e) ==> (e is TemplateRegisterFailed
            || e is TemplateRenderFailed),
{
    match ev {
        IngressEvent::Init => StepOutcome::NoChange,
        IngressEvent::InitApply(o) => {
            handle_ingress_event(o, ingress_class_name, backends);
            StepOutcome::NoChange
        },
        IngressEvent::InitDone => {
            match reconcile_backends(vcl, backends, template_text) {
                Ok(s) => StepOutcome::Render(s),
                Err(e) => StepOutcome::RenderFailed(e),
            }
        },
        IngressEvent::Apply(o) => {
            handle_ingress_event(o, ingress_class_name, backends);
            match reconcile_backends(vcl, backends, template_text) {
                Ok(s) => StepOutcome::Render(s),
                Err(e) => StepOutcome::RenderFailed(e),
            }
        },
        IngressEvent::Delete(o) => {
            handle_ingress_delete(o, ingress_class_name, backends);
            match reconcile_backends(vcl, backends, template_text) {
                Ok(s) => StepOutcome::Render(s),
                Err(e) => StepOutcome::RenderFailed(e),
            }
        },
    }
}

// ---------------------------------------------------------------------------
// Laws of the reconciler
// ---------------------------------------------------------------------------
proof fn lemma_map_drop_last(s: Seq<EntryV>)
    requires
        wf_entries(s),
        s.len() > 0,
    ensures
        entries_map(s.drop_last()) == entries_map(s).remove(s.last().name),
{
    let f = s.drop_last();
    let k0 = s.last().name;
    assert(entries_map(f) =~= entries_map(s).remove(k0)) by {
        assert forall|k: Seq<char>| #[trigger]
            keys_has(f, k) == (keys_has(s, k) && k != k0) by {
            if keys_has(f, k) {
                let w = choose|w: int| 0 <= w < f.len() && f[w].name == k;
                assert(s[w].name == k);
                assert(lex_lt(s[w].name, k0));
                lemma_lex_trichotomy(s[w].name, k0);
            }
            if keys_has(s, k) && k != k0 {
                let w = choose|w: int| 0 <= w < s.len() && s[w].name == k;
                assert(w != s.len() - 1);
                assert(f[w].name == k);
            }
        }
        assert forall|k: Seq<char>| keys_has(f, k) implies #[trigger] entries_map(f)[k]
            == entries_map(s).remove(k0)[k] by {
            let w = key_idx(f, k);
            assert(0 <= w < f.len() && f[w].name == k);
            assert(s[w].name == k);
            assert(wf_entries(f)) by {
                assert forall|p: int, q: int| 0 <= p < q < f.len() implies lex_lt(
                    f[p].name,
                    f[q].name,
                ) by {
                    assert(f[p] == s[p] && f[q] == s[q]);
                }
            }
            lemma_key_idx_unique(f, w, k);
            lemma_key_idx_unique(s, w, k);
        }
    }
}

/// A store with strictly ascending keys is the canonical form of its map:
/// two such stores with equal maps are equal entry for entry.
pub proof fn lemma_store_canonical(s1: Seq<EntryV>, s2: Seq<EntryV>)
    requires
        wf_entries(s1),
        wf_entries(s2),
        entries_map(s1) == entries_map(s2),
    ensures
        s1 == s2,
    decreases s1.len(),
{
    if s1.len() == 0 {
        if s2.len() > 0 {
            assert(keys_has(s2, s2[0].name));
            assert(entries_map(s2).dom().contains(s2[0].name));
            assert(keys_has(s1, s2[0].name));
        }
        assert(s1 =~= s2);
    } else if s2.len() == 0 {
        assert(keys_has(s1, s1[0].name));
        assert(entries_map(s1).dom().contains(s1[0].name));
        assert(keys_has(s2, s1[0].name));
    } else {
        let k1 = s1.last().name;
        let k2 = s2.last().name;
        assert(keys_has(s1, k1)) by {
            assert(s1[s1.len() - 1].name == k1);
        }
        assert(keys_has(s2, k2)) by {
            assert(s2[s2.len() - 1].name == k2);
        }
        assert(entries_map(s1).dom().contains(k1));
        assert(keys_has(s2, k1));
        let w1 = choose|w: int| 0 <= w < s2.len() && s2[w].name == k1;
        assert(lex_le(k1, k2)) by {
            if w1 < s2.len() - 1 {
                assert(lex_lt(s2[w1].name, s2[s2.len() - 1].name));
            }
        }
        assert(entries_map(s2).dom().contains(k2));
        assert(keys_has(s1, k2));
        let w2 = choose|w: int| 0 <= w < s1.len() && s1[w].name == k2;
        assert(lex_le(k2, k1)) by {
            if w2 < s1.len() - 1 {
                assert(lex_lt(s1[w2].name, s1[s1.len() - 1].name));
            }
        }
        assert(k1 == k2) by {
            lemma_lex_trichotomy(k1, k2);
        }
        lemma_key_idx_unique(s1, s1.len() - 1, k1);
        lemma_key_idx_unique(s2, s2.len() - 1, k1);
        assert(entries_map(s1)[k1] == s1.last().backends);
        assert(entries_map(s2)[k1] == s2.last().backends);
        assert(s1.last() == s2.last());
        lemma_map_drop_last(s1);
        lemma_map_drop_last(s2);
        assert(wf_entries(s1.drop_last())) by {
            assert forall|p: int, q: int| 0 <= p < q < s1.drop_last().len() implies lex_lt(
                s1.drop_last()[p].name,
                s1.drop_last()[q].name,
            ) by {
                assert(s1.drop_last()[p] == s1[p] && s1.drop_last()[q] == s1[q]);
            }
        }
        assert(wf_entries(s2.drop_last())) by {
            assert forall|p: int, q: int| 0 <= p < q < s2.drop_last().len() implies lex_lt(
                s2.drop_last()[p].name,
                s2.drop_last()[q].name,
            ) by {
                assert(s2.drop_last()[p] == s2[p] && s2.drop_last()[q] == s2[q]);
            }
        }
        lemma_store_canonical(s1.drop_last(), s2.drop_last());
        assert(s1 =~= s2) by {
            assert forall|p: int| 0 <= p < s1.len() implies s1[p] == s2[p] by {
                if p < s1.len() - 1 {
                    assert(s1.drop_last()[p] == s2.drop_last()[p]);
                }
            }
        }
    }
}

/// Determinism of render: two stores holding the same per-Ingress map --
/// whatever order their contents were stashed in -- feed the template
/// engine byte-identical data, and so render byte-identical output. With
/// equal stores this also says a second render of an unchanged map equals
/// the first.
pub proof fn lemma_render_deterministic(
    s1: Seq<EntryV>,
    s2: Seq<EntryV>,
    snippet: Seq<char>,
    recv: Seq<char>,
    template: Seq<char>,
)
    requires
        wf_entries(s1),
        wf_entries(s2),
        entries_map(s1) == entries_map(s2),
    ensures
        data_json(spec_global_backends(s1), snippet, recv) == data_json(
            spec_global_backends(s2),
            snippet,
            recv,
        ),
        rendered_of(template, data_json(spec_global_backends(s1), snippet, recv)) == rendered_of(
            template,
            data_json(spec_global_backends(s2), snippet, recv),
        ),
{
    lemma_store_canonical(s1, s2);
}

proof fn lemma_global_contains(s: Seq<EntryV>)
    ensures
        forall|b: BackendV| #[trigger]
            spec_global_backends(s).contains(b) ==> exists|i: int|
                0 <= i < s.len() && (#[trigger] s[i]).backends.contains(b),
    decreases s.len(),
{
    if s.len() > 0 {
        let front = s.drop_last();
        lemma_global_contains(front);
        crate::vcl::lemma_sort_by_name_contains(s.last().backends);
        assert forall|b: BackendV| #[trigger] spec_global_backends(s).contains(b) implies exists|
            i: int,
        | 0 <= i < s.len() && (#[trigger] s[i]).backends.contains(b) by {
            let g = spec_global_backends(s);
            let k = choose|k: int| 0 <= k < g.len() && g[k] == b;
            let gf = spec_global_backends(front);
            if k < gf.len() {
                assert(gf.contains(b)) by {
                    assert(gf[k] == b);
                }
                let i = choose|i: int| 0 <= i < front.len() && (#[trigger] front[i]).backends.contains(b);
                assert(s[i] == front[i]);
                assert(s[i].backends.contains(b));
            } else {
                assert(sort_by_name(s.last().backends)[k - gf.len()] == b);
                assert(sort_by_name(s.last().backends).contains(b));
                assert(s.last().backends.contains(b));
                assert(s[s.len() - 1].backends.contains(b));
            }
        }
    }
}

proof fn lemma_backend_name_key_injective(ns: Seq<char>, k1: Seq<char>, k2: Seq<char>, svc: Seq<char>)
    requires
        backend_name(ns, k1, svc) == backend_name(ns, k2, svc),
    ensures
        k1 == k2,
{
    let n1 = backend_name(ns, k1, svc);
    let n2 = backend_name(ns, k2, svc);
    reveal_strlit("-");
    assert(n1.len() == ns.len() + 1 + k1.len() + 1 + svc.len());
    assert(n2.len() == ns.len() + 1 + k2.len() + 1 + svc.len());
    assert(k1.len() == k2.len());
    assert(k1 =~= k2) by {
        assert forall|t: int| 0 <= t < k1.len() implies k1[t] == k2[t] by {
            assert(n1[ns.len() + 1 + t] == k1[t]);
            assert(n2[ns.len() + 1 + t] == k2[t]);
        }
    }
}

/// Delete removes: once the store holds no entry for a key, no backend of
/// the rendered global list carries the name that key would have given it.
/// The backends of a deleted Ingress are exactly those named
/// `<their namespace>-<the key>-<their service>`, so none of them survives.
pub proof fn lemma_delete_removes(s: Seq<EntryV>, k: Seq<char>)
    requires
        names_consistent(s),
        !keys_has(s, k),
    ensures
        forall|b: BackendV| #[trigger]
            spec_global_backends(s).contains(b) ==> b.name != backend_name(
                b.namespace,
                k,
                b.service,
            ),
{
    lemma_global_contains(s);
    assert forall|b: BackendV| #[trigger] spec_global_backends(s).contains(b) implies b.name
        != backend_name(b.namespace, k, b.service) by {
        let i = choose|i: int| 0 <= i < s.len() && (#[trigger] s[i]).backends.contains(b);
        let j = choose|j: int| 0 <= j < s[i].backends.len() && s[i].backends[j] == b;
        assert(b.name == backend_name(b.namespace, s[i].name, b.service));
        if b.name == backend_name(b.namespace, k, b.service) {
            lemma_backend_name_key_injective(b.namespace, s[i].name, k, b.service);
            assert(keys_has(s, k));
        }
    }
}

proof fn lemma_hyphen_prefix(
    ns1: Seq<char>,
    k1: Seq<char>,
    rest1: Seq<char>,
    ns2: Seq<char>,
    k2: Seq<char>,
)
    requires
        hyphen_free(ns1),
        hyphen_free(k1),
        hyphen_free(ns2),
        hyphen_free(k2),
        starts_with(ns1 + "-"@ + k1 + "-"@ + rest1, ns2 + "-"@ + k2 + "-"@),
    ensures
        ns1 == ns2,
        k1 == k2,
{
    reveal_strlit("-");
    let name = ns1 + "-"@ + k1 + "-"@ + rest1;
    let p = ns2 + "-"@ + k2 + "-"@;
    assert(forall|i: int| 0 <= i < p.len() ==> #[trigger] p[i] == name[i]) by {
        assert(forall|i: int| 0 <= i < p.len() ==> name.take(p.len() as int)[i] == name[i]);
    }
    assert(name[ns1.len() as int] == '-');
    assert(p[ns2.len() as int] == '-');
    assert(ns1.len() == ns2.len()) by {
        if ns2.len() < ns1.len() {
            assert(name[ns2.len() as int] == ns1[ns2.len() as int]);
            assert(p[ns2.len() as int] == '-');
        } else if ns2.len() > ns1.len() {
            assert(p[ns1.len() as int] == ns2[ns1.len() as int]);
            assert(name[ns1.len() as int] == '-');
        }
    }
    assert(ns1 =~= ns2) by {
        assert forall|i: int| 0 <= i < ns1.len() implies ns1[i] == ns2[i] by {
            assert(name[i] == ns1[i]);
            assert(p[i] == ns2[i]);
        }
    }
    let off = ns1.len() + 1;
    assert(name[(off + k1.len()) as int] == '-');
    assert(p[(off + k2.len()) as int] == '-');
    assert(k1.len() == k2.len()) by {
        if k2.len() < k1.len() {
            assert(name[(off + k2.len()) as int] == k1[k2.len() as int]);
        } else if k2.len() > k1.len() {
            assert(p[(off + k1.len()) as int] == k2[k1.len() as int]);
            assert(name[(off + k1.len()) as int] == '-');
        }
    }
    assert(k1 =~= k2) by {
        assert forall|i: int| 0 <= i < k1.len() implies k1[i] == k2[i] by {
            assert(name[off + i] == k1[i]);
            assert(p[off + i] == k2[i]);
        }
    }
}

/// Delete removes, in the prefix form: where namespaces and Ingress names
/// themselves carry no hyphen -- the hyphen is then a reliable separator
/// inside backend names -- no backend of the rendered global list begins
/// with `<namespace>-<ingressName>-` once the key `k` has left the store.
pub proof fn lemma_delete_removes_prefix(s: Seq<EntryV>, ns: Seq<char>, k: Seq<char>)
    requires
        names_consistent(s),
        !keys_has(s, k),
        hyphen_free(ns),
        hyphen_free(k),
        forall|i: int| 0 <= i < s.len() ==> hyphen_free((#[trigger] s[i]).name),
        forall|i: int, j: int|
            0 <= i < s.len() && 0 <= j < s[i].backends.len() ==> hyphen_free(
                (#[trigger] s[i].backends[j]).namespace,
            ),
    ensures
        forall|b: BackendV| #[trigger]
            spec_global_backends(s).contains(b) ==> !starts_with(b.name, ns + "-"@ + k + "-"@),
{
    lemma_global_contains(s);
    assert forall|b: BackendV| #[trigger] spec_global_backends(s).contains(b) implies !starts_with(
        b.name,
        ns + "-"@ + k + "-"@,
    ) by {
        let i = choose|i: int| 0 <= i < s.len() && (#[trigger] s[i]).backends.contains(b);
        let j = choose|j: int| 0 <= j < s[i].backends.len() && s[i].backends[j] == b;
        assert(b.name == backend_name(b.namespace, s[i].name, b.service));
        assert(hyphen_free(b.namespace));
        if starts_with(b.name, ns + "-"@ + k + "-"@) {
            lemma_hyphen_prefix(b.namespace, s[i].name, b.service, ns, k);
            assert(s[i].name == k);
            assert(keys_has(s, k));
        }
    }
}

/// The map after a whole stream of events.
pub open spec fn apply_events(
    m: Map<Seq<char>, Seq<BackendV>>,
    evs: Seq<IngressEvent>,
    class: Seq<char>,
) -> Map<Seq<char>, Seq<BackendV>>
    decreases evs.len(),
{
    if evs.len() == 0 {
        m
    } else {
        spec_apply_event(apply_events(m, evs.drop_last(), class), evs.last(), class)
    }
}

/// How many reloads a stream of events asks for.
pub open spec fn reload_count(evs: Seq<IngressEvent>) -> nat
    decreases evs.len(),
{
    if evs.len() == 0 {
        0
    } else {
        reload_count(evs.drop_last()) + (if spec_triggers_reload(evs.last()) {
            1nat
        } else {
            0nat
        })
    }
}

/// The initial list, one `InitApply` per object.
pub open spec fn init_apply_events(objs: Seq<IngressObj>) -> Seq<IngressEvent> {
    objs.map_values(|o: IngressObj| IngressEvent::InitApply(o))
}

pub proof fn lemma_apply_events_concat(
    m: Map<Seq<char>, Seq<BackendV>>,
    a: Seq<IngressEvent>,
    b: Seq<IngressEvent>,
    class: Seq<char>,
)
    ensures
        apply_events(m, a + b, class) == apply_events(apply_events(m, a, class), b, class),
        reload_count(a + b) == reload_count(a) + reload_count(b),
    decreases b.len(),
{
    if b.len() == 0 {
        assert(a + b =~= a);
    } else {
        assert((a + b).drop_last() =~= a + b.drop_last());
        assert((a + b).last() == b.last());
        lemma_apply_events_concat(m, a, b.drop_last(), class);
    }
}

proof fn lemma_init_applies_quiet(objs: Seq<IngressObj>)
    ensures
        reload_count(init_apply_events(objs)) == 0,
    decreases objs.len(),
{
    let evs = init_apply_events(objs);
    if objs.len() > 0 {
        lemma_init_applies_quiet(objs.drop_last());
        assert(evs.drop_last() =~= init_apply_events(objs.drop_last()));
        assert(evs.last() == IngressEvent::InitApply(objs.last()));
    }
}

/// InitDone fuses reloads: a startup stream -- the `Init` marker, any
/// number of `InitApply` stashes, then `InitDone` -- asks for exactly one
/// reload, and the map it renders is the one all the stashes built
/// together.
pub proof fn lemma_initdone_fuses_reloads(
    m0: Map<Seq<char>, Seq<BackendV>>,
    objs: Seq<IngressObj>,
    class: Seq<char>,
)
    ensures
        reload_count(seq![IngressEvent::Init] + init_apply_events(objs) + seq![IngressEvent::InitDone])
            == 1,
        apply_events(
            m0,
            seq![IngressEvent::Init] + init_apply_events(objs) + seq![IngressEvent::InitDone],
            class,
        ) == apply_events(m0, init_apply_events(objs), class),
{
    let pre = seq![IngressEvent::Init];
    let mid = init_apply_events(objs);
    let post = seq![IngressEvent::InitDone];
    lemma_apply_events_concat(m0, pre + mid, post, class);
    lemma_apply_events_concat(m0, pre, mid, class);
    lemma_init_applies_quiet(objs);
    assert(reload_count(Seq::<IngressEvent>::empty()) == 0);
    assert(pre.drop_last() =~= Seq::<IngressEvent>::empty());
    assert(post.drop_last() =~= Seq::<IngressEvent>::empty());
    assert(reload_count(pre) == 0) by {
        assert(pre.last() == IngressEvent::Init);
        assert(reload_count(pre.drop_last()) == 0);
    }
    assert(reload_count(post) == 1) by {
        assert(post.last() == IngressEvent::InitDone);
        assert(reload_count(post.drop_last()) == 0);
    }
    assert(apply_events(m0, Seq::<IngressEvent>::empty(), class) == m0);
    assert(apply_events(m0, pre, class) == m0) by {
        assert(apply_events(m0, pre.drop_last(), class) == m0);
        assert(pre.last() == IngressEvent::Init);
    }
    let s = apply_events(m0, pre + mid, class);
    assert(apply_events(m0, (pre + mid) + post, class) == spec_apply_event(
        s,
        IngressEvent::InitDone,
        class,
    )) by {
        assert(apply_events(s, Seq::<IngressEvent>::empty(), class) == s);
        assert(apply_events(s, post.drop_last(), class) == s);
        assert(post.last() == IngressEvent::InitDone);
    }
}

// ---------------------------------------------------------------------------
// Choosing the Ingresses whose status is patched
// ---------------------------------------------------------------------------
/// Which Ingresses the status publisher patches, as `(name, namespace)`
/// pairs in list order: those of the controller's class that carry a
/// status stanza. Name defaults to the empty string, namespace to
/// `default`.
pub open spec fn spec_patch_targets(s: Seq<IngressObj>, class: Seq<char>) -> Seq<
    (Seq<char>, Seq<char>),
>
    decreases s.len(),
{
    if s.len() == 0 {
        Seq::<(Seq<char>, Seq<char>)>::empty()
    } else {
        spec_patch_targets(s.drop_last(), class) + (if spec_is_varnish_class(s.last(), class)
            && s.last().has_status {
            seq![(opt_str(s.last().name, ""@), opt_str(s.last().namespace, "default"@))]
        } else {
            Seq::<(Seq<char>, Seq<char>)>::empty()
        })
    }
}

/// Retain the Ingresses whose status the publisher patches: those whose
/// `spec.ingressClassName` equals the configured class (ASCII case
/// ignored, as in the reconciler) and which already carry a status stanza.
pub fn select_patch_targets(ingresses: &Vec<IngressObj>, ingress_class_name: &str) -> (r: Vec<
    (String, String),
>)
    ensures
        pair_views(r@) == spec_patch_targets(ingresses@, ingress_class_name@),
{
    let mut r: Vec<(String, String)> = Vec::new();
    let n = ingresses.len();
    let mut i: usize = 0;
    proof {
        assert(pair_views(r@) =~= Seq::<(Seq<char>, Seq<char>)>::empty());
        assert(ingresses@.take(0) =~= Seq::<IngressObj>::empty());
    }
    while i < n
        invariant
            n == ingresses@.len(),
            i <= n,
            pair_views(r@) == spec_patch_targets(ingresses@.take(i as int), ingress_class_name@),
        decreases n - i,
    {
        let ing = &ingresses[i];
        let ghost prev = r@;
        if is_varnish_class(ing, ingress_class_name) && ing.has_status {
            let name = match &ing.name {
                Some(s) => s.clone(),
                None => String::from_str(""),
            };
            let namespace = match &ing.namespace {
                Some(s) => s.clone(),
                None => String::from_str("default"),
            };
            r.push((name, namespace));
        }
        proof {
            assert(ingresses@.take(i + 1).drop_last() =~= ingresses@.take(i as int));
            assert(ingresses@.take(i + 1).last() == ingresses@[i as int]);
            assert(pair_views(r@) =~= spec_patch_targets(
                ingresses@.take(i + 1),
                ingress_class_name@,
            ));
        }
        i = i + 1;
    }
    proof {
        assert(ingresses@.take(n as int) =~= ingresses@);
    }
    r
}

} // verus!
