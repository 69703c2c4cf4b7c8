//! The Service watcher's translation of the controller's own Service into
//! the canonical load-balancer address list, the order in which that list
//! is published, and the status patch built from it.
use vstd::prelude::*;
use vstd::multiset::Multiset;
use vstd::seq_lib::lemma_multiset_commutative;

use crate::jsontext::append_json_string_str;
use crate::jsontext::json_string;
use crate::text::append_str;
use crate::text::from_chars;
use crate::text::lemma_lex_transitive;
use crate::text::lemma_lex_trichotomy;
use crate::text::lex_le;
use crate::text::lex_lt;
use crate::text::str_eq;
use crate::text::str_lt;
use crate::vcl::UpdateError;

verus! {

broadcast use vstd::seq_lib::group_to_multiset_ensures;

/// The label selector under which the controller's own Service is
/// watched.
pub fn pod_labels() -> (r: &'static str)
    ensures
        r@ == "app=varnish-ingress-controller"@,
{
    "app=varnish-ingress-controller"
}

/// One published load-balancer address: an IP, a hostname, or both.
#[derive(Debug)]
pub struct LbAddress {
    pub ip: Option<String>,
    pub hostname: Option<String>,
}

/// The mathematical value of an address.
pub struct LbAddressV {
    pub ip: Option<Seq<char>>,
    pub hostname: Option<Seq<char>>,
}

/// The characters of an optional string.
pub open spec fn opt_view(o: Option<String>) -> Option<Seq<char>> {
    match o {
        Some(s) => Some(s@),
        None => None,
    }
}

impl View for LbAddress {
    type V = LbAddressV;

    open spec fn view(&self) -> LbAddressV {
        LbAddressV { ip: opt_view(self.ip), hostname: opt_view(self.hostname) }
    }
}

impl Clone for LbAddress {
    fn clone(&self) -> (r: Self)
        ensures
            r == *self,
    {
        let ip = match &self.ip {
            Some(s) => Some(s.clone()),
            None => None,
        };
        let hostname = match &self.hostname {
            Some(s) => Some(s.clone()),
            None => None,
        };
        LbAddress { ip, hostname }
    }
}

/// The values of a sequence of addresses.
pub open spec fn addr_views(s: Seq<LbAddress>) -> Seq<LbAddressV> {
    s.map_values(|a: LbAddress| a@)
}

/// What a Service's `spec` holds of interest here.
pub struct ServiceSpecObj {
    pub type_: Option<String>,
    pub cluster_ip: Option<String>,
    pub external_name: Option<String>,
    pub external_ips: Option<Vec<String>>,
}

/// An observed Service, reduced to what the status publisher reads:
/// its spec and `status.loadBalancer.ingress` when all three levels are
/// present.
pub struct ServiceObj {
    pub spec: Option<ServiceSpecObj>,
    pub lb_ingress: Option<Vec<LbAddress>>,
}

/// The external IPs of a spec, as character sequences.
pub open spec fn ext_ips(sp: ServiceSpecObj) -> Seq<Seq<char>> {
    match sp.external_ips {
        Some(v) => v@.map_values(|s: String| s@),
        None => Seq::<Seq<char>>::empty(),
    }
}

/// Whether some address of `base` already carries the IP `ip`.
pub open spec fn base_has_ip(base: Seq<LbAddressV>, ip: Seq<char>) -> bool {
    exists|i: int| 0 <= i < base.len() && base[i].ip == Some(ip)
}

/// The external IPs appended after a LoadBalancer's own ingress list:
/// those not already present as an IP of `base`, in list order.
pub open spec fn lb_extra(base: Seq<LbAddressV>, ext: Seq<Seq<char>>) -> Seq<LbAddressV>
    decreases ext.len(),
{
    if ext.len() == 0 {
        Seq::<LbAddressV>::empty()
    } else {
        lb_extra(base, ext.drop_last()) + (if base_has_ip(base, ext.last()) {
            Seq::<LbAddressV>::empty()
        } else {
            seq![LbAddressV { ip: Some(ext.last()), hostname: None }]
        })
    }
}

/// The canonical translation of a Service's shape into addresses:
/// `ExternalName` gives its name as a hostname; `ClusterIP` its cluster
/// IP; `NodePort` its external IPs, or the cluster IP when there are
/// none; `LoadBalancer` its own ingress list followed by the external
/// IPs not already present. A missing required field or an unknown or
/// absent type is an error.
pub open spec fn spec_translate(svc: ServiceObj) -> Result<Seq<LbAddressV>, UpdateError> {
    match svc.spec {
        None => Err(UpdateError::UnknownServiceType),
        Some(sp) => if opt_view(sp.type_) == Some("ExternalName"@) {
            match sp.external_name {
                Some(en) => Ok(seq![LbAddressV { ip: None, hostname: Some(en@) }]),
                None => Err(UpdateError::ExternalNameMissing),
            }
        } else if opt_view(sp.type_) == Some("ClusterIP"@) {
            match sp.cluster_ip {
                Some(cip) => Ok(seq![LbAddressV { ip: Some(cip@), hostname: None }]),
                None => Err(UpdateError::ClusterIPMissing),
            }
        } else if opt_view(sp.type_) == Some("NodePort"@) {
            match sp.cluster_ip {
                Some(cip) => if ext_ips(sp).len() == 0 {
                    Ok(seq![LbAddressV { ip: Some(cip@), hostname: None }])
                } else {
                    Ok(ext_ips(sp).map_values(|ip: Seq<char>| LbAddressV { ip: Some(ip), hostname: None }))
                },
                None => Err(UpdateError::ClusterIPMissing),
            }
        } else if opt_view(sp.type_) == Some("LoadBalancer"@) {
            let base = match svc.lb_ingress {
                Some(v) => addr_views(v@),
                None => Seq::<LbAddressV>::empty(),
            };
            Ok(base + lb_extra(base, ext_ips(sp)))
        } else {
            Err(UpdateError::UnknownServiceType)
        },
    }
}

/// Translate an observed Service into its load-balancer address list.
/// Succeeds if and only if the canonical translation does; the error names
/// the missing field, or the unknown or absent type.
pub fn update_status_from_svc(svc: &ServiceObj) -> (r: Result<Vec<LbAddress>, UpdateError>)
    ensures
        r is Ok <==> spec_translate(*svc) is Ok,
        r matches Ok(v) ==> addr_views(v@) == spec_translate(*svc)->Ok_0,
        r matches Err(e) ==> e == spec_translate(*svc)->Err_0 && (e is UnknownServiceType
            || e is ClusterIPMissing || e is ExternalNameMissing),
{
    let sp = match &svc.spec {
        Some(sp) => sp,
        None => {
            return Err(UpdateError::UnknownServiceType);
        },
    };
    let ty = match &sp.type_ {
        Some(t) => t,
        None => {
            return Err(UpdateError::UnknownServiceType);
        },
    };
    if str_eq(ty.as_str(), "ExternalName") {
        match &sp.external_name {
            Some(en) => {
                let mut v: Vec<LbAddress> = Vec::new();
                v.push(LbAddress { ip: None, hostname: Some(en.clone()) });
                proof {
                    assert(addr_views(v@) =~= spec_translate(*svc)->Ok_0);
                }
                Ok(v)
            },
            None => Err(UpdateError::ExternalNameMissing),
        }
    } else if str_eq(ty.as_str(), "ClusterIP") {
        match &sp.cluster_ip {
            Some(cip) => {
                let mut v: Vec<LbAddress> = Vec::new();
                v.push(LbAddress { ip: Some(cip.clone()), hostname: None });
                proof {
                    assert(addr_views(v@) =~= spec_translate(*svc)->Ok_0);
                }
                Ok(v)
            },
            None => Err(UpdateError::ClusterIPMissing),
        }
    } else if str_eq(ty.as_str(), "NodePort") {
        let cip = match &sp.cluster_ip {
            Some(cip) => cip,
            None => {
                return Err(UpdateError::ClusterIPMissing);
            },
        };
        let empty_ext = match &sp.external_ips {
            Some(ips) => ips.len() == 0,
            None => true,
        };
        if empty_ext {
            let mut v: Vec<LbAddress> = Vec::new();
            v.push(LbAddress { ip: Some(cip.clone()), hostname: None });
            proof {
                assert(addr_views(v@) =~= spec_translate(*svc)->Ok_0);
            }
            Ok(v)
        } else {
            let ips = match &sp.external_ips {
                Some(ips) => ips,
                None => {
                    return Err(UpdateError::ClusterIPMissing);
                },
            };
            let mut v: Vec<LbAddress> = Vec::new();
            let n = ips.len();
            let mut i: usize = 0;
            while i < n
                invariant
                    n == ips@.len(),
                    i <= n,
                    v@.len() == i,
                    sp.external_ips matches Some(xs) && xs@ == ips@,
                    forall|k: int|
                        0 <= k < i ==> (#[trigger] v@[k])@ == (LbAddressV {
                            ip: Some(ips@[k]@),
                            hostname: None,
                        }),
                decreases n - i,
            {
                v.push(LbAddress { ip: Some(ips[i].clone()), hostname: None });
                i = i + 1;
            }
            proof {
                assert(addr_views(v@) =~= ext_ips(*sp).map_values(
                    |ip: Seq<char>| LbAddressV { ip: Some(ip), hostname: None },
                ));
            }
            Ok(v)
        }
    } else if str_eq(ty.as_str(), "LoadBalancer") {
        let mut v: Vec<LbAddress> = Vec::new();
        match &svc.lb_ingress {
            Some(base) => {
                let n = base.len();
                let mut i: usize = 0;
                while i < n
                    invariant
                        n == base@.len(),
                        i <= n,
                        svc.lb_ingress matches Some(bb) && bb@ == base@,
                        v@ == base@.take(i as int),
                    decreases n - i,
                {
                    v.push(base[i].clone());
                    proof {
                        assert(v@ =~= base@.take(i + 1));
                    }
                    i = i + 1;
                }
                proof {
                    assert(base@.take(n as int) =~= base@);
                    assert(v@ =~= base@);
                }
            },
            None => {},
        }
        let ghost basev = addr_views(v@);
        proof {
            assert(basev =~= (match svc.lb_ingress {
                Some(b) => addr_views(b@),
                None => Seq::<LbAddressV>::empty(),
            }));
        }
        let base_len = v.len();
        match &sp.external_ips {
            None => {
                proof {
                    assert(ext_ips(*sp) =~= Seq::<Seq<char>>::empty());
                    assert(addr_views(v@) =~= basev + lb_extra(basev, ext_ips(*sp)));
                }
            },
            Some(ips) => {
                let n = ips.len();
                let mut i: usize = 0;
                proof {
                    assert(ext_ips(*sp).take(0) =~= Seq::<Seq<char>>::empty());
                    assert(addr_views(v@) =~= basev + lb_extra(basev, ext_ips(*sp).take(0)));
                }
                while i < n
                    invariant
                        n == ips@.len(),
                        i <= n,
                        sp.external_ips matches Some(xs) && xs@ == ips@,
                        base_len <= v@.len(),
                        addr_views(v@.take(base_len as int)) == basev,
                        addr_views(v@) == basev + lb_extra(basev, ext_ips(*sp).take(i as int)),
                    decreases n - i,
                {
                    let ip = &ips[i];
                    // does the base list already carry this IP?
                    let mut seen = false;
                    let mut j: usize = 0;
                    while j < base_len
                        invariant
                            j <= base_len,
                            base_len <= v@.len(),
                            addr_views(v@.take(base_len as int)) == basev,
                            ip@ == ips@[i as int]@,
                            i < n,
                            n == ips@.len(),
                            seen == exists|k: int|
                                0 <= k < j && basev[k].ip == Some(ip@),
                        decreases base_len - j,
                    {
                        match &v[j].ip {
                            Some(vip) => {
                                if str_eq(vip.as_str(), ip.as_str()) {
                                    proof {
                                        assert(addr_views(v@.take(base_len as int))[j as int]
                                            == v@[j as int]@);
                                        assert(basev[j as int].ip == Some(ip@));
                                    }
                                    seen = true;
                                }
                            },
                            None => {},
                        }
                        proof {
                            assert(addr_views(v@.take(base_len as int))[j as int] == v@[j as int]@);
                        }
                        j = j + 1;
                    }
                    proof {
                        assert(basev.len() == base_len as int);
                        assert(seen == base_has_ip(basev, ip@));
                    }
                    let ghost prev = v@;
                    if !seen {
                        v.push(LbAddress { ip: Some(ip.clone()), hostname: None });
                    }
                    proof {
                        let ext = ext_ips(*sp);
                        assert(ext.take(i + 1).drop_last() =~= ext.take(i as int));
                        assert(ext.take(i + 1).last() == ext[i as int]);
                        assert(ext[i as int] == ips@[i as int]@);
                        assert(lb_extra(basev, ext.take(i + 1)) == lb_extra(basev, ext.take(i as int))
                            + (if base_has_ip(basev, ext[i as int]) {
                            Seq::<LbAddressV>::empty()
                        } else {
                            seq![LbAddressV { ip: Some(ext[i as int]), hostname: None }]
                        }));
                        if seen {
                            assert(addr_views(v@) =~= basev + lb_extra(basev, ext.take(i + 1)));
                        } else {
                            assert(addr_views(v@) =~= addr_views(prev).push(
                                LbAddressV { ip: Some(ip@), hostname: None },
                            ));
                            assert(addr_views(v@) =~= basev + lb_extra(basev, ext.take(i + 1)));
                        }
                        assert(v@.take(base_len as int) =~= prev.take(base_len as int));
                    }
                    i = i + 1;
                }
                proof {
                    assert(ext_ips(*sp).take(n as int) =~= ext_ips(*sp));
                }
            },
        }
        Ok(v)
    } else {
        Err(UpdateError::UnknownServiceType)
    }
}

// ---------------------------------------------------------------------------
// The published order
// ---------------------------------------------------------------------------
/// The publication order: an address with an IP before one without;
/// within the IP group, ascending IPs; addresses without an IP are never
/// reordered among themselves.
pub open spec fn addr_lt(a: LbAddressV, b: LbAddressV) -> bool {
    match (a.ip, b.ip) {
        (Some(x), Some(y)) => lex_lt(x, y),
        (Some(x), None) => true,
        (None, Some(y)) => false,
        (None, None) => false,
    }
}

/// Stable insertion of `x` behind every entry it does not strictly
/// precede.
pub open spec fn insert_addr(x: LbAddressV, s: Seq<LbAddressV>) -> Seq<LbAddressV>
    decreases s.len(),
{
    if s.len() == 0 {
        seq![x]
    } else if addr_lt(x, s[0]) {
        seq![x] + s
    } else {
        seq![s[0]] + insert_addr(x, s.skip(1))
    }
}

/// Stable sort of addresses under the publication order.
pub open spec fn sort_addrs(s: Seq<LbAddressV>) -> Seq<LbAddressV>
    decreases s.len(),
{
    if s.len() == 0 {
        Seq::<LbAddressV>::empty()
    } else {
        insert_addr(s.last(), sort_addrs(s.drop_last()))
    }
}

/// No pair of the sequence is inverted under the publication order.
pub open spec fn sorted_addrs(s: Seq<LbAddressV>) -> bool {
    forall|i: int, j: int| 0 <= i < j < s.len() ==> !addr_lt(s[j], s[i])
}

proof fn lemma_addr_lt_trans(a: LbAddressV, b: LbAddressV, c: LbAddressV)
    requires
        addr_lt(a, b),
        addr_lt(b, c),
    ensures
        addr_lt(a, c),
{
    match (a.ip, c.ip) {
        (Some(x), Some(z)) => {
            match b.ip {
                Some(y) => {
                    lemma_lex_transitive(x, y, z);
                },
                None => {},
            }
        },
        _ => {},
    }
}

proof fn lemma_addr_le_trans(a: LbAddressV, b: LbAddressV, c: LbAddressV)
    requires
        !addr_lt(b, a),
        !addr_lt(c, b),
    ensures
        !addr_lt(c, a),
{
    match (c.ip, a.ip) {
        (Some(z), Some(x)) => {
            match b.ip {
                Some(y) => {
                    if lex_lt(z, x) {
                        lemma_lex_trichotomy(y, x);
                        lemma_lex_trichotomy(z, y);
                        if x != y && z != y {
                            lemma_lex_transitive(x, y, z);
                            lemma_lex_trichotomy(z, x);
                        }
                    }
                },
                None => {},
            }
        },
        _ => {},
    }
}

proof fn lemma_insert_addr_props(x: LbAddressV, s: Seq<LbAddressV>)
    requires
        sorted_addrs(s),
    ensures
        sorted_addrs(insert_addr(x, s)),
        insert_addr(x, s).len() == s.len() + 1,
        forall|k: int|
            0 <= k < insert_addr(x, s).len() ==> (insert_addr(x, s)[k] == x || s.contains(
                insert_addr(x, s)[k],
            )),
        insert_addr(x, s).to_multiset() == s.to_multiset().insert(x),
    decreases s.len(),
{
    let r = insert_addr(x, s);
    if s.len() == 0 {
        assert(r =~= Seq::<LbAddressV>::empty().push(x));
        assert(r.to_multiset() =~= s.to_multiset().insert(x)) by {
            assert(s =~= Seq::<LbAddressV>::empty());
            assert(Seq::<LbAddressV>::empty().push(x).to_multiset() =~= Seq::<
                LbAddressV,
            >::empty().to_multiset().insert(x));
        }
    } else if addr_lt(x, s[0]) {
        assert(r == seq![x] + s);
        assert forall|i: int, j: int| 0 <= i < j < r.len() implies !addr_lt(r[j], r[i]) by {
            if i == 0 {
                assert(r[j] == s[j - 1]);
                if j - 1 == 0 {
                    lemma_addr_irrefl_pair(x, s[0]);
                } else {
                    assert(!addr_lt(s[j - 1], s[0]));
                    if addr_lt(s[j - 1], x) {
                        lemma_addr_lt_trans(s[j - 1], x, s[0]);
                    }
                }
            } else {
                assert(r[i] == s[i - 1] && r[j] == s[j - 1]);
            }
        }
        assert forall|k: int| 0 <= k < r.len() implies (r[k] == x || s.contains(r[k])) by {
            if k > 0 {
                assert(r[k] == s[k - 1]);
            }
        }
        assert(r.to_multiset() =~= s.to_multiset().insert(x)) by {
            lemma_multiset_commutative(seq![x], s);
            assert(seq![x] =~= Seq::<LbAddressV>::empty().push(x));
            assert(seq![x].to_multiset() =~= Multiset::<LbAddressV>::empty().insert(x));
        }
    } else {
        let tail = s.skip(1);
        assert(sorted_addrs(tail)) by {
            assert forall|i: int, j: int| 0 <= i < j < tail.len() implies !addr_lt(
                tail[j],
                tail[i],
            ) by {
                assert(tail[i] == s[i + 1] && tail[j] == s[j + 1]);
            }
        }
        lemma_insert_addr_props(x, tail);
        let rt = insert_addr(x, tail);
        assert forall|i: int, j: int| 0 <= i < j < r.len() implies !addr_lt(r[j], r[i]) by {
            if i == 0 {
                assert(r[j] == rt[j - 1]);
                if rt[j - 1] == x {
                    assert(!addr_lt(x, s[0]));
                } else {
                    assert(tail.contains(rt[j - 1]));
                    let w = choose|w: int| 0 <= w < tail.len() && tail[w] == rt[j - 1];
                    assert(s[w + 1] == rt[j - 1]);
                    assert(!addr_lt(s[w + 1], s[0]));
                }
            } else {
                assert(r[i] == rt[i - 1] && r[j] == rt[j - 1]);
            }
        }
        assert forall|k: int| 0 <= k < r.len() implies (r[k] == x || s.contains(r[k])) by {
            if k == 0 {
                assert(s[0] == r[0]);
                assert(s.contains(s[0]));
            } else {
                assert(r[k] == rt[k - 1]);
                if rt[k - 1] != x {
                    assert(tail.contains(rt[k - 1]));
                    let w = choose|w: int| 0 <= w < tail.len() && tail[w] == rt[k - 1];
                    assert(s[w + 1] == rt[k - 1]);
                    assert(s.contains(s[w + 1]));
                }
            }
        }
        assert(r.to_multiset() =~= s.to_multiset().insert(x)) by {
            lemma_multiset_commutative(seq![s[0]], rt);
            lemma_multiset_commutative(seq![s[0]], tail);
            assert(seq![s[0]] + tail =~= s);
            assert(seq![s[0]] =~= Seq::<LbAddressV>::empty().push(s[0]));
            assert(seq![s[0]].to_multiset() =~= Multiset::<LbAddressV>::empty().insert(s[0]));
        }
    }
}

proof fn lemma_addr_irrefl_pair(a: LbAddressV, b: LbAddressV)
    ensures
        !(addr_lt(a, b) && addr_lt(b, a)),
{
    match (a.ip, b.ip) {
        (Some(x), Some(y)) => {
            lemma_lex_trichotomy(x, y);
        },
        _ => {},
    }
}

/// The address sort: the result is free of inversions, a permutation of
/// the input, every address with an IP precedes every address without
/// one, and the IPs ascend.
pub proof fn lemma_sort_addrs_order(s: Seq<LbAddressV>)
    ensures
        sorted_addrs(sort_addrs(s)),
        sort_addrs(s).len() == s.len(),
        sort_addrs(s).to_multiset() == s.to_multiset(),
        forall|i: int, j: int|
            0 <= i < j < sort_addrs(s).len() ==> !((#[trigger] sort_addrs(s)[i]).ip is None
                && (#[trigger] sort_addrs(s)[j]).ip is Some),
        forall|i: int, j: int|
            0 <= i < j < sort_addrs(s).len() ==> (((#[trigger] sort_addrs(s)[i]).ip is Some
                && (#[trigger] sort_addrs(s)[j]).ip is Some) ==> lex_le(
                sort_addrs(s)[i].ip->0,
                sort_addrs(s)[j].ip->0,
            )),
    decreases s.len(),
{
    if s.len() > 0 {
        lemma_sort_addrs_order(s.drop_last());
        lemma_insert_addr_props(s.last(), sort_addrs(s.drop_last()));
        assert(sort_addrs(s).to_multiset() =~= s.to_multiset()) by {
            assert(s.drop_last().push(s.last()) =~= s);
            assert(s.drop_last().push(s.last()).to_multiset() == s.drop_last().to_multiset().insert(
                s.last(),
            ));
        }
    }
    let r = sort_addrs(s);
    assert forall|i: int, j: int| 0 <= i < j < r.len() implies !((#[trigger] r[i]).ip is None && (
    #[trigger] r[j]).ip is Some) by {
        if r[i].ip is None && r[j].ip is Some {
            assert(addr_lt(r[j], r[i]));
        }
    }
    assert forall|i: int, j: int| 0 <= i < j < r.len() implies (((#[trigger] r[i]).ip is Some && (
    #[trigger] r[j]).ip is Some) ==> lex_le(r[i].ip->0, r[j].ip->0)) by {
        if r[i].ip is Some && r[j].ip is Some {
            assert(!addr_lt(r[j], r[i]));
            lemma_lex_trichotomy(r[i].ip->0, r[j].ip->0);
        }
    }
}

/// Sort the address list for publication: entries with an IP first, in
/// ascending IP order; entries without an IP after them, in their given
/// order.
pub fn sort_load_balancer_ingresses(lbi: Vec<LbAddress>) -> (r: Vec<LbAddress>)
    ensures
        addr_views(r@) == sort_addrs(addr_views(lbi@)),
{
    let ghost iv = addr_views(lbi@);
    let mut out: Vec<LbAddress> = Vec::new();
    let n = lbi.len();
    let mut i: usize = 0;
    proof {
        assert(addr_views(out@) =~= sort_addrs(iv.take(0)));
    }
    while i < n
        invariant
            n == lbi@.len(),
            iv == addr_views(lbi@),
            i <= n,
            addr_views(out@) == sort_addrs(iv.take(i as int)),
        decreases n - i,
    {
        let a = lbi[i].clone();
        proof {
            lemma_sort_addrs_sorted_only(iv.take(i as int));
        }
        let mut j: usize = 0;
        let m = out.len();
        loop
            invariant
                m == out@.len(),
                j <= m,
                a@ == iv[i as int],
                forall|k: int| 0 <= k < j ==> !addr_lt(a@, #[trigger] addr_views(out@)[k]),
            ensures
                j <= m,
                m == out@.len(),
                a@ == iv[i as int],
                forall|k: int| 0 <= k < j ==> !addr_lt(a@, #[trigger] addr_views(out@)[k]),
                j < m ==> addr_lt(a@, addr_views(out@)[j as int]),
            decreases m - j,
        {
            if j == m {
                break ;
            }
            proof {
                assert(addr_views(out@)[j as int] == out@[j as int]@);
            }
            let before = addr_lt_exec(&a, &out[j]);
            if before {
                break ;
            }
            j = j + 1;
        }
        proof {
            lemma_sort_addrs_sorted_only(iv.take(i as int));
            lemma_insert_addr_at(a@, addr_views(out@), j as int);
        }
        out.insert(j, a);
        proof {
            assert(iv.take(i + 1).drop_last() =~= iv.take(i as int));
            assert(iv.take(i + 1).last() == iv[i as int]);
            assert(addr_views(out@) =~= sort_addrs(iv.take(i as int)).take(j as int)
                + seq![iv[i as int]] + sort_addrs(iv.take(i as int)).skip(j as int));
        }
        i = i + 1;
    }
    proof {
        assert(iv.take(n as int) =~= iv);
    }
    out
}

proof fn lemma_sort_addrs_sorted_only(s: Seq<LbAddressV>)
    ensures
        sorted_addrs(sort_addrs(s)),
    decreases s.len(),
{
    if s.len() > 0 {
        lemma_sort_addrs_sorted_only(s.drop_last());
        lemma_insert_addr_props(s.last(), sort_addrs(s.drop_last()));
    }
}

proof fn lemma_insert_addr_at(x: LbAddressV, s: Seq<LbAddressV>, j: int)
    requires
        sorted_addrs(s),
        0 <= j <= s.len(),
        forall|k: int| 0 <= k < j ==> !addr_lt(x, s[k]),
        j < s.len() ==> addr_lt(x, s[j]),
    ensures
        insert_addr(x, s) == s.take(j) + seq![x] + s.skip(j),
    decreases j,
{
    if j == 0 {
        assert(insert_addr(x, s) =~= s.take(0) + seq![x] + s.skip(0));
    } else {
        let tail = s.skip(1);
        assert(sorted_addrs(tail)) by {
            assert forall|p: int, q: int| 0 <= p < q < tail.len() implies !addr_lt(
                tail[q],
                tail[p],
            ) by {
                assert(tail[p] == s[p + 1] && tail[q] == s[q + 1]);
            }
        }
        assert(forall|k: int| 0 <= k < j - 1 ==> !addr_lt(x, #[trigger] tail[k])) by {
            assert(forall|k: int| 0 <= k < j - 1 ==> #[trigger] tail[k] == s[k + 1]);
        }
        assert(j - 1 < tail.len() ==> addr_lt(x, tail[j - 1])) by {
            if j - 1 < tail.len() {
                assert(tail[j - 1] == s[j]);
            }
        }
        lemma_insert_addr_at(x, tail, j - 1);
        assert(!addr_lt(x, s[0]));
        assert(insert_addr(x, s) == seq![s[0]] + insert_addr(x, tail));
        assert(seq![s[0]] + (tail.take(j - 1) + seq![x] + tail.skip(j - 1)) =~= s.take(j)
            + seq![x] + s.skip(j));
    }
}

/// Whether `a` strictly precedes `b` in the publication order.
fn addr_lt_exec(a: &LbAddress, b: &LbAddress) -> (r: bool)
    ensures
        r == addr_lt(a@, b@),
{
    match (&a.ip, &b.ip) {
        (Some(x), Some(y)) => str_lt(x.as_str(), y.as_str()),
        (Some(_), None) => true,
        (None, Some(_)) => false,
        (None, None) => false,
    }
}

// ---------------------------------------------------------------------------
// The status patch
// ---------------------------------------------------------------------------
/// The JSON object of one address: its present fields only, `hostname`
/// before `ip`.
pub open spec fn addr_json(a: LbAddressV) -> Seq<char> {
    match (a.hostname, a.ip) {
        (Some(h), Some(ip)) => "{\"hostname\":"@ + json_string(h) + ",\"ip\":"@ + json_string(ip)
            + "}"@,
        (Some(h), None) => "{\"hostname\":"@ + json_string(h) + "}"@,
        (None, Some(ip)) => "{\"ip\":"@ + json_string(ip) + "}"@,
        (None, None) => "{}"@,
    }
}

/// The JSON array of addresses, in sequence order.
pub open spec fn addrs_json(s: Seq<LbAddressV>) -> Seq<char>
    decreases s.len(),
{
    if s.len() == 0 {
        Seq::<char>::empty()
    } else if s.len() == 1 {
        addr_json(s[0])
    } else {
        addrs_json(s.drop_last()) + ","@ + addr_json(s.last())
    }
}

/// The merge patch published to each controlled Ingress's status.
pub open spec fn spec_status_patch(s: Seq<LbAddressV>) -> Seq<char> {
    "{\"status\":{\"loadBalancer\":{\"ingress\":["@ + addrs_json(s) + "]}}}"@
}

fn append_addr_json(out: &mut Vec<char>, a: &LbAddress)
    ensures
        final (out)@ == old(out)@ + addr_json(a@),
{
    match (&a.hostname, &a.ip) {
        (Some(h), Some(ip)) => {
            append_str(out, "{\"hostname\":");
            append_json_string_str(out, h.as_str());
            append_str(out, ",\"ip\":");
            append_json_string_str(out, ip.as_str());
            append_str(out, "}");
        },
        (Some(h), None) => {
            append_str(out, "{\"hostname\":");
            append_json_string_str(out, h.as_str());
            append_str(out, "}");
        },
        (None, Some(ip)) => {
            append_str(out, "{\"ip\":");
            append_json_string_str(out, ip.as_str());
            append_str(out, "}");
        },
        (None, None) => {
            append_str(out, "{}");
        },
    }
    proof {
        assert(out@ =~= old(out)@ + addr_json(a@));
    }
}

/// The status patch for `addrs` as JSON text,
/// `{"status":{"loadBalancer":{"ingress":[...]}}}`.
pub fn status_patch_json(addrs: &Vec<LbAddress>) -> (r: String)
    ensures
        r@ == spec_status_patch(addr_views(addrs@)),
{
    let mut out: Vec<char> = Vec::new();
    append_str(&mut out, "{\"status\":{\"loadBalancer\":{\"ingress\":[");
    let n = addrs.len();
    let ghost av = addr_views(addrs@);
    let mut i: usize = 0;
    while i < n
        invariant
            n == addrs@.len(),
            av == addr_views(addrs@),
            i <= n,
            out@ == "{\"status\":{\"loadBalancer\":{\"ingress\":["@ + addrs_json(
                av.take(i as int),
            ),
        decreases n - i,
    {
        if i > 0 {
            append_str(&mut out, ",");
        }
        append_addr_json(&mut out, &addrs[i]);
        proof {
            assert(av.take(i + 1).drop_last() =~= av.take(i as int));
            assert(av.take(i + 1).last() == av[i as int]);
            assert(av[i as int] == addrs@[i as int]@);
            if i == 0 {
                assert(out@ =~= "{\"status\":{\"loadBalancer\":{\"ingress\":["@ + addrs_json(
                    av.take(1),
                ));
            } else {
                assert(out@ =~= "{\"status\":{\"loadBalancer\":{\"ingress\":["@ + addrs_json(
                    av.take(i + 1),
                ));
            }
        }
        i = i + 1;
    }
    proof {
        assert(av.take(n as int) =~= av);
    }
    append_str(&mut out, "]}}}");
    proof {
        assert(out@ =~= spec_status_patch(av));
    }
    from_chars(&out)
}

} // verus!
