//! The ConfigMap watcher: how a change of the named ConfigMap updates the
//! snippets of the config state and drives a render. Unlike the Ingress
//! reconciler, this watcher's caller logs a failed render and carries on
//! with the previous good artifact.
use vstd::prelude::*;

use crate::ingress::StepOutcome;
use crate::text::str_eq;
use crate::vcl::Vcl;
use crate::vcl::VclV;
use crate::vcl::json_accepted;
use crate::vcl::rendered_of;
use crate::vcl::template_accepted;
use crate::vcl::update;
use crate::vcl::vcl_data_json;

verus! {

/// The ConfigMap the controller reads.
pub fn configmap_name() -> (r: &'static str)
    ensures
        r@ == "varnish-vcl"@,
{
    "varnish-vcl"
}

/// An observed ConfigMap, reduced to what the watcher reads: its name and
/// its `data` entries.
pub struct ConfigMapObj {
    pub name: Option<String>,
    pub data: Option<Vec<(String, String)>>,
}

/// The value under the first entry keyed `k`, if any.
pub open spec fn map_get(d: Seq<(String, String)>, k: Seq<char>) -> Option<Seq<char>>
    decreases d.len(),
{
    if d.len() == 0 {
        None
    } else if d[0].0@ == k {
        Some(d[0].1@)
    } else {
        map_get(d.skip(1), k)
    }
}

/// The value a ConfigMap's data holds under `k`, if any.
pub open spec fn cm_lookup(cm: ConfigMapObj, k: Seq<char>) -> Option<Seq<char>> {
    match cm.data {
        Some(d) => map_get(d@, k),
        None => None,
    }
}

/// Whether the event concerns the watched ConfigMap.
pub open spec fn cm_matches(cm: ConfigMapObj, name: Seq<char>) -> bool {
    match cm.name {
        Some(n) => n@ == name,
        None => false,
    }
}

/// The snippet field after the event: updated when the key is present,
/// kept otherwise (each missing key is only worth a warning).
pub open spec fn updated_field(cur: Seq<char>, got: Option<Seq<char>>) -> Seq<char> {
    match got {
        Some(v) => v,
        None => cur,
    }
}

fn lookup_value(cm: &ConfigMapObj, key: &str) -> (r: Option<String>)
    ensures
        match r {
            Some(v) => cm_lookup(*cm, key@) == Some(v@),
            None => cm_lookup(*cm, key@) is None,
        },
{
    let d = match &cm.data {
        Some(d) => d,
        None => {
            return None;
        },
    };
    let n = d.len();
    let mut i: usize = 0;
    proof {
        assert(d@.skip(0) =~= d@);
    }
    while i < n
        invariant
            n == d@.len(),
            i <= n,
            cm.data matches Some(dd) && dd@ == d@,
            map_get(d@, key@) == map_get(d@.skip(i as int), key@),
        decreases n - i,
    {
        proof {
            assert(d@.skip(i as int)[0] == d@[i as int]);
            assert(d@.skip(i as int).skip(1) =~= d@.skip(i + 1));
        }
        if str_eq(d[i].0.as_str(), key) {
            return Some(d[i].1.clone());
        }
        i = i + 1;
    }
    proof {
        assert(d@.skip(n as int) =~= Seq::<(String, String)>::empty());
    }
    None
}

/// Fold one ConfigMap event into the config state. An event for another
/// ConfigMap, or one bringing neither key, changes nothing. Otherwise the
/// present keys replace the snippets and a render directive follows, over
/// the artifact of the new state.
pub fn handle_configmap_event(
    cm: &ConfigMapObj,
    vcl: &mut Vcl,
    configmap_name: &str,
    template_text: &str,
) -> (r: StepOutcome)
    ensures
        !cm_matches(*cm, configmap_name@) ==> (r is NoChange && final (vcl)@ == old(vcl)@),
        cm_matches(*cm, configmap_name@) ==> final (vcl)@ == (VclV {
            snippet: updated_field(old(vcl)@.snippet, cm_lookup(*cm, "snippet"@)),
            vcl_recv_snippet: updated_field(
                old(vcl)@.vcl_recv_snippet,
                cm_lookup(*cm, "vcl_recv_snippet"@),
            ),
            ..old(vcl)@
        }),
        cm_matches(*cm, configmap_name@) && cm_lookup(*cm, "snippet"@) is None && cm_lookup(
            *cm,
            "vcl_recv_snippet"@,
        ) is None ==> r is NoChange,
        cm_matches(*cm, configmap_name@) && (cm_lookup(*cm, "snippet"@) is Some || cm_lookup(
            *cm,
            "vcl_recv_snippet"@,
        ) is Some) ==> ((r is Render) <==> (template_accepted(template_text@) && json_accepted(
            vcl_data_json(final (vcl)@),
        ) && rendered_of(template_text@, vcl_data_json(final (vcl)@)) is Some)),
        r matches StepOutcome::Render(s) ==> Some(s@) == rendered_of(
            template_text@,
            vcl_data_json(final (vcl)@),
        ),
        r matches StepOutcome::RenderFailed(e) ==> (e is TemplateRegisterFailed
            || e is TemplateRenderFailed),
        r is NoChange <==> !(cm_matches(*cm, configmap_name@) && (cm_lookup(*cm, "snippet"@)
            is Some || cm_lookup(*cm, "vcl_recv_snippet"@) is Some)),
{
    let name_matches = match &cm.name {
        Some(n) => str_eq(n.as_str(), configmap_name),
        None => false,
    };
    if !name_matches {
        return StepOutcome::NoChange;
    }
    let snippet_updated = match lookup_value(cm, "snippet") {
        Some(v) => {
            vcl.snippet = v;
            true
        },
        None => false,
    };
    let recv_updated = match lookup_value(cm, "vcl_recv_snippet") {
        Some(v) => {
            vcl.vcl_recv_snippet = v;
            true
        },
        None => false,
    };
    if snippet_updated || recv_updated {
        match update(vcl, template_text) {
            Ok(s) => StepOutcome::Render(s),
            Err(e) => StepOutcome::RenderFailed(e),
        }
    } else {
        StepOutcome::NoChange
    }
}

} // verus!
