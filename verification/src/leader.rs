//! Leader election: the decision rules over the lease, the lease bodies
//! sent to the cluster, and the clock they carry. At most one replica is
//! the writer; the others serve traffic but leave the cluster alone.
use vstd::prelude::*;

use crate::jsontext::append_json_string_str;
use crate::jsontext::json_string;
use crate::text::append_str;
use crate::text::from_chars;

verus! {

/// The lease is considered held for this many seconds after a renewal.
pub const LEASE_DURATION_SECONDS: i64 = 15;

/// A holder renews this often. The interval lies within the lease
/// duration, so an undisturbed holder never lets its lease go stale.
pub const RENEW_INTERVAL_SECONDS: i64 = 10;

/// A contender re-reads the lease this often while waiting.
pub const RETRY_INTERVAL_SECONDS: i64 = 5;

/// An undisturbed holder renews before its lease can go stale.
pub proof fn lemma_renew_within_duration()
    ensures
        RENEW_INTERVAL_SECONDS < LEASE_DURATION_SECONDS,
{
}

/// The name of the lease object.
pub fn lease_name() -> (r: &'static str)
    ensures
        r@ == "vingress-leader-lock"@,
{
    "vingress-leader-lock"
}

/// What a contender reads from an existing lease.
pub struct LeaseInfo {
    /// `spec.renewTime` as non-leap microseconds since the Unix epoch.
    pub renew_time_micros: i64,
}

/// A lease is stale once more than `LEASE_DURATION_SECONDS` whole seconds
/// have passed since its renewal: sixteen million microseconds or more,
/// since the comparison the controller makes truncates to whole seconds.
pub open spec fn spec_lease_stale(now_micros: i64, renew_micros: i64) -> bool {
    now_micros - renew_micros >= 16_000_000
}

/// What a contender decides after reading the lease.
pub enum LeaderStep {
    /// No lease exists: create it with this replica as holder and lead.
    CreateAndLead,
    /// The lease has gone stale: patch it over and lead.
    TakeOverAndLead,
    /// The lease is held and fresh: sleep and retry.
    Wait,
}

/// The acquisition rule: create when absent, take over when stale, wait
/// otherwise. While the holder's renewal is fresher than the staleness
/// bound, no contender's reading yields leadership.
pub fn try_acquire_leadership(lease: Option<&LeaseInfo>, now_micros: i64) -> (r: LeaderStep)
    ensures
        r is CreateAndLead <==> lease is None,
        lease matches Some(l) ==> (r is TakeOverAndLead <==> spec_lease_stale(
            now_micros,
            l.renew_time_micros,
        )),
        lease matches Some(l) ==> (r is Wait <==> !spec_lease_stale(
            now_micros,
            l.renew_time_micros,
        )),
{
    match lease {
        None => LeaderStep::CreateAndLead,
        Some(l) => {
            let diff: i128 = (now_micros as i128) - (l.renew_time_micros as i128);
            if diff >= 16_000_000i128 {
                LeaderStep::TakeOverAndLead
            } else {
                LeaderStep::Wait
            }
        },
    }
}

/// Leader exclusivity, as far as the decision rule carries it: as long as
/// every contender's clock stands within the staleness bound of the
/// holder's last renewal, each of them decides to wait, so none takes the
/// lease from a live holder. What remains rests on bounded clock skew and
/// the renewal cadence, which run outside this rule.
pub proof fn lemma_leader_exclusivity(l: LeaseInfo, now1: i64, now2: i64)
    requires
        now1 - l.renew_time_micros < 16_000_000,
        now2 - l.renew_time_micros < 16_000_000,
    ensures
        !spec_lease_stale(now1, l.renew_time_micros),
        !spec_lease_stale(now2, l.renew_time_micros),
{
}

/// The `spec` stanza of the lease: this replica as holder, the fixed
/// duration, and the renewal instant.
pub open spec fn spec_lease_spec_json(pod: Seq<char>, renew_time: Seq<char>) -> Seq<char> {
    "{\"holderIdentity\":"@ + json_string(pod) + ",\"leaseDurationSeconds\":15,\"renewTime\":"@
        + json_string(renew_time) + "}"@
}

/// The body that creates the lease, name included.
pub open spec fn spec_create_lease_json(pod: Seq<char>, renew_time: Seq<char>) -> Seq<char> {
    "{\"metadata\":{\"name\":\"vingress-leader-lock\"},\"spec\":"@ + spec_lease_spec_json(
        pod,
        renew_time,
    ) + "}"@
}

/// The merge patch that renews the lease.
pub open spec fn spec_renew_lease_json(pod: Seq<char>, renew_time: Seq<char>) -> Seq<char> {
    "{\"spec\":"@ + spec_lease_spec_json(pod, renew_time) + "}"@
}

fn append_lease_spec_json(out: &mut Vec<char>, pod_name: &str, renew_time: &str)
    ensures
        final (out)@ == old(out)@ + spec_lease_spec_json(pod_name@, renew_time@),
{
    append_str(out, "{\"holderIdentity\":");
    append_json_string_str(out, pod_name);
    append_str(out, ",\"leaseDurationSeconds\":15,\"renewTime\":");
    append_json_string_str(out, renew_time);
    append_str(out, "}");
    proof {
        assert(out@ =~= old(out)@ + spec_lease_spec_json(pod_name@, renew_time@));
    }
}

/// The JSON body that creates the lease for `pod_name` at `renew_time`.
pub fn create_lease_json(pod_name: &str, renew_time: &str) -> (r: String)
    ensures
        r@ == spec_create_lease_json(pod_name@, renew_time@),
{
    let mut out: Vec<char> = Vec::new();
    append_str(&mut out, "{\"metadata\":{\"name\":\"vingress-leader-lock\"},\"spec\":");
    append_lease_spec_json(&mut out, pod_name, renew_time);
    append_str(&mut out, "}");
    proof {
        assert(out@ =~= spec_create_lease_json(pod_name@, renew_time@));
    }
    from_chars(&out)
}

/// The JSON merge patch that renews the lease for `pod_name` at
/// `renew_time`.
pub fn renew_lease_json(pod_name: &str, renew_time: &str) -> (r: String)
    ensures
        r@ == spec_renew_lease_json(pod_name@, renew_time@),
{
    let mut out: Vec<char> = Vec::new();
    append_str(&mut out, "{\"spec\":");
    append_lease_spec_json(&mut out, pod_name, renew_time);
    append_str(&mut out, "}");
    proof {
        assert(out@ =~= spec_renew_lease_json(pod_name@, renew_time@));
    }
    from_chars(&out)
}

/// Relies on `chrono::Utc::now` for the wall clock. The result depends on
/// the clock, so nothing is assumed of it.
#[verifier::external_body]
pub fn now_unix_micros() -> i64 {
    chrono::Utc::now().timestamp_micros()
}

/// Relies on `chrono::Utc::now` and `DateTime::to_rfc3339_opts`: the
/// current instant in RFC 3339 form with microsecond precision and a `Z`
/// suffix. The text depends on the clock, so nothing is assumed of it.
#[verifier::external_body]
pub fn now_rfc3339_micros() -> String {
    chrono::Utc::now().to_rfc3339_opts(chrono::SecondsFormat::Micros, true)
}

/// The body that creates the lease for `pod_name`, renewed at the instant
/// of the call.
pub fn create_lease_body(pod_name: &str) -> (r: String)
    ensures
        exists|t: Seq<char>| r@ == spec_create_lease_json(pod_name@, t),
{
    let t = now_rfc3339_micros();
    let r = create_lease_json(pod_name, t.as_str());
    proof {
        assert(r@ == spec_create_lease_json(pod_name@, t@));
    }
    r
}

/// The merge patch that renews the lease for `pod_name` at the instant of
/// the call.
pub fn renew_lease_body(pod_name: &str) -> (r: String)
    ensures
        exists|t: Seq<char>| r@ == spec_renew_lease_json(pod_name@, t),
{
    let t = now_rfc3339_micros();
    let r = renew_lease_json(pod_name, t.as_str());
    proof {
        assert(r@ == spec_renew_lease_json(pod_name@, t@));
    }
    r
}

} // verus!
