use vingress::leader::{
    create_lease_json, lease_name, renew_lease_json, try_acquire_leadership, LeaderStep,
    LeaseInfo,
};

#[test]
fn absent_lease_is_created() {
    assert!(matches!(
        try_acquire_leadership(None, 1_000_000),
        LeaderStep::CreateAndLead
    ));
}

#[test]
fn fresh_lease_makes_contenders_wait() {
    let lease = LeaseInfo { renew_time_micros: 100_000_000 };
    // fifteen whole seconds have passed: not yet stale
    assert!(matches!(
        try_acquire_leadership(Some(&lease), 100_000_000 + 15_999_999),
        LeaderStep::Wait
    ));
    // two replicas reading within the bound both wait: no second leader
    assert!(matches!(
        try_acquire_leadership(Some(&lease), 100_000_000 + 12_000_000),
        LeaderStep::Wait
    ));
}

#[test]
fn stale_lease_is_taken_over() {
    let lease = LeaseInfo { renew_time_micros: 100_000_000 };
    // more than fifteen whole seconds: the survivor takes over
    assert!(matches!(
        try_acquire_leadership(Some(&lease), 100_000_000 + 16_000_000),
        LeaderStep::TakeOverAndLead
    ));
}

#[test]
fn leader_handoff_after_the_holder_dies() {
    // the holder renews at t0 and is killed; the survivor polls every 5s
    let t0: i64 = 500_000_000;
    let lease = LeaseInfo { renew_time_micros: t0 };
    let mut takeover_at = None;
    for poll in 0..8 {
        let now = t0 + poll * 5_000_000;
        match try_acquire_leadership(Some(&lease), now) {
            LeaderStep::TakeOverAndLead => {
                takeover_at = Some(now);
                break;
            }
            LeaderStep::Wait => {}
            LeaderStep::CreateAndLead => panic!("the lease exists"),
        }
    }
    // the survivor leads within leaseDurationSeconds + one poll interval
    assert_eq!(takeover_at, Some(t0 + 20_000_000));
}

#[test]
fn lease_bodies_are_exact() {
    assert_eq!(lease_name(), "vingress-leader-lock");
    assert_eq!(
        create_lease_json("pod-1", "2024-10-11T10:39:17.123456Z"),
        "{\"metadata\":{\"name\":\"vingress-leader-lock\"},\"spec\":{\"holderIdentity\":\"pod-1\",\"leaseDurationSeconds\":15,\"renewTime\":\"2024-10-11T10:39:17.123456Z\"}}"
    );
    assert_eq!(
        renew_lease_json("pod-2", "2024-10-11T10:40:00.000000Z"),
        "{\"spec\":{\"holderIdentity\":\"pod-2\",\"leaseDurationSeconds\":15,\"renewTime\":\"2024-10-11T10:40:00.000000Z\"}}"
    );
}
