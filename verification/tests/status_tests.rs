use dm_core::RolloutStatus;
use dm_core::deployment::{status_of_reason, RolloutStatusReason};

#[test]
fn combine_clean_is_identity() {
    for s in [
        RolloutStatus::Clean,
        RolloutStatus::InProgress,
        RolloutStatus::Outdated,
        RolloutStatus::Failed,
    ] {
        assert_eq!(RolloutStatus::Clean.combine(s), s);
        assert_eq!(s.combine(RolloutStatus::Clean), s);
    }
}

#[test]
fn combine_is_commutative() {
    let all = [
        RolloutStatus::Clean,
        RolloutStatus::InProgress,
        RolloutStatus::Outdated,
        RolloutStatus::Failed,
    ];
    for a in all {
        for b in all {
            assert_eq!(a.combine(b), b.combine(a));
        }
    }
}

#[test]
fn combine_is_associative() {
    let all = [
        RolloutStatus::Clean,
        RolloutStatus::InProgress,
        RolloutStatus::Outdated,
        RolloutStatus::Failed,
    ];
    for a in all {
        for b in all {
            for c in all {
                assert_eq!(a.combine(b.combine(c)), a.combine(b).combine(c));
            }
        }
    }
}

#[test]
fn failed_absorbs_and_outdated_meets_in_progress() {
    assert_eq!(
        RolloutStatus::Failed.combine(RolloutStatus::Clean),
        RolloutStatus::Failed
    );
    assert_eq!(
        RolloutStatus::Outdated.combine(RolloutStatus::InProgress),
        RolloutStatus::InProgress
    );
    assert_eq!(
        RolloutStatus::Outdated.combine(RolloutStatus::Outdated),
        RolloutStatus::Outdated
    );
}

#[test]
fn reasons_map_to_statuses() {
    assert_eq!(status_of_reason(&RolloutStatusReason::Clean), RolloutStatus::Clean);
    assert_eq!(
        status_of_reason(&RolloutStatusReason::Failed { message: "x".to_string() }),
        RolloutStatus::Failed
    );
    assert_eq!(
        status_of_reason(&RolloutStatusReason::NotYetObserved),
        RolloutStatus::InProgress
    );
    assert_eq!(
        status_of_reason(&RolloutStatusReason::NotAllUpdated { expected: 3, updated: 1 }),
        RolloutStatus::InProgress
    );
}
