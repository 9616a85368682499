//! The rollout-status lattice: per-resource observations and the aggregate
//! environment-wide status with its `combine` operation.

use vstd::prelude::*;

verus! {

/// Aggregate health of a deployment across its resources, ordered
/// `Clean < InProgress < Outdated < Failed` by severity of what remains
/// to be done (`Clean` is the identity of `combine`, `Failed` absorbs).
#[derive(Debug, Clone, Copy, PartialEq, Eq, Structural)]
pub enum RolloutStatus {
    InProgress,
    Clean,
    Outdated,
    Failed,
}

/// What `combine` returns, as a spec-level function.
pub open spec fn spec_combine(a: RolloutStatus, b: RolloutStatus) -> RolloutStatus {
    match a {
        RolloutStatus::Clean => b,
        RolloutStatus::InProgress => match b {
            RolloutStatus::Failed => RolloutStatus::Failed,
            _ => RolloutStatus::InProgress,
        },
        RolloutStatus::Outdated => match b {
            RolloutStatus::Clean => RolloutStatus::Outdated,
            RolloutStatus::Outdated => RolloutStatus::Outdated,
            RolloutStatus::InProgress => RolloutStatus::InProgress,
            RolloutStatus::Failed => RolloutStatus::Failed,
        },
        RolloutStatus::Failed => RolloutStatus::Failed,
    }
}

impl RolloutStatus {
    /// Combines two aggregate statuses: `Clean` is the identity, `Failed`
    /// absorbs, `Outdated` and `InProgress` combine to `InProgress`.
    pub fn combine(self, other: RolloutStatus) -> (r: RolloutStatus)
        ensures
            r == spec_combine(self, other),
    {
        match self {
            RolloutStatus::Clean => other,
            RolloutStatus::InProgress => match other {
                RolloutStatus::Failed => RolloutStatus::Failed,
                _ => RolloutStatus::InProgress,
            },
            RolloutStatus::Outdated => match other {
                RolloutStatus::Clean | RolloutStatus::Outdated => RolloutStatus::Outdated,
                RolloutStatus::InProgress => RolloutStatus::InProgress,
                RolloutStatus::Failed => RolloutStatus::Failed,
            },
            RolloutStatus::Failed => RolloutStatus::Failed,
        }
    }
}

/// `combine` is commutative.
pub proof fn combine_commutative(a: RolloutStatus, b: RolloutStatus)
    ensures
        spec_combine(a, b) == spec_combine(b, a),
{
}

/// `combine` is associative.
pub proof fn combine_associative(a: RolloutStatus, b: RolloutStatus, c: RolloutStatus)
    ensures
        spec_combine(a, spec_combine(b, c)) == spec_combine(spec_combine(a, b), c),
{
}

/// `Clean` is the identity of `combine`, on both sides.
pub proof fn combine_clean_identity(a: RolloutStatus)
    ensures
        spec_combine(RolloutStatus::Clean, a) == a,
        spec_combine(a, RolloutStatus::Clean) == a,
{
}

} // verus!
