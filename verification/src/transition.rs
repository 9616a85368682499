//! The transition engine: atomic cross-environment promotion, performed as
//! a commit that mirrors one environment's `version` subtree into
//! another's, guarded by schedules, locks and preconditions.

use vstd::prelude::*;

use crate::deployment::AllDeployerStatus;
use crate::id::Id;
use crate::locks::{spec_locks_of, Locks, LocksView};
use crate::ordmap::{spec_assoc_get, spec_assoc_remove, spec_assoc_set, StrMap};
use crate::state::{spec_states_load, spec_states_save, StatesView, TransitionState,
    TransitionStates};
use crate::status::RolloutStatus;
use crate::text::{push_str_chars, string_from_chars};
use crate::tree::{clone_tree, spec_lookup, NodeView, Tree, TreeNode, TreeView};
use crate::zipper::TreeZipper;

use core::str::FromStr;

verus! {

/// Why a transition did not run this tick.
#[derive(Debug, Clone, Copy, PartialEq, Eq, Structural)]
pub enum SkipReason {
    /// A persisted schedule lies in the future (seconds since the epoch).
    Scheduled { time: i64 },
    /// The target environment is locked.
    TargetLocked,
    /// The source has no `version` subtree.
    SourceMissing,
    /// Mirroring would change nothing.
    NoChange,
}

/// The outcome of one transition attempt.
#[derive(Debug, Clone, PartialEq, Eq)]
pub enum TransitionResult {
    /// The promotion was committed.
    Success { committed_version: Id },
    /// The transition was not applicable, or there was no change.
    Skipped(SkipReason),
    /// The transition may soon apply; the source should stay as it is.
    Blocked { message: String },
    /// A precondition check was negative.
    CheckFailed { message: String },
}

/// What stopped a transition attempt outright.
#[derive(Debug, Clone, Copy, PartialEq, Eq, Structural)]
pub enum TransitionError {
    /// The persisted transition state could not be decoded.
    StateUnreadable,
    /// The target's lock file could not be decoded.
    LocksUnreadable,
    /// A blob stood where a subtree was needed.
    TreeConflict,
    /// The deployer status needed by a precondition was not available.
    StatusUnavailable,
}

/// A guard a transition must pass.
#[derive(Debug, Clone, Copy, PartialEq, Eq, Structural)]
pub enum Precondition {
    /// The source environment's rollout must be clean at the current
    /// version.
    SourceClean,
}

/// What a precondition decided.
#[derive(Debug, Clone, PartialEq, Eq)]
pub enum PreconditionResult {
    Success,
    Blocked { message: String },
    Failed { message: String },
}

/// What the surrounding process could learn from the deployer before this
/// tick.
pub enum PreconditionInput {
    /// No deployer endpoint is configured.
    NoDeployerUrl,
    /// The deployer endpoint could not be reached.
    Unavailable,
    /// The deployer's published status.
    Status(AllDeployerStatus),
}

/// One declared promotion rule.
pub struct Transition {
    pub source: String,
    pub target: String,
    pub preconditions: Vec<Precondition>,
    pub schedule: Option<String>,
}

/// The snapshot a precondition judges: the rule's environments and the
/// head the promotion would be based on.
pub struct PendingTransitionInfo {
    pub source: String,
    pub target: String,
    pub current_version: Id,
}

/// The next time the schedule fires strictly after `now`, or nothing for
/// an unparsable schedule; a function of the two arguments alone.
pub uninterp spec fn spec_cron_next(schedule: Seq<char>, now: int) -> Option<int>;

/// The latest moment a schedule may be evaluated at: one second below
/// this bound still has a representable successor in the calendar the
/// schedule library computes with, which stops short of year 262143.
pub const MAX_SCHEDULE_INSTANT: i64 = 8_000_000_000_000;

/// Relies on `cron::Schedule::from_str` and `Schedule::after`: the next
/// fire time of the schedule after the given moment, as epoch seconds;
/// an unparsable schedule or out-of-range moment yields nothing.  The
/// result depends on the schedule text and the moment alone, and the
/// search starts one second past the moment, so a fire time is strictly
/// after it.  The moment must lie below `MAX_SCHEDULE_INSTANT`: the
/// search's first step adds one second, which must stay representable.
#[verifier::external_body]
fn cron_next(schedule: &str, now: i64) -> (r: Option<i64>)
    requires
        now < MAX_SCHEDULE_INSTANT,
    ensures
        spec_cron_next(schedule@, now as int) == (match r {
            Some(t) => Some(t as int),
            None => None,
        }),
        r matches Some(t) ==> t > now,
{
    let parsed = match cron::Schedule::from_str(schedule) {
        Ok(s) => s,
        Err(_) => {
            return None;
        },
    };
    let moment = match chrono::TimeZone::timestamp_opt(&chrono::Utc, now, 0) {
        chrono::LocalResult::Single(m) => m,
        _ => {
            return None;
        },
    };
    parsed.after(&moment).next().map(|t| t.timestamp())
}

impl Transition {
    /// The next scheduled time of this rule strictly after `now`, if it
    /// has a parsable schedule.
    pub fn next_scheduled_time(&self, now: i64) -> (r: Option<i64>)
        requires
            now < MAX_SCHEDULE_INSTANT,
        ensures
            (match self.schedule {
                Some(s) => spec_cron_next(s@, now as int) == (match r {
                    Some(t) => Some(t as int),
                    None => None,
                }),
                None => r is None,
            }),
            r matches Some(t) ==> t > now,
    {
        match &self.schedule {
            Some(s) => cron_next(s.as_str(), now),
            None => None,
        }
    }
}

/// The locks of `env` as read from the tree: a missing environment or
/// lock file means no locks; an undecodable one means nothing.
pub open spec fn spec_load_locks(t: TreeView, env: Seq<char>) -> Option<LocksView> {
    match spec_lookup(t, env) {
        None => Some(LocksView { env_lock: Seq::empty(), resource_locks: Seq::empty() }),
        Some(NodeView::Blob { .. }) => None,
        Some(NodeView::Dir { entries }) => match spec_lookup(entries, "locks.yaml"@) {
            None => Some(LocksView { env_lock: Seq::empty(), resource_locks: Seq::empty() }),
            Some(NodeView::Dir { .. }) => None,
            Some(NodeView::Blob { id: _, content: None }) => None,
            Some(NodeView::Blob { id: _, content: Some(c) }) => spec_locks_of(c),
        },
    }
}

/// Reads the locks of `env` from the tree.
pub fn load_locks(tree: &Tree, env: &str) -> (r: Option<Locks>)
    ensures
        match r {
            Some(l) => spec_load_locks(tree@, env@) == Some(l@),
            None => spec_load_locks(tree@, env@) is None,
        },
{
    let env_node = match tree.lookup(env) {
        None => {
            let l = Locks::new();
            proof {
                assert(l@ =~~= (LocksView {
                    env_lock: Seq::empty(),
                    resource_locks: Seq::empty(),
                }));
            }
            return Some(l);
        },
        Some(n) => n,
    };
    let env_tree = match env_node {
        TreeNode::Dir { tree } => tree,
        TreeNode::Blob { .. } => {
            return None;
        },
    };
    match env_tree.lookup("locks.yaml") {
        None => {
            let l = Locks::new();
            proof {
                assert(l@ =~~= (LocksView {
                    env_lock: Seq::empty(),
                    resource_locks: Seq::empty(),
                }));
            }
            Some(l)
        },
        Some(TreeNode::Dir { .. }) => None,
        Some(TreeNode::Blob { id: _, content: None }) => None,
        Some(TreeNode::Blob { id: _, content: Some(c) }) => crate::locks::locks_from_content(c),
    }
}

/// Decides the `SourceClean` precondition from the deployer's status.
pub fn check_source_clean(transition: &PendingTransitionInfo, status: &AllDeployerStatus) -> (r:
    PreconditionResult)
    ensures
        (match spec_assoc_get(status.deployers@, transition.source@) {
            None => r matches PreconditionResult::Blocked { .. },
            Some(env_status) => if env_status.deployed_version@ != transition.current_version@ {
                r matches PreconditionResult::Blocked { .. }
            } else {
                match env_status.rollout_status {
                    RolloutStatus::InProgress => r matches PreconditionResult::Blocked { .. },
                    RolloutStatus::Outdated => r matches PreconditionResult::Blocked { .. },
                    RolloutStatus::Clean => r == PreconditionResult::Success,
                    RolloutStatus::Failed => r matches PreconditionResult::Failed { .. },
                }
            },
        }),
{
    let env_status = match status.deployers.get(transition.source.as_str()) {
        Some(s) => s,
        None => {
            return PreconditionResult::Blocked {
                message: "deployer does not yet know about source env".to_owned(),
            };
        },
    };
    if !env_status.deployed_version.eq(&transition.current_version) {
        let mut msg: Vec<char> = Vec::new();
        push_str_chars(&mut msg, "deployer is on version ");
        let dv = env_status.deployed_version.to_hex();
        push_str_chars(&mut msg, dv.as_str());
        push_str_chars(&mut msg, ", we're on version ");
        let cv = transition.current_version.to_hex();
        push_str_chars(&mut msg, cv.as_str());
        return PreconditionResult::Blocked { message: string_from_chars(&msg) };
    }
    match env_status.rollout_status {
        RolloutStatus::InProgress => PreconditionResult::Blocked {
            message: "rollout still in progress".to_owned(),
        },
        RolloutStatus::Outdated => PreconditionResult::Blocked {
            message: "changes pending".to_owned(),
        },
        RolloutStatus::Clean => PreconditionResult::Success,
        RolloutStatus::Failed => PreconditionResult::Failed {
            message: "rollout failed".to_owned(),
        },
    }
}

/// Decides one precondition from what the process could learn: a missing
/// deployer endpoint fails the check, an unreachable one is an error.
pub fn check_precondition(
    transition: &PendingTransitionInfo,
    precondition: &Precondition,
    input: &PreconditionInput,
) -> (r: Result<PreconditionResult, TransitionError>)
    ensures
        match input {
            PreconditionInput::NoDeployerUrl => r matches Ok(PreconditionResult::Failed { .. }),
            PreconditionInput::Unavailable => r matches Err(TransitionError::StatusUnavailable),
            PreconditionInput::Status(status) => r matches Ok(pr) && (match spec_assoc_get(
                status.deployers@,
                transition.source@,
            ) {
                None => pr matches PreconditionResult::Blocked { .. },
                Some(env_status) => if env_status.deployed_version@
                    != transition.current_version@ {
                    pr matches PreconditionResult::Blocked { .. }
                } else {
                    match env_status.rollout_status {
                        RolloutStatus::InProgress => pr matches PreconditionResult::Blocked {
                            ..
                        },
                        RolloutStatus::Outdated => pr matches PreconditionResult::Blocked { .. },
                        RolloutStatus::Clean => pr == PreconditionResult::Success,
                        RolloutStatus::Failed => pr matches PreconditionResult::Failed { .. },
                    }
                },
            }),
        },
{
    match precondition {
        Precondition::SourceClean => match input {
            PreconditionInput::NoDeployerUrl => Ok(
                PreconditionResult::Failed { message: "no deployer url configured".to_owned() },
            ),
            PreconditionInput::Unavailable => Err(TransitionError::StatusUnavailable),
            PreconditionInput::Status(status) => Ok(check_source_clean(transition, status)),
        },
    }
}

/// What one attempt decided: everything but the commit itself, which the
/// surrounding process performs from the returned tree and message.
pub enum TransitionOutcome {
    /// The transition did not apply.
    Skipped(SkipReason),
    /// A precondition asks the source to stay untouched.
    Blocked { message: String },
    /// A precondition check was negative.
    CheckFailed { message: String },
    /// The promotion should be committed: the new root tree and the
    /// commit message.
    Commit { new_tree: Tree, message: String },
}

/// The commit message of a promotion.
pub open spec fn spec_transition_message(
    name: Seq<char>,
    source: Seq<char>,
    target: Seq<char>,
) -> Seq<char> {
    "Mirroring "@ + source + " to "@ + target + "\n\nDM-Transition: "@ + name + "\nDM-Source: "@
        + source + "\nDM-Target: "@ + target + "\n"@
}

/// The persisted states after this attempt: the rule's own entry is
/// replaced by its next scheduled time, or removed when it has none.
pub open spec fn spec_updated_states(
    sv: StatesView,
    name: Seq<char>,
    schedule: Option<String>,
    now: int,
) -> StatesView {
    let next = match schedule {
        Some(s) => spec_cron_next(s@, now),
        None => None,
    };
    match next {
        Some(t) => spec_assoc_set(sv, name, Some(t)),
        None => spec_assoc_remove(sv, name),
    }
}

/// The root tree after a successful mirror: the target's `version`
/// subtree replaced by the mirror of the source's, and the state file
/// saved at the root.
pub open spec fn spec_transition_tree(
    t: TreeView,
    source: Seq<char>,
    target: Seq<char>,
    name: Seq<char>,
    schedule: Option<String>,
    now: int,
) -> TreeView {
    let src = crate::tree::spec_dir_entries_of(
        crate::tree::spec_lookup_or_empty(
            crate::tree::spec_dir_entries_of(crate::tree::spec_lookup_or_empty(t, source)),
            "version"@,
        ),
    );
    let tgt = crate::tree::spec_dir_entries_of(
        crate::tree::spec_lookup_or_empty(
            crate::tree::spec_dir_entries_of(crate::tree::spec_lookup_or_empty(t, target)),
            "version"@,
        ),
    );
    let mirrored = crate::tree::spec_mirror_into(src, tgt);
    let set = crate::tree::spec_set_at(
        t,
        seq![target, "version"@],
        NodeView::Dir { entries: mirrored },
    );
    spec_states_save(
        set,
        spec_updated_states(
            match spec_states_load(t) {
                Some(sv) => sv,
                None => Seq::empty(),
            },
            name,
            schedule,
            now,
        ),
    )
}

/// Looking a name up in the view of a state map mirrors the map itself.
proof fn lemma_states_view_get(
    m: Seq<(Seq<char>, TransitionState)>,
    v: Seq<(Seq<char>, Option<int>)>,
    k: Seq<char>,
)
    requires
        v.len() == m.len(),
        forall|j: int|
            0 <= j < m.len() ==> #[trigger] v[j] == (
                m[j].0,
                match m[j].1.scheduled {
                    Some(n) => Some(n as int),
                    None => None,
                },
            ),
    ensures
        spec_assoc_get(v, k) == (match spec_assoc_get(m, k) {
            Some(st) => Some(
                match st.scheduled {
                    Some(n) => Some(n as int),
                    None => None::<int>,
                },
            ),
            None => None,
        }),
    decreases m.len(),
{
    if m.len() > 0 {
        assert(v[0] == (
            m[0].0,
            match m[0].1.scheduled {
                Some(n) => Some(n as int),
                None => None::<int>,
            },
        ));
        if m[0].0 != k {
            assert forall|j: int| 0 <= j < m.drop_first().len() implies #[trigger] v.drop_first()[j]
                == (
                m.drop_first()[j].0,
                match m.drop_first()[j].1.scheduled {
                    Some(n) => Some(n as int),
                    None => None::<int>,
                },
            ) by {
                assert(v.drop_first()[j] == v[j + 1]);
                assert(m.drop_first()[j] == m[j + 1]);
            }
            lemma_states_view_get(m.drop_first(), v.drop_first(), k);
        }
    }
}

/// Whether the persisted schedule of `name` still lies in the future.
pub open spec fn spec_schedule_pending(sv: StatesView, name: Seq<char>, now: int) -> Option<int> {
    match spec_assoc_get(sv, name) {
        Some(Some(t)) => if t >= now {
            Some(t)
        } else {
            None
        },
        _ => None,
    }
}

/// Whether a blob blocks the walk to `<env>/version`: the environment
/// entry itself, or its `version` entry, is a blob.
pub open spec fn spec_version_path_blocked(t: TreeView, env: Seq<char>) -> bool {
    match spec_lookup(t, env) {
        Some(NodeView::Blob { .. }) => true,
        Some(NodeView::Dir { entries }) => spec_lookup(entries, "version"@) matches Some(
            NodeView::Blob { .. },
        ),
        None => false,
    }
}

/// The `<env>/version` subtree, where both levels are subtrees.
pub open spec fn spec_version_subtree(t: TreeView, env: Seq<char>) -> Option<TreeView> {
    match spec_lookup(t, env) {
        Some(NodeView::Dir { entries }) => match spec_lookup(entries, "version"@) {
            Some(NodeView::Dir { entries: v }) => Some(v),
            _ => None,
        },
        _ => None,
    }
}

/// Whether the attempt would change nothing: the mirrored target equals
/// the present target, and the persisted states keep their value.
pub open spec fn spec_transition_unchanged(
    t: TreeView,
    name: Seq<char>,
    source: Seq<char>,
    target: Seq<char>,
    schedule: Option<String>,
    now: int,
) -> bool {
    let src = crate::tree::spec_dir_entries_of(
        crate::tree::spec_lookup_or_empty(
            crate::tree::spec_dir_entries_of(crate::tree::spec_lookup_or_empty(t, source)),
            "version"@,
        ),
    );
    let tgt = crate::tree::spec_dir_entries_of(
        crate::tree::spec_lookup_or_empty(
            crate::tree::spec_dir_entries_of(crate::tree::spec_lookup_or_empty(t, target)),
            "version"@,
        ),
    );
    &&& crate::tree::spec_entries_same(crate::tree::spec_mirror_into(src, tgt), tgt)
    &&& match spec_states_load(t) {
        Some(sv) => spec_updated_states(sv, name, schedule, now) == sv,
        None => false,
    }
}

/// What a transition attempt decides, named by its evaluation step.
pub enum TransitionStep {
    StateUnreadable,
    Scheduled { time: int },
    LocksUnreadable,
    TargetLocked,
    TreeConflict,
    SourceMissing,
    NoChange,
    StatusUnavailable,
    Blocked,
    CheckFailed,
    Commit,
}

/// What the preconditions decide, given what the process could learn:
/// every declared precondition is `SourceClean`, so one decision covers
/// them all.
pub open spec fn spec_precondition_step(
    source: Seq<char>,
    head: Seq<u8>,
    input: PreconditionInput,
) -> TransitionStep {
    match input {
        PreconditionInput::NoDeployerUrl => TransitionStep::CheckFailed,
        PreconditionInput::Unavailable => TransitionStep::StatusUnavailable,
        PreconditionInput::Status(status) => match spec_assoc_get(status.deployers@, source) {
            None => TransitionStep::Blocked,
            Some(es) => if es.deployed_version@ != head {
                TransitionStep::Blocked
            } else {
                match es.rollout_status {
                    RolloutStatus::InProgress => TransitionStep::Blocked,
                    RolloutStatus::Outdated => TransitionStep::Blocked,
                    RolloutStatus::Clean => TransitionStep::Commit,
                    RolloutStatus::Failed => TransitionStep::CheckFailed,
                }
            },
        },
    }
}

/// The full decision of one attempt, in evaluation order: unreadable
/// state, pending schedule, unreadable locks, locked target, a blob in
/// the way, missing source, nothing to change, then the preconditions.
pub open spec fn spec_decide_transition(
    t: TreeView,
    name: Seq<char>,
    source: Seq<char>,
    target: Seq<char>,
    schedule: Option<String>,
    npre: int,
    head: Seq<u8>,
    input: PreconditionInput,
    now: int,
) -> TransitionStep {
    match spec_states_load(t) {
        None => TransitionStep::StateUnreadable,
        Some(sv) => match spec_schedule_pending(sv, name, now) {
            Some(ts) => TransitionStep::Scheduled { time: ts },
            None => match spec_load_locks(t, target) {
                None => TransitionStep::LocksUnreadable,
                Some(l) => if l.env_lock.len() > 0 {
                    TransitionStep::TargetLocked
                } else if spec_version_path_blocked(t, source) {
                    TransitionStep::TreeConflict
                } else if spec_version_subtree(t, source) is None {
                    TransitionStep::SourceMissing
                } else if spec_version_path_blocked(t, target) {
                    TransitionStep::TreeConflict
                } else if spec_transition_unchanged(t, name, source, target, schedule, now) {
                    TransitionStep::NoChange
                } else if npre > 0 {
                    spec_precondition_step(source, head, input)
                } else {
                    TransitionStep::Commit
                },
            },
        },
    }
}

/// One transition attempt against the given head tree.  Everything up to
/// the commit itself is decided here; the caller commits the returned
/// tree with the returned message and pushes it.
pub fn run_transition(
    name: &str,
    transition: &Transition,
    tree: &Tree,
    head: &Id,
    now: i64,
    input: &PreconditionInput,
) -> (r: Result<TransitionOutcome, TransitionError>)
    requires
        now < MAX_SCHEDULE_INSTANT,
    ensures
        ({
            let d = spec_decide_transition(
                tree@,
                name@,
                transition.source@,
                transition.target@,
                transition.schedule,
                transition.preconditions@.len() as int,
                head@,
                *input,
                now as int,
            );
            match r {
                Err(TransitionError::StateUnreadable) => d == TransitionStep::StateUnreadable,
                Err(TransitionError::LocksUnreadable) => d == TransitionStep::LocksUnreadable,
                Err(TransitionError::TreeConflict) => d == TransitionStep::TreeConflict,
                Err(TransitionError::StatusUnavailable) => d == TransitionStep::StatusUnavailable,
                Ok(TransitionOutcome::Skipped(SkipReason::Scheduled { time })) => d
                    == (TransitionStep::Scheduled { time: time as int }),
                Ok(TransitionOutcome::Skipped(SkipReason::TargetLocked)) => d
                    == TransitionStep::TargetLocked,
                Ok(TransitionOutcome::Skipped(SkipReason::SourceMissing)) => d
                    == TransitionStep::SourceMissing,
                Ok(TransitionOutcome::Skipped(SkipReason::NoChange)) => d
                    == TransitionStep::NoChange,
                Ok(TransitionOutcome::Blocked { message }) => d == TransitionStep::Blocked,
                Ok(TransitionOutcome::CheckFailed { message }) => d == TransitionStep::CheckFailed,
                Ok(TransitionOutcome::Commit { new_tree, message }) => {
                    &&& d == TransitionStep::Commit
                    &&& message@ == spec_transition_message(
                        name@,
                        transition.source@,
                        transition.target@,
                    )
                    &&& new_tree@ == spec_transition_tree(
                        tree@,
                        transition.source@,
                        transition.target@,
                        name@,
                        transition.schedule,
                        now as int,
                    )
                    &&& (match transition.schedule {
                        Some(sch) => match spec_cron_next(sch@, now as int) {
                            Some(ts) => ts > now,
                            None => true,
                        },
                        None => true,
                    })
                },
            }
        }),
{
    let states = match TransitionStates::load(tree) {
        Some(s) => s,
        None => {
            return Err(TransitionError::StateUnreadable);
        },
    };
    let st = states.get_state(name);
    proof {
        lemma_states_view_get(states.map@, states@, name@);
    }
    match st.scheduled {
        Some(t) => {
            if t >= now {
                proof {
                    assert(spec_schedule_pending(states@, name@, now as int) == Some(t as int));
                }
                return Ok(TransitionOutcome::Skipped(SkipReason::Scheduled { time: t }));
            }
        },
        None => {},
    }
    proof {
        assert(spec_schedule_pending(states@, name@, now as int) is None);
    }
    let target_locks = match load_locks(tree, transition.target.as_str()) {
        Some(l) => l,
        None => {
            return Err(TransitionError::LocksUnreadable);
        },
    };
    if target_locks.env_lock.is_locked() {
        return Ok(TransitionOutcome::Skipped(SkipReason::TargetLocked));
    }
    let pending = PendingTransitionInfo {
        source: transition.source.clone(),
        target: transition.target.clone(),
        current_version: *head,
    };
    let next = transition.next_scheduled_time(now);
    let ghost states_before = states;
    let mut states = states;
    states.insert(name, TransitionState { scheduled: next });
    let mut source_zipper = TreeZipper::from(clone_tree(tree));
    match source_zipper.descend(transition.source.as_str()) {
        Ok(_) => {},
        Err(_) => {
            proof {
                assert(spec_version_path_blocked(tree@, transition.source@));
            }
            return Err(TransitionError::TreeConflict);
        },
    }
    match source_zipper.descend("version") {
        Ok(_) => {},
        Err(_) => {
            proof {
                assert(spec_version_path_blocked(tree@, transition.source@));
            }
            return Err(TransitionError::TreeConflict);
        },
    }
    let source_sub = match source_zipper.into_inner() {
        Some(t) => t,
        None => {
            proof {
                assert(!spec_version_path_blocked(tree@, transition.source@));
                assert(spec_version_subtree(tree@, transition.source@) is None);
            }
            return Ok(TransitionOutcome::Skipped(SkipReason::SourceMissing));
        },
    };
    proof {
        assert(!spec_version_path_blocked(tree@, transition.source@));
        assert(spec_version_subtree(tree@, transition.source@) == Some(source_sub@));
    }
    let mut target_zipper = TreeZipper::from(clone_tree(tree));
    match target_zipper.descend(transition.target.as_str()) {
        Ok(_) => {},
        Err(_) => {
            proof {
                assert(spec_version_path_blocked(tree@, transition.target@));
            }
            return Err(TransitionError::TreeConflict);
        },
    }
    match target_zipper.descend("version") {
        Ok(_) => {},
        Err(_) => {
            proof {
                assert(spec_version_path_blocked(tree@, transition.target@));
            }
            return Err(TransitionError::TreeConflict);
        },
    }
    let (target_sub, had_target) = match target_zipper.into_inner() {
        Some(t) => (t, true),
        None => (Tree::empty(), false),
    };
    let target_before = clone_tree(&target_sub);
    let mirrored = crate::tree::mirror_into(&source_sub, target_sub);
    let ghost mirrored_view = mirrored@;
    let states_content_before = TransitionStates::load(tree);
    let unchanged = crate::tree::tree_same(&mirrored, &target_before) && (match
        &states_content_before {
        Some(before) => states_maps_eq(before, &states),
        None => false,
    });
    proof {
        let src_spec = crate::tree::spec_dir_entries_of(
            crate::tree::spec_lookup_or_empty(
                crate::tree::spec_dir_entries_of(
                    crate::tree::spec_lookup_or_empty(tree@, transition.source@),
                ),
                "version"@,
            ),
        );
        let tgt_spec = crate::tree::spec_dir_entries_of(
            crate::tree::spec_lookup_or_empty(
                crate::tree::spec_dir_entries_of(
                    crate::tree::spec_lookup_or_empty(tree@, transition.target@),
                ),
                "version"@,
            ),
        );
        assert(source_sub@ == src_spec);
        assert(target_before@ == tgt_spec);
        lemma_states_view_get(states_before.map@, states_before@, name@);
        match next {
            Some(t) => {
                lemma_sv_set(states_before.map@, name@, TransitionState { scheduled: Some(t) });
                assert(states@ =~= spec_states_entries_view(states.map@));
                assert(states_before@ =~= spec_states_entries_view(states_before.map@));
            },
            None => {
                lemma_sv_remove(states_before.map@, name@);
                assert(states@ =~= spec_states_entries_view(states.map@));
                assert(states_before@ =~= spec_states_entries_view(states_before.map@));
            },
        }
        assert(spec_updated_states(states_before@, name@, transition.schedule, now as int)
            == states@);
        assert(unchanged == spec_transition_unchanged(
            tree@,
            name@,
            transition.source@,
            transition.target@,
            transition.schedule,
            now as int,
        ));
    }
    if unchanged {
        return Ok(TransitionOutcome::Skipped(SkipReason::NoChange));
    }
    let ghost d = spec_decide_transition(
        tree@,
        name@,
        transition.source@,
        transition.target@,
        transition.schedule,
        transition.preconditions@.len() as int,
        head@,
        *input,
        now as int,
    );
    proof {
        if transition.preconditions@.len() > 0 {
            assert(d == spec_precondition_step(transition.source@, head@, *input));
        } else {
            assert(d == TransitionStep::Commit);
        }
    }
    let mut i: usize = 0;
    while i < transition.preconditions.len()
        invariant
            i <= transition.preconditions@.len(),
            pending.source@ == transition.source@,
            pending.current_version@ == head@,
            d == spec_decide_transition(
                tree@,
                name@,
                transition.source@,
                transition.target@,
                transition.schedule,
                transition.preconditions@.len() as int,
                head@,
                *input,
                now as int,
            ),
            transition.preconditions@.len() > 0 ==> d == spec_precondition_step(
                transition.source@,
                head@,
                *input,
            ),
            i > 0 ==> spec_precondition_step(transition.source@, head@, *input)
                == TransitionStep::Commit,
        decreases transition.preconditions@.len() - i,
    {
        match check_precondition(&pending, &transition.preconditions[i], input) {
            Ok(PreconditionResult::Success) => {},
            Ok(PreconditionResult::Blocked { message }) => {
                proof {
                    assert(d == TransitionStep::Blocked);
                }
                return Ok(TransitionOutcome::Blocked { message });
            },
            Ok(PreconditionResult::Failed { message }) => {
                proof {
                    assert(d == TransitionStep::CheckFailed);
                }
                return Ok(TransitionOutcome::CheckFailed { message });
            },
            Err(e) => {
                proof {
                    assert(d == TransitionStep::StatusUnavailable);
                }
                return Err(e);
            },
        }
        i = i + 1;
    }
    proof {
        assert(d == TransitionStep::Commit);
    }
    let mut rebuild = TreeZipper::from(clone_tree(tree));
    match rebuild.descend(transition.target.as_str()) {
        Ok(_) => {},
        Err(_) => {
            proof {
                assert(false);
            }
            unreached()
        },
    }
    match rebuild.descend("version") {
        Ok(_) => {},
        Err(_) => {
            proof {
                assert(false);
            }
            unreached()
        },
    }
    rebuild.replace(mirrored);
    rebuild.ascend();
    rebuild.ascend();
    let mut new_root = match rebuild.into_inner() {
        Some(t) => t,
        None => {
            proof {
                assert(false);
            }
            unreached()
        },
    };
    let ghost pre_save_root = new_root;
    states.save(&mut new_root);
    let mut msg: Vec<char> = Vec::new();
    push_str_chars(&mut msg, "Mirroring ");
    push_str_chars(&mut msg, transition.source.as_str());
    push_str_chars(&mut msg, " to ");
    push_str_chars(&mut msg, transition.target.as_str());
    push_str_chars(&mut msg, "\n\nDM-Transition: ");
    push_str_chars(&mut msg, name);
    push_str_chars(&mut msg, "\nDM-Source: ");
    push_str_chars(&mut msg, transition.source.as_str());
    push_str_chars(&mut msg, "\nDM-Target: ");
    push_str_chars(&mut msg, transition.target.as_str());
    push_str_chars(&mut msg, "\n");
    let message = string_from_chars(&msg);
    proof {
        reveal_with_fuel(crate::tree::spec_set_at, 3);
        let tv = tree@;
        let src_name = transition.source@;
        let tgt_name = transition.target@;
        let path = seq![tgt_name, "version"@];
        assert(path[0] == tgt_name);
        assert(path.drop_first() =~= seq!["version"@]);
        assert(path.drop_first()[0] == "version"@);
        let src_spec = crate::tree::spec_dir_entries_of(
            crate::tree::spec_lookup_or_empty(
                crate::tree::spec_dir_entries_of(crate::tree::spec_lookup_or_empty(tv, src_name)),
                "version"@,
            ),
        );
        let tgt_spec = crate::tree::spec_dir_entries_of(
            crate::tree::spec_lookup_or_empty(
                crate::tree::spec_dir_entries_of(crate::tree::spec_lookup_or_empty(tv, tgt_name)),
                "version"@,
            ),
        );
        assert(source_sub@ == src_spec);
        assert(target_before@ == tgt_spec);
        assert(mirrored_view == crate::tree::spec_mirror_into(src_spec, tgt_spec));
        let inner = crate::tree::spec_insert(
            crate::tree::spec_dir_entries_of(crate::tree::spec_lookup_or_empty(tv, tgt_name)),
            "version"@,
            NodeView::Dir { entries: mirrored_view },
        );
        assert(pre_save_root@ == crate::tree::spec_insert(
            tv,
            tgt_name,
            NodeView::Dir { entries: inner },
        ));
        assert(crate::tree::spec_set_at(tv, path, NodeView::Dir { entries: mirrored_view })
            == pre_save_root@);
        lemma_states_view_get(states_before.map@, states_before@, name@);
        match next {
            Some(t) => {
                lemma_sv_set(
                    states_before.map@,
                    name@,
                    TransitionState { scheduled: Some(t) },
                );
                assert(states@ =~= spec_states_entries_view(states.map@));
                assert(states_before@ =~= spec_states_entries_view(states_before.map@));
                assert(states@ == spec_updated_states(
                    states_before@,
                    name@,
                    transition.schedule,
                    now as int,
                ));
            },
            None => {
                lemma_sv_remove(states_before.map@, name@);
                assert(states@ =~= spec_states_entries_view(states.map@));
                assert(states_before@ =~= spec_states_entries_view(states_before.map@));
                assert(states@ == spec_updated_states(
                    states_before@,
                    name@,
                    transition.schedule,
                    now as int,
                ));
            },
        }
        assert(new_root@ == spec_transition_tree(
            tv,
            src_name,
            tgt_name,
            name@,
            transition.schedule,
            now as int,
        ));
    }
    Ok(TransitionOutcome::Commit { new_tree: new_root, message })
}

/// The view of a state map's entries.
pub open spec fn spec_states_entries_view(m: Seq<(Seq<char>, TransitionState)>) -> StatesView {
    Seq::new(
        m.len(),
        |i: int|
            (
                m[i].0,
                match m[i].1.scheduled {
                    Some(n) => Some(n as int),
                    None => None,
                },
            ),
    )
}

/// Setting a binding commutes with taking the view.
proof fn lemma_sv_set(m: Seq<(Seq<char>, TransitionState)>, k: Seq<char>, st: TransitionState)
    ensures
        spec_states_entries_view(spec_assoc_set(m, k, st)) == spec_assoc_set(
            spec_states_entries_view(m),
            k,
            match st.scheduled {
                Some(n) => Some(n as int),
                None => None::<int>,
            },
        ),
    decreases m.len(),
{
    let stv = match st.scheduled {
        Some(n) => Some(n as int),
        None => None::<int>,
    };
    if m.len() == 0 {
        assert(spec_states_entries_view(seq![(k, st)]) =~= seq![(k, stv)]);
    } else if m[0].0 == k {
        assert(spec_states_entries_view(m)[0] == spec_states_entries_view(m).first());
        assert(spec_states_entries_view(seq![(k, st)] + m.drop_first()) =~= seq![(k, stv)]
            + spec_states_entries_view(m).drop_first());
        assert(spec_states_entries_view(m).drop_first() =~= spec_states_entries_view(
            m.drop_first(),
        ));
    } else {
        lemma_sv_set(m.drop_first(), k, st);
        assert(spec_states_entries_view(m).drop_first() =~= spec_states_entries_view(
            m.drop_first(),
        ));
        assert(spec_states_entries_view(seq![m[0]] + spec_assoc_set(m.drop_first(), k, st))
            =~= seq![spec_states_entries_view(m)[0]] + spec_states_entries_view(
            spec_assoc_set(m.drop_first(), k, st),
        ));
        assert(spec_assoc_set(spec_states_entries_view(m), k, stv) =~= seq![
            spec_states_entries_view(m)[0],
        ] + spec_assoc_set(spec_states_entries_view(m.drop_first()), k, stv));
    }
}

/// Removing a binding commutes with taking the view.
proof fn lemma_sv_remove(m: Seq<(Seq<char>, TransitionState)>, k: Seq<char>)
    ensures
        spec_states_entries_view(spec_assoc_remove(m, k)) == spec_assoc_remove(
            spec_states_entries_view(m),
            k,
        ),
    decreases m.len(),
{
    if m.len() == 0 {
        assert(spec_states_entries_view(spec_assoc_remove(m, k)) =~= spec_assoc_remove(
            spec_states_entries_view(m),
            k,
        ));
    } else if m[0].0 == k {
        assert(spec_states_entries_view(m.drop_first()) =~= spec_states_entries_view(
            m,
        ).drop_first());
    } else {
        lemma_sv_remove(m.drop_first(), k);
        assert(spec_states_entries_view(m).drop_first() =~= spec_states_entries_view(
            m.drop_first(),
        ));
        assert(spec_states_entries_view(seq![m[0]] + spec_assoc_remove(m.drop_first(), k))
            =~= seq![spec_states_entries_view(m)[0]] + spec_states_entries_view(
            spec_assoc_remove(m.drop_first(), k),
        ));
        assert(spec_assoc_remove(spec_states_entries_view(m), k) =~= seq![
            spec_states_entries_view(m)[0],
        ] + spec_assoc_remove(spec_states_entries_view(m.drop_first()), k));
    }
}

/// Whether two state maps hold the same entries in the same order.
fn states_maps_eq(a: &TransitionStates, b: &TransitionStates) -> (r: bool)
    ensures
        r == (a@ == b@),
{
    if a.map.entries.len() != b.map.entries.len() {
        proof {
            assert(a@.len() != b@.len());
        }
        return false;
    }
    let n = a.map.entries.len();
    let mut i: usize = 0;
    while i < n
        invariant
            i <= n,
            n == a.map.entries@.len(),
            n == b.map.entries@.len(),
            forall|j: int| 0 <= j < i ==> a@[j] == b@[j],
        decreases n - i,
    {
        if !a.map.entries[i].0.eq(&b.map.entries[i].0) {
            proof {
                assert(a@[i as int].0 != b@[i as int].0);
            }
            return false;
        }
        let sa = a.map.entries[i].1.scheduled;
        let sb = b.map.entries[i].1.scheduled;
        let same = match (sa, sb) {
            (Some(x), Some(y)) => x == y,
            (None, None) => true,
            _ => false,
        };
        if !same {
            proof {
                assert(a@[i as int].1 != b@[i as int].1);
            }
            return false;
        }
        proof {
            assert(a@[i as int] == b@[i as int]);
        }
        i = i + 1;
    }
    proof {
        assert(a@ =~= b@);
    }
    true
}

/// Whether the tick goes on to the next rule after this outcome: a skip
/// or a failed check lets the next rule try; a success or a block ends
/// the tick.
pub fn transition_proceeds(result: &TransitionResult) -> (r: bool)
    ensures
        r == (result matches TransitionResult::Skipped(_) || result matches
            TransitionResult::CheckFailed { .. }),
{
    match result {
        TransitionResult::Skipped(_) => true,
        TransitionResult::CheckFailed { .. } => true,
        TransitionResult::Success { .. } => false,
        TransitionResult::Blocked { .. } => false,
    }
}

/// One successful promotion, as published.
pub struct TransitionSuccessfulRunInfo {
    pub time: i64,
    pub committed_version: Id,
}

/// The last attempt of one rule, as published.
pub struct TransitionRunInfo {
    pub time: Option<i64>,
    pub result: TransitionResult,
}

/// The published status of one rule: its most recent successful runs,
/// newest first and at most a hundred, and its last attempt.
pub struct TransitionStatusInfo {
    pub successful_runs: Vec<TransitionSuccessfulRunInfo>,
    pub last_run: Option<TransitionRunInfo>,
}

impl TransitionStatusInfo {
    /// A status with no run recorded.
    pub fn new() -> (r: TransitionStatusInfo)
        ensures
            r.successful_runs@.len() == 0,
            r.last_run is None,
    {
        TransitionStatusInfo { successful_runs: Vec::new(), last_run: None }
    }
}

/// Records the outcome of one attempt in the published status map: a
/// success is pushed onto the rule's recent runs (capped at a hundred,
/// newest first), and the last attempt is always replaced.
pub fn update_transition_status(
    status: &mut StrMap<TransitionStatusInfo>,
    name: &str,
    result: TransitionResult,
    time: i64,
)
    ensures
        ({
            let old_runs = match spec_assoc_get(old(status)@, name@) {
                Some(i) => i.successful_runs@,
                None => Seq::empty(),
            };
            let new_runs = match result {
                TransitionResult::Success { committed_version } => {
                    let prepended = seq![
                        TransitionSuccessfulRunInfo { time, committed_version },
                    ] + old_runs;
                    if prepended.len() <= 100 {
                        prepended
                    } else {
                        prepended.take(100)
                    }
                },
                _ => old_runs,
            };
            &&& spec_assoc_get(final(status)@, name@) matches Some(info) && {
                &&& info.successful_runs@ == new_runs
                &&& info.last_run matches Some(run) && run.time == Some(time) && run.result
                    == result
            }
            &&& forall|k: Seq<char>|
                k != name@ ==> #[trigger] spec_assoc_get(final(status)@, k) == spec_assoc_get(
                    old(status)@,
                    k,
                )
        }),
{
    let ghost pre_take = status@;
    let mut info = match take_status(status, name) {
        Some(i) => i,
        None => TransitionStatusInfo::new(),
    };
    let ghost old_runs = info.successful_runs@;
    match &result {
        TransitionResult::Success { committed_version } => {
            info.successful_runs.insert(
                0,
                TransitionSuccessfulRunInfo { time, committed_version: *committed_version },
            );
            proof {
                assert(info.successful_runs@ =~= seq![
                    TransitionSuccessfulRunInfo { time, committed_version: *committed_version },
                ] + old_runs);
            }
            info.successful_runs.truncate(100);
        },
        _ => {},
    }
    info.last_run = Some(TransitionRunInfo { time: Some(time), result });
    let ghost pre = status@;
    let ghost iv = info;
    status.set(name.to_owned(), info);
    proof {
        crate::ordmap::lemma_assoc_get_set(pre, name@, iv);
        assert forall|k: Seq<char>| k != name@ implies #[trigger] spec_assoc_get(
            final(status)@,
            k,
        ) == spec_assoc_get(old(status)@, k) by {
            crate::ordmap::lemma_assoc_get_set_other(pre, name@, iv, k);
            crate::ordmap::lemma_assoc_get_remove_other(pre_take, name@, k);
        }
    }
}

/// Removes and returns the status of `name`, if recorded.
fn take_status(status: &mut StrMap<TransitionStatusInfo>, name: &str) -> (r: Option<
    TransitionStatusInfo,
>)
    ensures
        final(status)@ == spec_assoc_remove(old(status)@, name@),
        match r {
            Some(info) => spec_assoc_get(old(status)@, name@) == Some(info),
            None => spec_assoc_get(old(status)@, name@) is None,
        },
{
    let name_string = name.to_owned();
    let ghost mv = old(status)@;
    proof {
        assert(mv.skip(0) =~= mv);
    }
    let mut i: usize = 0;
    while i < status.entries.len()
        invariant
            *status == *old(status),
            i <= status.entries@.len(),
            name_string@ == name@,
            mv == status@,
            mv.len() == status.entries@.len(),
            forall|j: int|
                0 <= j < mv.len() ==> #[trigger] mv[j] == (
                    status.entries@[j].0@,
                    status.entries@[j].1,
                ),
            forall|j: int| 0 <= j < i ==> mv[j].0 != name@,
            spec_assoc_remove(mv, name@) == mv.subrange(0, i as int) + spec_assoc_remove(
                mv.skip(i as int),
                name@,
            ),
            spec_assoc_get(mv, name@) == spec_assoc_get(mv.skip(i as int), name@),
        decreases status.entries@.len() - i,
    {
        proof {
            assert(mv.skip(i as int)[0] == mv[i as int]);
            assert(mv.skip(i as int).drop_first() =~= mv.skip(i + 1));
        }
        if status.entries[i].0.eq(&name_string) {
            let (_, info) = status.entries.remove(i);
            proof {
                assert(spec_assoc_remove(mv.skip(i as int), name@) =~= mv.skip(i + 1));
                assert(status@ =~= mv.subrange(0, i as int) + mv.skip(i + 1));
                assert(status@ =~= spec_assoc_remove(mv, name@));
            }
            return Some(info);
        }
        proof {
            assert(spec_assoc_remove(mv.skip(i as int), name@) =~= seq![mv[i as int]]
                + spec_assoc_remove(mv.skip(i + 1), name@));
            assert(mv.subrange(0, i as int) + seq![mv[i as int]] =~= mv.subrange(0, i + 1));
            assert(mv.subrange(0, i as int) + spec_assoc_remove(mv.skip(i as int), name@)
                =~= mv.subrange(0, i + 1) + spec_assoc_remove(mv.skip(i + 1), name@));
        }
        i = i + 1;
    }
    proof {
        assert(mv.skip(mv.len() as int) =~= Seq::<(Seq<char>, TransitionStatusInfo)>::empty());
        assert(mv.subrange(0, mv.len() as int) =~= mv);
        assert(status@ =~= spec_assoc_remove(mv, name@));
    }
    None
}

} // verus!
