//! Deployment: per-resource observations, the environment-wide status fold,
//! the cluster-driver capability and its in-memory implementation.

use vstd::prelude::*;

use crate::content::ContentValue;
use crate::id::Id;
use crate::ordmap::{spec_assoc_get, spec_assoc_set, StrMap};
use crate::status::{spec_combine, RolloutStatus};
use crate::text::{push_str_chars, string_from_chars};

verus! {

/// A per-resource observation of rollout progress.
#[derive(Debug, Clone, PartialEq, Eq)]
pub enum RolloutStatusReason {
    Clean,
    Failed { message: String },
    NotYetObserved,
    NotAllUpdated { expected: i32, updated: i32 },
    OldReplicasPending { number: i32 },
    UpdatedUnavailable { updated: i32, available: i32 },
    NoStatus,
}

/// The aggregate status a per-resource observation maps to.
pub open spec fn spec_status_of_reason(r: RolloutStatusReason) -> RolloutStatus {
    match r {
        RolloutStatusReason::Clean => RolloutStatus::Clean,
        RolloutStatusReason::Failed { .. } => RolloutStatus::Failed,
        _ => RolloutStatus::InProgress,
    }
}

/// Maps a per-resource observation to the aggregate lattice.
pub fn status_of_reason(r: &RolloutStatusReason) -> (s: RolloutStatus)
    ensures
        s == spec_status_of_reason(*r),
{
    match r {
        RolloutStatusReason::Clean => RolloutStatus::Clean,
        RolloutStatusReason::Failed { .. } => RolloutStatus::Failed,
        RolloutStatusReason::NotYetObserved => RolloutStatus::InProgress,
        RolloutStatusReason::NotAllUpdated { .. } => RolloutStatus::InProgress,
        RolloutStatusReason::OldReplicasPending { .. } => RolloutStatus::InProgress,
        RolloutStatusReason::UpdatedUnavailable { .. } => RolloutStatus::InProgress,
        RolloutStatusReason::NoStatus => RolloutStatus::InProgress,
    }
}

/// The state of one resource in the cluster.
#[derive(Debug, Clone, PartialEq, Eq)]
pub enum ResourceState {
    NotDeployed,
    Deployed { version: Id, expected_version: Id, status: RolloutStatusReason },
}

/// The published status of one environment's deployer.
pub struct DeployerStatus {
    pub deployed_version: Id,
    pub last_successfully_deployed_version: Option<Id>,
    pub rollout_status: RolloutStatus,
    pub status_by_resource: StrMap<ResourceState>,
}

/// The statuses of every environment, keyed by environment name.
pub struct AllDeployerStatus {
    pub deployers: StrMap<DeployerStatus>,
}

impl AllDeployerStatus {
    /// A status map knowing no environment.
    pub fn empty() -> (r: AllDeployerStatus)
        ensures
            r.deployers@.len() == 0,
    {
        AllDeployerStatus { deployers: StrMap::new() }
    }
}

/// A fresh status for an environment first deployed at `version`: rollout
/// in progress, nothing known per resource.
pub fn new_deployer_status(version: Id) -> (r: DeployerStatus)
    ensures
        r.deployed_version@ == version@,
        r.last_successfully_deployed_version is None,
        r.rollout_status == RolloutStatus::InProgress,
        r.status_by_resource@.len() == 0,
{
    DeployerStatus {
        deployed_version: version,
        last_successfully_deployed_version: None,
        rollout_status: RolloutStatus::InProgress,
        status_by_resource: StrMap::new(),
    }
}

/// The aggregate contribution of one resource state: an absent resource is
/// outdated; a deployed one contributes its observation, combined with
/// `Outdated` when its live version is not the expected one.
pub open spec fn spec_state_status(s: ResourceState) -> RolloutStatus {
    match s {
        ResourceState::NotDeployed => RolloutStatus::Outdated,
        ResourceState::Deployed { version, expected_version, status } => if version@
            == expected_version@ {
            spec_status_of_reason(status)
        } else {
            spec_combine(RolloutStatus::Outdated, spec_status_of_reason(status))
        },
    }
}

/// The fold of every resource state, `Clean` to start.
pub open spec fn spec_fold_status(states: Seq<(Seq<char>, ResourceState)>) -> RolloutStatus
    decreases states.len(),
{
    if states.len() == 0 {
        RolloutStatus::Clean
    } else {
        spec_combine(spec_fold_status(states.drop_last()), spec_state_status(states.last().1))
    }
}

/// Folds the states of every resource into one aggregate status.
pub fn fold_rollout_status(states: &StrMap<ResourceState>) -> (r: RolloutStatus)
    ensures
        r == spec_fold_status(states@),
{
    let ghost sv = states@;
    let mut acc = RolloutStatus::Clean;
    let mut i: usize = 0;
    proof {
        assert(sv.subrange(0, 0) =~= Seq::<(Seq<char>, ResourceState)>::empty());
    }
    while i < states.entries.len()
        invariant
            i <= states.entries@.len(),
            sv == states@,
            sv.len() == states.entries@.len(),
            forall|j: int|
                0 <= j < sv.len() ==> #[trigger] sv[j] == (
                    states.entries@[j].0@,
                    states.entries@[j].1,
                ),
            acc == spec_fold_status(sv.subrange(0, i as int)),
        decreases states.entries@.len() - i,
    {
        let contribution = match &states.entries[i].1 {
            ResourceState::NotDeployed => RolloutStatus::Outdated,
            ResourceState::Deployed { version, expected_version, status } => {
                let mapped = status_of_reason(status);
                if version.eq(expected_version) {
                    mapped
                } else {
                    RolloutStatus::Outdated.combine(mapped)
                }
            },
        };
        proof {
            assert(contribution == spec_state_status(sv[i as int].1));
        }
        acc = acc.combine(contribution);
        proof {
            assert(sv.subrange(0, i + 1).drop_last() =~= sv.subrange(0, i as int));
            assert(sv.subrange(0, i + 1).last() == sv[i as int]);
        }
        i = i + 1;
    }
    proof {
        assert(sv.subrange(0, sv.len() as int) =~= sv);
    }
    acc
}

/// What went wrong talking to a cluster.
#[derive(Debug, Clone, PartialEq, Eq)]
pub struct DeployError {
    pub message: String,
}

/// One deployable unit: its name, merged structured content, the commit in
/// which its file last changed, and that commit's message.
pub struct Resource {
    pub name: String,
    pub content: ContentValue,
    pub version: Id,
    pub message: String,
}

/// Spec-level shape of a resource.
#[verifier::ext_equal]
pub struct ResourceView {
    pub name: Seq<char>,
    pub content: crate::content::ContentView,
    pub version: Seq<u8>,
    pub message: Seq<char>,
}

impl View for Resource {
    type V = ResourceView;

    open spec fn view(&self) -> ResourceView {
        ResourceView {
            name: self.name@,
            content: self.content.deep_view(),
            version: self.version@,
            message: self.message@,
        }
    }
}

impl DeepView for Resource {
    type V = ResourceView;

    open spec fn deep_view(&self) -> ResourceView {
        self.view()
    }
}

/// The resources assembled for one environment.
pub struct ResourcesInfo {
    pub resources: Vec<Resource>,
}

/// A cluster driver: reports the live state of resources and applies one
/// resource declaratively.  Implementations live with their clusters; the
/// in-memory one below stands in for tests.
pub trait Deployer {
    /// The live state of each given resource, keyed by name.
    fn retrieve_current_state(&mut self, resources: &Vec<Resource>) -> (r: Result<
        StrMap<ResourceState>,
        DeployError,
    >);

    /// Applies one resource to the cluster.
    fn deploy(&mut self, resource: &Resource) -> (r: Result<(), DeployError>);
}

/// An in-memory cluster: deployed resources held in a map, every rollout
/// instantly clean.
pub struct MockDeployer {
    pub resources: StrMap<(Id, ContentValue)>,
}

impl MockDeployer {
    /// An empty in-memory cluster.
    pub fn new() -> (r: MockDeployer)
        ensures
            r.resources@.len() == 0,
    {
        MockDeployer { resources: StrMap::new() }
    }
}

/// The state the in-memory cluster reports for one resource: deployed at
/// the stored version and instantly clean, or not deployed at all.
pub open spec fn spec_mock_state(
    stored: Seq<(Seq<char>, (Id, ContentValue))>,
    r: Resource,
) -> ResourceState {
    match spec_assoc_get(stored, r.name@) {
        Some(p) => ResourceState::Deployed {
            version: p.0,
            expected_version: r.version,
            status: RolloutStatusReason::Clean,
        },
        None => ResourceState::NotDeployed,
    }
}

/// The state map the in-memory cluster reports, resource by resource.
pub open spec fn spec_mock_states(
    stored: Seq<(Seq<char>, (Id, ContentValue))>,
    rs: Seq<Resource>,
    acc: Seq<(Seq<char>, ResourceState)>,
) -> Seq<(Seq<char>, ResourceState)>
    decreases rs.len(),
{
    if rs.len() == 0 {
        acc
    } else {
        spec_mock_states(
            stored,
            rs.drop_first(),
            spec_assoc_set(acc, rs[0].name@, spec_mock_state(stored, rs[0])),
        )
    }
}

impl MockDeployer {
    /// The states the in-memory cluster reports: each requested resource
    /// deployed at its stored version and instantly clean, or absent.
    pub fn current_state_of(&self, resources: &Vec<Resource>) -> (r: StrMap<ResourceState>)
        ensures
            r@ == spec_mock_states(self.resources@, resources@, Seq::empty()),
    {
        let ghost stored = self.resources@;
        let ghost rs = resources@;
        let mut result: StrMap<ResourceState> = StrMap::new();
        proof {
            assert(rs.skip(0) =~= rs);
        }
        let mut i: usize = 0;
        while i < resources.len()
            invariant
                i <= resources@.len(),
                rs == resources@,
                stored == self.resources@,
                spec_mock_states(stored, rs, Seq::empty()) == spec_mock_states(
                    stored,
                    rs.skip(i as int),
                    result@,
                ),
            decreases resources@.len() - i,
        {
            proof {
                assert(rs.skip(i as int)[0] == rs[i as int]);
                assert(rs.skip(i as int).drop_first() =~= rs.skip(i + 1));
            }
            let state = match self.resources.get(resources[i].name.as_str()) {
                Some(stored_pair) => ResourceState::Deployed {
                    version: stored_pair.0,
                    expected_version: resources[i].version,
                    status: RolloutStatusReason::Clean,
                },
                None => ResourceState::NotDeployed,
            };
            proof {
                assert(state == spec_mock_state(stored, rs[i as int]));
            }
            result.set(resources[i].name.clone(), state);
            i = i + 1;
        }
        proof {
            assert(rs.skip(rs.len() as int) =~= Seq::<Resource>::empty());
        }
        result
    }

    /// Records a resource as deployed at its intended version.
    pub fn record(&mut self, resource: &Resource)
        ensures
            spec_assoc_get(final(self).resources@, resource.name@) matches Some(p) && p.0@
                == resource.version@ && p.1.deep_view() == resource.content.deep_view(),
            forall|k: Seq<char>|
                k != resource.name@ ==> #[trigger] spec_assoc_get(final(self).resources@, k)
                    == spec_assoc_get(old(self).resources@, k),
    {
        let stored = (resource.version, resource.content.deep_clone());
        let ghost pre = self.resources@;
        let ghost sv = stored;
        self.resources.set(resource.name.clone(), stored);
        proof {
            crate::ordmap::lemma_assoc_get_set(pre, resource.name@, sv);
            assert forall|k: Seq<char>| k != resource.name@ implies #[trigger] spec_assoc_get(
                final(self).resources@,
                k,
            ) == spec_assoc_get(old(self).resources@, k) by {
                crate::ordmap::lemma_assoc_get_set_other(pre, resource.name@, sv, k);
            }
        }
    }
}

impl Deployer for MockDeployer {
    fn retrieve_current_state(&mut self, resources: &Vec<Resource>) -> (r: Result<
        StrMap<ResourceState>,
        DeployError,
    >) {
        Ok(self.current_state_of(resources))
    }

    fn deploy(&mut self, resource: &Resource) -> (r: Result<(), DeployError>) {
        self.record(resource);
        Ok(())
    }
}

/// A driver that deploys nowhere/// A driver that deploys nowhere: every apply succeeds and nothing is ever
/// reported as present.
pub struct DummyDeployer {
}

impl DummyDeployer {
    /// A fresh do-nothing driver.
    pub fn new() -> (r: DummyDeployer) {
        DummyDeployer {  }
    }
}

impl Deployer for DummyDeployer {
    fn retrieve_current_state(&mut self, resources: &Vec<Resource>) -> (r: Result<
        StrMap<ResourceState>,
        DeployError,
    >) {
        Ok(StrMap::new())
    }

    fn deploy(&mut self, resource: &Resource) -> (r: Result<(), DeployError>) {
        Ok(())
    }
}

/// Whether a resource's live state calls for a deploy/// Whether a resource's live state calls for a deploy: unknown states are
/// left alone, a deployed resource only redeploys on a version change.
pub open spec fn spec_wants_deploy(
    states: Seq<(Seq<char>, ResourceState)>,
    name: Seq<char>,
    version: Seq<u8>,
) -> bool {
    match spec_assoc_get(states, name) {
        None => false,
        Some(ResourceState::NotDeployed) => true,
        Some(ResourceState::Deployed { version: live, expected_version: _, status: _ }) => live@
            != version,
    }
}

/// The names of the resources a state map calls to deploy, in order.
pub open spec fn spec_deploy_names(
    rv: Seq<ResourceView>,
    states: Seq<(Seq<char>, ResourceState)>,
) -> Seq<Seq<char>>
    decreases rv.len(),
{
    if rv.len() == 0 {
        Seq::empty()
    } else if spec_wants_deploy(states, rv[0].name, rv[0].version) {
        seq![rv[0].name] + spec_deploy_names(rv.drop_first(), states)
    } else {
        spec_deploy_names(rv.drop_first(), states)
    }
}

/// Applies every resource whose live version differs from its intended
/// one.  Returns the names attempted — exactly those the retrieved state
/// map calls to deploy, in order — and those whose apply failed; a failed
/// apply does not stop the batch.
pub fn deploy(deployer: &mut impl Deployer, resources: &Vec<Resource>) -> (r: Result<
    (Vec<String>, Vec<String>),
    DeployError,
>)
    ensures
        match r {
            Ok(out) => exists|m: Seq<(Seq<char>, ResourceState)>|
                {
                    &&& out.0.deep_view() == spec_deploy_names(resources.deep_view(), m)
                    &&& forall|j: int|
                        0 <= j < out.1@.len() ==> out.0.deep_view().contains(
                            #[trigger] out.1@[j]@,
                        )
                },
            Err(_) => true,
        },
{
    let current_state = match deployer.retrieve_current_state(resources) {
        Ok(s) => s,
        Err(e) => {
            return Err(e);
        },
    };
    let ghost m = current_state@;
    let ghost rv = resources.deep_view();
    let mut attempted: Vec<String> = Vec::new();
    let mut failed: Vec<String> = Vec::new();
    proof {
        assert(rv.skip(0) =~= rv);
        assert(attempted.deep_view() =~= Seq::<Seq<char>>::empty());
    }
    let mut i: usize = 0;
    while i < resources.len()
        invariant
            i <= resources@.len(),
            rv == resources.deep_view(),
            rv.len() == resources@.len(),
            forall|j: int| 0 <= j < rv.len() ==> #[trigger] rv[j] == resources@[j]@,
            m == current_state@,
            spec_deploy_names(rv, m) == attempted.deep_view() + spec_deploy_names(
                rv.skip(i as int),
                m,
            ),
            forall|j: int|
                0 <= j < failed@.len() ==> attempted.deep_view().contains(#[trigger] failed@[j]@),
        decreases resources@.len() - i,
    {
        proof {
            assert(rv.skip(i as int)[0] == rv[i as int]);
            assert(rv.skip(i as int).drop_first() =~= rv.skip(i + 1));
        }
        let wants = match current_state.get(resources[i].name.as_str()) {
            None => false,
            Some(ResourceState::NotDeployed) => true,
            Some(ResourceState::Deployed { version: live, expected_version: _, status: _ }) => !live
                .eq(&resources[i].version),
        };
        proof {
            assert(wants == spec_wants_deploy(m, rv[i as int].name, rv[i as int].version));
        }
        if wants {
            let ghost attempted_before = attempted.deep_view();
            attempted.push(resources[i].name.clone());
            proof {
                assert(attempted.deep_view() =~= attempted_before.push(rv[i as int].name));
                assert(attempted_before + (seq![rv[i as int].name] + spec_deploy_names(
                    rv.skip(i + 1),
                    m,
                )) =~= attempted.deep_view() + spec_deploy_names(rv.skip(i + 1), m));
                assert forall|j: int| 0 <= j < failed@.len() implies attempted.deep_view()
                    .contains(#[trigger] failed@[j]@) by {
                    let w = choose|w: int|
                        0 <= w < attempted_before.len() && attempted_before[w] == failed@[j]@;
                    assert(attempted.deep_view()[w] == failed@[j]@);
                }
            }
            match deployer.deploy(&resources[i]) {
                Ok(_) => {},
                Err(_) => {
                    failed.push(resources[i].name.clone());
                    proof {
                        assert(attempted.deep_view().last() == rv[i as int].name);
                        assert forall|j: int| 0 <= j < failed@.len() implies attempted.deep_view()
                            .contains(#[trigger] failed@[j]@) by {
                            if j == failed@.len() - 1 {
                                assert(attempted.deep_view()[attempted.deep_view().len() - 1]
                                    == failed@[j]@);
                            }
                        }
                    }
                },
            }
        }
        i = i + 1;
    }
    proof {
        assert(rv.skip(rv.len() as int) =~= Seq::<ResourceView>::empty());
        assert(attempted.deep_view() + Seq::<Seq<char>>::empty() =~= attempted.deep_view());
    }
    Ok((attempted, failed))
}

/// Retrieves the live states and folds them into one aggregate status.
pub fn check_rollout_status(deployer: &mut impl Deployer, resources: &Vec<Resource>) -> (r: Result<
    (RolloutStatus, StrMap<ResourceState>),
    DeployError,
>)
    ensures
        match r {
            Ok((combined, states)) => combined == spec_fold_status(states@),
            Err(_) => true,
        },
{
    let current_state = match deployer.retrieve_current_state(resources) {
        Ok(s) => s,
        Err(e) => {
            return Err(e);
        },
    };
    let combined = fold_rollout_status(&current_state);
    Ok((combined, current_state))
}

/// A modelled view of a cluster deployment's reported progress.
pub struct KubeDeploymentProgress {
    pub has_status: bool,
    pub metadata_generation: Option<i64>,
    pub observed_generation: Option<i64>,
    pub progress_deadline_exceeded: bool,
    pub spec_replicas: Option<i32>,
    pub status_replicas: Option<i32>,
    pub updated_replicas: Option<i32>,
    pub available_replicas: Option<i32>,
}

/// Decides the rollout observation for one cluster deployment, from its
/// reported generation and replica counts.
pub fn determine_rollout_status(name: &str, p: &KubeDeploymentProgress) -> (r: RolloutStatusReason)
    ensures
        !p.has_status ==> r == RolloutStatusReason::NoStatus,
        p.has_status ==> {
            let generation = match p.metadata_generation {
                Some(g) => g as int,
                None => 0,
            };
            let observed = match p.observed_generation {
                Some(g) => g as int,
                None => 0,
            };
            let updated = match p.updated_replicas {
                Some(u) => u as int,
                None => 0,
            };
            let available = match p.available_replicas {
                Some(a) => a as int,
                None => 0,
            };
            if generation > observed {
                r == RolloutStatusReason::NotYetObserved
            } else if p.progress_deadline_exceeded {
                r matches RolloutStatusReason::Failed { .. }
            } else if (match p.spec_replicas {
                Some(sr) => sr as int > updated,
                None => false,
            }) {
                r matches RolloutStatusReason::NotAllUpdated { expected, updated: u2 } && expected
                    == p.spec_replicas.unwrap() && u2 as int == updated
            } else if (match p.status_replicas {
                Some(sr) => sr as int > updated,
                None => false,
            }) {
                r matches RolloutStatusReason::OldReplicasPending { number } && number as int == (
                if p.status_replicas.unwrap() as int - updated > i32::MAX as int {
                    i32::MAX as int
                } else {
                    p.status_replicas.unwrap() as int - updated
                })
            } else if available < updated {
                r matches RolloutStatusReason::UpdatedUnavailable { updated: u2, available: a2 }
                    && u2 as int == updated && a2 as int == available
            } else {
                r == RolloutStatusReason::Clean
            }
        },
{
    if !p.has_status {
        return RolloutStatusReason::NoStatus;
    }
    let generation = match p.metadata_generation {
        Some(g) => g,
        None => 0,
    };
    let observed = match p.observed_generation {
        Some(g) => g,
        None => 0,
    };
    if generation > observed {
        return RolloutStatusReason::NotYetObserved;
    }
    if p.progress_deadline_exceeded {
        let mut msg: Vec<char> = Vec::new();
        push_str_chars(&mut msg, "Deployment ");
        push_str_chars(&mut msg, name);
        push_str_chars(&mut msg, " exceeded its progress deadline");
        return RolloutStatusReason::Failed { message: string_from_chars(&msg) };
    }
    let updated = match p.updated_replicas {
        Some(u) => u,
        None => 0,
    };
    match p.spec_replicas {
        Some(sr) => {
            if sr > updated {
                return RolloutStatusReason::NotAllUpdated { expected: sr, updated };
            }
        },
        None => {},
    }
    match p.status_replicas {
        Some(sr) => {
            if sr > updated {
                let diff: i64 = sr as i64 - updated as i64;
                let number: i32 = if diff > i32::MAX as i64 {
                    i32::MAX
                } else {
                    diff as i32
                };
                return RolloutStatusReason::OldReplicasPending { number };
            }
        },
        None => {},
    }
    let available = match p.available_replicas {
        Some(a) => a,
        None => 0,
    };
    if available < updated {
        return RolloutStatusReason::UpdatedUnavailable { updated, available };
    }
    RolloutStatusReason::Clean
}

/// What stopped an assembly.
#[derive(Debug, Clone, Copy, PartialEq, Eq, Structural)]
pub enum AssembleError {
    /// A blob stood on a directory path that had to be walked.
    BlockedPath,
    /// A file's structured content was not available.
    UnreadableContent,
}

/// The index of the last `.` in a name, or `-1`.
pub open spec fn spec_last_dot(s: Seq<char>) -> int
    decreases s.len(),
{
    if s.len() == 0 {
        -1
    } else if s.last() == '.' {
        s.len() - 1
    } else {
        spec_last_dot(s.drop_last())
    }
}

/// The file stem of a name: everything before the last `.`, except that a
/// leading-dot name with no other dot is kept whole.
pub open spec fn spec_stem(s: Seq<char>) -> Seq<char> {
    let i = spec_last_dot(s);
    if i <= 0 {
        s
    } else {
        s.subrange(0, i)
    }
}

/// The resource name a walked file denotes: the stem of its file name.
pub open spec fn spec_res_name(path: Seq<Seq<char>>) -> Seq<char> {
    if path.len() == 0 {
        Seq::empty()
    } else {
        spec_stem(path.last())
    }
}

/// The replacement a version file's content provides: its `version` string
/// leaf, or nothing when absent.
pub open spec fn spec_version_rep(c: crate::content::ContentView) -> Seq<char> {
    match c {
        crate::content::ContentView::Object(fields) => match crate::content::spec_object_get(
            fields,
            "version"@,
        ) {
            Some(crate::content::ContentView::Text(t)) => t,
            _ => Seq::empty(),
        },
        _ => Seq::empty(),
    }
}

/// Self-contained resources folded from the deployable files.
pub open spec fn spec_fold_deployables(
    es: Seq<crate::repo::EntryView>,
    acc: Seq<(Seq<char>, ResourceView)>,
) -> Option<Seq<(Seq<char>, ResourceView)>>
    decreases es.len(),
{
    if es.len() == 0 {
        Some(acc)
    } else {
        match es[0].content {
            Some(c) => spec_fold_deployables(
                es.drop_first(),
                spec_assoc_set(
                    acc,
                    spec_res_name(es[0].path),
                    ResourceView {
                        name: spec_res_name(es[0].path),
                        content: c,
                        version: es[0].last_change,
                        message: es[0].change_message,
                    },
                ),
            ),
            None => None,
        }
    }
}

/// Split-mode resources folded from the version files: each pairs with the
/// base file at the same relative path, whose string leaves have `$version`
/// substituted; a version file without a base is skipped.
pub open spec fn spec_fold_versions(
    es: Seq<crate::repo::EntryView>,
    acc: Seq<(Seq<char>, ResourceView)>,
    tree: crate::tree::TreeView,
    env: Seq<char>,
) -> Option<Seq<(Seq<char>, ResourceView)>>
    decreases es.len(),
{
    if es.len() == 0 {
        Some(acc)
    } else {
        match es[0].content {
            Some(vc) => {
                let rep = spec_version_rep(vc);
                let base_path = seq![env, "base"@] + es[0].path;
                match crate::repo::spec_path_node(tree, base_path) {
                    Some(crate::tree::NodeView::Blob { id: _, content: Some(bc) }) => {
                        spec_fold_versions(
                            es.drop_first(),
                            spec_assoc_set(
                                acc,
                                spec_res_name(es[0].path),
                                ResourceView {
                                    name: spec_res_name(es[0].path),
                                    content: crate::content::spec_substitute(bc, rep),
                                    version: es[0].last_change,
                                    message: es[0].change_message,
                                },
                            ),
                            tree,
                            env,
                        )
                    },
                    Some(crate::tree::NodeView::Blob { id: _, content: None }) => None,
                    _ => spec_fold_versions(es.drop_first(), acc, tree, env),
                }
            },
            None => None,
        }
    }
}

/// The values of an assembled map, in order.
pub open spec fn spec_assoc_values(m: Seq<(Seq<char>, ResourceView)>) -> Seq<ResourceView> {
    Seq::new(m.len(), |i: int| m[i].1)
}

/// The resources assembled for one environment at commit `k`: deployable
/// files first, then version files paired with their bases, the pair
/// overwriting any same-name deployable.
pub open spec fn spec_assemble(h: Seq<crate::repo::CommitView>, k: int, env: Seq<char>) -> Option<
    Seq<(Seq<char>, ResourceView)>,
> {
    match spec_fold_deployables(
        crate::repo::spec_repo_walk(h, k, seq![env, "deployable"@]),
        Seq::empty(),
    ) {
        Some(acc) => spec_fold_versions(
            crate::repo::spec_repo_walk(h, k, seq![env, "version"@]),
            acc,
            h[k].tree,
            env,
        ),
        None => None,
    }
}

/// The file stem of a name.
pub fn stem_of(s: &str) -> (r: String)
    ensures
        r@ == spec_stem(s@),
{
    let chars = crate::text::str_to_chars(s);
    let mut i: usize = chars.len();
    let mut dot: usize = 0;
    let mut found = false;
    proof {
        assert(s@.subrange(0, s@.len() as int) =~= s@);
    }
    while i > 0
        invariant_except_break
            !found,
            spec_last_dot(s@) == spec_last_dot(s@.subrange(0, i as int)),
        invariant
            i <= chars@.len(),
            chars@ == s@,
        ensures
            !found ==> spec_last_dot(s@) < 0,
            found ==> dot < chars@.len() && dot as int == spec_last_dot(s@),
        decreases i,
    {
        proof {
            assert(s@.subrange(0, i as int).last() == s@[i - 1]);
            assert(s@.subrange(0, i as int).drop_last() =~= s@.subrange(0, i - 1));
        }
        if chars[i - 1] == '.' {
            dot = i - 1;
            found = true;
            proof {
                assert(spec_last_dot(s@.subrange(0, i as int)) == i - 1);
            }
            break ;
        }
        i = i - 1;
    }
    proof {
        if !found {
            assert(s@.subrange(0, 0) =~= Seq::<char>::empty());
        }
    }
    if !found || dot == 0 {
        proof {
            assert(spec_stem(s@) == s@);
        }
        return s.to_owned();
    }
    let mut out: Vec<char> = Vec::new();
    let mut j: usize = 0;
    while j < dot
        invariant
            j <= dot,
            dot < chars@.len(),
            chars@ == s@,
            out@ =~= s@.subrange(0, j as int),
        decreases dot - j,
    {
        out.push(chars[j]);
        proof {
            assert(s@.subrange(0, j + 1) =~= s@.subrange(0, j as int).push(s@[j as int]));
        }
        j = j + 1;
    }
    string_from_chars(&out)
}

/// The assembled map with each resource replaced by its view.
pub open spec fn spec_res_assoc_view(m: Seq<(Seq<char>, Resource)>) -> Seq<
    (Seq<char>, ResourceView),
> {
    Seq::new(m.len(), |i: int| (m[i].0, m[i].1@))
}

/// Setting a binding commutes with taking resource views.
proof fn lemma_res_view_set(m: Seq<(Seq<char>, Resource)>, k: Seq<char>, v: Resource)
    ensures
        spec_res_assoc_view(spec_assoc_set(m, k, v)) == spec_assoc_set(
            spec_res_assoc_view(m),
            k,
            v@,
        ),
    decreases m.len(),
{
    if m.len() == 0 {
        assert(spec_res_assoc_view(seq![(k, v)]) =~= seq![(k, v@)]);
    } else if m[0].0 == k {
        assert(spec_res_assoc_view(m)[0] == (m[0].0, m[0].1@));
        assert(spec_res_assoc_view(seq![(k, v)] + m.drop_first()) =~= seq![(k, v@)]
            + spec_res_assoc_view(m).drop_first());
        assert(spec_res_assoc_view(m).drop_first() =~= spec_res_assoc_view(m.drop_first()));
    } else {
        lemma_res_view_set(m.drop_first(), k, v);
        assert(spec_res_assoc_view(m)[0] == (m[0].0, m[0].1@));
        assert(spec_res_assoc_view(m).drop_first() =~= spec_res_assoc_view(m.drop_first()));
        assert(spec_res_assoc_view(seq![m[0]] + spec_assoc_set(m.drop_first(), k, v)) =~= seq![
            (m[0].0, m[0].1@),
        ] + spec_res_assoc_view(spec_assoc_set(m.drop_first(), k, v)));
        assert(spec_assoc_set(spec_res_assoc_view(m), k, v@) =~= seq![(m[0].0, m[0].1@)]
            + spec_assoc_set(spec_res_assoc_view(m.drop_first()), k, v@));
    }
}

/// What stops an assembly of `env` at commit `k`, if anything: a blob on
/// a walked path, or a walked file whose structured content is missing.
pub open spec fn spec_assemble_error(
    h: Seq<crate::repo::CommitView>,
    k: int,
    env: Seq<char>,
) -> Option<AssembleError> {
    let dep_blocked = crate::repo::spec_descent_blocked(h[k].tree, seq![env, "deployable"@]);
    let dep_fold = spec_fold_deployables(
        crate::repo::spec_repo_walk(h, k, seq![env, "deployable"@]),
        Seq::empty(),
    );
    let ver_blocked = crate::repo::spec_descent_blocked(h[k].tree, seq![env, "version"@]);
    if dep_blocked {
        Some(AssembleError::BlockedPath)
    } else if dep_fold is None {
        Some(AssembleError::UnreadableContent)
    } else if ver_blocked {
        Some(AssembleError::BlockedPath)
    } else if spec_assemble(h, k, env) is None {
        Some(AssembleError::UnreadableContent)
    } else {
        None
    }
}

/// Assembles the resources of one environment from the head commit, or
/// `None` when nothing changed since `last_version`.  Deployable files
/// yield self-contained resources; version files pair with the base file
/// at the same relative path, whose string leaves have `$version`
/// substituted, the pair overwriting any same-name deployable.
pub fn get_resources(repo: &crate::repo::RepoHistory, env: &str, last_version: Option<&Id>) -> (r:
    Result<Option<ResourcesInfo>, AssembleError>)
    requires
        repo@.len() > 0,
    ensures
        (match last_version {
            Some(v) => v@ == repo@.last().id,
            None => false,
        }) <==> (r matches Ok(None)),
        ({
            let h = repo@;
            let k = repo@.len() - 1;
            match r {
                Ok(None) => true,
                Ok(Some(info)) => {
                    &&& spec_assemble_error(h, k, env@) is None
                    &&& spec_assemble(h, k, env@) matches Some(m) && info.resources.deep_view()
                        == spec_assoc_values(m)
                },
                Err(e) => spec_assemble_error(h, k, env@) == Some(e),
            }
        }),
{
    let ghost h = repo@;
    let ghost k = repo@.len() - 1;
    let version = repo.version();
    match last_version {
        Some(lv) => {
            if lv.eq(&version) {
                return Ok(None);
            }
        },
        None => {},
    }
    let mut dep_path: Vec<String> = Vec::new();
    dep_path.push(env.to_owned());
    dep_path.push("deployable".to_owned());
    proof {
        assert(dep_path.deep_view() =~= seq![env@, "deployable"@]);
    }
    let dep_entries = match repo.walk(&dep_path) {
        Ok(e) => e,
        Err(_) => {
            return Err(AssembleError::BlockedPath);
        },
    };
    let ghost dv = crate::repo::spec_repo_walk(h, k, seq![env@, "deployable"@]);
    proof {
        assert(dep_entries.deep_view() == dv);
        assert(dv.skip(0) =~= dv);
    }
    let mut acc: StrMap<Resource> = StrMap::new();
    proof {
        assert(spec_res_assoc_view(acc@) =~= Seq::<(Seq<char>, ResourceView)>::empty());
    }
    let mut i: usize = 0;
    while i < dep_entries.len()
        invariant
            i <= dep_entries@.len(),
            dv == dep_entries.deep_view(),
            dv.len() == dep_entries@.len(),
            forall|j: int| 0 <= j < dv.len() ==> #[trigger] dv[j] == dep_entries@[j]@,
            h == repo@,
            k == h.len() - 1,
            0 <= k < h.len(),
            !crate::repo::spec_descent_blocked(h[k as int].tree, seq![env@, "deployable"@]),
            dv == crate::repo::spec_repo_walk(h, k as int, seq![env@, "deployable"@]),
            (match last_version {
                Some(v) => v@ != h.last().id,
                None => true,
            }),
            spec_fold_deployables(dv.skip(i as int), spec_res_assoc_view(acc@))
                == spec_fold_deployables(dv, Seq::empty()),
        decreases dep_entries@.len() - i,
    {
        proof {
            assert(dv.skip(i as int)[0] == dv[i as int]);
            assert(dv.skip(i as int).drop_first() =~= dv.skip(i + 1));
        }
        let entry = &dep_entries[i];
        let content = match &entry.content {
            Some(c) => c.deep_clone(),
            None => {
                proof {
                    assert(spec_fold_deployables(dv.skip(i as int), spec_res_assoc_view(acc@))
                        is None);
                }
                return Err(AssembleError::UnreadableContent);
            },
        };
        let name = if entry.path.len() == 0 {
            String::new()
        } else {
            stem_of(entry.path[entry.path.len() - 1].as_str())
        };
        proof {
            if entry.path@.len() > 0 {
                assert(entry.path.deep_view().last() == entry.path@[entry.path@.len() - 1]@);
            }
            assert(name@ == spec_res_name(dv[i as int].path));
        }
        let res = Resource {
            name: name.clone(),
            content,
            version: entry.last_change,
            message: entry.change_message.clone(),
        };
        proof {
            lemma_res_view_set(acc@, name@, res);
        }
        acc.set(name, res);
        i = i + 1;
    }
    proof {
        assert(dv.skip(dv.len() as int) =~= Seq::<crate::repo::EntryView>::empty());
    }
    let ghost after_dep = spec_res_assoc_view(acc@);
    let mut ver_path: Vec<String> = Vec::new();
    ver_path.push(env.to_owned());
    ver_path.push("version".to_owned());
    proof {
        assert(ver_path.deep_view() =~= seq![env@, "version"@]);
    }
    let ver_entries = match repo.walk(&ver_path) {
        Ok(e) => e,
        Err(_) => {
            return Err(AssembleError::BlockedPath);
        },
    };
    let ghost vv = crate::repo::spec_repo_walk(h, k, seq![env@, "version"@]);
    proof {
        assert(ver_entries.deep_view() == vv);
        assert(vv.skip(0) =~= vv);
    }
    let head_tree = &repo.commits[repo.commits.len() - 1].tree;
    proof {
        assert(head_tree@ == h[k].tree);
    }
    let mut i: usize = 0;
    while i < ver_entries.len()
        invariant
            i <= ver_entries@.len(),
            vv == ver_entries.deep_view(),
            vv.len() == ver_entries@.len(),
            forall|j: int| 0 <= j < vv.len() ==> #[trigger] vv[j] == ver_entries@[j]@,
            h == repo@,
            k == h.len() - 1,
            0 <= k < h.len(),
            (match last_version {
                Some(v) => v@ != h.last().id,
                None => true,
            }),
            !crate::repo::spec_descent_blocked(h[k as int].tree, seq![env@, "deployable"@]),
            !crate::repo::spec_descent_blocked(h[k as int].tree, seq![env@, "version"@]),
            spec_fold_deployables(
                crate::repo::spec_repo_walk(h, k as int, seq![env@, "deployable"@]),
                Seq::empty(),
            ) == Some(after_dep),
            vv == crate::repo::spec_repo_walk(h, k as int, seq![env@, "version"@]),
            head_tree@ == h[k as int].tree,
            spec_fold_versions(vv.skip(i as int), spec_res_assoc_view(acc@), h[k as int].tree, env@)
                == spec_fold_versions(vv, after_dep, h[k as int].tree, env@),
        decreases ver_entries@.len() - i,
    {
        proof {
            assert(vv.skip(i as int)[0] == vv[i as int]);
            assert(vv.skip(i as int).drop_first() =~= vv.skip(i + 1));
        }
        let entry = &ver_entries[i];
        let vc = match &entry.content {
            Some(c) => c,
            None => {
                proof {
                    assert(spec_fold_versions(
                        vv.skip(i as int),
                        spec_res_assoc_view(acc@),
                        h[k as int].tree,
                        env@,
                    ) is None);
                }
                return Err(AssembleError::UnreadableContent);
            },
        };
        let rep_string = match vc.get("version") {
            Some(ContentValue::Text(t)) => t.clone(),
            _ => String::new(),
        };
        proof {
            assert(rep_string@ == spec_version_rep(vv[i as int].content.unwrap()));
        }
        let rep = crate::text::str_to_chars(rep_string.as_str());
        let mut base_path: Vec<String> = Vec::new();
        base_path.push(env.to_owned());
        base_path.push("base".to_owned());
        let ghost prefix = base_path@;
        let mut rel = crate::repo::clone_path(&entry.path);
        let ghost relv = rel@;
        let ghost reldv = rel.deep_view();
        base_path.append(&mut rel);
        proof {
            assert(reldv == entry.path.deep_view());
            assert(reldv.len() == relv.len());
            assert(relv.len() == entry.path@.len());
            assert(base_path@ == prefix + relv);
            assert(base_path@.len() == 2 + entry.path@.len());
            assert(base_path@[0]@ == env@);
            assert(base_path@[1]@ == "base"@);
            let curpath = vv[i as int].path;
            assert forall|j: int| 0 <= j < entry.path@.len() implies base_path@[j + 2]@
                == curpath[j] by {
                assert(base_path@[j + 2] == relv[j]);
                assert(relv[j]@ == reldv[j]);
            }
            assert(base_path.deep_view() =~= seq![env@, "base"@] + vv[i as int].path);
        }
        match crate::repo::node_at(head_tree, &base_path) {
            Ok(Some(crate::tree::TreeNode::Blob { id: _, content: Some(bc) })) => {
                let merged = bc.substitute(&rep);
                let name = if entry.path.len() == 0 {
                    String::new()
                } else {
                    stem_of(entry.path[entry.path.len() - 1].as_str())
                };
                proof {
                    if entry.path@.len() > 0 {
                        assert(entry.path.deep_view().last() == entry.path@[entry.path@.len()
                            - 1]@);
                    }
                    assert(name@ == spec_res_name(vv[i as int].path));
                }
                let res = Resource {
                    name: name.clone(),
                    content: merged,
                    version: entry.last_change,
                    message: entry.change_message.clone(),
                };
                proof {
                    lemma_res_view_set(acc@, name@, res);
                }
                acc.set(name, res);
            },
            Ok(Some(crate::tree::TreeNode::Blob { id: _, content: None })) => {
                proof {
                    assert(spec_fold_versions(
                        vv.skip(i as int),
                        spec_res_assoc_view(acc@),
                        h[k as int].tree,
                        env@,
                    ) is None);
                }
                return Err(AssembleError::UnreadableContent);
            },
            _ => {},
        }
        i = i + 1;
    }
    proof {
        assert(vv.skip(vv.len() as int) =~= Seq::<crate::repo::EntryView>::empty());
    }
    let ghost final_map = spec_res_assoc_view(acc@);
    let mut resources: Vec<Resource> = Vec::new();
    let mut entries = acc.entries;
    let ghost total = final_map.len();
    proof {
        assert(final_map.subrange(0, 0) =~= Seq::<(Seq<char>, ResourceView)>::empty());
    }
    while entries.len() > 0
        invariant
            resources@.len() + entries@.len() == total,
            forall|j: int|
                0 <= j < resources@.len() ==> (#[trigger] resources@[j])@ == final_map[j].1,
            forall|j: int|
                0 <= j < entries@.len() ==> (#[trigger] entries@[j].1)@ == final_map[resources@.len() + j].1,
        decreases entries@.len(),
    {
        let (_, res) = entries.remove(0);
        resources.push(res);
    }
    let info = ResourcesInfo { resources };
    proof {
        assert(info.resources.deep_view() =~= spec_assoc_values(final_map));
    }
    Ok(Some(info))
}

/// What stopped one environment's deployment pass.
#[derive(Debug, Clone, PartialEq, Eq)]
pub enum EnvDeployError {
    /// Assembling the environment's resources failed.
    Assemble(AssembleError),
    /// The cluster driver failed.
    Cluster(DeployError),
}

/// One deployment pass over an environment: assemble and apply what
/// changed, then, while a rollout is under way, observe the cluster and
/// fold the per-resource states; a clean fold records the head as the last
/// successfully deployed version.
pub fn deploy_env(
    deployer: &mut impl Deployer,
    repo: &crate::repo::RepoHistory,
    env: &str,
    last_version: Option<&Id>,
    last_status: Option<DeployerStatus>,
) -> (r: Result<DeployerStatus, EnvDeployError>)
    requires
        repo@.len() > 0,
    ensures
        ({
            let uptodate = match last_version {
                Some(v) => v@ == repo@.last().id,
                None => false,
            };
            match r {
                Ok(status) => {
                    &&& (status.rollout_status == RolloutStatus::Clean
                        ==> (status.last_successfully_deployed_version matches Some(v) && v@
                        == repo@.last().id))
                    &&& (status.rollout_status != RolloutStatus::Clean
                        ==> status.last_successfully_deployed_version == (match last_status {
                        Some(s) => s.last_successfully_deployed_version,
                        None => None::<Id>,
                    }))
                    &&& status.deployed_version@ == (if uptodate {
                        match last_status {
                            Some(s) => s.deployed_version@,
                            None => repo@.last().id,
                        }
                    } else {
                        repo@.last().id
                    })
                },
                Err(EnvDeployError::Assemble(e)) => spec_assemble_error(
                    repo@,
                    repo@.len() - 1,
                    env@,
                ) == Some(e),
                Err(EnvDeployError::Cluster(_)) => true,
            }
        }),
        (match (last_version, last_status) {
            (Some(v), Some(s)) => v@ == repo@.last().id && s.rollout_status
                != RolloutStatus::InProgress,
            _ => false,
        }) ==> (r matches Ok(status) && last_status matches Some(s) && {
            &&& status.deployed_version@ == s.deployed_version@
            &&& status.rollout_status == s.rollout_status
            &&& status.status_by_resource@ == s.status_by_resource@
            &&& (s.rollout_status == RolloutStatus::Clean
                ==> (status.last_successfully_deployed_version matches Some(v) && v@
                == repo@.last().id))
            &&& (s.rollout_status != RolloutStatus::Clean
                ==> status.last_successfully_deployed_version
                == s.last_successfully_deployed_version)
        }),
{
    let version = repo.version();
    let mut env_status = match last_status {
        Some(s) => s,
        None => new_deployer_status(version),
    };
    match get_resources(repo, env, last_version) {
        Ok(Some(info)) => {
            match deploy(deployer, &info.resources) {
                Ok(_) => {},
                Err(e) => {
                    return Err(EnvDeployError::Cluster(e));
                },
            }
            env_status.deployed_version = version;
            env_status.rollout_status = RolloutStatus::InProgress;
        },
        Ok(None) => {},
        Err(e) => {
            return Err(EnvDeployError::Assemble(e));
        },
    }
    if env_status.rollout_status == RolloutStatus::InProgress {
        let last_ok = match &env_status.last_successfully_deployed_version {
            Some(v) => Some(v),
            None => None,
        };
        match get_resources(repo, env, last_ok) {
            Ok(Some(info)) => {
                let (new_status, new_by_resource) = match check_rollout_status(
                    deployer,
                    &info.resources,
                ) {
                    Ok(p) => p,
                    Err(e) => {
                        return Err(EnvDeployError::Cluster(e));
                    },
                };
                env_status.rollout_status = new_status;
                let ghost dv1 = env_status.deployed_version;
                let ghost rs1 = env_status.rollout_status;
                let mut incoming = new_by_resource.entries;
                while incoming.len() > 0
                    invariant
                        env_status.last_successfully_deployed_version == (match last_status {
                            Some(s) => s.last_successfully_deployed_version,
                            None => None::<Id>,
                        }),
                        env_status.deployed_version == dv1,
                        env_status.rollout_status == rs1,
                    decreases incoming@.len(),
                {
                    let (name, state) = incoming.remove(0);
                    env_status.status_by_resource.set(name, state);
                }
            },
            Ok(None) => {},
            Err(e) => {
                return Err(EnvDeployError::Assemble(e));
            },
        }
    }
    if env_status.rollout_status == RolloutStatus::Clean {
        env_status.last_successfully_deployed_version = Some(version);
    }
    Ok(env_status)
}

/// The live state stamped on a cluster object: its version annotation (a
/// missing or unparsable annotation counts as the zero id), the expected
/// version, and the given observation.
pub fn to_resource_state(
    annotation: Option<&str>,
    expected_version: &Id,
    status: RolloutStatusReason,
) -> (r: ResourceState)
    ensures
        r matches ResourceState::Deployed { version, expected_version: e, status: s } && e@
            == expected_version@ && s == status && version@ == (match annotation {
            Some(a) => if crate::id::spec_is_hex_id(a@) {
                crate::id::spec_bytes_of_hex(a@)
            } else {
                Seq::new(20, |i: int| 0u8)
            },
            None => Seq::new(20, |i: int| 0u8),
        }),
{
    let version = match annotation {
        Some(a) => match Id::from_hex(a) {
            Some(id) => id,
            None => Id::zero(),
        },
        None => Id::zero(),
    };
    ResourceState::Deployed { version, expected_version: *expected_version, status }
}

} // verus!
