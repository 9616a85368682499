//! The commit analyzer: walking the repository forward, it derives an
//! append-only stream of typed change events and folds them into the
//! per-resource analysis.

use vstd::prelude::*;

use crate::id::Id;
use crate::message::{remove_trailers, split_log_message, spec_split_message, spec_strip_trailers};
use crate::ordmap::{
    lemma_assoc_set_unique_keys, spec_assoc_get, spec_assoc_set, spec_unique_keys, IdMap, StrMap,
};
use crate::repo::RepoHistory;

verus! {

/// The name of a resource.
#[derive(Debug, Clone, PartialEq, Eq, Hash)]
pub struct ResourceId(pub String);

/// The name of an environment.
#[derive(Debug, Clone, PartialEq, Eq, Hash)]
pub struct EnvName(pub String);

/// One version of a resource: the content id of its version file, the
/// commit that introduced it, the version string, and that commit's body.
#[derive(Debug, Clone, PartialEq, Eq)]
pub struct ResourceVersion {
    pub version_id: Id,
    pub introduced_in: Id,
    pub version: String,
    pub change_log: String,
}

/// Everything known about one resource: its versions in order of
/// appearance, and per environment the current base data and version.
pub struct ResourceStatus {
    pub name: String,
    pub versions: IdMap<ResourceVersion>,
    pub base_data: StrMap<Id>,
    pub version_by_env: StrMap<Id>,
}

/// One typed change derived from a commit.
#[derive(Debug, Clone, PartialEq, Eq)]
pub enum ResourceRepoChange {
    Version { resource: ResourceId, version: ResourceVersion },
    Deployable { resource: ResourceId, env: EnvName, content_id: Id },
    BaseData { resource: ResourceId, env: EnvName, content_id: Id },
    VersionDeployed {
        resource: ResourceId,
        env: EnvName,
        previous_version_id: Option<Id>,
        version_id: Id,
    },
}

/// One analyzed commit: its metadata and the changes it brought.
pub struct ResourceRepoCommit {
    pub id: Id,
    pub message: String,
    pub long_message: String,
    pub author_name: String,
    pub author_email: String,
    pub time: i64,
    pub changes: Vec<ResourceRepoChange>,
}

/// The analysis: everything known per resource, and the full history of
/// analyzed commits.  `add_commit` is the sole mutator.
pub struct VersionsAnalysis {
    pub resources: StrMap<ResourceStatus>,
    pub history: Vec<ResourceRepoCommit>,
}

/// Every per-resource versions map keeps its keys unique.
pub open spec fn spec_analysis_wf(a: VersionsAnalysis) -> bool {
    forall|j: int|
        0 <= j < a.resources@.len() ==> spec_unique_keys((#[trigger] a.resources@[j]).1.versions@)
}

/// No two `Version` changes in a list name the same resource and version.
pub open spec fn spec_no_dup_versions(changes: Seq<ResourceRepoChange>) -> bool {
    forall|i: int, j: int|
        0 <= i < j < changes.len() ==> !((#[trigger] changes[i]) matches
            ResourceRepoChange::Version { resource: r1, version: v1 }
            && (#[trigger] changes[j]) matches ResourceRepoChange::Version {
            resource: r2,
            version: v2,
        } && r1.0@ == r2.0@ && v1.version_id@ == v2.version_id@)
}

/// Spec-level shape of one resource version.
#[verifier::ext_equal]
pub struct VersionView {
    pub version_id: Seq<u8>,
    pub introduced_in: Seq<u8>,
    pub version: Seq<char>,
    pub change_log: Seq<char>,
}

impl DeepView for ResourceVersion {
    type V = VersionView;

    open spec fn deep_view(&self) -> VersionView {
        VersionView {
            version_id: self.version_id@,
            introduced_in: self.introduced_in@,
            version: self.version@,
            change_log: self.change_log@,
        }
    }
}

/// Spec-level shape of one resource's status.
#[verifier::ext_equal]
pub struct ResourceStatusView {
    pub name: Seq<char>,
    pub versions: Seq<(Seq<u8>, VersionView)>,
    pub base_data: Seq<(Seq<char>, Seq<u8>)>,
    pub version_by_env: Seq<(Seq<char>, Seq<u8>)>,
}

/// The versions map with ids and versions as views.
pub open spec fn spec_versions_view(m: Seq<(Seq<u8>, ResourceVersion)>) -> Seq<
    (Seq<u8>, VersionView),
> {
    Seq::new(m.len(), |i: int| (m[i].0, m[i].1.deep_view()))
}

/// An id-valued map with ids as views.
pub open spec fn spec_ids_view(m: Seq<(Seq<char>, Id)>) -> Seq<(Seq<char>, Seq<u8>)> {
    Seq::new(m.len(), |i: int| (m[i].0, m[i].1@))
}

impl DeepView for ResourceStatus {
    type V = ResourceStatusView;

    open spec fn deep_view(&self) -> ResourceStatusView {
        ResourceStatusView {
            name: self.name@,
            versions: spec_versions_view(self.versions@),
            base_data: spec_ids_view(self.base_data@),
            version_by_env: spec_ids_view(self.version_by_env@),
        }
    }
}

/// Spec-level shape of one change.
#[verifier::ext_equal]
pub enum ChangeView {
    Version { resource: Seq<char>, version: VersionView },
    Deployable { resource: Seq<char>, env: Seq<char>, content_id: Seq<u8> },
    BaseData { resource: Seq<char>, env: Seq<char>, content_id: Seq<u8> },
    VersionDeployed {
        resource: Seq<char>,
        env: Seq<char>,
        previous_version_id: Option<Seq<u8>>,
        version_id: Seq<u8>,
    },
}

impl DeepView for ResourceRepoChange {
    type V = ChangeView;

    open spec fn deep_view(&self) -> ChangeView {
        match self {
            ResourceRepoChange::Version { resource, version } => ChangeView::Version {
                resource: resource.0@,
                version: version.deep_view(),
            },
            ResourceRepoChange::Deployable { resource, env, content_id } => ChangeView::Deployable {
                resource: resource.0@,
                env: env.0@,
                content_id: content_id@,
            },
            ResourceRepoChange::BaseData { resource, env, content_id } => ChangeView::BaseData {
                resource: resource.0@,
                env: env.0@,
                content_id: content_id@,
            },
            ResourceRepoChange::VersionDeployed {
                resource,
                env,
                previous_version_id,
                version_id,
            } => ChangeView::VersionDeployed {
                resource: resource.0@,
                env: env.0@,
                previous_version_id: match previous_version_id {
                    Some(p) => Some(p@),
                    None => None,
                },
                version_id: version_id@,
            },
        }
    }
}

/// The per-resource map with statuses as views.
pub open spec fn spec_resources_view(m: Seq<(Seq<char>, ResourceStatus)>) -> Seq<
    (Seq<char>, ResourceStatusView),
> {
    Seq::new(m.len(), |i: int| (m[i].0, m[i].1.deep_view()))
}

/// A status knowing nothing about a resource.
pub open spec fn spec_fresh_status(name: Seq<char>) -> ResourceStatusView {
    ResourceStatusView {
        name,
        versions: Seq::empty(),
        base_data: Seq::empty(),
        version_by_env: Seq::empty(),
    }
}

/// One change folded into the per-resource map: the named resource's
/// status (a fresh one where unknown) gains the version, base pointer or
/// deployed pointer the change carries.
pub open spec fn spec_apply_change(
    m: Seq<(Seq<char>, ResourceStatusView)>,
    c: ChangeView,
) -> Seq<(Seq<char>, ResourceStatusView)> {
    match c {
        ChangeView::Version { resource, version } => {
            let rs = match spec_assoc_get(m, resource) {
                Some(rs) => rs,
                None => spec_fresh_status(resource),
            };
            spec_assoc_set(
                m,
                resource,
                ResourceStatusView {
                    name: rs.name,
                    versions: spec_assoc_set(rs.versions, version.version_id, version),
                    base_data: rs.base_data,
                    version_by_env: rs.version_by_env,
                },
            )
        },
        ChangeView::Deployable { resource, env, content_id } => {
            let rs = match spec_assoc_get(m, resource) {
                Some(rs) => rs,
                None => spec_fresh_status(resource),
            };
            spec_assoc_set(
                m,
                resource,
                ResourceStatusView {
                    name: rs.name,
                    versions: rs.versions,
                    base_data: spec_assoc_set(rs.base_data, env, content_id),
                    version_by_env: rs.version_by_env,
                },
            )
        },
        ChangeView::BaseData { resource, env, content_id } => {
            let rs = match spec_assoc_get(m, resource) {
                Some(rs) => rs,
                None => spec_fresh_status(resource),
            };
            spec_assoc_set(
                m,
                resource,
                ResourceStatusView {
                    name: rs.name,
                    versions: rs.versions,
                    base_data: spec_assoc_set(rs.base_data, env, content_id),
                    version_by_env: rs.version_by_env,
                },
            )
        },
        ChangeView::VersionDeployed { resource, env, previous_version_id: _, version_id } => {
            let rs = match spec_assoc_get(m, resource) {
                Some(rs) => rs,
                None => spec_fresh_status(resource),
            };
            spec_assoc_set(
                m,
                resource,
                ResourceStatusView {
                    name: rs.name,
                    versions: rs.versions,
                    base_data: rs.base_data,
                    version_by_env: spec_assoc_set(rs.version_by_env, env, version_id),
                },
            )
        },
    }
}

/// Every change of a commit folded into the per-resource map, in order.
pub open spec fn spec_apply_changes(
    m: Seq<(Seq<char>, ResourceStatusView)>,
    cs: Seq<ChangeView>,
) -> Seq<(Seq<char>, ResourceStatusView)>
    decreases cs.len(),
{
    if cs.len() == 0 {
        m
    } else {
        spec_apply_changes(spec_apply_change(m, cs[0]), cs.drop_first())
    }
}

/// Setting a binding commutes with taking version views.
proof fn lemma_versions_view_set(m: Seq<(Seq<u8>, ResourceVersion)>, k: Seq<u8>, v: ResourceVersion)
    ensures
        spec_versions_view(spec_assoc_set(m, k, v)) == spec_assoc_set(
            spec_versions_view(m),
            k,
            v.deep_view(),
        ),
    decreases m.len(),
{
    if m.len() == 0 {
        assert(spec_versions_view(seq![(k, v)]) =~= seq![(k, v.deep_view())]);
    } else if m[0].0 == k {
        assert(spec_versions_view(seq![(k, v)] + m.drop_first()) =~= seq![(k, v.deep_view())]
            + spec_versions_view(m).drop_first());
        assert(spec_versions_view(m).drop_first() =~= spec_versions_view(m.drop_first()));
    } else {
        lemma_versions_view_set(m.drop_first(), k, v);
        assert(spec_versions_view(m).drop_first() =~= spec_versions_view(m.drop_first()));
        assert(spec_versions_view(seq![m[0]] + spec_assoc_set(m.drop_first(), k, v)) =~= seq![
            spec_versions_view(m)[0],
        ] + spec_versions_view(spec_assoc_set(m.drop_first(), k, v)));
        assert(spec_assoc_set(spec_versions_view(m), k, v.deep_view()) =~= seq![
            spec_versions_view(m)[0],
        ] + spec_assoc_set(spec_versions_view(m.drop_first()), k, v.deep_view()));
    }
}

/// Setting a binding commutes with taking id views.
proof fn lemma_ids_view_set(m: Seq<(Seq<char>, Id)>, k: Seq<char>, v: Id)
    ensures
        spec_ids_view(spec_assoc_set(m, k, v)) == spec_assoc_set(spec_ids_view(m), k, v@),
    decreases m.len(),
{
    if m.len() == 0 {
        assert(spec_ids_view(seq![(k, v)]) =~= seq![(k, v@)]);
    } else if m[0].0 == k {
        assert(spec_ids_view(seq![(k, v)] + m.drop_first()) =~= seq![(k, v@)] + spec_ids_view(
            m,
        ).drop_first());
        assert(spec_ids_view(m).drop_first() =~= spec_ids_view(m.drop_first()));
    } else {
        lemma_ids_view_set(m.drop_first(), k, v);
        assert(spec_ids_view(m).drop_first() =~= spec_ids_view(m.drop_first()));
        assert(spec_ids_view(seq![m[0]] + spec_assoc_set(m.drop_first(), k, v)) =~= seq![
            spec_ids_view(m)[0],
        ] + spec_ids_view(spec_assoc_set(m.drop_first(), k, v)));
        assert(spec_assoc_set(spec_ids_view(m), k, v@) =~= seq![spec_ids_view(m)[0]]
            + spec_assoc_set(spec_ids_view(m.drop_first()), k, v@));
    }
}

impl VersionsAnalysis {
    /// An analysis knowing nothing.
    pub fn new() -> (r: VersionsAnalysis)
        ensures
            r.resources@.len() == 0,
            r.history@.len() == 0,
            spec_analysis_wf(r),
    {
        VersionsAnalysis { resources: StrMap::new(), history: Vec::new() }
    }

    /// Applies every change of an analyzed commit to the per-resource
    /// state — the fold of the commit's changes over the old map — and
    /// appends the commit to the history.  Well-formedness (no duplicate
    /// version keys anywhere) is preserved.
    pub fn add_commit(&mut self, commit: ResourceRepoCommit)
        requires
            spec_analysis_wf(*old(self)),
        ensures
            spec_analysis_wf(*final(self)),
            final(self).history@ == old(self).history@.push(commit),
            spec_resources_view(final(self).resources@) == spec_apply_changes(
                spec_resources_view(old(self).resources@),
                commit.changes.deep_view(),
            ),
    {
        let ghost v_init = spec_resources_view(self.resources@);
        let ghost cv = commit.changes.deep_view();
        proof {
            assert(cv.skip(0) =~= cv);
        }
        let mut i: usize = 0;
        while i < commit.changes.len()
            invariant
                i <= commit.changes@.len(),
                spec_analysis_wf(*self),
                self.history@ == old(self).history@,
                cv == commit.changes.deep_view(),
                cv.len() == commit.changes@.len(),
                forall|j: int| 0 <= j < cv.len() ==> #[trigger] cv[j] == commit.changes@[j].deep_view(),
                spec_apply_changes(v_init, cv) == spec_apply_changes(
                    spec_resources_view(self.resources@),
                    cv.skip(i as int),
                ),
            decreases commit.changes@.len() - i,
        {
            proof {
                assert(cv.skip(i as int)[0] == cv[i as int]);
                assert(cv.skip(i as int).drop_first() =~= cv.skip(i + 1));
            }
            match &commit.changes[i] {
                ResourceRepoChange::Version { resource, version } => {
                    apply_version_change(&mut self.resources, resource, version);
                },
                ResourceRepoChange::Deployable { resource, env, content_id } => {
                    apply_base_change(&mut self.resources, resource, env, content_id);
                },
                ResourceRepoChange::BaseData { resource, env, content_id } => {
                    apply_base_change(&mut self.resources, resource, env, content_id);
                },
                ResourceRepoChange::VersionDeployed {
                    resource,
                    env,
                    previous_version_id: _,
                    version_id,
                } => {
                    apply_deployed_change(&mut self.resources, resource, env, version_id);
                },
            }
            i = i + 1;
        }
        proof {
            assert(cv.skip(cv.len() as int) =~= Seq::<ChangeView>::empty());
        }
        self.history.push(commit);
    }
}

/// Whether every status in the map keeps its version keys unique.
pub open spec fn spec_statuses_wf(m: Seq<(Seq<char>, ResourceStatus)>) -> bool {
    forall|j: int| 0 <= j < m.len() ==> spec_unique_keys((#[trigger] m[j]).1.versions@)
}

/// Folds one `Version` change into the map.
fn apply_version_change(
    resources: &mut StrMap<ResourceStatus>,
    resource: &ResourceId,
    version: &ResourceVersion,
)
    requires
        spec_statuses_wf(old(resources)@),
    ensures
        spec_statuses_wf(final(resources)@),
        spec_resources_view(final(resources)@) == spec_apply_change(
            spec_resources_view(old(resources)@),
            ChangeView::Version { resource: resource.0@, version: version.deep_view() },
        ),
{
    let ghost vb = spec_resources_view(resources@);
    let (idx, key, mut rs) = take_or_new(resources, resource.0.as_str());
    let ghost rsv = rs.deep_view();
    let cloned = clone_version(version);
    proof {
        lemma_assoc_set_unique_keys(rs.versions@, version.version_id@, cloned);
        assert(cloned.deep_view() =~= version.deep_view());
        lemma_versions_view_set(rs.versions@, version.version_id@, cloned);
    }
    rs.versions.set(version.version_id, cloned);
    proof {
        assert(rs.deep_view() =~~= (ResourceStatusView {
            name: rsv.name,
            versions: spec_assoc_set(rsv.versions, version.version_id@, version.deep_view()),
            base_data: rsv.base_data,
            version_by_env: rsv.version_by_env,
        }));
    }
    let ghost rsv2 = rs.deep_view();
    put_back(resources, idx, key, rs);
    proof {
        lemma_folded_in(vb, resource.0@, rsv, rsv2, idx as int, spec_resources_view(resources@));
    }
}

/// Folds one `Deployable` or `BaseData` change into the map.
fn apply_base_change(
    resources: &mut StrMap<ResourceStatus>,
    resource: &ResourceId,
    env: &EnvName,
    content_id: &Id,
)
    requires
        spec_statuses_wf(old(resources)@),
    ensures
        spec_statuses_wf(final(resources)@),
        ({
            let after = spec_resources_view(final(resources)@);
            &&& after == spec_apply_change(
                spec_resources_view(old(resources)@),
                ChangeView::BaseData {
                    resource: resource.0@,
                    env: env.0@,
                    content_id: content_id@,
                },
            )
            &&& after == spec_apply_change(
                spec_resources_view(old(resources)@),
                ChangeView::Deployable {
                    resource: resource.0@,
                    env: env.0@,
                    content_id: content_id@,
                },
            )
        }),
{
    let ghost vb = spec_resources_view(resources@);
    let (idx, key, mut rs) = take_or_new(resources, resource.0.as_str());
    let ghost rsv = rs.deep_view();
    proof {
        lemma_ids_view_set(rs.base_data@, env.0@, *content_id);
    }
    rs.base_data.set(env.0.clone(), *content_id);
    proof {
        assert(rs.deep_view() =~~= (ResourceStatusView {
            name: rsv.name,
            versions: rsv.versions,
            base_data: spec_assoc_set(rsv.base_data, env.0@, content_id@),
            version_by_env: rsv.version_by_env,
        }));
    }
    let ghost rsv2 = rs.deep_view();
    put_back(resources, idx, key, rs);
    proof {
        lemma_folded_in(vb, resource.0@, rsv, rsv2, idx as int, spec_resources_view(resources@));
    }
}

/// Folds one `VersionDeployed` change into the map.
fn apply_deployed_change(
    resources: &mut StrMap<ResourceStatus>,
    resource: &ResourceId,
    env: &EnvName,
    version_id: &Id,
)
    requires
        spec_statuses_wf(old(resources)@),
    ensures
        spec_statuses_wf(final(resources)@),
        spec_resources_view(final(resources)@) == spec_apply_change(
            spec_resources_view(old(resources)@),
            ChangeView::VersionDeployed {
                resource: resource.0@,
                env: env.0@,
                previous_version_id: None,
                version_id: version_id@,
            },
        ),
{
    let ghost vb = spec_resources_view(resources@);
    let (idx, key, mut rs) = take_or_new(resources, resource.0.as_str());
    let ghost rsv = rs.deep_view();
    proof {
        lemma_ids_view_set(rs.version_by_env@, env.0@, *version_id);
    }
    rs.version_by_env.set(env.0.clone(), *version_id);
    proof {
        assert(rs.deep_view() =~~= (ResourceStatusView {
            name: rsv.name,
            versions: rsv.versions,
            base_data: rsv.base_data,
            version_by_env: spec_assoc_set(rsv.version_by_env, env.0@, version_id@),
        }));
    }
    let ghost rsv2 = rs.deep_view();
    put_back(resources, idx, key, rs);
    proof {
        lemma_folded_in(vb, resource.0@, rsv, rsv2, idx as int, spec_resources_view(resources@));
    }
}

/// Removing a status at its first occurrence (or from past the end, for a
/// fresh one) and inserting the edited status back yields the map with
/// that binding set.
proof fn lemma_folded_in(
    vb: Seq<(Seq<char>, ResourceStatusView)>,
    rid: Seq<char>,
    rsv: ResourceStatusView,
    rsv2: ResourceStatusView,
    idx: int,
    after: Seq<(Seq<char>, ResourceStatusView)>,
)
    requires
        ({
            match spec_assoc_get(vb, rid) {
                Some(found) => {
                    &&& found == rsv
                    &&& 0 <= idx < vb.len()
                    &&& vb[idx] == (rid, rsv)
                    &&& forall|j: int| 0 <= j < idx ==> (#[trigger] vb[j]).0 != rid
                    &&& after == vb.remove(idx).insert(idx, (rid, rsv2))
                },
                None => {
                    &&& rsv == spec_fresh_status(rid)
                    &&& idx == vb.len()
                    &&& after == vb.insert(idx, (rid, rsv2))
                },
            }
        }),
    ensures
        after == spec_assoc_set(vb, rid, rsv2),
{
    match spec_assoc_get(vb, rid) {
        Some(found) => {
            crate::ordmap::lemma_assoc_set_at(vb, rid, rsv2, idx);
            assert(vb.remove(idx).insert(idx, (rid, rsv2)) =~= vb.update(idx, (rid, rsv2)));
        },
        None => {
            crate::ordmap::lemma_assoc_set_absent(vb, rid, rsv2);
            assert(vb.insert(idx, (rid, rsv2)) =~= vb.push((rid, rsv2)));
        },
    }
}

/// Copies a resource version./// Copies a resource version.
fn clone_version(v: &ResourceVersion) -> (r: ResourceVersion)
    ensures
        r.version_id@ == v.version_id@,
        r.introduced_in@ == v.introduced_in@,
        r.version@ == v.version@,
        r.change_log@ == v.change_log@,
{
    ResourceVersion {
        version_id: v.version_id,
        introduced_in: v.introduced_in,
        version: v.version.clone(),
        change_log: v.change_log.clone(),
    }
}

/// Removes the status of the named resource (or makes a fresh one),
/// handing back the position it came from, its key and the status, so the
/// caller can put the edited status back where it was.
fn take_or_new(resources: &mut StrMap<ResourceStatus>, name: &str) -> (r: (
    usize,
    String,
    ResourceStatus,
))
    requires
        forall|j: int|
            0 <= j < old(resources)@.len() ==> spec_unique_keys(
                (#[trigger] old(resources)@[j]).1.versions@,
            ),
    ensures
        r.0 <= final(resources)@.len(),
        r.1@ == name@,
        spec_unique_keys(r.2.versions@),
        forall|j: int|
            0 <= j < final(resources)@.len() ==> spec_unique_keys(
                (#[trigger] final(resources)@[j]).1.versions@,
            ),
        ({
            let v0 = spec_resources_view(old(resources)@);
            match spec_assoc_get(v0, name@) {
                Some(rsv) => {
                    &&& r.2.deep_view() == rsv
                    &&& 0 <= r.0 < v0.len()
                    &&& v0[r.0 as int] == (name@, rsv)
                    &&& forall|j: int| 0 <= j < r.0 ==> (#[trigger] v0[j]).0 != name@
                    &&& spec_resources_view(final(resources)@) == v0.remove(r.0 as int)
                },
                None => {
                    &&& r.2.deep_view() == spec_fresh_status(name@)
                    &&& r.0 == v0.len()
                    &&& spec_resources_view(final(resources)@) == v0
                },
            }
        }),
{
    let name_string = name.to_owned();
    let ghost v0 = spec_resources_view(resources@);
    proof {
        assert(v0.skip(0) =~= v0);
    }
    let mut i: usize = 0;
    while i < resources.entries.len()
        invariant
            i <= resources.entries@.len(),
            *resources == *old(resources),
            forall|j: int|
                0 <= j < resources@.len() ==> spec_unique_keys(
                    (#[trigger] resources@[j]).1.versions@,
                ),
            name_string@ == name@,
            v0 == spec_resources_view(resources@),
            v0.len() == resources.entries@.len(),
            forall|j: int|
                0 <= j < v0.len() ==> #[trigger] v0[j] == (
                    resources.entries@[j].0@,
                    resources.entries@[j].1.deep_view(),
                ),
            forall|j: int| 0 <= j < i ==> (#[trigger] v0[j]).0 != name@,
            spec_assoc_get(v0, name@) == spec_assoc_get(v0.skip(i as int), name@),
        decreases resources.entries@.len() - i,
    {
        proof {
            assert(v0.skip(i as int)[0] == v0[i as int]);
            assert(v0.skip(i as int).drop_first() =~= v0.skip(i + 1));
        }
        if resources.entries[i].0.eq(&name_string) {
            proof {
                assert(resources@[i as int].1 == resources.entries@[i as int].1);
                assert(spec_assoc_get(v0, name@) == Some(v0[i as int].1));
            }
            let (key, rs) = resources.entries.remove(i);
            proof {
                assert forall|j: int| 0 <= j < resources@.len() implies spec_unique_keys(
                    (#[trigger] resources@[j]).1.versions@,
                ) by {
                    if j < i {
                        assert(resources@[j].1 == old(resources)@[j].1);
                    } else {
                        assert(resources@[j].1 == old(resources)@[j + 1].1);
                    }
                }
                assert(spec_resources_view(resources@) =~= v0.remove(i as int));
            }
            return (i, key, rs);
        }
        i = i + 1;
    }
    proof {
        assert(v0.skip(v0.len() as int) =~= Seq::<(Seq<char>, ResourceStatusView)>::empty());
        assert(spec_assoc_get(v0, name@) is None);
    }
    let fresh = ResourceStatus {
        name: name_string.clone(),
        versions: IdMap::new(),
        base_data: StrMap::new(),
        version_by_env: StrMap::new(),
    };
    proof {
        assert(fresh.deep_view() =~~= spec_fresh_status(name@));
    }
    let n = resources.entries.len();
    (n, name_string, fresh)
}

/// Puts an edited status back at the position it was taken from.
fn put_back(resources: &mut StrMap<ResourceStatus>, idx: usize, key: String, rs: ResourceStatus)
    requires
        idx <= old(resources)@.len(),
        spec_unique_keys(rs.versions@),
        forall|j: int|
            0 <= j < old(resources)@.len() ==> spec_unique_keys(
                (#[trigger] old(resources)@[j]).1.versions@,
            ),
    ensures
        forall|j: int|
            0 <= j < final(resources)@.len() ==> spec_unique_keys(
                (#[trigger] final(resources)@[j]).1.versions@,
            ),
        spec_resources_view(final(resources)@) == spec_resources_view(old(resources)@).insert(
            idx as int,
            (key@, rs.deep_view()),
        ),
{
    let ghost pre = resources.entries@;
    resources.entries.insert(idx, (key, rs));
    proof {
        assert(spec_resources_view(final(resources)@) =~= spec_resources_view(
            old(resources)@,
        ).insert(idx as int, (key@, rs.deep_view())));
    }
    proof {
        assert forall|j: int| 0 <= j < resources@.len() implies spec_unique_keys(
            (#[trigger] resources@[j]).1.versions@,
        ) by {
            assert(resources@[j].1 == resources.entries@[j].1);
            if j < idx {
                assert(resources.entries@[j] == pre[j]);
                assert(old(resources)@[j].1 == pre[j].1);
            } else if j == idx {
            } else {
                assert(resources.entries@[j] == pre[j - 1]);
                assert(old(resources)@[j - 1].1 == pre[j - 1].1);
            }
        }
    }
}

/// Looking a name up in the view of the resources map mirrors the map.
proof fn lemma_resources_view_get(m: Seq<(Seq<char>, ResourceStatus)>, k: Seq<char>)
    ensures
        spec_assoc_get(spec_resources_view(m), k) == (match spec_assoc_get(m, k) {
            Some(rs) => Some(rs.deep_view()),
            None => None::<ResourceStatusView>,
        }),
    decreases m.len(),
{
    if m.len() > 0 {
        assert(spec_resources_view(m)[0] == (m[0].0, m[0].1.deep_view()));
        if m[0].0 != k {
            lemma_resources_view_get(m.drop_first(), k);
            assert(spec_resources_view(m).drop_first() =~= spec_resources_view(m.drop_first()));
        }
    }
}

/// Looking an id up in the view of a versions map mirrors the map.
proof fn lemma_versions_view_get(m: Seq<(Seq<u8>, ResourceVersion)>, k: Seq<u8>)
    ensures
        spec_assoc_get(spec_versions_view(m), k) == (match spec_assoc_get(m, k) {
            Some(v) => Some(v.deep_view()),
            None => None::<VersionView>,
        }),
    decreases m.len(),
{
    if m.len() > 0 {
        assert(spec_versions_view(m)[0] == (m[0].0, m[0].1.deep_view()));
        if m[0].0 != k {
            lemma_versions_view_get(m.drop_first(), k);
            assert(spec_versions_view(m).drop_first() =~= spec_versions_view(m.drop_first()));
        }
    }
}

/// Looking a name up in the view of an id-valued map mirrors the map.
proof fn lemma_ids_view_get(m: Seq<(Seq<char>, Id)>, k: Seq<char>)
    ensures
        spec_assoc_get(spec_ids_view(m), k) == (match spec_assoc_get(m, k) {
            Some(v) => Some(v@),
            None => None::<Seq<u8>>,
        }),
    decreases m.len(),
{
    if m.len() > 0 {
        assert(spec_ids_view(m)[0] == (m[0].0, m[0].1@));
        if m[0].0 != k {
            lemma_ids_view_get(m.drop_first(), k);
            assert(spec_ids_view(m).drop_first() =~= spec_ids_view(m.drop_first()));
        }
    }
}

/// Whether a `Version` change for this resource and version id is among
/// the changes.
pub open spec fn spec_has_version_change(cs: Seq<ChangeView>, name: Seq<char>, vid: Seq<u8>) -> bool {
    exists|i: int|
        0 <= i < cs.len() && ((#[trigger] cs[i]) matches ChangeView::Version { resource, version }
            && resource == name && version.version_id == vid)
}

/// What one version-file entry contributes for commit `cid`: nothing when
/// the file did not change in the commit; else a `Version` change when the
/// version id is new to the analysis (its content must be an object with a
/// `version` string, or the analysis fails) and not yet recorded, then a
/// `VersionDeployed` change when the environment's pointer moves.
pub open spec fn spec_version_entry_step(
    a: Seq<(Seq<char>, ResourceStatusView)>,
    env: Seq<char>,
    cid: Seq<u8>,
    body: Seq<char>,
    cs: Seq<ChangeView>,
    e: crate::repo::EntryView,
) -> Result<Seq<ChangeView>, AnalyzeError> {
    if e.last_change != cid {
        Ok(cs)
    } else {
        match e.content {
            None => Err(AnalyzeError::MalformedContent),
            Some(c) => {
                let name = crate::deployment::spec_res_name(e.path);
                let is_new = match spec_assoc_get(a, name) {
                    Some(rs) => spec_assoc_get(rs.versions, e.content_id) is None,
                    None => true,
                };
                let version_str = match c {
                    crate::content::ContentView::Object(fields) => match
                        crate::content::spec_object_get(fields, "version"@) {
                        Some(crate::content::ContentView::Text(t)) => Some(t),
                        _ => None::<Seq<char>>,
                    },
                    _ => None,
                };
                if is_new && version_str is None {
                    Err(AnalyzeError::MissingVersion)
                } else {
                    let cs1 = if is_new && !spec_has_version_change(cs, name, e.content_id) {
                        cs.push(
                            ChangeView::Version {
                                resource: name,
                                version: VersionView {
                                    version_id: e.content_id,
                                    introduced_in: cid,
                                    version: version_str.unwrap(),
                                    change_log: body,
                                },
                            },
                        )
                    } else {
                        cs
                    };
                    let prev = match spec_assoc_get(a, name) {
                        Some(rs) => spec_assoc_get(rs.version_by_env, env),
                        None => None,
                    };
                    if prev == Some(e.content_id) {
                        Ok(cs1)
                    } else {
                        Ok(
                            cs1.push(
                                ChangeView::VersionDeployed {
                                    resource: name,
                                    env,
                                    previous_version_id: prev,
                                    version_id: e.content_id,
                                },
                            ),
                        )
                    }
                }
            },
        }
    }
}

/// The version-file entries folded in walk order.
pub open spec fn spec_version_entries(
    a: Seq<(Seq<char>, ResourceStatusView)>,
    env: Seq<char>,
    cid: Seq<u8>,
    body: Seq<char>,
    cs: Seq<ChangeView>,
    es: Seq<crate::repo::EntryView>,
) -> Result<Seq<ChangeView>, AnalyzeError>
    decreases es.len(),
{
    if es.len() == 0 {
        Ok(cs)
    } else {
        match spec_version_entry_step(a, env, cid, body, cs, es[0]) {
            Ok(cs1) => spec_version_entries(a, env, cid, body, cs1, es.drop_first()),
            Err(e) => Err(e),
        }
    }
}

/// What one base or deployable entry contributes for commit `cid`: a
/// pointer change when the file changed in the commit and the analysis
/// records a different content id for the environment.
pub open spec fn spec_pointer_entry_step(
    a: Seq<(Seq<char>, ResourceStatusView)>,
    env: Seq<char>,
    cid: Seq<u8>,
    cs: Seq<ChangeView>,
    e: crate::repo::EntryView,
    deployable: bool,
) -> Seq<ChangeView> {
    if e.last_change != cid {
        cs
    } else {
        let name = crate::deployment::spec_res_name(e.path);
        let known = match spec_assoc_get(a, name) {
            Some(rs) => spec_assoc_get(rs.base_data, env) == Some(e.content_id),
            None => false,
        };
        if known {
            cs
        } else if deployable {
            cs.push(
                ChangeView::Deployable { resource: name, env, content_id: e.content_id },
            )
        } else {
            cs.push(ChangeView::BaseData { resource: name, env, content_id: e.content_id })
        }
    }
}

/// The base or deployable entries folded in walk order.
pub open spec fn spec_pointer_entries(
    a: Seq<(Seq<char>, ResourceStatusView)>,
    env: Seq<char>,
    cid: Seq<u8>,
    cs: Seq<ChangeView>,
    es: Seq<crate::repo::EntryView>,
    deployable: bool,
) -> Seq<ChangeView>
    decreases es.len(),
{
    if es.len() == 0 {
        cs
    } else {
        spec_pointer_entries(
            a,
            env,
            cid,
            spec_pointer_entry_step(a, env, cid, cs, es[0], deployable),
            es.drop_first(),
            deployable,
        )
    }
}

/// The changes one environment contributes for commit `k`: its version
/// files, then its base files, then its deployable files.
pub open spec fn spec_analyze_env(
    a: Seq<(Seq<char>, ResourceStatusView)>,
    h: Seq<crate::repo::CommitView>,
    k: int,
    env: Seq<char>,
    body: Seq<char>,
    cs: Seq<ChangeView>,
) -> Result<Seq<ChangeView>, AnalyzeError> {
    let cid = h[k].id;
    if crate::repo::spec_descent_blocked(h[k].tree, seq![env, "version"@]) {
        Err(AnalyzeError::BlockedPath)
    } else {
        match spec_version_entries(
            a,
            env,
            cid,
            body,
            cs,
            crate::repo::spec_repo_walk(h, k, seq![env, "version"@]),
        ) {
            Err(e) => Err(e),
            Ok(cs1) => if crate::repo::spec_descent_blocked(h[k].tree, seq![env, "base"@]) {
                Err(AnalyzeError::BlockedPath)
            } else {
                let cs2 = spec_pointer_entries(
                    a,
                    env,
                    cid,
                    cs1,
                    crate::repo::spec_repo_walk(h, k, seq![env, "base"@]),
                    false,
                );
                if crate::repo::spec_descent_blocked(h[k].tree, seq![env, "deployable"@]) {
                    Err(AnalyzeError::BlockedPath)
                } else {
                    Ok(
                        spec_pointer_entries(
                            a,
                            env,
                            cid,
                            cs2,
                            crate::repo::spec_repo_walk(h, k, seq![env, "deployable"@]),
                            true,
                        ),
                    )
                }
            },
        }
    }
}

/// The changes commit `k` brings, over the fixed environments `latest`,
/// `dev` and `prod`.
pub open spec fn spec_analyze_changes(
    a: Seq<(Seq<char>, ResourceStatusView)>,
    h: Seq<crate::repo::CommitView>,
    k: int,
) -> Result<Seq<ChangeView>, AnalyzeError> {
    let body = match spec_split_message(spec_strip_trailers(h[k].message)).1 {
        Some(b) => b,
        None => Seq::empty(),
    };
    match spec_analyze_env(a, h, k, "latest"@, body, Seq::empty()) {
        Err(e) => Err(e),
        Ok(cs1) => match spec_analyze_env(a, h, k, "dev"@, body, cs1) {
            Err(e) => Err(e),
            Ok(cs2) => spec_analyze_env(a, h, k, "prod"@, body, cs2),
        },
    }
}

/// What stopped an analysis.
#[derive(Debug, Clone, Copy, PartialEq, Eq, Structural)]
pub enum AnalyzeError {
    /// A commit id was not found in the history.
    MissingCommit,
    /// A walked file's structured content was not available or not an
    /// object.
    MalformedContent,
    /// A version file carries no `version` string.
    MissingVersion,
    /// A blob stood on a directory path that had to be walked.
    BlockedPath,
}

/// Whether a `Version` change for this resource and version id is already
/// recorded.
fn version_change_exists(changes: &Vec<ResourceRepoChange>, name: &str, vid: &Id) -> (r: bool)
    ensures
        r == exists|i: int|
            0 <= i < changes@.len() && ((#[trigger] changes@[i]) matches
            ResourceRepoChange::Version { resource, version } && resource.0@ == name@
                && version.version_id@ == vid@),
{
    let name_string = name.to_owned();
    let mut i: usize = 0;
    while i < changes.len()
        invariant
            i <= changes@.len(),
            name_string@ == name@,
            forall|j: int|
                0 <= j < i ==> !((#[trigger] changes@[j]) matches ResourceRepoChange::Version {
                    resource,
                    version,
                } && resource.0@ == name@ && version.version_id@ == vid@),
        decreases changes@.len() - i,
    {
        match &changes[i] {
            ResourceRepoChange::Version { resource, version } => {
                if resource.0.eq(&name_string) && version.version_id.eq(vid) {
                    return true;
                }
            },
            _ => {},
        }
        i = i + 1;
    }
    false
}

/// A `Version` change is among a list's views exactly when it is among
/// the list.
proof fn lemma_version_exists_bridge(
    cs: Seq<ResourceRepoChange>,
    dv: Seq<ChangeView>,
    name: Seq<char>,
    vid: Seq<u8>,
)
    requires
        dv.len() == cs.len(),
        forall|j: int| 0 <= j < cs.len() ==> #[trigger] dv[j] == cs[j].deep_view(),
    ensures
        spec_has_version_change(dv, name, vid) == (exists|i: int|
            0 <= i < cs.len() && ((#[trigger] cs[i]) matches ResourceRepoChange::Version {
                resource,
                version,
            } && resource.0@ == name && version.version_id@ == vid)),
{
    if spec_has_version_change(dv, name, vid) {
        let w = choose|w: int|
            0 <= w < dv.len() && ((#[trigger] dv[w]) matches ChangeView::Version {
                resource,
                version,
            } && resource == name && version.version_id == vid);
        assert(cs[w] matches ResourceRepoChange::Version { resource, version } && resource.0@
            == name && version.version_id@ == vid);
    }
    if exists|i: int|
        0 <= i < cs.len() && ((#[trigger] cs[i]) matches ResourceRepoChange::Version {
            resource,
            version,
        } && resource.0@ == name && version.version_id@ == vid) {
        let w = choose|w: int|
            0 <= w < cs.len() && ((#[trigger] cs[w]) matches ResourceRepoChange::Version {
                resource,
                version,
            } && resource.0@ == name && version.version_id@ == vid);
        assert(dv[w] matches ChangeView::Version { resource, version } && resource == name
            && version.version_id == vid);
        assert(spec_has_version_change(dv, name, vid));
    }
}

/// Derives the changes one environment contributes for commit `k`,
/// appending them, exactly as the spec-level fold over the three walks
/// says.
fn analyze_env(
    repo: &RepoHistory,
    k: usize,
    env: &str,
    analysis: &VersionsAnalysis,
    commit_id: &Id,
    body: &str,
    changes: &mut Vec<ResourceRepoChange>,
) -> (r: Result<(), AnalyzeError>)
    requires
        k < repo@.len(),
        commit_id@ == repo@[k as int].id,
        spec_no_dup_versions(old(changes)@),
    ensures
        spec_no_dup_versions(final(changes)@),
        r matches Err(e) ==> e != AnalyzeError::MissingCommit,
        ({
            let a = spec_resources_view(analysis.resources@);
            match r {
                Ok(_) => spec_analyze_env(
                    a,
                    repo@,
                    k as int,
                    env@,
                    body@,
                    old(changes).deep_view(),
                ) == Ok::<Seq<ChangeView>, AnalyzeError>(final(changes).deep_view()),
                Err(e) => spec_analyze_env(
                    a,
                    repo@,
                    k as int,
                    env@,
                    body@,
                    old(changes).deep_view(),
                ) == Err::<Seq<ChangeView>, AnalyzeError>(e),
            }
        }),
{
    let ghost h = repo@;
    let ghost a = spec_resources_view(analysis.resources@);
    let ghost cid = commit_id@;
    let ghost bv = body@;
    let ghost cs0 = changes.deep_view();
    let mut version_path: Vec<String> = Vec::new();
    version_path.push(env.to_owned());
    version_path.push("version".to_owned());
    proof {
        assert(version_path.deep_view() =~= seq![env@, "version"@]);
    }
    let ventries = match repo.walk_at(&version_path, k) {
        Ok(e) => e,
        Err(_) => {
            return Err(AnalyzeError::BlockedPath);
        },
    };
    let ghost vv = crate::repo::spec_repo_walk(h, k as int, seq![env@, "version"@]);
    proof {
        assert(ventries.deep_view() == vv);
        assert(vv.skip(0) =~= vv);
    }
    let mut i: usize = 0;
    while i < ventries.len()
        invariant
            i <= ventries@.len(),
            k < repo@.len(),
            h == repo@,
            a == spec_resources_view(analysis.resources@),
            cid == commit_id@,
            cid == h[k as int].id,
            bv == body@,
            cs0 == old(changes).deep_view(),
            spec_no_dup_versions(changes@),
            vv == ventries.deep_view(),
            vv.len() == ventries@.len(),
            forall|j: int| 0 <= j < vv.len() ==> #[trigger] vv[j] == ventries@[j]@,
            vv == crate::repo::spec_repo_walk(h, k as int, seq![env@, "version"@]),
            !crate::repo::spec_descent_blocked(h[k as int].tree, seq![env@, "version"@]),
            spec_version_entries(a, env@, cid, bv, cs0, vv) == spec_version_entries(
                a,
                env@,
                cid,
                bv,
                changes.deep_view(),
                vv.skip(i as int),
            ),
        decreases ventries@.len() - i,
    {
        proof {
            assert(vv.skip(i as int)[0] == vv[i as int]);
            assert(vv.skip(i as int).drop_first() =~= vv.skip(i + 1));
        }
        let ghost e = vv[i as int];
        let ghost cs_in = changes.deep_view();
        let entry = &ventries[i];
        if !entry.last_change.eq(commit_id) {
            proof {
                assert(spec_version_entry_step(a, env@, cid, bv, cs_in, e) == Ok::<
                    Seq<ChangeView>,
                    AnalyzeError,
                >(cs_in));
            }
            i = i + 1;
            continue ;
        }
        let content = match &entry.content {
            Some(c) => c,
            None => {
                proof {
                    assert(spec_version_entry_step(a, env@, cid, bv, cs_in, e) == Err::<
                        Seq<ChangeView>,
                        AnalyzeError,
                    >(AnalyzeError::MalformedContent));
                }
                return Err(AnalyzeError::MalformedContent);
            },
        };
        let name = if entry.path.len() == 0 {
            String::new()
        } else {
            crate::deployment::stem_of(entry.path[entry.path.len() - 1].as_str())
        };
        proof {
            if entry.path@.len() > 0 {
                assert(entry.path.deep_view().last() == entry.path@[entry.path@.len() - 1]@);
            }
            assert(name@ == crate::deployment::spec_res_name(e.path));
            lemma_resources_view_get(analysis.resources@, name@);
        }
        let is_new = match analysis.resources.get(name.as_str()) {
            Some(rs) => {
                proof {
                    lemma_versions_view_get(rs.versions@, entry.content_id@);
                }
                !rs.versions.contains_key(&entry.content_id)
            },
            None => true,
        };
        proof {
            assert(is_new == (match spec_assoc_get(a, name@) {
                Some(rs) => spec_assoc_get(rs.versions, e.content_id) is None,
                None => true,
            }));
        }
        if is_new {
            let version_name = match content.get("version") {
                Some(crate::content::ContentValue::Text(t)) => t.clone(),
                _ => {
                    proof {
                        assert(spec_version_entry_step(a, env@, cid, bv, cs_in, e) == Err::<
                            Seq<ChangeView>,
                            AnalyzeError,
                        >(AnalyzeError::MissingVersion));
                    }
                    return Err(AnalyzeError::MissingVersion);
                },
            };
            proof {
                lemma_version_exists_bridge(changes@, changes.deep_view(), name@, e.content_id);
            }
            if !version_change_exists(changes, name.as_str(), &entry.content_id) {
                let change = ResourceRepoChange::Version {
                    resource: ResourceId(name.clone()),
                    version: ResourceVersion {
                        version_id: entry.content_id,
                        introduced_in: *commit_id,
                        version: version_name,
                        change_log: body.to_owned(),
                    },
                };
                let ghost pre = changes@;
                let ghost predv = changes.deep_view();
                let ghost chv = change.deep_view();
                changes.push(change);
                proof {
                    assert(changes.deep_view() =~= predv.push(chv));
                    assert forall|x: int, y: int| 0 <= x < y < changes@.len() implies !((
                    #[trigger] changes@[x]) matches ResourceRepoChange::Version {
                        resource: r1,
                        version: v1,
                    } && (#[trigger] changes@[y]) matches ResourceRepoChange::Version {
                        resource: r2,
                        version: v2,
                    } && r1.0@ == r2.0@ && v1.version_id@ == v2.version_id@) by {
                        if y < pre.len() {
                            assert(changes@[x] == pre[x] && changes@[y] == pre[y]);
                        } else {
                            assert(changes@[x] == pre[x]);
                        }
                    }
                }
            }
        }
        let previous: Option<Id> = match analysis.resources.get(name.as_str()) {
            Some(rs) => {
                proof {
                    lemma_ids_view_get(rs.version_by_env@, env@);
                }
                match rs.version_by_env.get(env) {
                    Some(v) => Some(*v),
                    None => None,
                }
            },
            None => None,
        };
        let same = match &previous {
            Some(p) => p.eq(&entry.content_id),
            None => false,
        };
        if !same {
            let ghost pre = changes@;
            let ghost predv = changes.deep_view();
            let deployed = ResourceRepoChange::VersionDeployed {
                resource: ResourceId(name.clone()),
                env: EnvName(env.to_owned()),
                previous_version_id: previous,
                version_id: entry.content_id,
            };
            let ghost dchv = deployed.deep_view();
            changes.push(deployed);
            proof {
                assert(changes.deep_view() =~= predv.push(dchv));
                lemma_push_non_version(pre, changes@);
            }
        }
        proof {
            assert(spec_version_entry_step(a, env@, cid, bv, cs_in, e) == Ok::<
                Seq<ChangeView>,
                AnalyzeError,
            >(changes.deep_view()));
        }
        i = i + 1;
    }
    proof {
        assert(vv.skip(vv.len() as int) =~= Seq::<crate::repo::EntryView>::empty());
    }
    let ghost cs1 = changes.deep_view();
    let mut base_path: Vec<String> = Vec::new();
    base_path.push(env.to_owned());
    base_path.push("base".to_owned());
    proof {
        assert(base_path.deep_view() =~= seq![env@, "base"@]);
    }
    let bentries = match repo.walk_at(&base_path, k) {
        Ok(e) => e,
        Err(_) => {
            return Err(AnalyzeError::BlockedPath);
        },
    };
    let ghost bb = crate::repo::spec_repo_walk(h, k as int, seq![env@, "base"@]);
    proof {
        assert(bentries.deep_view() == bb);
        assert(bb.skip(0) =~= bb);
    }
    let mut i: usize = 0;
    while i < bentries.len()
        invariant
            i <= bentries@.len(),
            k < repo@.len(),
            h == repo@,
            a == spec_resources_view(analysis.resources@),
            cid == commit_id@,
            cid == h[k as int].id,
            spec_no_dup_versions(changes@),
            bb == bentries.deep_view(),
            bb.len() == bentries@.len(),
            forall|j: int| 0 <= j < bb.len() ==> #[trigger] bb[j] == bentries@[j]@,
            spec_pointer_entries(a, env@, cid, cs1, bb, false) == spec_pointer_entries(
                a,
                env@,
                cid,
                changes.deep_view(),
                bb.skip(i as int),
                false,
            ),
        decreases bentries@.len() - i,
    {
        proof {
            assert(bb.skip(i as int)[0] == bb[i as int]);
            assert(bb.skip(i as int).drop_first() =~= bb.skip(i + 1));
        }
        let ghost e = bb[i as int];
        let ghost cs_in = changes.deep_view();
        let entry = &bentries[i];
        if entry.last_change.eq(commit_id) {
            let name = if entry.path.len() == 0 {
                String::new()
            } else {
                crate::deployment::stem_of(entry.path[entry.path.len() - 1].as_str())
            };
            proof {
                if entry.path@.len() > 0 {
                    assert(entry.path.deep_view().last() == entry.path@[entry.path@.len() - 1]@);
                }
                assert(name@ == crate::deployment::spec_res_name(e.path));
                lemma_resources_view_get(analysis.resources@, name@);
            }
            let known = match analysis.resources.get(name.as_str()) {
                Some(rs) => {
                    proof {
                        lemma_ids_view_get(rs.base_data@, env@);
                    }
                    match rs.base_data.get(env) {
                        Some(v) => v.eq(&entry.content_id),
                        None => false,
                    }
                },
                None => false,
            };
            if !known {
                let ghost pre = changes@;
                let ghost predv = changes.deep_view();
                let change = ResourceRepoChange::BaseData {
                    resource: ResourceId(name),
                    env: EnvName(env.to_owned()),
                    content_id: entry.content_id,
                };
                let ghost chv = change.deep_view();
                changes.push(change);
                proof {
                    assert(changes.deep_view() =~= predv.push(chv));
                    lemma_push_non_version(pre, changes@);
                }
            }
        }
        proof {
            assert(spec_pointer_entry_step(a, env@, cid, cs_in, e, false)
                == changes.deep_view());
        }
        i = i + 1;
    }
    proof {
        assert(bb.skip(bb.len() as int) =~= Seq::<crate::repo::EntryView>::empty());
    }
    let ghost cs2 = changes.deep_view();
    let mut dep_path: Vec<String> = Vec::new();
    dep_path.push(env.to_owned());
    dep_path.push("deployable".to_owned());
    proof {
        assert(dep_path.deep_view() =~= seq![env@, "deployable"@]);
    }
    let dentries = match repo.walk_at(&dep_path, k) {
        Ok(e) => e,
        Err(_) => {
            return Err(AnalyzeError::BlockedPath);
        },
    };
    let ghost dd = crate::repo::spec_repo_walk(h, k as int, seq![env@, "deployable"@]);
    proof {
        assert(dentries.deep_view() == dd);
        assert(dd.skip(0) =~= dd);
    }
    let mut i: usize = 0;
    while i < dentries.len()
        invariant
            i <= dentries@.len(),
            k < repo@.len(),
            h == repo@,
            a == spec_resources_view(analysis.resources@),
            cid == commit_id@,
            cid == h[k as int].id,
            spec_no_dup_versions(changes@),
            dd == dentries.deep_view(),
            dd.len() == dentries@.len(),
            forall|j: int| 0 <= j < dd.len() ==> #[trigger] dd[j] == dentries@[j]@,
            spec_pointer_entries(a, env@, cid, cs2, dd, true) == spec_pointer_entries(
                a,
                env@,
                cid,
                changes.deep_view(),
                dd.skip(i as int),
                true,
            ),
        decreases dentries@.len() - i,
    {
        proof {
            assert(dd.skip(i as int)[0] == dd[i as int]);
            assert(dd.skip(i as int).drop_first() =~= dd.skip(i + 1));
        }
        let ghost e = dd[i as int];
        let ghost cs_in = changes.deep_view();
        let entry = &dentries[i];
        if entry.last_change.eq(commit_id) {
            let name = if entry.path.len() == 0 {
                String::new()
            } else {
                crate::deployment::stem_of(entry.path[entry.path.len() - 1].as_str())
            };
            proof {
                if entry.path@.len() > 0 {
                    assert(entry.path.deep_view().last() == entry.path@[entry.path@.len() - 1]@);
                }
                assert(name@ == crate::deployment::spec_res_name(e.path));
                lemma_resources_view_get(analysis.resources@, name@);
            }
            let known = match analysis.resources.get(name.as_str()) {
                Some(rs) => {
                    proof {
                        lemma_ids_view_get(rs.base_data@, env@);
                    }
                    match rs.base_data.get(env) {
                        Some(v) => v.eq(&entry.content_id),
                        None => false,
                    }
                },
                None => false,
            };
            if !known {
                let ghost pre = changes@;
                let ghost predv = changes.deep_view();
                let change = ResourceRepoChange::Deployable {
                    resource: ResourceId(name),
                    env: EnvName(env.to_owned()),
                    content_id: entry.content_id,
                };
                let ghost chv = change.deep_view();
                changes.push(change);
                proof {
                    assert(changes.deep_view() =~= predv.push(chv));
                    lemma_push_non_version(pre, changes@);
                }
            }
        }
        proof {
            assert(spec_pointer_entry_step(a, env@, cid, cs_in, e, true) == changes.deep_view());
        }
        i = i + 1;
    }
    proof {
        assert(dd.skip(dd.len() as int) =~= Seq::<crate::repo::EntryView>::empty());
        assert(spec_analyze_env(a, h, k as int, env@, bv, cs0) == Ok::<
            Seq<ChangeView>,
            AnalyzeError,
        >(changes.deep_view()));
    }
    Ok(())
}

/// Pushing anything but a `Version` change keeps the list free of/// Pushing anything but a `Version` change keeps the list free of
/// duplicate versions.
proof fn lemma_push_non_version(pre: Seq<ResourceRepoChange>, post: Seq<ResourceRepoChange>)
    requires
        spec_no_dup_versions(pre),
        post.len() == pre.len() + 1,
        forall|j: int| 0 <= j < pre.len() ==> post[j] == pre[j],
        !(post.last() matches ResourceRepoChange::Version { .. }),
    ensures
        spec_no_dup_versions(post),
{
    assert forall|a: int, b: int| 0 <= a < b < post.len() implies !((#[trigger] post[a]) matches
        ResourceRepoChange::Version { resource: r1, version: v1 } && (#[trigger] post[b]) matches
        ResourceRepoChange::Version { resource: r2, version: v2 } && r1.0@ == r2.0@
        && v1.version_id@ == v2.version_id@) by {
        if b < pre.len() {
            assert(post[a] == pre[a] && post[b] == pre[b]);
        } else {
            assert(post[b] == post.last());
        }
    }
}

/// Analyzes one commit of the history: strips its trailers, splits the
/// remaining message, and derives the typed changes of the environments
/// `latest`, `dev` and `prod`.
pub fn analyze_commit(repo: &RepoHistory, k: usize, analysis: &VersionsAnalysis) -> (r: Result<
    ResourceRepoCommit,
    AnalyzeError,
>)
    requires
        k < repo@.len(),
    ensures
        ({
            let a = spec_resources_view(analysis.resources@);
            match r {
                Ok(c) => {
                    &&& c.id@ == repo@[k as int].id
                    &&& c.message@ == spec_split_message(
                        spec_strip_trailers(repo@[k as int].message),
                    ).0
                    &&& c.long_message@ == (match spec_split_message(
                        spec_strip_trailers(repo@[k as int].message),
                    ).1 {
                        Some(b) => b,
                        None => Seq::<char>::empty(),
                    })
                    &&& c.author_name@ == repo@[k as int].author_name
                    &&& c.author_email@ == repo@[k as int].author_email
                    &&& c.time as int == repo@[k as int].time
                    &&& spec_no_dup_versions(c.changes@)
                    &&& spec_analyze_changes(a, repo@, k as int) == Ok::<
                        Seq<ChangeView>,
                        AnalyzeError,
                    >(c.changes.deep_view())
                },
                Err(e) => {
                    &&& e != AnalyzeError::MissingCommit
                    &&& spec_analyze_changes(a, repo@, k as int) == Err::<
                        Seq<ChangeView>,
                        AnalyzeError,
                    >(e)
                },
            }
        }),
{
    let ghost h = repo@;
    let ghost a = spec_resources_view(analysis.resources@);
    let commit = &repo.commits[k];
    proof {
        assert(commit@ == h[k as int]);
    }
    let (stripped, _) = remove_trailers(commit.message.as_str());
    let (header, body_opt) = split_log_message(stripped.as_str());
    let body = match body_opt {
        Some(b) => b,
        None => String::new(),
    };
    proof {
        assert(body@ == (match spec_split_message(spec_strip_trailers(h[k as int].message)).1 {
            Some(b) => b,
            None => Seq::<char>::empty(),
        }));
    }
    let commit_id = commit.id;
    let mut changes: Vec<ResourceRepoChange> = Vec::new();
    proof {
        assert(changes.deep_view() =~= Seq::<ChangeView>::empty());
    }
    match analyze_env(repo, k, "latest", analysis, &commit_id, body.as_str(), &mut changes) {
        Ok(_) => {},
        Err(e) => {
            return Err(e);
        },
    }
    match analyze_env(repo, k, "dev", analysis, &commit_id, body.as_str(), &mut changes) {
        Ok(_) => {},
        Err(e) => {
            return Err(e);
        },
    }
    match analyze_env(repo, k, "prod", analysis, &commit_id, body.as_str(), &mut changes) {
        Ok(_) => {},
        Err(e) => {
            return Err(e);
        },
    }
    Ok(
        ResourceRepoCommit {
            id: commit_id,
            message: header,
            long_message: body,
            author_name: commit.author_name.clone(),
            author_email: commit.author_email.clone(),
            time: commit.time,
            changes,
        },
    )
}

/// The position of the last commit carrying an id, or `-1`./// The position of the last commit carrying an id, or `-1`.
pub open spec fn spec_commit_index(h: Seq<crate::repo::CommitView>, id: Seq<u8>) -> int
    decreases h.len(),
{
    if h.len() == 0 {
        -1
    } else if h.last().id == id {
        h.len() - 1
    } else {
        spec_commit_index(h.drop_last(), id)
    }
}

/// The position of the last commit carrying an id.
fn find_commit_index(repo: &RepoHistory, id: &Id) -> (r: Option<usize>)
    ensures
        match r {
            Some(i) => i as int == spec_commit_index(repo@, id@) && i < repo@.len()
                && repo@[i as int].id == id@,
            None => spec_commit_index(repo@, id@) < 0,
        },
{
    let ghost h = repo@;
    proof {
        assert(h.take(h.len() as int) =~= h);
    }
    let mut i: usize = repo.commits.len();
    while i > 0
        invariant
            i <= repo.commits@.len(),
            h == repo@,
            h.len() == repo.commits@.len(),
            forall|j: int| 0 <= j < h.len() ==> #[trigger] h[j] == repo.commits@[j]@,
            spec_commit_index(h, id@) == spec_commit_index(h.take(i as int), id@),
        decreases i,
    {
        proof {
            assert(h.take(i as int).last() == h[i - 1]);
            assert(h.take(i as int).drop_last() =~= h.take(i - 1));
        }
        if repo.commits[i - 1].id.eq(id) {
            proof {
                assert(spec_commit_index(h.take(i as int), id@) == i - 1);
            }
            return Some(i - 1);
        }
        i = i - 1;
    }
    proof {
        assert(h.take(0) =~= Seq::<crate::repo::CommitView>::empty());
    }
    None
}

/// Analyzes every commit after `from` (from the start, when absent) up to
/// and including `to`, oldest first, folding each into the analysis.
pub fn analyze_commits(
    repo: &RepoHistory,
    analysis: &mut VersionsAnalysis,
    from: Option<&Id>,
    to: &Id,
) -> (r: Result<(), AnalyzeError>)
    requires
        spec_analysis_wf(*old(analysis)),
    ensures
        spec_analysis_wf(*final(analysis)),
        ({
            let ti = spec_commit_index(repo@, to@);
            let missing_from = match from {
                Some(f) => spec_commit_index(repo@, f@) < 0,
                None => false,
            };
            (r matches Err(AnalyzeError::MissingCommit)) <==> (ti < 0 || missing_from)
        }),
        r is Ok ==> ({
            let ti = spec_commit_index(repo@, to@);
            let si = match from {
                Some(f) => spec_commit_index(repo@, f@) + 1,
                None => 0,
            };
            let added = if si <= ti {
                ti + 1 - si
            } else {
                0
            };
            &&& final(analysis).history@.len() == old(analysis).history@.len() + added
            &&& forall|j: int|
                0 <= j < old(analysis).history@.len() ==> #[trigger] final(analysis).history@[j]
                    == old(analysis).history@[j]
            &&& forall|j: int|
                0 <= j < added ==> ({
                    let c = #[trigger] final(analysis).history@[old(analysis).history@.len() + j];
                    &&& c.id@ == repo@[si + j].id
                    &&& c.message@ == spec_split_message(
                        spec_strip_trailers(repo@[si + j].message),
                    ).0
                    &&& c.author_name@ == repo@[si + j].author_name
                    &&& c.author_email@ == repo@[si + j].author_email
                    &&& c.time as int == repo@[si + j].time
                    &&& spec_no_dup_versions(c.changes@)
                })
        }),
{
    let n = repo.commits.len();
    let to_idx = match find_commit_index(repo, to) {
        Some(i) => i,
        None => {
            return Err(AnalyzeError::MissingCommit);
        },
    };
    let start = match from {
        Some(f) => match find_commit_index(repo, f) {
            Some(i) => i + 1,
            None => {
                return Err(AnalyzeError::MissingCommit);
            },
        },
        None => 0,
    };
    let ghost h = repo@;
    let ghost old_len = analysis.history@.len();
    let mut k = start;
    while k <= to_idx
        invariant
            n == repo@.len(),
            h == repo@,
            to_idx < n,
            start <= k,
            k == start || k <= to_idx + 1,
            to_idx as int == spec_commit_index(h, to@),
            (match from {
                Some(f) => spec_commit_index(h, f@) >= 0 && start as int == spec_commit_index(
                    h,
                    f@,
                ) + 1,
                None => start == 0,
            }),
            spec_analysis_wf(*analysis),
            analysis.history@.len() == old_len + (k - start),
            old_len == old(analysis).history@.len(),
            forall|j: int|
                0 <= j < old_len ==> #[trigger] analysis.history@[j] == old(
                    analysis,
                ).history@[j],
            forall|j: int|
                0 <= j < k - start ==> ({
                    let c = #[trigger] analysis.history@[old_len + j];
                    &&& c.id@ == h[start + j].id
                    &&& c.message@ == spec_split_message(
                        spec_strip_trailers(h[start + j].message),
                    ).0
                    &&& c.author_name@ == h[start + j].author_name
                    &&& c.author_email@ == h[start + j].author_email
                    &&& c.time as int == h[start + j].time
                    &&& spec_no_dup_versions(c.changes@)
                }),
        decreases to_idx + 1 - k,
    {
        let analyzed = match analyze_commit(repo, k, analysis) {
            Ok(c) => c,
            Err(e) => {
                return Err(e);
            },
        };
        analysis.add_commit(analyzed);
        k = k + 1;
    }
    Ok(())
}

} // verus!
