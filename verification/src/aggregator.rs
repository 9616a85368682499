//! The aggregator's shared state: the monotone `FullStatus` snapshot, the
//! wire messages fanned out to subscribers, the scrubbing of chatty
//! transition timestamps, and the deploy endpoint's tree edit.

use vstd::prelude::*;

use crate::analysis::{spec_analysis_wf, VersionsAnalysis};
use crate::deployment::AllDeployerStatus;
use crate::id::Id;
use crate::locks::{spec_locks_content, Locks, LocksView};
use crate::ordmap::{spec_assoc_get, spec_assoc_set, StrMap};
use crate::transition::{
    spec_load_locks, TransitionRunInfo, TransitionStatusInfo,
};
use crate::tree::{
    clone_tree, spec_insert, spec_lookup, spec_set_at, NodeView, Tree, TreeNode, TreeView,
};
use crate::zipper::TreeZipper;

verus! {

/// Everything the aggregator knows, published as one snapshot.  The
/// counter goes up by exactly one on every in-place mutation, so readers
/// can order snapshots.
pub struct FullStatus {
    pub counter: u64,
    pub deployers: AllDeployerStatus,
    pub transitions: StrMap<TransitionStatusInfo>,
    pub analysis: VersionsAnalysis,
}

impl FullStatus {
    /// A snapshot knowing nothing, at counter zero.
    pub fn new() -> (r: FullStatus)
        ensures
            r.counter == 0,
            spec_analysis_wf(r.analysis),
    {
        FullStatus {
            counter: 0,
            deployers: AllDeployerStatus::empty(),
            transitions: StrMap::new(),
            analysis: VersionsAnalysis::new(),
        }
    }

    /// Replaces the deployer statuses, bumping the counter by one.
    pub fn update_deployers(&mut self, deployers: AllDeployerStatus) -> (c: u64)
        requires
            old(self).counter < u64::MAX,
        ensures
            final(self).counter == old(self).counter + 1,
            c == final(self).counter,
            final(self).deployers == deployers,
            final(self).transitions == old(self).transitions,
            final(self).analysis == old(self).analysis,
    {
        self.counter = self.counter + 1;
        self.deployers = deployers;
        self.counter
    }

    /// Replaces the transition statuses, bumping the counter by one.
    pub fn update_transitions(&mut self, transitions: StrMap<TransitionStatusInfo>) -> (c: u64)
        requires
            old(self).counter < u64::MAX,
        ensures
            final(self).counter == old(self).counter + 1,
            c == final(self).counter,
            final(self).transitions == transitions,
            final(self).deployers == old(self).deployers,
            final(self).analysis == old(self).analysis,
    {
        self.counter = self.counter + 1;
        self.transitions = transitions;
        self.counter
    }

    /// Replaces the analysis, bumping the counter by one.
    pub fn update_analysis(&mut self, analysis: VersionsAnalysis) -> (c: u64)
        requires
            old(self).counter < u64::MAX,
        ensures
            final(self).counter == old(self).counter + 1,
            c == final(self).counter,
            final(self).analysis == analysis,
            final(self).deployers == old(self).deployers,
            final(self).transitions == old(self).transitions,
    {
        self.counter = self.counter + 1;
        self.analysis = analysis;
        self.counter
    }
}

/// One wire message pushed to a subscriber: a full snapshot on connect,
/// incremental replacements afterwards.
pub enum Message {
    FullStatus(FullStatus),
    DeployerStatus { counter: u64, content: AllDeployerStatus },
    TransitionStatus { counter: u64, transitions: StrMap<TransitionStatusInfo> },
    Versions { counter: u64, analysis: VersionsAnalysis },
}

/// Clears the time of every last run that lies within the last ten
/// seconds, so a run every tick does not push an update every tick.
pub fn scrub_recent_run_times(status: &mut StrMap<TransitionStatusInfo>, now: i64)
    ensures
        final(status)@.len() == old(status)@.len(),
        forall|j: int|
            0 <= j < old(status)@.len() ==> {
                &&& (#[trigger] final(status)@[j]).0 == old(status)@[j].0
                &&& final(status)@[j].1.successful_runs == old(status)@[j].1.successful_runs
                &&& final(status)@[j].1.last_run == (match old(status)@[j].1.last_run {
                    Some(run) => Some(
                        TransitionRunInfo {
                            time: (match run.time {
                                Some(t) => if now - 10 < t {
                                    None
                                } else {
                                    Some(t)
                                },
                                None => None,
                            }),
                            result: run.result,
                        },
                    ),
                    None => None::<TransitionRunInfo>,
                })
            },
{
    let mut out: Vec<(String, TransitionStatusInfo)> = Vec::new();
    let mut rest = status.entries.split_off(0);
    let ghost pre = old(status)@;
    let ghost total = pre.len();
    while rest.len() > 0
        invariant
            out@.len() + rest@.len() == total,
            forall|j: int|
                0 <= j < rest@.len() ==> (
                #[trigger] rest@[j]).0@ == pre[out@.len() + j].0 && rest@[j].1 == pre[out@.len()
                    + j].1,
            forall|j: int|
                0 <= j < out@.len() ==> {
                    &&& (#[trigger] out@[j]).0@ == pre[j].0
                    &&& out@[j].1.successful_runs == pre[j].1.successful_runs
                    &&& out@[j].1.last_run == (match pre[j].1.last_run {
                        Some(run) => Some(
                            TransitionRunInfo {
                                time: (match run.time {
                                    Some(t) => if now - 10 < t {
                                        None
                                    } else {
                                        Some(t)
                                    },
                                    None => None,
                                }),
                                result: run.result,
                            },
                        ),
                        None => None::<TransitionRunInfo>,
                    })
                },
        decreases rest@.len(),
    {
        let (name, info) = rest.remove(0);
        let TransitionStatusInfo { successful_runs, last_run } = info;
        let new_last_run = match last_run {
            Some(run) => {
                let new_time = match run.time {
                    Some(t) => {
                        if (t as i128) > (now as i128) - 10 {
                            None
                        } else {
                            Some(t)
                        }
                    },
                    None => None,
                };
                Some(TransitionRunInfo { time: new_time, result: run.result })
            },
            None => None,
        };
        out.push((name, TransitionStatusInfo { successful_runs, last_run: new_last_run }));
    }
    status.entries = out;
}

/// One item of a deploy request: point a resource at a version, toggle
/// its lock, or both, in one environment.
pub struct ResourceDeploymentData {
    pub resource: String,
    pub version_id: Option<Id>,
    pub locked: Option<bool>,
    pub env: String,
}

/// A deploy request: a commit message and the items to apply.
pub struct DeploymentData {
    pub message: String,
    pub resources: Vec<ResourceDeploymentData>,
}

/// What stopped a deploy request.
#[derive(Debug, Clone, Copy, PartialEq, Eq, Structural)]
pub enum DeployRequestError {
    /// A blob stood where a subtree was needed.
    TreeConflict,
    /// An environment's lock file could not be decoded.
    LocksUnreadable,
}

/// The reason recorded when a lock is toggled from the outside.
pub open spec fn spec_ui_lock_reason() -> Seq<char> {
    "locked from ui"@
}

/// The lock of `resource` toggled: locking adds the reason (once) to the
/// resource's lock, creating it; unlocking removes the reason from an
/// existing lock and leaves a missing one alone.
pub open spec fn spec_toggle_lock(l: LocksView, resource: Seq<char>, locked: bool) -> LocksView {
    if locked {
        let cur = match spec_assoc_get(l.resource_locks, resource) {
            Some(lv) => lv,
            None => Seq::empty(),
        };
        let added = if crate::locks::spec_has_reason(cur, spec_ui_lock_reason()) {
            cur
        } else {
            cur.push(spec_ui_lock_reason())
        };
        LocksView {
            env_lock: l.env_lock,
            resource_locks: spec_assoc_set(l.resource_locks, resource, added),
        }
    } else {
        match spec_assoc_get(l.resource_locks, resource) {
            Some(lv) => LocksView {
                env_lock: l.env_lock,
                resource_locks: spec_assoc_set(
                    l.resource_locks,
                    resource,
                    crate::locks::spec_remove_reason(lv, spec_ui_lock_reason()),
                ),
            },
            None => l,
        }
    }
}

/// The file name of a resource's version pointer.
pub open spec fn spec_version_file(resource: Seq<char>) -> Seq<char> {
    resource + ".yaml"@
}

/// The tree after an item's version edit alone: the version pointer bound
/// under `<env>/version/<resource>.yaml` when requested.
pub open spec fn spec_item_versioned(t: TreeView, item: ResourceDeploymentData) -> TreeView {
    match item.version_id {
        Some(id) => spec_set_at(
            t,
            seq![item.env@, "version"@],
            NodeView::Dir {
                entries: spec_insert(
                    crate::tree::spec_dir_entries_of(
                        crate::tree::spec_lookup_or_empty(
                            crate::tree::spec_dir_entries_of(
                                crate::tree::spec_lookup_or_empty(t, item.env@),
                            ),
                            "version"@,
                        ),
                    ),
                    spec_version_file(item.resource@),
                    NodeView::Blob { id: id@, content: None },
                ),
            },
        ),
        None => t,
    }
}

/// Whether an item's edit runs into a blob where a subtree is needed, or a
/// subtree where the lock file should be: the environment entry is a blob;
/// a version edit finds a blob at `<env>/version`; or a lock toggle finds
/// a subtree at `<env>/locks.yaml`.
pub open spec fn spec_item_conflict(t: TreeView, item: ResourceDeploymentData) -> bool {
    if spec_lookup(t, item.env@) matches Some(NodeView::Blob { .. }) {
        true
    } else if item.version_id is Some && (match spec_lookup(t, item.env@) {
        Some(NodeView::Dir { entries }) => spec_lookup(entries, "version"@) matches Some(
            NodeView::Blob { .. },
        ),
        _ => false,
    }) {
        true
    } else {
        item.locked is Some && (match spec_lookup(spec_item_versioned(t, item), item.env@) {
            Some(NodeView::Dir { entries }) => spec_lookup(entries, "locks.yaml"@) matches Some(
                NodeView::Dir { .. },
            ),
            _ => false,
        })
    }
}

/// What one item decides: the edited tree, a tree conflict, or an
/// undecodable lock file.
pub enum DeployItemStep {
    Done { tree: TreeView },
    Conflict,
    LocksUnreadable,
}

/// What a whole request decides: the first failing item wins.
pub open spec fn spec_request_step(t: TreeView, items: Seq<ResourceDeploymentData>) -> (
    DeployItemStep
)
    decreases items.len(),
{
    if items.len() == 0 {
        DeployItemStep::Done { tree: t }
    } else if spec_item_conflict(t, items[0]) {
        DeployItemStep::Conflict
    } else {
        match spec_apply_item(t, items[0]) {
            Some(t1) => spec_request_step(t1, items.drop_first()),
            None => DeployItemStep::LocksUnreadable,
        }
    }
}

/// The tree after one deploy item: the version pointer bound under
/// `<env>/version/<resource>.yaml` when requested, then the environment's
/// lock file rewritten when a toggle is requested.
pub open spec fn spec_apply_item(t: TreeView, item: ResourceDeploymentData) -> Option<TreeView> {
    let t1 = match item.version_id {
        Some(id) => spec_set_at(
            t,
            seq![item.env@, "version"@],
            NodeView::Dir {
                entries: spec_insert(
                    crate::tree::spec_dir_entries_of(
                        crate::tree::spec_lookup_or_empty(
                            crate::tree::spec_dir_entries_of(
                                crate::tree::spec_lookup_or_empty(t, item.env@),
                            ),
                            "version"@,
                        ),
                    ),
                    spec_version_file(item.resource@),
                    NodeView::Blob { id: id@, content: None },
                ),
            },
        ),
        None => t,
    };
    match item.locked {
        Some(b) => match spec_load_locks(t1, item.env@) {
            Some(l) => Some(
                spec_set_at(
                    t1,
                    seq![item.env@, "locks.yaml"@],
                    NodeView::Blob {
                        id: Seq::new(20, |i: int| 0u8),
                        content: Some(
                            spec_locks_content(spec_toggle_lock(l, item.resource@, b)),
                        ),
                    },
                ),
            ),
            None => None,
        },
        None => Some(t1),
    }
}

/// The tree after every item of a request, in order.
pub open spec fn spec_apply_items(t: TreeView, items: Seq<ResourceDeploymentData>) -> Option<
    TreeView,
>
    decreases items.len(),
{
    if items.len() == 0 {
        Some(t)
    } else {
        match spec_apply_item(t, items[0]) {
            Some(t1) => spec_apply_items(t1, items.drop_first()),
            None => None,
        }
    }
}

/// Looking a resource up in the view of a lock map mirrors the map.
proof fn lemma_lock_view_get(m: Seq<(Seq<char>, crate::locks::Lock)>, v: Seq<(Seq<char>, crate::locks::LockView)>, k: Seq<char>)
    requires
        v.len() == m.len(),
        forall|j: int| 0 <= j < m.len() ==> #[trigger] v[j] == (m[j].0, m[j].1@),
    ensures
        spec_assoc_get(v, k) == (match spec_assoc_get(m, k) {
            Some(l) => Some(l@),
            None => None::<crate::locks::LockView>,
        }),
    decreases m.len(),
{
    if m.len() > 0 {
        assert(v[0] == (m[0].0, m[0].1@));
        if m[0].0 != k {
            assert forall|j: int| 0 <= j < m.drop_first().len() implies #[trigger] v.drop_first()[j]
                == (m.drop_first()[j].0, m.drop_first()[j].1@) by {
                assert(v.drop_first()[j] == v[j + 1]);
                assert(m.drop_first()[j] == m[j + 1]);
            }
            lemma_lock_view_get(m.drop_first(), v.drop_first(), k);
        }
    }
}

/// Setting a binding commutes with taking lock views.
proof fn lemma_lock_view_set(m: Seq<(Seq<char>, crate::locks::Lock)>, k: Seq<char>, l: crate::locks::Lock)
    ensures
        spec_lock_entries_view(spec_assoc_set(m, k, l)) == spec_assoc_set(
            spec_lock_entries_view(m),
            k,
            l@,
        ),
    decreases m.len(),
{
    if m.len() == 0 {
        assert(spec_lock_entries_view(seq![(k, l)]) =~= seq![(k, l@)]);
    } else if m[0].0 == k {
        assert(spec_lock_entries_view(seq![(k, l)] + m.drop_first()) =~= seq![(k, l@)]
            + spec_lock_entries_view(m).drop_first());
        assert(spec_lock_entries_view(m).drop_first() =~= spec_lock_entries_view(m.drop_first()));
    } else {
        lemma_lock_view_set(m.drop_first(), k, l);
        assert(spec_lock_entries_view(m).drop_first() =~= spec_lock_entries_view(m.drop_first()));
        assert(spec_lock_entries_view(seq![m[0]] + spec_assoc_set(m.drop_first(), k, l)) =~= seq![
            spec_lock_entries_view(m)[0],
        ] + spec_lock_entries_view(spec_assoc_set(m.drop_first(), k, l)));
        assert(spec_assoc_set(spec_lock_entries_view(m), k, l@) =~= seq![
            spec_lock_entries_view(m)[0],
        ] + spec_assoc_set(spec_lock_entries_view(m.drop_first()), k, l@));
    }
}

/// The view of a lock map's entries.
pub open spec fn spec_lock_entries_view(m: Seq<(Seq<char>, crate::locks::Lock)>) -> Seq<
    (Seq<char>, crate::locks::LockView),
> {
    Seq::new(m.len(), |i: int| (m[i].0, m[i].1@))
}

/// Overwriting an overwritten binding is one overwrite.
proof fn lemma_insert_insert(t: TreeView, k: Seq<char>, x: NodeView, y: NodeView)
    ensures
        spec_insert(spec_insert(t, k, y), k, x) == spec_insert(t, k, x),
    decreases t.len(),
{
    if t.len() == 0 {
        assert(spec_insert(seq![(k, y)], k, x) =~= seq![(k, x)]);
    } else if t[0].0 == k {
        assert((seq![(k, y)] + t.drop_first())[0] == (k, y));
        assert((seq![(k, y)] + t.drop_first()).drop_first() =~= t.drop_first());
        assert(spec_insert(spec_insert(t, k, y), k, x) =~= spec_insert(t, k, x));
    } else {
        lemma_insert_insert(t.drop_first(), k, x, y);
        assert((seq![t[0]] + spec_insert(t.drop_first(), k, y))[0] == t[0]);
        assert((seq![t[0]] + spec_insert(t.drop_first(), k, y)).drop_first() =~= spec_insert(
            t.drop_first(),
            k,
            y,
        ));
        assert(spec_insert(spec_insert(t, k, y), k, x) =~= spec_insert(t, k, x));
    }
}

/// Applies one deploy item to the tree.
fn apply_deploy_item(tree: Tree, item: &ResourceDeploymentData) -> (r: Result<
    Tree,
    DeployRequestError,
>)
    ensures
        match r {
            Ok(t) => !spec_item_conflict(tree@, *item) && spec_apply_item(tree@, *item) == Some(
                t@,
            ),
            Err(DeployRequestError::TreeConflict) => spec_item_conflict(tree@, *item),
            Err(DeployRequestError::LocksUnreadable) => !spec_item_conflict(tree@, *item)
                && spec_apply_item(tree@, *item) is None,
        },
{
    let ghost t0 = tree@;
    let mut zipper = TreeZipper::from(tree);
    match zipper.descend(item.env.as_str()) {
        Ok(_) => {},
        Err(_) => {
            return Err(DeployRequestError::TreeConflict);
        },
    }
    match &item.version_id {
        Some(id) => {
            match zipper.descend("version") {
                Ok(_) => {},
                Err(_) => {
                    return Err(DeployRequestError::TreeConflict);
                },
            }
            let mut file: Vec<char> = Vec::new();
            crate::text::push_str_chars(&mut file, item.resource.as_str());
            crate::text::push_str_chars(&mut file, ".yaml");
            let file_name = crate::text::string_from_chars(&file);
            proof {
                assert(file_name@ == spec_version_file(item.resource@));
            }
            zipper.rebuild_insert(file_name, TreeNode::Blob { id: *id, content: None });
            zipper.ascend();
        },
        None => {},
    }
    let ghost t1 = match item.version_id {
        Some(id) => spec_set_at(
            t0,
            seq![item.env@, "version"@],
            NodeView::Dir {
                entries: spec_insert(
                    crate::tree::spec_dir_entries_of(
                        crate::tree::spec_lookup_or_empty(
                            crate::tree::spec_dir_entries_of(
                                crate::tree::spec_lookup_or_empty(t0, item.env@),
                            ),
                            "version"@,
                        ),
                    ),
                    spec_version_file(item.resource@),
                    NodeView::Blob { id: id@, content: None },
                ),
            },
        ),
        None => t0,
    };
    let ghost env_sub1 = match zipper.cur() {
        Some(e) => e,
        None => Seq::empty(),
    };
    proof {
        reveal_with_fuel(spec_set_at, 3);
        assert(seq![item.env@, "version"@].drop_first() =~= seq!["version"@]);
        assert(zipper.frames() =~= Seq::<(Option<TreeView>, Seq<char>)>::empty().push(
            (Some(t0), item.env@),
        ));
        match item.version_id {
            Some(id) => {
                assert(t1 == spec_insert(t0, item.env@, NodeView::Dir { entries: env_sub1 }));
                crate::tree::lemma_lookup_insert(
                    t0,
                    item.env@,
                    NodeView::Dir { entries: env_sub1 },
                );
            },
            None => {},
        }
    }
    match &item.locked {
        Some(locked) => {
            let current = match zipper.get_blob("locks.yaml") {
                Ok(Some(TreeNode::Blob { id: _, content: Some(c) })) => {
                    match crate::locks::locks_from_content(c) {
                        Some(l) => l,
                        None => {
                            return Err(DeployRequestError::LocksUnreadable);
                        },
                    }
                },
                Ok(Some(TreeNode::Blob { id: _, content: None })) => {
                    return Err(DeployRequestError::LocksUnreadable);
                },
                Ok(Some(TreeNode::Dir { .. })) => {
                    return Err(DeployRequestError::TreeConflict);
                },
                Ok(None) => Locks::new(),
                Err(_) => {
                    return Err(DeployRequestError::TreeConflict);
                },
            };
            proof {
                assert(spec_load_locks(t1, item.env@) == Some(current@));
            }
            let mut locks = current;
            let ghost locks0 = locks@;
            if *locked {
                let mut lock = match locks.resource_locks.get(item.resource.as_str()) {
                    Some(l) => {
                        let cloned = crate::locks::Lock {
                            reasons: crate::repo::clone_path(&l.reasons),
                        };
                        proof {
                            assert(cloned.reasons.deep_view() == l.reasons.deep_view());
                            assert(cloned.reasons@.len() == l.reasons@.len());
                            assert forall|x: int| 0 <= x < cloned@.len() implies cloned@[x]
                                == l@[x] by {
                                assert(cloned.reasons.deep_view()[x] == l.reasons.deep_view()[x]);
                            }
                            assert(cloned@ =~= l@);
                        }
                        cloned
                    },
                    None => crate::locks::Lock::new(),
                };
                proof {
                    lemma_lock_view_get(
                        locks.resource_locks@,
                        locks@.resource_locks,
                        item.resource@,
                    );
                    assert(lock@ =~= (match spec_assoc_get(locks0.resource_locks, item.resource@) {
                        Some(lv) => lv,
                        None => Seq::empty(),
                    }));
                }
                lock.add_reason("locked from ui");
                proof {
                    reveal_strlit("locked from ui");
                    lemma_lock_view_set(locks.resource_locks@, item.resource@, lock);
                }
                locks.resource_locks.set(item.resource.clone(), lock);
                proof {
                    assert(locks@.resource_locks =~= spec_lock_entries_view(
                        locks.resource_locks@,
                    ));
                    assert(locks@ =~~= spec_toggle_lock(locks0, item.resource@, true));
                }
            } else {
                let found = match locks.resource_locks.get(item.resource.as_str()) {
                    Some(l) => {
                        let cloned = crate::locks::Lock {
                            reasons: crate::repo::clone_path(&l.reasons),
                        };
                        proof {
                            assert(cloned.reasons.deep_view() == l.reasons.deep_view());
                            assert(cloned.reasons@.len() == l.reasons@.len());
                            assert forall|x: int| 0 <= x < cloned@.len() implies cloned@[x]
                                == l@[x] by {
                                assert(cloned.reasons.deep_view()[x] == l.reasons.deep_view()[x]);
                            }
                            assert(cloned@ =~= l@);
                        }
                        Some(cloned)
                    },
                    None => None,
                };
                proof {
                    lemma_lock_view_get(
                        locks.resource_locks@,
                        locks@.resource_locks,
                        item.resource@,
                    );
                }
                match found {
                    Some(mut lock) => {
                        proof {
                            assert(Some(lock@) =~~= spec_assoc_get(
                                locks0.resource_locks,
                                item.resource@,
                            ));
                        }
                        lock.remove_reason("locked from ui");
                        proof {
                            reveal_strlit("locked from ui");
                            lemma_lock_view_set(locks.resource_locks@, item.resource@, lock);
                        }
                        locks.resource_locks.set(item.resource.clone(), lock);
                        proof {
                            assert(locks@.resource_locks =~= spec_lock_entries_view(
                                locks.resource_locks@,
                            ));
                            assert(locks@ =~~= spec_toggle_lock(locks0, item.resource@, false));
                        }
                    },
                    None => {
                        proof {
                            assert(locks@ =~~= spec_toggle_lock(locks0, item.resource@, false));
                        }
                    },
                }
            }
            let content = locks.to_content();
            zipper.rebuild_insert(
                "locks.yaml".to_owned(),
                TreeNode::Blob { id: Id::zero(), content: Some(content) },
            );
            proof {
                assert(spec_toggle_lock(locks0, item.resource@, *locked) =~~= spec_toggle_lock(
                    locks0,
                    item.resource@,
                    item.locked->0,
                ));
                assert(zipper.cur() == Some(
                    spec_insert(env_sub1, "locks.yaml"@, out_locks_node_spec(t1, *item)),
                ));
            }
        },
        None => {},
    }
    let ghost pre_ascend = zipper.cur();
    zipper.ascend();
    let out = match zipper.into_inner() {
        Some(t) => t,
        None => {
            proof {
                assert(false);
            }
            unreached()
        },
    };
    proof {
        reveal_with_fuel(spec_set_at, 3);
        match item.locked {
            Some(b) => {
                assert(seq![item.env@, "locks.yaml"@].drop_first() =~= seq!["locks.yaml"@]);
                let node = out_locks_node_spec(t1, *item);
                let x = NodeView::Dir {
                    entries: spec_insert(env_sub1, "locks.yaml"@, node),
                };
                assert(out@ == spec_insert(t0, item.env@, x));
                match item.version_id {
                    Some(id) => {
                        lemma_insert_insert(
                            t0,
                            item.env@,
                            x,
                            NodeView::Dir { entries: env_sub1 },
                        );
                        assert(crate::tree::spec_lookup_or_empty(t1, item.env@)
                            == NodeView::Dir { entries: env_sub1 });
                    },
                    None => {
                        assert(t1 == t0);
                        match spec_lookup(t0, item.env@) {
                            Some(n) => {
                                assert(n matches NodeView::Dir { .. });
                                assert(crate::tree::spec_dir_entries_of(
                                    crate::tree::spec_lookup_or_empty(t1, item.env@),
                                ) == env_sub1);
                            },
                            None => {
                                assert(env_sub1 =~= Seq::<(Seq<char>, NodeView)>::empty());
                                assert(crate::tree::spec_dir_entries_of(
                                    crate::tree::spec_lookup_or_empty(t1, item.env@),
                                ) =~= env_sub1);
                            },
                        }
                    },
                }
                assert(spec_set_at(t1, seq![item.env@, "locks.yaml"@], node) == spec_insert(
                    t1,
                    item.env@,
                    x,
                ));
                assert(spec_insert(t1, item.env@, x) == spec_insert(t0, item.env@, x));
                assert(spec_apply_item(t0, *item) == Some(out@));
            },
            None => {
                match pre_ascend {
                    Some(e) => {
                        match item.version_id {
                            Some(_) => {},
                            None => {
                                crate::tree::lemma_insert_lookup_identity(
                                    t0,
                                    item.env@,
                                    NodeView::Dir { entries: e },
                                );
                            },
                        }
                    },
                    None => {
                        crate::tree::lemma_remove_absent_identity(t0, item.env@);
                    },
                }
                assert(spec_apply_item(t0, *item) == Some(out@));
            },
        }
    }
    Ok(out)
}

/// The lock blob a toggle writes, as the spec sees it.
pub open spec fn out_locks_node_spec(t1: TreeView, item: ResourceDeploymentData) -> NodeView {
    NodeView::Blob {
        id: Seq::new(20, |i: int| 0u8),
        content: Some(
            spec_locks_content(
                spec_toggle_lock(
                    match spec_load_locks(t1, item.env@) {
                        Some(l) => l,
                        None => LocksView { env_lock: Seq::empty(), resource_locks: Seq::empty() },
                    },
                    item.resource@,
                    item.locked->0,
                ),
            ),
        ),
    }
}

/// Applies every item of a deploy request to the tree, in order.  The
/// caller commits the result with the request's message.
pub fn apply_deploy_request(tree: &Tree, data: &DeploymentData) -> (r: Result<
    Tree,
    DeployRequestError,
>)
    ensures
        match r {
            Ok(t) => spec_request_step(tree@, data.resources@) == (DeployItemStep::Done {
                tree: t@,
            }),
            Err(DeployRequestError::TreeConflict) => spec_request_step(tree@, data.resources@)
                == DeployItemStep::Conflict,
            Err(DeployRequestError::LocksUnreadable) => spec_request_step(tree@, data.resources@)
                == DeployItemStep::LocksUnreadable,
        },
{
    let mut acc = clone_tree(tree);
    let mut i: usize = 0;
    proof {
        assert(data.resources@.skip(0) =~= data.resources@);
    }
    while i < data.resources.len()
        invariant
            i <= data.resources@.len(),
            spec_request_step(tree@, data.resources@) == spec_request_step(
                acc@,
                data.resources@.skip(i as int),
            ),
        decreases data.resources@.len() - i,
    {
        proof {
            assert(data.resources@.skip(i as int)[0] == data.resources@[i as int]);
            assert(data.resources@.skip(i as int).drop_first() =~= data.resources@.skip(i + 1));
        }
        acc = match apply_deploy_item(acc, &data.resources[i]) {
            Ok(t) => t,
            Err(e) => {
                return Err(e);
            },
        };
        i = i + 1;
    }
    proof {
        assert(data.resources@.skip(data.resources@.len() as int)
            =~= Seq::<ResourceDeploymentData>::empty());
    }
    Ok(acc)
}

} // verus!
