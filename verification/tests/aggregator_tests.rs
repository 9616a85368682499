use dm_core::aggregator::{
    apply_deploy_request, scrub_recent_run_times, DeploymentData, FullStatus,
    ResourceDeploymentData,
};
use dm_core::deployment::AllDeployerStatus;
use dm_core::ordmap::StrMap;
use dm_core::transition::{
    SkipReason, TransitionResult, TransitionRunInfo, TransitionStatusInfo,
};
use dm_core::tree::{Tree, TreeEntry, TreeNode};
use dm_core::Id;

fn id(b: u8) -> Id {
    let mut bytes = [0u8; 20];
    bytes[19] = b;
    Id(bytes)
}

fn tree(entries: Vec<(&str, TreeNode)>) -> Tree {
    Tree {
        entries: entries
            .into_iter()
            .map(|(n, node)| TreeEntry { name: n.to_string(), node })
            .collect(),
    }
}

fn dir(entries: Vec<(&str, TreeNode)>) -> TreeNode {
    TreeNode::Dir { tree: tree(entries) }
}

#[test]
fn counter_increases_by_one_per_update() {
    let mut status = FullStatus::new();
    assert_eq!(status.counter, 0);
    let c1 = status.update_deployers(AllDeployerStatus::empty());
    let c2 = status.update_transitions(StrMap::new());
    let c3 = status.update_analysis(dm_core::analysis::VersionsAnalysis::new());
    assert_eq!(c1, 1);
    assert_eq!(c2, 2);
    assert_eq!(c3, 3);
    assert_eq!(status.counter, 3);
}

#[test]
fn scrub_clears_only_recent_times() {
    let mut status: StrMap<TransitionStatusInfo> = StrMap::new();
    let mut fresh = TransitionStatusInfo::new();
    fresh.last_run = Some(TransitionRunInfo {
        time: Some(995),
        result: TransitionResult::Skipped(SkipReason::NoChange),
    });
    let mut stale = TransitionStatusInfo::new();
    stale.last_run = Some(TransitionRunInfo {
        time: Some(500),
        result: TransitionResult::Skipped(SkipReason::NoChange),
    });
    status.set("fresh".to_string(), fresh);
    status.set("stale".to_string(), stale);
    scrub_recent_run_times(&mut status, 1000);
    assert_eq!(status.get("fresh").unwrap().last_run.as_ref().unwrap().time, None);
    assert_eq!(status.get("stale").unwrap().last_run.as_ref().unwrap().time, Some(500));
}

#[test]
fn deploy_request_points_a_resource_at_a_version() {
    let t = tree(vec![("dev", dir(vec![("version", dir(vec![]))]))]);
    let data = DeploymentData {
        message: "point foo at a new version".to_string(),
        resources: vec![ResourceDeploymentData {
            resource: "foo".to_string(),
            version_id: Some(id(7)),
            locked: None,
            env: "dev".to_string(),
        }],
    };
    let out = apply_deploy_request(&t, &data).unwrap();
    let dev = match &out.entries[0].node {
        TreeNode::Dir { tree } => tree,
        _ => panic!("dev should be a subtree"),
    };
    let version = match &dev.entries[0].node {
        TreeNode::Dir { tree } => tree,
        _ => panic!("version should be a subtree"),
    };
    assert_eq!(version.entries[0].name.as_str(), "foo.yaml");
    assert!(matches!(version.entries[0].node, TreeNode::Blob { id: vid, .. } if vid == id(7)));
}

#[test]
fn deploy_request_toggles_a_lock() {
    let t = tree(vec![("dev", dir(vec![]))]);
    let lock_item = |locked: bool| DeploymentData {
        message: "toggle".to_string(),
        resources: vec![ResourceDeploymentData {
            resource: "foo".to_string(),
            version_id: None,
            locked: Some(locked),
            env: "dev".to_string(),
        }],
    };
    let out = apply_deploy_request(&t, &lock_item(true)).unwrap();
    let locks = read_locks(&out);
    assert!(locks.resource_is_locked("foo"));
    let out2 = apply_deploy_request(&out, &lock_item(false)).unwrap();
    let locks2 = read_locks(&out2);
    assert!(!locks2.resource_is_locked("foo"));
}

fn read_locks(t: &Tree) -> dm_core::locks::Locks {
    for e in &t.entries {
        if e.name.as_str() == "dev" {
            if let TreeNode::Dir { tree } = &e.node {
                for f in &tree.entries {
                    if f.name.as_str() == "locks.yaml" {
                        if let TreeNode::Blob { content: Some(c), .. } = &f.node {
                            return dm_core::locks::locks_from_content(c).unwrap();
                        }
                    }
                }
            }
        }
    }
    panic!("no locks file found");
}

#[test]
fn empty_deploy_request_leaves_the_tree_alone() {
    let t = tree(vec![("dev", dir(vec![]))]);
    let data = DeploymentData { message: "noop".to_string(), resources: Vec::new() };
    let out = apply_deploy_request(&t, &data).unwrap();
    assert!(dm_core::tree::tree_same(&t, &out));
}
