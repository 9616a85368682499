use dm_core::content::ContentValue;
use dm_core::locks::{Lock, Locks};
use dm_core::state::{TransitionState, TransitionStates};
use dm_core::transition::{
    run_transition, transition_proceeds, update_transition_status, PreconditionInput,
    SkipReason, Transition, TransitionOutcome, TransitionResult,
};
use dm_core::ordmap::StrMap;
use dm_core::tree::{tree_same, Tree, TreeEntry, TreeNode};
use dm_core::Id;

fn id(b: u8) -> Id {
    let mut bytes = [0u8; 20];
    bytes[19] = b;
    Id(bytes)
}

fn blob(idb: u8, text: &str) -> TreeNode {
    TreeNode::Blob { id: id(idb), content: Some(ContentValue::Text(text.to_string())) }
}

fn tree(entries: Vec<(&str, TreeNode)>) -> Tree {
    Tree {
        entries: entries
            .into_iter()
            .map(|(n, node)| TreeEntry { name: n.to_string(), node })
            .collect(),
    }
}

fn dir(entries: Vec<(&str, TreeNode)>) -> TreeNode {
    TreeNode::Dir { tree: tree(entries) }
}

fn rule(source: &str, target: &str, schedule: Option<&str>) -> Transition {
    Transition {
        source: source.to_string(),
        target: target.to_string(),
        preconditions: Vec::new(),
        schedule: schedule.map(|s| s.to_string()),
    }
}

fn no_input() -> PreconditionInput {
    PreconditionInput::NoDeployerUrl
}

const T0: i64 = 1514764800; // 2018-01-01T00:00:00Z

#[test]
fn test_transition_source_missing() {
    let t = tree(vec![(
        "prod",
        dir(vec![("version", dir(vec![("foo.yaml", blob(1, "x"))]))]),
    )]);
    let outcome = run_transition("prod", &rule("dev", "prod", None), &t, &id(9), T0, &no_input())
        .unwrap();
    assert!(matches!(outcome, TransitionOutcome::Skipped(SkipReason::SourceMissing)));
}

#[test]
fn test_transition_target_created() {
    let t = tree(vec![(
        "dev",
        dir(vec![("version", dir(vec![("foo.yaml", blob(1, "x"))]))]),
    )]);
    let outcome = run_transition("prod", &rule("dev", "prod", None), &t, &id(9), T0, &no_input())
        .unwrap();
    match outcome {
        TransitionOutcome::Commit { new_tree, message } => {
            assert!(message.starts_with("Mirroring dev to prod"));
            let dev_version = subtree(&new_tree, &["dev", "version"]);
            let prod_version = subtree(&new_tree, &["prod", "version"]);
            assert!(tree_same(&dev_version, &prod_version));
        }
        _ => panic!("expected a commit"),
    }
}

fn subtree(t: &Tree, path: &[&str]) -> Tree {
    let mut cur = dm_core::tree::clone_tree(t);
    for seg in path {
        let mut found = None;
        for e in cur.entries {
            if e.name.as_str() == *seg {
                if let TreeNode::Dir { tree } = e.node {
                    found = Some(tree);
                }
            }
        }
        cur = found.expect("path leads to a subtree");
    }
    cur
}

#[test]
fn test_prod_locked() {
    let locks = Locks {
        env_lock: Lock { reasons: vec!["frozen".to_string()] },
        resource_locks: StrMap::new(),
    };
    let t = tree(vec![
        ("dev", dir(vec![("version", dir(vec![("foo.yaml", blob(1, "x"))]))])),
        (
            "prod",
            dir(vec![(
                "locks.yaml",
                TreeNode::Blob { id: id(8), content: Some(locks.to_content()) },
            )]),
        ),
    ]);
    let outcome = run_transition("prod", &rule("dev", "prod", None), &t, &id(9), T0, &no_input())
        .unwrap();
    assert!(matches!(outcome, TransitionOutcome::Skipped(SkipReason::TargetLocked)));
}

#[test]
fn test_timed_transition_pending() {
    let mut states = TransitionStates::new();
    states.insert("prod", TransitionState { scheduled: Some(T0) });
    let mut t = tree(vec![(
        "dev",
        dir(vec![("version", dir(vec![("foo.yaml", blob(1, "x"))]))]),
    )]);
    states.save(&mut t);
    let outcome = run_transition(
        "prod",
        &rule("dev", "prod", Some("0 1 * * * *")),
        &t,
        &id(9),
        T0,
        &no_input(),
    )
    .unwrap();
    assert!(matches!(
        outcome,
        TransitionOutcome::Skipped(SkipReason::Scheduled { time }) if time == T0
    ));
}

#[test]
fn test_timed_transition_runs() {
    let mut states = TransitionStates::new();
    states.insert("prod", TransitionState { scheduled: Some(T0) });
    let mut t = tree(vec![(
        "dev",
        dir(vec![("version", dir(vec![("foo.yaml", blob(1, "x"))]))]),
    )]);
    states.save(&mut t);
    let outcome = run_transition(
        "prod",
        &rule("dev", "prod", Some("0 1 * * * *")),
        &t,
        &id(9),
        T0 + 1,
        &no_input(),
    )
    .unwrap();
    match outcome {
        TransitionOutcome::Commit { new_tree, .. } => {
            // the next firing of "second 0, minute 1" after 00:00:01 is 00:01:00
            let states = TransitionStates::load(&new_tree).unwrap();
            assert_eq!(states.get_state("prod").scheduled, Some(T0 + 60));
        }
        _ => panic!("expected a commit"),
    }
}

#[test]
fn test_transition_no_change() {
    let version = dir(vec![("foo.yaml", blob(1, "x"))]);
    let t = tree(vec![
        ("dev", dir(vec![("version", version)])),
        (
            "prod",
            dir(vec![("version", dir(vec![("foo.yaml", blob(1, "x"))]))]),
        ),
    ]);
    let outcome = run_transition("prod", &rule("dev", "prod", None), &t, &id(9), T0, &no_input())
        .unwrap();
    assert!(matches!(outcome, TransitionOutcome::Skipped(SkipReason::NoChange)));
}

#[test]
fn test_transition_priority() {
    // two applicable rules: the first one commits, which ends the tick
    let t = tree(vec![
        ("available", dir(vec![("version", dir(vec![("foo.yaml", blob(1, "x"))]))])),
        ("dev", dir(vec![("version", dir(vec![("foo.yaml", blob(2, "y"))]))])),
    ]);
    let rules = vec![
        ("dev".to_string(), rule("available", "dev", None)),
        ("prod".to_string(), rule("dev", "prod", None)),
    ];
    let mut committed = Vec::new();
    for (name, r) in &rules {
        let outcome = run_transition(name, r, &t, &id(9), T0, &no_input()).unwrap();
        let result = match outcome {
            TransitionOutcome::Commit { .. } => {
                committed.push(name.clone());
                TransitionResult::Success { committed_version: id(12) }
            }
            TransitionOutcome::Skipped(reason) => TransitionResult::Skipped(reason),
            TransitionOutcome::Blocked { message } => TransitionResult::Blocked { message },
            TransitionOutcome::CheckFailed { message } => TransitionResult::CheckFailed { message },
        };
        if !transition_proceeds(&result) {
            break;
        }
    }
    assert_eq!(committed, vec!["dev".to_string()]);
}

#[test]
fn test_second_transition_runs() {
    // the first rule has nothing to mirror, so the second gets its turn
    let t = tree(vec![
        ("dev", dir(vec![("version", dir(vec![("foo.yaml", blob(2, "y"))]))])),
    ]);
    let rules = vec![
        ("dev".to_string(), rule("available", "dev", None)),
        ("prod".to_string(), rule("dev", "prod", None)),
    ];
    let mut committed = Vec::new();
    for (name, r) in &rules {
        let outcome = run_transition(name, r, &t, &id(9), T0, &no_input()).unwrap();
        let result = match outcome {
            TransitionOutcome::Commit { .. } => {
                committed.push(name.clone());
                TransitionResult::Success { committed_version: id(12) }
            }
            TransitionOutcome::Skipped(reason) => TransitionResult::Skipped(reason),
            TransitionOutcome::Blocked { message } => TransitionResult::Blocked { message },
            TransitionOutcome::CheckFailed { message } => TransitionResult::CheckFailed { message },
        };
        if !transition_proceeds(&result) {
            break;
        }
    }
    assert_eq!(committed, vec!["prod".to_string()]);
}

#[test]
fn missing_deployer_url_fails_the_check() {
    let mut r = rule("dev", "prod", None);
    r.preconditions = vec![dm_core::transition::Precondition::SourceClean];
    let t = tree(vec![
        ("dev", dir(vec![("version", dir(vec![("foo.yaml", blob(1, "x"))]))])),
    ]);
    let outcome = run_transition("prod", &r, &t, &id(9), T0, &no_input()).unwrap();
    assert!(matches!(outcome, TransitionOutcome::CheckFailed { .. }));
}

#[test]
fn status_updates_record_the_last_run() {
    let mut status: StrMap<dm_core::transition::TransitionStatusInfo> = StrMap::new();
    update_transition_status(
        &mut status,
        "prod",
        TransitionResult::Success { committed_version: id(3) },
        100,
    );
    update_transition_status(
        &mut status,
        "prod",
        TransitionResult::Skipped(SkipReason::NoChange),
        101,
    );
    let info = status.get("prod").unwrap();
    assert_eq!(info.successful_runs.len(), 1);
    assert_eq!(info.successful_runs[0].committed_version, id(3));
    let last = info.last_run.as_ref().unwrap();
    assert_eq!(last.time, Some(101));
    assert!(matches!(last.result, TransitionResult::Skipped(SkipReason::NoChange)));
}

#[test]
fn test_transition_target_changed() {
    let t = tree(vec![
        ("dev", dir(vec![("version", dir(vec![("foo.yaml", blob(1, "new"))]))])),
        ("prod", dir(vec![("version", dir(vec![("foo.yaml", blob(2, "old"))]))])),
    ]);
    let outcome = run_transition("prod", &rule("dev", "prod", None), &t, &id(9), T0, &no_input())
        .unwrap();
    match outcome {
        TransitionOutcome::Commit { new_tree, .. } => {
            let dev_version = subtree(&new_tree, &["dev", "version"]);
            let prod_version = subtree(&new_tree, &["prod", "version"]);
            assert!(tree_same(&dev_version, &prod_version));
        }
        _ => panic!("expected a commit"),
    }
}

#[test]
fn test_transition_subdirs() {
    let t = tree(vec![(
        "dev",
        dir(vec![(
            "version",
            dir(vec![(
                "nested",
                dir(vec![("foo.yaml", blob(1, "x")), ("bar.yaml", blob(2, "y"))]),
            )]),
        )]),
    )]);
    let outcome = run_transition("prod", &rule("dev", "prod", None), &t, &id(9), T0, &no_input())
        .unwrap();
    match outcome {
        TransitionOutcome::Commit { new_tree, .. } => {
            let dev_version = subtree(&new_tree, &["dev", "version"]);
            let prod_version = subtree(&new_tree, &["prod", "version"]);
            assert!(tree_same(&dev_version, &prod_version));
        }
        _ => panic!("expected a commit"),
    }
}

#[test]
fn test_both_locked() {
    let locked = || {
        let mut l = Locks::new();
        l.env_lock.add_reason("frozen");
        TreeNode::Blob { id: id(8), content: Some(l.to_content()) }
    };
    let t = tree(vec![
        ("available", dir(vec![("version", dir(vec![("foo.yaml", blob(1, "x"))]))])),
        ("dev", dir(vec![
            ("version", dir(vec![("foo.yaml", blob(2, "y"))])),
            ("locks.yaml", locked()),
        ])),
        ("prod", dir(vec![("locks.yaml", locked())])),
    ]);
    let rules = vec![
        ("dev".to_string(), rule("available", "dev", None)),
        ("prod".to_string(), rule("dev", "prod", None)),
    ];
    for (name, r) in &rules {
        let outcome = run_transition(name, r, &t, &id(9), T0, &no_input()).unwrap();
        assert!(matches!(outcome, TransitionOutcome::Skipped(SkipReason::TargetLocked)));
    }
}

#[test]
fn test_timed_transition_without_schedule() {
    // a persisted time in the past and no schedule on the rule: the
    // transition runs and its state entry is dropped
    let mut states = TransitionStates::new();
    states.insert("prod", TransitionState { scheduled: Some(T0 - 100) });
    let mut t = tree(vec![(
        "dev",
        dir(vec![("version", dir(vec![("foo.yaml", blob(1, "x"))]))]),
    )]);
    states.save(&mut t);
    let outcome =
        run_transition("prod", &rule("dev", "prod", None), &t, &id(9), T0, &no_input()).unwrap();
    match outcome {
        TransitionOutcome::Commit { new_tree, .. } => {
            let states = TransitionStates::load(&new_tree).unwrap();
            assert_eq!(states.get_state("prod").scheduled, None);
        }
        _ => panic!("expected a commit"),
    }
}

#[test]
fn successful_runs_prepend_newest_first() {
    let mut status: StrMap<dm_core::transition::TransitionStatusInfo> = StrMap::new();
    update_transition_status(
        &mut status,
        "prod",
        TransitionResult::Success { committed_version: id(1) },
        100,
    );
    update_transition_status(
        &mut status,
        "prod",
        TransitionResult::Success { committed_version: id(2) },
        200,
    );
    let info = status.get("prod").unwrap();
    assert_eq!(info.successful_runs.len(), 2);
    assert_eq!(info.successful_runs[0].committed_version, id(2));
    assert_eq!(info.successful_runs[0].time, 200);
    assert_eq!(info.successful_runs[1].committed_version, id(1));
}
