use dm_core::content::ContentValue;
use dm_core::deployment::{
    deploy, Deployer, deploy_env, determine_rollout_status, fold_rollout_status, get_resources,
    new_deployer_status, stem_of, to_resource_state, KubeDeploymentProgress, MockDeployer,
    Resource, ResourceState, RolloutStatusReason,
};
use dm_core::ordmap::StrMap;
use dm_core::repo::{CommitInfo, RepoHistory};
use dm_core::tree::{Tree, TreeEntry, TreeNode};
use dm_core::{Id, RolloutStatus};

fn id(b: u8) -> Id {
    let mut bytes = [0u8; 20];
    bytes[19] = b;
    Id(bytes)
}

fn text_blob(idb: u8, text: &str) -> TreeNode {
    TreeNode::Blob { id: id(idb), content: Some(ContentValue::Text(text.to_string())) }
}

fn obj_blob(idb: u8, fields: Vec<(&str, ContentValue)>) -> TreeNode {
    TreeNode::Blob {
        id: id(idb),
        content: Some(ContentValue::Object(
            fields.into_iter().map(|(k, v)| (k.to_string(), v)).collect(),
        )),
    }
}

fn tree(entries: Vec<(&str, TreeNode)>) -> Tree {
    Tree {
        entries: entries
            .into_iter()
            .map(|(n, node)| TreeEntry { name: n.to_string(), node })
            .collect(),
    }
}

fn dir(entries: Vec<(&str, TreeNode)>) -> TreeNode {
    TreeNode::Dir { tree: tree(entries) }
}

fn repo_with(head_id: u8, t: Tree) -> RepoHistory {
    RepoHistory {
        commits: vec![CommitInfo {
            id: id(head_id),
            author_name: "a".to_string(),
            author_email: "a@b".to_string(),
            time: 0,
            message: "Commit head".to_string(),
            tree: t,
        }],
    }
}

#[test]
fn test_get_resources_no_resources() {
    let repo = repo_with(9, tree(vec![("available", dir(vec![]))]));
    let result = get_resources(&repo, "available", None).unwrap();
    assert!(result.is_some());
    assert_eq!(result.unwrap().resources.len(), 0);
}

#[test]
fn test_get_resources_1() {
    let repo = repo_with(
        9,
        tree(vec![(
            "available",
            dir(vec![("deployable", dir(vec![("foo.yaml", text_blob(1, "blubb"))]))]),
        )]),
    );
    let result = get_resources(&repo, "available", None).unwrap();
    let info = result.unwrap();
    assert_eq!(info.resources.len(), 1);
    assert_eq!(info.resources[0].name.as_str(), "foo");
    assert!(matches!(&info.resources[0].content, ContentValue::Text(t) if t.as_str() == "blubb"));
    assert_eq!(info.resources[0].version, id(9));
}

#[test]
fn test_get_resources_2() {
    let repo = repo_with(
        9,
        tree(vec![(
            "available",
            dir(vec![(
                "deployable",
                dir(vec![
                    ("foo.yaml", text_blob(1, "blubb")),
                    ("bar.yaml", text_blob(2, "xx")),
                ]),
            )]),
        )]),
    );
    let result = get_resources(&repo, "available", None).unwrap();
    let mut info = result.unwrap();
    info.resources.sort_by_key(|d| d.name.clone());
    assert_eq!(info.resources.len(), 2);
    assert_eq!(info.resources[0].name.as_str(), "bar");
    assert!(matches!(&info.resources[0].content, ContentValue::Text(t) if t.as_str() == "xx"));
    assert_eq!(info.resources[1].name.as_str(), "foo");
    assert!(matches!(&info.resources[1].content, ContentValue::Text(t) if t.as_str() == "blubb"));
}

#[test]
fn get_resources_merges_version_into_base() {
    let base = obj_blob(
        3,
        vec![("image", ContentValue::Text("img:$version".to_string()))],
    );
    let version = obj_blob(4, vec![("version", ContentValue::Text("2".to_string()))]);
    let repo = repo_with(
        9,
        tree(vec![(
            "dev",
            dir(vec![
                ("base", dir(vec![("foo.yaml", base)])),
                ("version", dir(vec![("foo.yaml", version)])),
            ]),
        )]),
    );
    let info = get_resources(&repo, "dev", None).unwrap().unwrap();
    assert_eq!(info.resources.len(), 1);
    let r = &info.resources[0];
    assert_eq!(r.name.as_str(), "foo");
    match &r.content {
        ContentValue::Object(fields) => {
            assert!(matches!(&fields[0].1, ContentValue::Text(t) if t.as_str() == "img:2"));
        }
        _ => panic!("expected merged object content"),
    }
}

#[test]
fn version_pair_overwrites_deployable_and_missing_base_is_skipped() {
    let repo = repo_with(
        9,
        tree(vec![(
            "dev",
            dir(vec![
                (
                    "deployable",
                    dir(vec![
                        ("foo.yaml", text_blob(1, "from deployable")),
                        ("solo.yaml", text_blob(6, "stays")),
                    ]),
                ),
                ("base", dir(vec![("foo.yaml", text_blob(2, "base-$version"))])),
                (
                    "version",
                    dir(vec![
                        ("foo.yaml", obj_blob(3, vec![("version", ContentValue::Text("7".to_string()))])),
                        ("orphan.yaml", obj_blob(4, vec![("version", ContentValue::Text("1".to_string()))])),
                    ]),
                ),
            ]),
        )]),
    );
    let mut info = get_resources(&repo, "dev", None).unwrap().unwrap();
    info.resources.sort_by_key(|d| d.name.clone());
    assert_eq!(info.resources.len(), 2);
    assert_eq!(info.resources[0].name.as_str(), "foo");
    assert!(matches!(&info.resources[0].content, ContentValue::Text(t) if t.as_str() == "base-7"));
    assert_eq!(info.resources[1].name.as_str(), "solo");
}

#[test]
fn get_resources_is_none_when_nothing_changed() {
    let repo = repo_with(9, tree(vec![]));
    let head = repo.version();
    assert!(get_resources(&repo, "dev", Some(&head)).unwrap().is_none());
    assert!(get_resources(&repo, "dev", Some(&id(8))).unwrap().is_some());
}

#[test]
fn stem_strips_the_last_extension() {
    assert_eq!(stem_of("foo.yaml").as_str(), "foo");
    assert_eq!(stem_of("a.b.c").as_str(), "a.b");
    assert_eq!(stem_of("noext").as_str(), "noext");
    assert_eq!(stem_of(".hidden").as_str(), ".hidden");
}

#[test]
fn mock_deployer_round_trip() {
    let mut mock = MockDeployer::new();
    let resources = vec![Resource {
        name: "foo".to_string(),
        content: ContentValue::Text("c".to_string()),
        version: id(1),
        message: "m".to_string(),
    }];
    let states = mock.retrieve_current_state(&resources).unwrap();
    assert!(matches!(states.get("foo"), Some(ResourceState::NotDeployed)));
    let (attempted, failed) = deploy(&mut mock, &resources).unwrap();
    assert_eq!(attempted, vec!["foo".to_string()]);
    assert!(failed.is_empty());
    let states = mock.retrieve_current_state(&resources).unwrap();
    assert!(matches!(
        states.get("foo"),
        Some(ResourceState::Deployed { status: RolloutStatusReason::Clean, .. })
    ));
    let (attempted, _) = deploy(&mut mock, &resources).unwrap();
    assert!(attempted.is_empty());
}

#[test]
fn fold_counts_drifted_resources_as_outdated() {
    let mut states: StrMap<ResourceState> = StrMap::new();
    states.set(
        "a".to_string(),
        ResourceState::Deployed {
            version: id(1),
            expected_version: id(1),
            status: RolloutStatusReason::Clean,
        },
    );
    assert_eq!(fold_rollout_status(&states), RolloutStatus::Clean);
    states.set(
        "b".to_string(),
        ResourceState::Deployed {
            version: id(2),
            expected_version: id(3),
            status: RolloutStatusReason::Clean,
        },
    );
    assert_eq!(fold_rollout_status(&states), RolloutStatus::Outdated);
    states.set("c".to_string(), ResourceState::NotDeployed);
    assert_eq!(fold_rollout_status(&states), RolloutStatus::Outdated);
    states.set(
        "d".to_string(),
        ResourceState::Deployed {
            version: id(4),
            expected_version: id(4),
            status: RolloutStatusReason::Failed { message: "boom".to_string() },
        },
    );
    assert_eq!(fold_rollout_status(&states), RolloutStatus::Failed);
}

#[test]
fn deploy_env_reaches_clean_with_the_mock() {
    let repo = repo_with(
        9,
        tree(vec![(
            "dev",
            dir(vec![("deployable", dir(vec![("foo.yaml", text_blob(1, "c"))]))]),
        )]),
    );
    let mut mock = MockDeployer::new();
    let status = deploy_env(&mut mock, &repo, "dev", None, None).unwrap();
    assert_eq!(status.deployed_version, id(9));
    assert_eq!(status.rollout_status, RolloutStatus::Clean);
    assert_eq!(status.last_successfully_deployed_version, Some(id(9)));
}

#[test]
fn deploy_env_starts_in_progress_without_driver_state() {
    let status = new_deployer_status(id(5));
    assert_eq!(status.rollout_status, RolloutStatus::InProgress);
    assert!(status.last_successfully_deployed_version.is_none());
}

#[test]
fn rollout_status_decision_tree() {
    let base = KubeDeploymentProgress {
        has_status: true,
        metadata_generation: Some(2),
        observed_generation: Some(2),
        progress_deadline_exceeded: false,
        spec_replicas: Some(3),
        status_replicas: Some(3),
        updated_replicas: Some(3),
        available_replicas: Some(3),
    };
    assert_eq!(determine_rollout_status("d", &base), RolloutStatusReason::Clean);

    let p = KubeDeploymentProgress { has_status: false, ..base };
    assert_eq!(determine_rollout_status("d", &p), RolloutStatusReason::NoStatus);

    let p = KubeDeploymentProgress { observed_generation: Some(1), ..base };
    assert_eq!(determine_rollout_status("d", &p), RolloutStatusReason::NotYetObserved);

    let p = KubeDeploymentProgress { progress_deadline_exceeded: true, ..base };
    assert!(matches!(
        determine_rollout_status("d", &p),
        RolloutStatusReason::Failed { .. }
    ));

    let p = KubeDeploymentProgress { updated_replicas: Some(1), ..base };
    assert_eq!(
        determine_rollout_status("d", &p),
        RolloutStatusReason::NotAllUpdated { expected: 3, updated: 1 }
    );

    let p = KubeDeploymentProgress { status_replicas: Some(5), ..base };
    assert_eq!(
        determine_rollout_status("d", &p),
        RolloutStatusReason::OldReplicasPending { number: 2 }
    );

    let p = KubeDeploymentProgress { available_replicas: Some(1), ..base };
    assert_eq!(
        determine_rollout_status("d", &p),
        RolloutStatusReason::UpdatedUnavailable { updated: 3, available: 1 }
    );
}

#[test]
fn annotation_parse_failure_yields_the_zero_id() {
    let state = to_resource_state(Some("not hex"), &id(1), RolloutStatusReason::Clean);
    assert!(matches!(
        state,
        ResourceState::Deployed { version, .. } if version == Id([0; 20])
    ));
    let hex = id(7).to_hex();
    let state = to_resource_state(Some(hex.as_str()), &id(1), RolloutStatusReason::Clean);
    assert!(matches!(
        state,
        ResourceState::Deployed { version, expected_version, .. }
            if version == id(7) && expected_version == id(1)
    ));
}

fn two_commit_repo() -> RepoHistory {
    // `first` writes foo; `head` changes bar only
    let first_tree = tree(vec![(
        "available",
        dir(vec![(
            "deployable",
            dir(vec![("foo.yaml", text_blob(1, "blubb")), ("bar.yaml", text_blob(2, "xx"))]),
        )]),
    )]);
    let head_tree = tree(vec![(
        "available",
        dir(vec![(
            "deployable",
            dir(vec![("foo.yaml", text_blob(1, "blubb")), ("bar.yaml", text_blob(3, "yy"))]),
        )]),
    )]);
    RepoHistory {
        commits: vec![
            CommitInfo {
                id: id(20),
                author_name: "a".to_string(),
                author_email: "a@b".to_string(),
                time: 0,
                message: "Commit first".to_string(),
                tree: first_tree,
            },
            CommitInfo {
                id: id(21),
                author_name: "a".to_string(),
                author_email: "a@b".to_string(),
                time: 1,
                message: "Commit head".to_string(),
                tree: head_tree,
            },
        ],
    }
}

#[test]
fn test_get_resources_changed() {
    let repo = two_commit_repo();
    let result = get_resources(&repo, "available", Some(&id(20))).unwrap();
    let mut info = result.unwrap();
    info.resources.sort_by_key(|d| d.name.clone());
    assert_eq!(info.resources.len(), 2);
    assert_eq!(info.resources[0].name.as_str(), "bar");
    assert!(matches!(&info.resources[0].content, ContentValue::Text(t) if t.as_str() == "yy"));
    assert_eq!(info.resources[0].version, id(21));
    assert_eq!(info.resources[1].name.as_str(), "foo");
    assert_eq!(info.resources[1].version, id(20));
}

#[test]
fn test_get_resources_subdir() {
    let repo = repo_with(
        9,
        tree(vec![(
            "available",
            dir(vec![(
                "deployable",
                dir(vec![
                    ("bar.yaml", text_blob(1, "blub")),
                    (
                        "nested",
                        dir(vec![
                            ("baz.yaml", text_blob(2, "blub")),
                            ("blub.yaml", text_blob(3, "blub")),
                        ]),
                    ),
                ]),
            )]),
        )]),
    );
    let result = get_resources(&repo, "available", None).unwrap();
    let mut info = result.unwrap();
    info.resources.sort_by_key(|d| d.name.clone());
    assert_eq!(info.resources.len(), 3);
    assert_eq!(info.resources[0].name.as_str(), "bar");
    assert_eq!(info.resources[1].name.as_str(), "baz");
    assert_eq!(info.resources[2].name.as_str(), "blub");
}

#[test]
fn test_get_resources_added() {
    // `first` has only foo; `head` adds bar
    let first_tree = tree(vec![(
        "available",
        dir(vec![("deployable", dir(vec![("foo.yaml", text_blob(1, "blubb"))]))]),
    )]);
    let head_tree = tree(vec![(
        "available",
        dir(vec![(
            "deployable",
            dir(vec![("foo.yaml", text_blob(1, "blubb")), ("bar.yaml", text_blob(3, "yy"))]),
        )]),
    )]);
    let repo = RepoHistory {
        commits: vec![
            CommitInfo {
                id: id(20),
                author_name: "a".to_string(),
                author_email: "a@b".to_string(),
                time: 0,
                message: "Commit first".to_string(),
                tree: first_tree,
            },
            CommitInfo {
                id: id(21),
                author_name: "a".to_string(),
                author_email: "a@b".to_string(),
                time: 1,
                message: "Commit head".to_string(),
                tree: head_tree,
            },
        ],
    };
    let result = get_resources(&repo, "available", Some(&id(20))).unwrap();
    let mut info = result.unwrap();
    info.resources.sort_by_key(|d| d.name.clone());
    assert_eq!(info.resources.len(), 2);
    assert_eq!(info.resources[0].name.as_str(), "bar");
    assert!(matches!(&info.resources[0].content, ContentValue::Text(t) if t.as_str() == "yy"));
    assert_eq!(info.resources[0].version, id(21));
    assert_eq!(info.resources[1].name.as_str(), "foo");
    assert_eq!(info.resources[1].version, id(20));
}
