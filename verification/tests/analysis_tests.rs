use dm_core::analysis::{
    analyze_commits, EnvName, ResourceId, ResourceRepoChange, ResourceVersion, VersionsAnalysis,
};
use dm_core::content::ContentValue;
use dm_core::repo::{CommitInfo, RepoHistory};
use dm_core::tree::{Tree, TreeEntry, TreeNode};
use dm_core::Id;

fn hex(s: &str) -> Id {
    Id::from_hex(s).unwrap()
}

fn version_blob(vid: &str, version: &str) -> TreeNode {
    TreeNode::Blob {
        id: hex(vid),
        content: Some(ContentValue::Object(vec![(
            "version".to_string(),
            ContentValue::Text(version.to_string()),
        )])),
    }
}

fn tree(entries: Vec<(&str, TreeNode)>) -> Tree {
    Tree {
        entries: entries
            .into_iter()
            .map(|(n, node)| TreeEntry { name: n.to_string(), node })
            .collect(),
    }
}

fn dir(entries: Vec<(&str, TreeNode)>) -> TreeNode {
    TreeNode::Dir { tree: tree(entries) }
}

const V1: &str = "b82551848c644f63b8517a7bdf8be9a992e6f4da";
const V2: &str = "22817d2a9c7fc1f62d5670ca1e44948446543973";
const BASE: &str = "59c5d2b4bc66e952a99b3b18a89cbc1e6704ffa0";
const FIRST: &str = "1111111111111111111111111111111111111111";
const HEAD: &str = "2222222222222222222222222222222222222222";

fn fixture() -> RepoHistory {
    let base_blob = TreeNode::Blob {
        id: hex(BASE),
        content: Some(ContentValue::Text("base data".to_string())),
    };
    let first_tree = tree(vec![(
        "dev",
        dir(vec![
            ("version", dir(vec![("foo.yaml", version_blob(V1, "1"))])),
            ("base", dir(vec![("foo.yaml", base_blob)])),
        ]),
    )]);
    let base_blob_again = TreeNode::Blob {
        id: hex(BASE),
        content: Some(ContentValue::Text("base data".to_string())),
    };
    let head_tree = tree(vec![(
        "dev",
        dir(vec![
            ("version", dir(vec![("foo.yaml", version_blob(V2, "2"))])),
            ("base", dir(vec![("foo.yaml", base_blob_again)])),
        ]),
    )]);
    RepoHistory {
        commits: vec![
            CommitInfo {
                id: hex(FIRST),
                author_name: "someone".to_string(),
                author_email: "someone@example.net".to_string(),
                time: 1,
                message: "Commit first".to_string(),
                tree: first_tree,
            },
            CommitInfo {
                id: hex(HEAD),
                author_name: "someone".to_string(),
                author_email: "someone@example.net".to_string(),
                time: 2,
                message: "Commit head".to_string(),
                tree: head_tree,
            },
        ],
    }
}

#[test]
fn analyze_commits_1() {
    let repo = fixture();
    let mut analysis = VersionsAnalysis::new();
    let head = hex(HEAD);
    analyze_commits(&repo, &mut analysis, None, &head).unwrap();
    assert_eq!(analysis.history.len(), 2);

    assert_eq!(analysis.history[0].message.as_str(), "Commit first");
    assert_eq!(analysis.history[1].message.as_str(), "Commit head");

    let foo_id = ResourceId("foo".to_string());
    let env = EnvName("dev".to_string());
    let expected_changes = vec![
        ResourceRepoChange::Version {
            resource: foo_id.clone(),
            version: ResourceVersion {
                version_id: hex(V1),
                introduced_in: hex(FIRST),
                version: "1".to_string(),
                change_log: "".to_string(),
            },
        },
        ResourceRepoChange::VersionDeployed {
            resource: foo_id.clone(),
            env: env.clone(),
            previous_version_id: None,
            version_id: hex(V1),
        },
        ResourceRepoChange::BaseData {
            resource: foo_id.clone(),
            env: env.clone(),
            content_id: hex(BASE),
        },
    ];
    assert_eq!(analysis.history[0].changes, expected_changes);

    let expected_changes_2 = vec![
        ResourceRepoChange::Version {
            resource: foo_id.clone(),
            version: ResourceVersion {
                version_id: hex(V2),
                introduced_in: hex(HEAD),
                version: "2".to_string(),
                change_log: "".to_string(),
            },
        },
        ResourceRepoChange::VersionDeployed {
            resource: foo_id.clone(),
            env: env.clone(),
            previous_version_id: Some(hex(V1)),
            version_id: hex(V2),
        },
    ];
    assert_eq!(analysis.history[1].changes, expected_changes_2);
}

#[test]
fn add_commit_keeps_versions_unique_and_ordered() {
    let mut analysis = VersionsAnalysis::new();
    let foo = ResourceId("foo".to_string());
    let mk = |vid: &str, introduced: &str| ResourceRepoChange::Version {
        resource: foo.clone(),
        version: ResourceVersion {
            version_id: hex(vid),
            introduced_in: hex(introduced),
            version: "v".to_string(),
            change_log: String::new(),
        },
    };
    let commit = dm_core::analysis::ResourceRepoCommit {
        id: hex(FIRST),
        message: "m".to_string(),
        long_message: String::new(),
        author_name: String::new(),
        author_email: String::new(),
        time: 0,
        changes: vec![mk(V1, FIRST), mk(V2, FIRST), mk(V1, FIRST)],
    };
    analysis.add_commit(commit);
    let rs = analysis.resources.get("foo").unwrap();
    assert_eq!(rs.versions.len(), 2);
    assert_eq!(rs.versions.entries[0].0, hex(V1));
    assert_eq!(rs.versions.entries[1].0, hex(V2));
    assert_eq!(analysis.history.len(), 1);
}

#[test]
fn trailers_are_stripped_from_analyzed_messages() {
    let mut repo = fixture();
    repo.commits[1].message =
        "Mirroring dev to prod\n\nDM-Transition: prod\nDM-Source: dev\nDM-Target: prod\n"
            .to_string();
    let mut analysis = VersionsAnalysis::new();
    let head = hex(HEAD);
    analyze_commits(&repo, &mut analysis, None, &head).unwrap();
    assert_eq!(analysis.history[1].message.as_str(), "Mirroring dev to prod");
    assert_eq!(analysis.history[1].long_message.as_str(), "");
}
