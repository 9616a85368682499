use dm_core::content::ContentValue;
use dm_core::repo::{CommitInfo, RepoHistory};
use dm_core::tree::{Tree, TreeEntry, TreeNode};
use dm_core::Id;

fn id(b: u8) -> Id {
    let mut bytes = [0u8; 20];
    bytes[19] = b;
    Id(bytes)
}

fn blob(idb: u8, text: &str) -> TreeNode {
    TreeNode::Blob { id: id(idb), content: Some(ContentValue::Text(text.to_string())) }
}

fn tree(entries: Vec<(&str, TreeNode)>) -> Tree {
    Tree {
        entries: entries
            .into_iter()
            .map(|(n, node)| TreeEntry { name: n.to_string(), node })
            .collect(),
    }
}

fn dir(entries: Vec<(&str, TreeNode)>) -> TreeNode {
    TreeNode::Dir { tree: tree(entries) }
}

fn commit(cid: u8, message: &str, t: Tree) -> CommitInfo {
    CommitInfo {
        id: id(cid),
        author_name: "someone".to_string(),
        author_email: "someone@example.net".to_string(),
        time: 0,
        message: message.to_string(),
        tree: t,
    }
}

/// Two commits: `first` writes a/b/1 = "xx", a/b/2 = "blubb", x/y = "y";
/// `head` changes a/b/1 to "yy" and adds a/c = "c".
fn fixture() -> RepoHistory {
    let first_tree = tree(vec![
        (
            "a",
            dir(vec![(
                "b",
                dir(vec![("1", blob(1, "xx")), ("2", blob(2, "blubb"))]),
            )]),
        ),
        ("x", dir(vec![("y", blob(3, "y"))])),
    ]);
    let head_tree = tree(vec![
        (
            "a",
            dir(vec![
                ("b", dir(vec![("1", blob(4, "yy")), ("2", blob(2, "blubb"))])),
                ("c", blob(5, "c")),
            ]),
        ),
        ("x", dir(vec![("y", blob(3, "y"))])),
    ]);
    RepoHistory {
        commits: vec![commit(10, "Commit first", first_tree), commit(11, "Commit head", head_tree)],
    }
}

fn path(segments: &[&str]) -> Vec<String> {
    segments.iter().map(|s| s.to_string()).collect()
}

#[test]
fn test_get_resource() {
    let repo = fixture();
    let n1 = repo.get(&path(&["a", "b", "1"])).expect("no error").expect("file exists");
    assert!(matches!(n1, TreeNode::Blob { content: Some(ContentValue::Text(t)), .. } if t.as_str() == "yy"));
    let n2 = repo.get(&path(&["a", "b", "2"])).expect("no error").expect("file exists");
    assert!(matches!(n2, TreeNode::Blob { content: Some(ContentValue::Text(t)), .. } if t.as_str() == "blubb"));
    assert!(repo.get(&path(&["a", "b", "3"])).unwrap().is_none());
}

#[test]
fn test_walk_root() {
    let repo = fixture();
    let mut found = repo.walk(&path(&[])).unwrap();
    found.sort_by_key(|e| e.path.clone());
    assert_eq!(found.len(), 4);

    assert_eq!(found[0].path, path(&["a", "b", "1"]));
    assert_eq!(found[0].last_change, id(11));
    assert_eq!(found[0].change_message.as_str(), "Commit head");

    assert_eq!(found[1].path, path(&["a", "b", "2"]));
    assert_eq!(found[1].last_change, id(10));
    assert_eq!(found[1].change_message.as_str(), "Commit first");

    assert_eq!(found[2].path, path(&["a", "c"]));
    assert_eq!(found[2].last_change, id(11));

    assert_eq!(found[3].path, path(&["x", "y"]));
    assert_eq!(found[3].last_change, id(10));
}

#[test]
fn test_walk_subdir() {
    let repo = fixture();
    let mut found = repo.walk(&path(&["a"])).unwrap();
    found.sort_by_key(|e| e.path.clone());
    assert_eq!(found.len(), 3);
    assert_eq!(found[0].path, path(&["b", "1"]));
    assert_eq!(found[1].path, path(&["b", "2"]));
    assert_eq!(found[2].path, path(&["c"]));

    let mut found = repo.walk(&path(&["a", "b"])).unwrap();
    found.sort_by_key(|e| e.path.clone());
    assert_eq!(found.len(), 2);
    assert_eq!(found[0].path, path(&["1"]));
    assert_eq!(found[1].path, path(&["2"]));
}

#[test]
fn walk_of_missing_subtree_is_empty_and_blob_base_fails() {
    let repo = fixture();
    assert!(repo.walk(&path(&["nope"])).unwrap().is_empty());
    assert!(repo.walk(&path(&["a", "c"])).is_err());
}

#[test]
fn version_is_the_head_commit_id() {
    let repo = fixture();
    assert_eq!(repo.version(), id(11));
}

#[test]
fn get_errs_on_non_blob_entries() {
    let repo = fixture();
    // a subtree at the path is an error, as is a blob standing mid-path
    assert!(matches!(
        repo.get(&path(&["a", "b"])),
        Err(dm_core::tree::TreeError::ExpectedBlob)
    ));
    assert!(matches!(
        repo.get(&path(&["a", "c", "below"])),
        Err(dm_core::tree::TreeError::ExpectedDir)
    ));
    assert!(matches!(repo.get(&path(&[])), Err(dm_core::tree::TreeError::ExpectedBlob)));
}
