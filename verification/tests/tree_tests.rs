use dm_core::tree::{clone_tree, mirror_into, node_same, tree_same, Tree, TreeEntry, TreeNode};
use dm_core::zipper::TreeZipper;
use dm_core::Id;

fn blob(id_byte: u8) -> TreeNode {
    let mut bytes = [0u8; 20];
    bytes[19] = id_byte;
    TreeNode::Blob { id: Id(bytes), content: None }
}

fn dir(entries: Vec<(&str, TreeNode)>) -> TreeNode {
    TreeNode::Dir { tree: tree(entries) }
}

fn tree(entries: Vec<(&str, TreeNode)>) -> Tree {
    Tree {
        entries: entries
            .into_iter()
            .map(|(n, node)| TreeEntry { name: n.to_string(), node })
            .collect(),
    }
}

#[test]
fn descend_then_ascend_keeps_the_tree() {
    let t = tree(vec![
        ("dev", dir(vec![("version", dir(vec![("foo.yaml", blob(1))]))])),
        ("prod", dir(vec![])),
    ]);
    let before = clone_tree(&t);
    let mut z = TreeZipper::from(t);
    z.descend("dev").unwrap();
    z.ascend();
    let after = z.into_inner().unwrap();
    assert!(tree_same(&before, &after));
}

#[test]
fn descend_into_missing_then_ascend_keeps_the_tree() {
    let t = tree(vec![("dev", dir(vec![]))]);
    let before = clone_tree(&t);
    let mut z = TreeZipper::from(t);
    z.descend("nowhere").unwrap();
    assert!(!z.is_present());
    z.ascend();
    let after = z.into_inner().unwrap();
    assert!(tree_same(&before, &after));
}

#[test]
fn descend_into_blob_fails() {
    let t = tree(vec![("file", blob(3))]);
    let mut z = TreeZipper::from(t);
    assert!(z.descend("file").is_err());
}

#[test]
fn rebuild_insert_creates_missing_subtrees() {
    let t = tree(vec![]);
    let mut z = TreeZipper::from(t);
    z.descend("dev").unwrap();
    z.descend("version").unwrap();
    z.rebuild_insert("foo.yaml".to_string(), blob(9));
    z.ascend();
    z.ascend();
    let after = z.into_inner().unwrap();
    let expected = tree(vec![
        ("dev", dir(vec![("version", dir(vec![("foo.yaml", blob(9))]))])),
    ]);
    assert!(tree_same(&after, &expected));
}

#[test]
fn mirror_into_empty_copies_the_source() {
    let src = tree(vec![
        ("a.yaml", blob(1)),
        ("sub", dir(vec![("b.yaml", blob(2))])),
    ]);
    let mirrored = mirror_into(&src, Tree { entries: Vec::new() });
    assert!(tree_same(&mirrored, &src));
}

#[test]
fn mirror_keeps_unrelated_target_entries() {
    let src = tree(vec![("a.yaml", blob(1))]);
    let tgt = tree(vec![("keep.yaml", blob(7)), ("a.yaml", blob(5))]);
    let mirrored = mirror_into(&src, tgt);
    let expected = tree(vec![("keep.yaml", blob(7)), ("a.yaml", blob(1))]);
    assert!(tree_same(&mirrored, &expected));
}

#[test]
fn node_same_ignores_cached_content_but_not_ids() {
    let a = blob(1);
    let b = TreeNode::Blob {
        id: match &a {
            TreeNode::Blob { id, .. } => *id,
            _ => unreachable!(),
        },
        content: Some(dm_core::content::ContentValue::Null),
    };
    assert!(node_same(&a, &b));
    assert!(!node_same(&a, &blob(2)));
}
