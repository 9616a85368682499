use dm_core::state::{TransitionState, TransitionStates};
use dm_core::tree::{Tree, TreeEntry, TreeNode};
use dm_core::Id;

fn empty_tree() -> Tree {
    Tree { entries: Vec::new() }
}

#[test]
fn save_then_load_yields_the_saved_map() {
    let mut states = TransitionStates::new();
    states.insert("prod", TransitionState { scheduled: Some(1514764800) });
    states.insert("dev", TransitionState { scheduled: Some(42) });
    let mut t = empty_tree();
    states.save(&mut t);
    let loaded = TransitionStates::load(&t).unwrap();
    assert_eq!(loaded.get_state("prod").scheduled, Some(1514764800));
    assert_eq!(loaded.get_state("dev").scheduled, Some(42));
    assert_eq!(loaded.map.entries.len(), 2);
}

#[test]
fn saving_an_empty_map_removes_the_file() {
    let mut states = TransitionStates::new();
    states.insert("prod", TransitionState { scheduled: Some(5) });
    let mut t = empty_tree();
    states.save(&mut t);
    assert_eq!(t.entries.len(), 1);
    states.insert("prod", TransitionState { scheduled: None });
    states.save(&mut t);
    assert_eq!(t.entries.len(), 0);
}

#[test]
fn loading_a_missing_file_gives_an_empty_map() {
    let t = empty_tree();
    let loaded = TransitionStates::load(&t).unwrap();
    assert!(loaded.map.entries.is_empty());
}

#[test]
fn loading_a_malformed_file_fails() {
    let t = Tree {
        entries: vec![TreeEntry {
            name: "transition_state.yaml".to_string(),
            node: TreeNode::Blob {
                id: Id([0; 20]),
                content: Some(dm_core::content::ContentValue::Text("nope".to_string())),
            },
        }],
    };
    assert!(TransitionStates::load(&t).is_none());
}

#[test]
fn inserting_an_empty_state_removes_the_entry() {
    let mut states = TransitionStates::new();
    states.insert("a", TransitionState { scheduled: Some(1) });
    states.insert("a", TransitionState { scheduled: None });
    assert!(states.map.entries.is_empty());
}
