use dm_core::content::ContentValue;
use dm_core::locks::{locks_from_content, Lock, Locks};

#[test]
fn adding_a_reason_is_idempotent_by_equality() {
    let mut l = Lock::new();
    l.add_reason("locked from ui");
    l.add_reason("locked from ui");
    assert_eq!(l.reasons.len(), 1);
    assert!(l.is_locked());
}

#[test]
fn removing_a_reason_removes_all_matches() {
    let mut l = Lock { reasons: vec!["a".to_string(), "b".to_string(), "a".to_string()] };
    l.remove_reason("a");
    assert_eq!(l.reasons.len(), 1);
    assert_eq!(l.reasons[0].as_str(), "b");
}

#[test]
fn locked_iff_reasons_nonempty() {
    let mut l = Lock::new();
    assert!(!l.is_locked());
    l.add_reason("x");
    assert!(l.is_locked());
    l.remove_reason("x");
    assert!(!l.is_locked());
}

#[test]
fn encode_then_decode_locks() {
    let mut locks = Locks::new();
    locks.env_lock.add_reason("maintenance");
    let content = locks.to_content();
    let decoded = locks_from_content(&content).unwrap();
    assert!(decoded.env_lock.is_locked());
    assert_eq!(decoded.env_lock.reasons[0].as_str(), "maintenance");
}

#[test]
fn decode_rejects_malformed_locks() {
    assert!(locks_from_content(&ContentValue::Text("x".to_string())).is_none());
    let bad = ContentValue::Object(vec![(
        "env_lock".to_string(),
        ContentValue::Int(3),
    )]);
    assert!(locks_from_content(&bad).is_none());
}

#[test]
fn resource_is_locked_checks_the_named_resource() {
    let mut locks = Locks::new();
    assert!(!locks.resource_is_locked("foo"));
    let mut l = Lock::new();
    l.add_reason("locked from ui");
    locks.resource_locks.set("foo".to_string(), l);
    assert!(locks.resource_is_locked("foo"));
    assert!(!locks.resource_is_locked("bar"));
}
