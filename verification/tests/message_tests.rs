use dm_core::message::{remove_trailers, split_log_message};

#[test]
fn remove_trailers_noop() {
    let s = "Foo bar\nBaz.";
    let (s2, trailers) = remove_trailers(s);
    assert_eq!(s, s2.as_str());
    assert!(trailers.entries.is_empty());
}

#[test]
fn remove_trailers_one() {
    let s = "Foo bar\nBaz.\n\nDM-Transition: blubb\n\n";
    let (s2, trailers) = remove_trailers(s);
    assert_eq!("Foo bar\nBaz.", s2.as_str());
    assert_eq!(trailers.get("DM-Transition").unwrap().as_str(), "blubb");
}

#[test]
fn remove_trailers_multiple() {
    let s = "Foo bar\nBaz.\n\nDM-Transition: blubb\n\nDM-Source: foo\nDM-Target: bar\n\n";
    let (s2, trailers) = remove_trailers(s);
    assert_eq!("Foo bar\nBaz.", s2.as_str());
    assert_eq!(trailers.get("DM-Transition").unwrap().as_str(), "blubb");
    assert_eq!(trailers.get("DM-Source").unwrap().as_str(), "foo");
    assert_eq!(trailers.get("DM-Target").unwrap().as_str(), "bar");
}

#[test]
fn remove_trailers_is_idempotent_on_result() {
    let s = "Header\n\nDM-Source: a\nDM-Target: b\n";
    let (once, _) = remove_trailers(s);
    let (twice, trailers) = remove_trailers(once.as_str());
    assert_eq!(once, twice);
    assert!(trailers.entries.is_empty());
}

#[test]
fn split_log_message_noop() {
    let s = "Foo bar baz.";
    let (header, body) = split_log_message(s);
    assert_eq!(header.as_str(), s);
    assert_eq!(body, None);
}

#[test]
fn split_log_message_merge_lines() {
    let s = "Foo bar\nbaz.";
    let (header, body) = split_log_message(s);
    assert_eq!(header.as_str(), "Foo bar baz.");
    assert_eq!(body, None);
}

#[test]
fn split_log_message_1() {
    let s = "Foo bar\n\nbaz.";
    let (header, body) = split_log_message(s);
    assert_eq!(header.as_str(), "Foo bar");
    assert_eq!(body.unwrap().as_str(), "baz.");
}
