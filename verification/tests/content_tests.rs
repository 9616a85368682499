use dm_core::content::ContentValue;

fn rep(s: &str) -> Vec<char> {
    s.chars().collect()
}

#[test]
fn substitute_replaces_every_occurrence() {
    let v = ContentValue::Text("img:$version and again $version".to_string());
    let out = v.substitute(&rep("1.2"));
    match out {
        ContentValue::Text(t) => assert_eq!(t.as_str(), "img:1.2 and again 1.2"),
        _ => panic!("expected a string leaf"),
    }
}

#[test]
fn substitute_recurses_through_arrays_and_objects() {
    let v = ContentValue::Object(vec![
        (
            "spec".to_string(),
            ContentValue::Array(vec![
                ContentValue::Text("v=$version".to_string()),
                ContentValue::Int(7),
            ]),
        ),
    ]);
    let out = v.substitute(&rep("9"));
    match out {
        ContentValue::Object(fields) => {
            assert_eq!(fields.len(), 1);
            match &fields[0].1 {
                ContentValue::Array(items) => {
                    assert!(matches!(&items[0], ContentValue::Text(t) if t.as_str() == "v=9"));
                    assert!(matches!(items[1], ContentValue::Int(7)));
                }
                _ => panic!("expected an array"),
            }
        }
        _ => panic!("expected an object"),
    }
}

#[test]
fn substitute_is_identity_without_token() {
    let v = ContentValue::Object(vec![
        ("a".to_string(), ContentValue::Text("no token here".to_string())),
        ("b".to_string(), ContentValue::Bool(true)),
    ]);
    let out = v.substitute(&rep("1"));
    match out {
        ContentValue::Object(fields) => {
            assert!(matches!(&fields[0].1, ContentValue::Text(t) if t.as_str() == "no token here"));
            assert!(matches!(fields[1].1, ContentValue::Bool(true)));
        }
        _ => panic!("expected an object"),
    }
}

#[test]
fn object_get_finds_first_binding() {
    let v = ContentValue::Object(vec![
        ("version".to_string(), ContentValue::Text("2".to_string())),
    ]);
    assert!(matches!(v.get("version"), Some(ContentValue::Text(t)) if t.as_str() == "2"));
    assert!(v.get("missing").is_none());
    assert!(ContentValue::Null.get("version").is_none());
}
