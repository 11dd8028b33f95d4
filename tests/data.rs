use ets::data::{BaselineError, Database};

fn db(pairs: &[(&str, &str)]) -> Database {
    let mut d = Database::new();
    for (k, v) in pairs {
        d.insert(k.to_string(), v.to_string());
    }
    d
}

fn sorted_entries(d: &Database) -> Vec<(String, String)> {
    let mut v = d.entries().clone();
    v.sort();
    v
}

#[test]
fn insert_replaces_an_existing_key() {
    let d = db(&[("a", "1"), ("b", "2"), ("a", "3")]);
    assert_eq!(d.get(&"a".to_string()).unwrap(), "3");
    assert_eq!(d.get(&"b".to_string()).unwrap(), "2");
    assert_eq!(d.entries().len(), 2);
    assert!(d.contains_key(&"b".to_string()));
    assert!(!d.contains_key(&"c".to_string()));
}

#[test]
fn baseline_round_trip() {
    let d = db(&[("/etc/b", "H2"), ("/etc/a", "H1"), ("/tmp/with \"quote\"", "H3")]);
    let text = d.to_json();
    let back = Database::from_json(&text).unwrap();
    assert_eq!(sorted_entries(&back), sorted_entries(&d));
}

#[test]
fn empty_baseline_round_trip() {
    let d = Database::new();
    let text = d.to_json();
    assert_eq!(text, "{}");
    let back = Database::from_json(&text).unwrap();
    assert!(back.entries().is_empty());
}

#[test]
fn baseline_is_pretty_printed_in_key_order() {
    let d = db(&[("b", "y"), ("a", "x")]);
    assert_eq!(d.to_json(), "{\n  \"a\": \"x\",\n  \"b\": \"y\"\n}");
}

#[test]
fn baseline_must_be_a_flat_string_object() {
    for text in ["", "[1, 2]", "{\"a\": 1}", "{\"a\": {\"b\": \"c\"}}", "\"x\"", "{\"a\": \"x\""] {
        match Database::from_json(text) {
            Err(BaselineError::Malformed(_)) => {}
            other => panic!("{:?} should be rejected, got {:?}", text, other),
        }
    }
}

#[test]
fn baseline_reads_a_json_object() {
    let d = Database::from_json("{\"a\": \"H1\", \"b\": \"H2\"}").unwrap();
    assert_eq!(d.get(&"a".to_string()).unwrap(), "H1");
    assert_eq!(d.get(&"b".to_string()).unwrap(), "H2");
    assert_eq!(d.entries().len(), 2);
}
