use ets::data::{BaselineError, Database};
use ets::report::{compare, compute_report, report_path};

fn db(pairs: &[(&str, &str)]) -> Database {
    let mut d = Database::new();
    for (k, v) in pairs {
        d.insert(k.to_string(), v.to_string());
    }
    d
}

fn sorted(d: &Database) -> Vec<(String, String)> {
    let mut v = d.entries().clone();
    v.sort();
    v
}

fn pairs(p: &[(&str, &str)]) -> Vec<(String, String)> {
    p.iter().map(|(k, v)| (k.to_string(), v.to_string())).collect()
}

#[test]
fn report_of_matches_changes_and_missing() {
    let baseline = db(&[("a", "H1"), ("b", "H2")]);
    let current = db(&[("a", "H1"), ("c", "H3")]);
    let r = compare(&baseline, &current, Database::new());
    assert_eq!(sorted(&r.matches), pairs(&[("a", "H1")]));
    assert!(r.changed.entries().is_empty());
    assert_eq!(r.missing, vec!["b".to_string()]);
    assert!(r.errors.entries().is_empty());
}

#[test]
fn changed_digest_is_reported_with_the_new_value() {
    let baseline = db(&[("a", "H1"), ("b", "H2"), ("d", "H4")]);
    let current = db(&[("a", "X1"), ("b", "H2")]);
    let errors = db(&[("d", "Opening d")]);
    let r = compare(&baseline, &current, errors);
    assert_eq!(sorted(&r.matches), pairs(&[("b", "H2")]));
    assert_eq!(sorted(&r.changed), pairs(&[("a", "X1")]));
    assert_eq!(r.missing, vec!["d".to_string()]);
    assert_eq!(sorted(&r.errors), pairs(&[("d", "Opening d")]));
}

#[test]
fn empty_scan_misses_everything() {
    let baseline = db(&[("a", "H1"), ("b", "H2")]);
    let r = compare(&baseline, &Database::new(), Database::new());
    let mut missing = r.missing.clone();
    missing.sort();
    assert_eq!(missing, vec!["a".to_string(), "b".to_string()]);
    assert!(r.matches.entries().is_empty());
}

#[test]
fn report_from_baseline_text() {
    let current = db(&[("a", "H1"), ("c", "H3")]);
    let r = compute_report("{\"a\": \"H1\", \"b\": \"H2\"}", &current, Database::new()).unwrap();
    assert_eq!(sorted(&r.matches), pairs(&[("a", "H1")]));
    assert!(r.changed.entries().is_empty());
    assert_eq!(r.missing, vec!["b".to_string()]);
}

#[test]
fn malformed_baseline_fails_the_report() {
    let current = db(&[("a", "H1")]);
    match compute_report("not json", &current, Database::new()) {
        Err(BaselineError::Malformed(_)) => {}
        other => panic!("expected a malformed baseline, got {:?}", other),
    }
}

#[test]
fn report_file_name() {
    assert_eq!(report_path("/var/reports", "20240102030405"), "/var/reports/ets_report_20240102030405.json");
}
