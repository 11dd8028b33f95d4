use ets::config::{Configuration, Setting};
use ets::error::ConfigError;

fn text(s: &str) -> Setting {
    Setting::Text(s.to_string())
}

fn list(items: &[&str]) -> Setting {
    Setting::List(items.iter().map(|s| s.to_string()).collect())
}

#[test]
fn complete_settings_make_a_configuration() {
    let c = Configuration::from_settings(true, text("/etc"), text("/var/db.json"), text("/var/reports"), list(&["/etc/mtab", "/etc/*.conf:1-2"])).unwrap();
    assert!(c.update);
    assert_eq!(c.root_dir(), "/etc");
    assert_eq!(c.data_file, "/var/db.json");
    assert_eq!(c.report_dir, "/var/reports");
    assert_eq!(c.excludes.len(), 2);
    assert!(!c.excludes[0].has_lines());
    assert!(c.excludes[1].in_lines(2));
    assert!(!c.excludes[1].in_lines(3));
}

#[test]
fn empty_exclude_list_is_allowed() {
    let c = Configuration::from_settings(false, text("/"), text("db"), text("r"), list(&[])).unwrap();
    assert!(c.excludes.is_empty());
}

#[test]
fn missing_settings_are_reported_in_order() {
    let e = Configuration::from_settings(false, Setting::Absent, Setting::Absent, text("r"), list(&[])).unwrap_err();
    assert_eq!(e, ConfigError::MissingField("root_dir".to_string()));
    let e = Configuration::from_settings(false, text("/"), Setting::Absent, text("r"), list(&[])).unwrap_err();
    assert_eq!(e, ConfigError::MissingField("data_dir".to_string()));
    let e = Configuration::from_settings(false, text("/"), text("db"), Setting::Absent, list(&[])).unwrap_err();
    assert_eq!(e, ConfigError::MissingField("report_dir".to_string()));
    let e = Configuration::from_settings(false, text("/"), text("db"), text("r"), Setting::Absent).unwrap_err();
    assert_eq!(e, ConfigError::MissingField("exclude".to_string()));
}

#[test]
fn settings_of_the_wrong_shape_are_reported() {
    let e = Configuration::from_settings(false, list(&["/"]), text("db"), text("r"), list(&[])).unwrap_err();
    assert_eq!(e, ConfigError::NotText("root_dir".to_string()));
    let e = Configuration::from_settings(false, text("/"), Setting::Other, text("r"), list(&[])).unwrap_err();
    assert_eq!(e, ConfigError::NotText("data_dir".to_string()));
    let e = Configuration::from_settings(false, text("/"), text("db"), text("r"), text("/tmp")).unwrap_err();
    assert_eq!(e, ConfigError::NotList("exclude".to_string()));
    let e = Configuration::from_settings(false, text("/"), text("db"), text("r"), Setting::Other).unwrap_err();
    assert_eq!(e, ConfigError::NotList("exclude".to_string()));
}

#[test]
fn first_bad_directive_is_the_error() {
    let e = Configuration::from_settings(false, text("/"), text("db"), text("r"), list(&["ok:1", "bad:x", ":2"])).unwrap_err();
    assert_eq!(e, ConfigError::InvalidLineSpec("x".to_string()));
}
