use targone_core::beacon::{beacon_disabled, cargo_home_source, hint_due, json_escape, registry_line, HomeSource};

#[test]
fn registry_line_matches_engine_schema() {
    let line = registry_line(r"E:\code\my proj", 42);
    assert_eq!(line, r#"{"v":1,"root":"E:\\code\\my proj","ts":42}"#);
}

#[test]
fn registry_line_parses_back() {
    let root = "/home/u/proj \"quoted\"\tand\u{1}ctl";
    let line = registry_line(root, 1_700_000_000);
    let v: serde_json::Value = serde_json::from_str(&line).unwrap();
    assert_eq!(v["v"], 1);
    assert_eq!(v["root"], root);
    assert_eq!(v["ts"], 1_700_000_000u64);
}

#[test]
fn json_escaping() {
    assert_eq!(json_escape("a\\b\"c"), "a\\\\b\\\"c");
    assert_eq!(json_escape("\n\u{1f}"), "\\u000a\\u001f");
    assert_eq!(json_escape("é"), "é");
    assert_eq!(registry_line("", 0), r#"{"v":1,"root":"","ts":0}"#);
    assert_eq!(registry_line("x", u64::MAX), r#"{"v":1,"root":"x","ts":18446744073709551615}"#);
}

#[test]
fn disabled_under_docs_rs_ci_and_optout() {
    assert!(beacon_disabled(true, None, false));
    assert!(beacon_disabled(false, None, true));
    assert!(beacon_disabled(false, Some("1"), false));
    assert!(!beacon_disabled(false, None, false));
    assert!(!beacon_disabled(false, Some("0"), false));
}

#[test]
fn hint_fires_at_most_daily() {
    assert!(hint_due(None, 1_000_000));
    let stamp = 1_000_000;
    assert!(!hint_due(Some(stamp), stamp + 3600));
    assert!(hint_due(Some(stamp), stamp + 25 * 3600));
    assert!(!hint_due(Some(stamp), stamp + 24 * 3600));
    assert!(!hint_due(Some(stamp + 10), stamp));
}

#[test]
fn cargo_home_resolution_order() {
    assert_eq!(cargo_home_source(true, true, true), HomeSource::CargoHome);
    assert_eq!(cargo_home_source(false, true, true), HomeSource::UserProfile);
    assert_eq!(cargo_home_source(false, false, true), HomeSource::Home);
    assert_eq!(cargo_home_source(false, false, false), HomeSource::CurrentDir);
}
