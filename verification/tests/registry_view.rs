use targone_core::budget::parse_size_parts;
use targone_core::config::MachineConfig;
use targone_core::registry::{compact_sightings, path_key, PathPart, Registry, Sighting};
use targone_core::schedule::{
    disabled_reason, install, launchd_status, status, systemd_service_unit, uninstall, windows_install_message,
    windows_uninstall_message, TASK_NAME,
};

/// The configured budget's byte count, evaluated in floating point as the
/// command line does.
fn budget_value(cfg: &MachineConfig) -> Option<u64> {
    let (num, mult) = parse_size_parts(cfg.budget.as_deref()?)?;
    let value: f64 = num.parse().ok()?;
    if value < 0.0 {
        return None;
    }
    Some((value * mult as f64) as u64)
}

fn sighting(root: &str, ts: u64) -> Sighting {
    Sighting {
        root: root.to_string(),
        key: root.split('/').filter(|c| !c.is_empty()).map(|c| c.to_string()).collect(),
        ts,
    }
}

#[test]
fn record_and_compact() {
    let lines = vec![sighting("/t/proj", 5), sighting("/t/gone-project", 7), sighting("/t/proj", 3), sighting("/t/proj/", 9)];
    let entries = compact_sightings(&lines);
    assert_eq!(entries.len(), 2);
    assert_eq!(entries[0].root, "/t/gone-project");
    assert_eq!((entries[0].first_seen, entries[0].last_seen), (7, 7));
    assert_eq!(entries[1].root, "/t/proj");
    assert_eq!((entries[1].first_seen, entries[1].last_seen), (3, 9));
}

#[test]
fn registry_keeps_its_path() {
    assert!(compact_sightings(&Vec::new()).is_empty());
    let reg = Registry::open("r/registry.jsonl".to_string());
    assert_eq!(reg.path(), "r/registry.jsonl");
}

#[test]
fn budget_from_config() {
    let cfg = MachineConfig { budget: Some("2GiB".to_string()), roots: vec!["/code".to_string()], pdbs: false };
    assert_eq!(cfg.budget_bytes(budget_value(&cfg)), Ok(Some(2 * 1024 * 1024 * 1024)));
    assert_eq!(MachineConfig::default().budget_bytes(None), Ok(None));
    let bad = MachineConfig { budget: Some("lots".to_string()), roots: Vec::new(), pdbs: false };
    assert_eq!(bad.budget_bytes(budget_value(&bad)), Err("invalid budget size: \"lots\"".to_string()));
    // A negative size has parts but no byte count.
    let negative = MachineConfig { budget: Some("-5GB".to_string()), roots: Vec::new(), pdbs: false };
    assert_eq!(negative.budget_bytes(budget_value(&negative)), Err("invalid budget size: \"-5GB\"".to_string()));
}

#[test]
fn scheduled_runs_can_be_disabled() {
    assert_eq!(disabled_reason(Some("1"), true), Some("TARGONE_DISABLE=1"));
    assert_eq!(disabled_reason(Some("0"), true), Some("CI environment"));
    assert_eq!(disabled_reason(None, false), None);
}

#[test]
fn scheduler_texts() {
    assert_eq!(
        systemd_service_unit("/bin/cargo-targone"),
        "[Unit]\nDescription=Targone sweep\n\n[Service]\nType=oneshot\nExecStart=/bin/cargo-targone targone schedule run\nNice=19\nIOSchedulingClass=idle\nCPUSchedulingPolicy=idle\n"
    );
    assert_eq!(windows_install_message(TASK_NAME, "  Ready\r\n"), "registered per-user task 'Targone' (daily 03:00, only-if-idle, catch-up on missed runs): Ready");
    assert_eq!(windows_uninstall_message("TargoneCovTest7", "removed\n"), "task 'TargoneCovTest7': removed");
    assert_eq!(launchd_status(false), "not installed");
    assert!(install().is_err());
    assert_eq!(uninstall(), Ok("nothing installed".to_string()));
    assert_eq!(status(), Ok("not supported on this platform".to_string()));
}

#[test]
fn missing_file_is_empty() {
    // No sightings read: no entries.
    assert!(compact_sightings(&Vec::new()).is_empty());
}

#[test]
fn torn_lines_are_skipped() {
    // The reader drops lines it cannot parse; the one good line remains.
    let entries = compact_sightings(&vec![sighting("/a", 5)]);
    assert_eq!(entries.len(), 1);
    assert_eq!(entries[0].root, "/a");
}

#[test]
fn missing_file_is_default() {
    let cfg = MachineConfig::default();
    assert!(cfg.budget.is_none());
    assert!(cfg.roots.is_empty());
    assert!(!cfg.pdbs);
}

#[test]
fn parses_config() {
    // budget = "2GiB", roots = ["/code"]
    let cfg = MachineConfig { budget: Some("2GiB".to_string()), roots: vec!["/code".to_string()], pdbs: false };
    assert_eq!(cfg.budget_bytes(budget_value(&cfg)).unwrap(), Some(2 * 1024 * 1024 * 1024));
    assert_eq!(cfg.roots.len(), 1);
}

#[test]
fn path_keys_rank_component_kinds() {
    let key = path_key(&vec![
        PathPart::Prefix("C:".to_string()),
        PathPart::Root,
        PathPart::Normal("work".to_string()),
        PathPart::Parent,
        PathPart::Current,
    ]);
    assert_eq!(key, vec!["0C:", "1", "4work", "3", "2"]);
    let root = path_key(&vec![PathPart::Root]);
    let named = path_key(&vec![PathPart::Normal("a".to_string())]);
    assert!(root < named);
}
