use targone_core::fsinfo::{
    classify_path, fs_name_kind, is_network_fs_name, is_network_fs_type, is_network_path, statfs_kind, windows_prefix,
    PathPrefix,
};
use targone_core::sweep::{
    ignore_missing, item_deletions, record_item, retry_step, retryable, sweep_precheck, IoFailure, ItemStatus, RetryStep,
    SweepOutcome,
};
use targone_core::{ProfileLayout, ReclaimItem, Tier};

#[test]
fn unc_paths_are_network() {
    assert!(is_network_path(r"\\server\share\target", false, false));
    assert!(is_network_path(r"\\?\UNC\server\share\target", false, false));
}

#[test]
fn relative_and_device_paths() {
    // Relative: judged by the current directory (local here).
    assert!(!is_network_path("some/relative/dir", false, false));
    // Device namespaces are not classifiable: not network.
    assert!(!is_network_path(r"\\.\COM1\x", false, false));
}

#[test]
fn sweep_refuses_network_paths() {
    let path = r"\\definitely-not-a-real-host\share\debug";
    assert!(is_network_path(path, false, false));
    let on_network = classify_path(path, false, Some(false));
    let outcome = sweep_precheck(on_network, false, ProfileLayout::LegacyBuild, ProfileLayout::LegacyBuild).unwrap();
    assert_eq!(outcome.refused.as_deref(), Some("network filesystem"));
}

#[test]
fn windows_prefixes() {
    assert_eq!(windows_prefix(r"C:\x"), PathPrefix::Disk('C'));
    assert_eq!(windows_prefix("d:"), PathPrefix::Disk('D'));
    assert_eq!(windows_prefix(r"\\?\c:\x"), PathPrefix::VerbatimDisk('C'));
    assert_eq!(windows_prefix(r"\\?\c:"), PathPrefix::Verbatim);
    assert_eq!(windows_prefix(r"\\?\pipe\x"), PathPrefix::Verbatim);
    assert_eq!(windows_prefix("//server/share"), PathPrefix::Unc);
    assert_eq!(windows_prefix(r"\\server"), PathPrefix::NoPrefix);
    assert_eq!(windows_prefix(r"\\.\COM1"), PathPrefix::DeviceNs);
    assert_eq!(windows_prefix(r"\rooted"), PathPrefix::NoPrefix);
    // Drive letters follow what the system reports; no prefix follows the
    // current directory.
    assert!(is_network_path(r"Z:\build", true, false));
    assert!(!is_network_path(r"Z:\build", false, true));
    assert!(is_network_path("rel", false, true));
}

#[test]
fn unclassifiable_paths_are_refused() {
    // Device namespaces, other verbatim paths and a failed statfs cannot be
    // told apart from a network share: the sweep refuses them.
    assert_eq!(classify_path(r"\\.\COM1\x", false, Some(false)), None);
    assert_eq!(classify_path(r"\\?\pipe\x", false, Some(false)), None);
    assert_eq!(classify_path("rel", false, None), None);
    assert_eq!(classify_path(r"C:\x", false, None), Some(false));
    assert_eq!(statfs_kind(None), None);
    assert_eq!(statfs_kind(Some(0x6969)), Some(true));
    assert_eq!(statfs_kind(Some(0xEF53)), Some(false));
    assert_eq!(fs_name_kind(Some("nfs")), Some(true));
    assert_eq!(fs_name_kind(None), None);
    let outcome = sweep_precheck(None, true, ProfileLayout::V2, ProfileLayout::V2).unwrap();
    assert_eq!(outcome.refused.as_deref(), Some("filesystem kind unknown"));
    assert!(!outcome.skipped_locked);
    assert_eq!(outcome.freed_bytes, 0);
}

#[test]
fn network_filesystem_kinds() {
    assert!(is_network_fs_type(0x6969));
    assert!(is_network_fs_type(0xFF53_4D42));
    assert!(is_network_fs_type(0x6573_5546));
    assert!(!is_network_fs_type(0xEF53)); // ext4
    assert!(is_network_fs_name("smbfs"));
    assert!(!is_network_fs_name("apfs"));
}

#[test]
fn precheck_order() {
    let locked = sweep_precheck(Some(false), false, ProfileLayout::Unknown, ProfileLayout::V2).unwrap();
    assert!(locked.skipped_locked);
    assert!(locked.refused.is_none());
    assert_eq!(locked.items_swept, 0);
    let drift = sweep_precheck(Some(false), true, ProfileLayout::Unknown, ProfileLayout::LegacyBuild).unwrap();
    assert_eq!(drift.refused.as_deref(), Some("layout changed since scan"));
    assert!(!drift.skipped_locked);
    assert!(sweep_precheck(Some(false), true, ProfileLayout::V2, ProfileLayout::V2).is_none());
    let net = sweep_precheck(Some(true), true, ProfileLayout::V2, ProfileLayout::V2).unwrap();
    assert_eq!(net.refused.as_deref(), Some("network filesystem"));
}

#[test]
fn deletions_follow_the_lock_and_the_order() {
    let it = item(10, 2);
    let ds = item_deletions(&it, true);
    assert_eq!(ds.len(), 2);
    assert_eq!(ds[0].path, it.delete_first[0]);
    assert!(ds[0].whole_dir);
    assert_eq!(ds[1].path, it.delete_then[0]);
    assert!(!ds[1].whole_dir);
    assert!(item_deletions(&it, false).is_empty());
}

fn item(bytes: u64, entries: u64) -> ReclaimItem {
    ReclaimItem {
        tier: Tier::Units,
        delete_first: vec![vec![".fingerprint".to_string(), "serde-aaaaaaaaaaaaaaaa".to_string()]],
        delete_then: vec![vec!["deps".to_string(), "libserde-aaaaaaaaaaaaaaaa.rlib".to_string()]],
        session_locks: Vec::new(),
        bytes,
        entries,
    }
}

#[test]
fn items_are_accounted() {
    let mut o = SweepOutcome::default();
    assert_eq!(record_item(&mut o, &item(1056, 2), true, 0), ItemStatus::Swept);
    assert_eq!(record_item(&mut o, &item(300, 1), false, 0), ItemStatus::SkippedSessionLock);
    assert_eq!(record_item(&mut o, &item(500, 1), true, 2), ItemStatus::SweptWithResidue);
    assert_eq!(o.items_swept, 2);
    assert_eq!(o.items_skipped, 1);
    assert_eq!(o.freed_bytes, 1056);
    assert_eq!(o.freed_entries, 2);
    assert_eq!(o.residue_paths, 2);
    assert_eq!(ItemStatus::Swept.label(), "swept");
    assert_eq!(ItemStatus::SweptWithResidue.label(), "swept-with-residue");
    assert_eq!(ItemStatus::SkippedSessionLock.label(), "skipped-session-lock");
}

fn failure(not_found: bool, denied: bool, code: Option<i32>) -> IoFailure {
    IoFailure { not_found, permission_denied: denied, raw_os_error: code, message: "e".to_string() }
}

#[test]
fn retry_rules() {
    assert!(retryable(&failure(false, true, None)));
    assert!(retryable(&failure(false, false, Some(32))));
    assert!(retryable(&failure(false, false, Some(5))));
    assert!(!retryable(&failure(false, false, Some(2))));
    assert!(ignore_missing(Err(failure(true, false, Some(2)))).is_ok());
    assert!(ignore_missing(Err(failure(false, false, Some(2)))).is_err());
    assert!(matches!(retry_step(0, Err(failure(false, true, None))), RetryStep::Wait(50)));
    assert!(matches!(retry_step(1, Err(failure(false, false, Some(32)))), RetryStep::Wait(150)));
    assert!(matches!(retry_step(3, Err(failure(false, false, Some(5)))), RetryStep::Wait(1350)));
    assert!(matches!(retry_step(4, Err(failure(false, false, Some(5)))), RetryStep::Finish(Err(_))));
    assert!(matches!(retry_step(4, Err(failure(true, false, None))), RetryStep::Finish(Ok(()))));
    assert!(matches!(retry_step(2, Err(failure(false, false, Some(2)))), RetryStep::Finish(Err(_))));
    assert!(matches!(retry_step(0, Ok(())), RetryStep::Finish(Ok(()))));
}

#[test]
fn missing_paths_are_tolerated_not_errors() {
    let gone = failure(true, false, Some(2));
    assert!(matches!(retry_step(0, Err(gone)), RetryStep::Finish(Ok(()))));
}

#[test]
fn invalid_paths_error_without_retry() {
    // A path no system can address (a NUL byte) fails with an invalid-input
    // error that carries no OS code: not transient, no retry.
    let invalid = failure(false, false, None);
    assert!(!retryable(&invalid));
    assert!(matches!(retry_step(0, Err(invalid)), RetryStep::Finish(Err(_))));
    // The same with an OS code for an invalid argument.
    assert!(matches!(retry_step(0, Err(failure(false, false, Some(22)))), RetryStep::Finish(Err(_))));
}

#[test]
fn local_tempdir_is_not_network() {
    // tmpfs and ext4, where temporary directories live.
    assert!(!is_network_fs_type(0x0102_1994));
    assert!(!is_network_fs_type(0xEF53));
    assert!(!is_network_path(r"C:\Users\me\AppData\Local\Temp\x", false, false));
}

#[test]
fn sweep_skips_when_build_lock_held() {
    let outcome = sweep_precheck(Some(false), false, ProfileLayout::LegacyBuild, ProfileLayout::LegacyBuild).unwrap();
    assert!(outcome.skipped_locked);
    assert_eq!(outcome.items_swept, 0);
}

#[test]
fn sweep_refuses_on_layout_drift() {
    // `deps/` vanished between scan and sweep: the profile now probes unknown.
    let outcome = sweep_precheck(Some(false), true, ProfileLayout::Unknown, ProfileLayout::LegacyBuild).unwrap();
    assert_eq!(outcome.refused.as_deref(), Some("layout changed since scan"));
}

#[test]
fn sweep_skips_item_when_session_lock_held() {
    let mut o = SweepOutcome::default();
    let status = record_item(&mut o, &item(300, 1), false, 0);
    assert_eq!(status.label(), "skipped-session-lock");
    assert_eq!(o.items_skipped, 1);
    assert_eq!(o.freed_bytes, 0);
}
