use targone_core::unit::{
    artifact_hash, extension_chain, incremental_group, is_unit_hash, split_hash_suffix, unit_kind_from_files,
    unit_state_files, UnitKind,
};

#[test]
fn hash_grammar() {
    assert!(is_unit_hash("8cf73098e091883d"));
    assert!(!is_unit_hash("8CF73098E091883D"));
    assert!(!is_unit_hash("8cf73098e091883"));
    assert!(!is_unit_hash("8cf73098e091883dz"));
}

#[test]
fn split_and_artifact_hash() {
    assert_eq!(split_hash_suffix("serde_core-cff848a14a6a8f25"), Some(("serde_core", "cff848a14a6a8f25")));
    assert_eq!(split_hash_suffix("serde_core"), None);
    assert_eq!(artifact_hash("libserde-1e3ae50c54bba662.rlib"), Some("1e3ae50c54bba662"));
    assert_eq!(artifact_hash("serde_derive-bd0447a482faacd7.dll.lib"), Some("bd0447a482faacd7"));
    assert_eq!(artifact_hash("spike05_split.exe"), None);
}

#[test]
fn extension_chains() {
    assert_eq!(extension_chain("libserde-1e3ae50c54bba662.rlib"), "rlib");
    assert_eq!(extension_chain("x-1e3ae50c54bba662.dll.lib"), "dll.lib");
    assert_eq!(extension_chain("probe-1e3ae50c54bba662"), "");
}

#[test]
fn state_files_are_sorted_and_filtered() {
    assert_eq!(
        unit_state_files(&["lib-serde.json", "invoked.timestamp", "dep-lib-serde", "lib-serde"]),
        vec!["lib-serde".to_string()]
    );
    assert_eq!(
        unit_state_files(&["bin-b", "bin-a", "bin-a.json"]),
        vec!["bin-a".to_string(), "bin-b".to_string()]
    );
}

#[test]
fn kinds_from_fingerprint_files() {
    assert_eq!(
        unit_kind_from_files(&["dep-lib-serde", "invoked.timestamp", "lib-serde", "lib-serde.json"]),
        Some(UnitKind::Lib)
    );
    assert_eq!(
        unit_kind_from_files(&[
            "run-build-script-build-script-build",
            "run-build-script-build-script-build.json"
        ]),
        Some(UnitKind::BuildScriptRun)
    );
    assert_eq!(
        unit_kind_from_files(&[
            "build-script-build-script-build",
            "build-script-build-script-build.json",
            "dep-build-script-build-script-build",
            "invoked.timestamp"
        ]),
        Some(UnitKind::BuildScriptCompile)
    );
    assert_eq!(unit_kind_from_files(&["bin-spike05-split", "bin-spike05-split.json"]), Some(UnitKind::Bin));
    assert_eq!(unit_kind_from_files(&["invoked.timestamp"]), None);
    assert_eq!(unit_kind_from_files(&["test-lib-x"]), Some(UnitKind::Test));
    assert_eq!(unit_kind_from_files(&["integration-test-x"]), Some(UnitKind::Test));
    assert_eq!(unit_kind_from_files(&["example-demo"]), Some(UnitKind::Example));
    assert_eq!(unit_kind_from_files(&["bench-b"]), Some(UnitKind::Bench));
    assert_eq!(
        unit_kind_from_files(&["weird-state-file"]),
        Some(UnitKind::Other("weird-state-file".to_string()))
    );
    assert_eq!(unit_kind_from_files(&["weird-thing", "lib-x"]), Some(UnitKind::Lib));
    assert_eq!(unit_kind_from_files(&["lib-x", "weird-thing"]), Some(UnitKind::Lib));
    assert_eq!(unit_kind_from_files(&["lib-x", "bin-y"]), Some(UnitKind::Lib));
}

#[test]
fn incremental_grammar() {
    assert_eq!(incremental_group("spike05_split-1o3vnwkbphdzk"), Some(("spike05_split", "1o3vnwkbphdzk")));
    assert_eq!(incremental_group("has-hyphen-1o3vnwkbphdzk"), None);
    assert_eq!(incremental_group("noseparator"), None);
    assert_eq!(incremental_group("crate_a-UPPER"), None);
}

#[test]
fn state_files_keep_only_state_names_once() {
    assert_eq!(unit_state_files(&["lib-b", "lib-a", "lib-a.json"]), vec!["lib-a".to_string(), "lib-b".to_string()]);
    assert!(unit_state_files(&["invoked.timestamp", "dep-lib-a"]).is_empty());
}

#[test]
fn unit_hash_edges() {
    assert!(!is_unit_hash(""));
    assert!(is_unit_hash("0123456789abcdef"));
    assert!(!is_unit_hash("0123456789abcdeg"));
    assert_eq!(split_hash_suffix("a-b-0123456789abcdef"), Some(("a-b", "0123456789abcdef")));
    assert_eq!(split_hash_suffix("a-0123456789abcde"), None);
    assert_eq!(artifact_hash("libfoo-0123456789abcdef"), Some("0123456789abcdef"));
}

#[test]
fn unnamed_kinds_resolve_to_the_last_state_file() {
    assert_eq!(
        unit_kind_from_files(&["weird-one", "output-x", "weird-two", "dep-y"]),
        Some(UnitKind::Other("weird-two".to_string()))
    );
    assert_eq!(unit_kind_from_files(&["weird-one", "bench-b", "lib-x", "weird-two"]), Some(UnitKind::Bench));
}

#[test]
fn distinct_state_files_come_out_strictly_ascending() {
    let out = unit_state_files(&["test-c", "lib-a", "invoked.timestamp", "bin-b", "lib-a.json"]);
    assert_eq!(out, vec!["bin-b".to_string(), "lib-a".to_string(), "test-c".to_string()]);
    assert!(out.windows(2).all(|w| w[0] < w[1]));
}
