use targone_core::discover::{collect_profiles, is_pruned, marked, ChildProbe};
use targone_core::layout::{has_cachedir_signature, ProfileProbe};
use targone_core::{probe_profile, try_target_dir, ProfileLayout};

fn probe(fp: bool, deps: bool, units: &[(&str, bool)], artifact_lock: bool, cargo_lock: bool) -> ProfileProbe {
    ProfileProbe {
        fingerprint_dir: fp,
        deps_dir: deps,
        build_units: units.iter().map(|(n, f)| (n.to_string(), *f)).collect(),
        artifact_lock_file: artifact_lock,
        cargo_lock_file: cargo_lock,
    }
}

#[test]
fn layouts_are_probed() {
    assert_eq!(probe_profile(&probe(true, true, &[], false, false)), ProfileLayout::LegacyBuild);
    assert_eq!(probe_profile(&probe(false, false, &[("8cf73098e091883d", true)], false, false)), ProfileLayout::V2);
    assert_eq!(probe_profile(&probe(false, false, &[], true, true)), ProfileLayout::ArtifactOnly);
    assert_eq!(probe_profile(&probe(false, false, &[], false, false)), ProfileLayout::Unknown);
    // v2 needs both the hash and the fingerprint directory.
    assert_eq!(probe_profile(&probe(false, false, &[("not-a-hash", true)], false, false)), ProfileLayout::Unknown);
    assert_eq!(
        probe_profile(&probe(false, false, &[("8cf73098e091883d", false)], false, false)),
        ProfileLayout::Unknown
    );
    // A half legacy profile is not v2.
    assert_eq!(probe_profile(&probe(true, false, &[("8cf73098e091883d", true)], false, false)), ProfileLayout::Unknown);
}

#[test]
fn cachedir_signature_edges() {
    assert!(!has_cachedir_signature(b""));
    assert!(!has_cachedir_signature(b"Signature: wrong"));
    assert!(has_cachedir_signature(b"Signature: 8a477f597d28d172789f06886806bc55\n# comment"));
    assert!(has_cachedir_signature(b"Signature: 8a477f597d28d172789f06886806bc55"));
    assert!(!has_cachedir_signature(b"Signature: 8a477f597d28d172789f06886806bc5"));
}

#[test]
fn markers_and_pruning() {
    assert!(marked(Some("target"), false, false));
    assert!(marked(Some("Target"), false, false));
    assert!(!marked(Some("central-build"), false, false));
    assert!(marked(Some("central-build"), true, false));
    assert!(marked(None, false, true));
    assert!(is_pruned("node_modules"));
    assert!(is_pruned(".git"));
    assert!(!is_pruned("target"));
}

fn child(path: &str, layout: ProfileLayout, nested: &[(&str, ProfileLayout)]) -> ChildProbe {
    ChildProbe {
        path: path.to_string(),
        layout,
        nested: nested.iter().map(|(p, l)| (p.to_string(), *l)).collect(),
    }
}

#[test]
fn nested_profiles_are_collected_in_order() {
    let children = vec![
        child("t/debug", ProfileLayout::LegacyBuild, &[]),
        child(
            "t/x86_64-unknown-linux-gnu",
            ProfileLayout::Unknown,
            &[("t/x86_64-unknown-linux-gnu/release", ProfileLayout::LegacyBuild), ("t/x86_64-unknown-linux-gnu/junk", ProfileLayout::Unknown)],
        ),
    ];
    let profiles = collect_profiles(&children);
    assert_eq!(
        profiles,
        vec![
            ("t/debug".to_string(), ProfileLayout::LegacyBuild),
            ("t/x86_64-unknown-linux-gnu/release".to_string(), ProfileLayout::LegacyBuild)
        ]
    );
    let td = try_target_dir("t".to_string(), true, &children).unwrap();
    assert_eq!(td.root, "t");
    assert_eq!(td.profiles.len(), 2);
}

#[test]
fn unmarked_roots_are_never_targets() {
    let children = vec![child("llvm/lib/Target/X86", ProfileLayout::Unknown, &[])];
    assert!(try_target_dir("llvm/lib/Target".to_string(), true, &children).is_none());
    let good = vec![child("p/target/debug", ProfileLayout::LegacyBuild, &[])];
    assert!(try_target_dir("p/target".to_string(), false, &good).is_none());
}

#[test]
fn legacy_layout_is_detected() {
    // .fingerprint/, deps/, build/ (empty), incremental/
    let p = probe(true, true, &[], false, false);
    assert_eq!(probe_profile(&p), ProfileLayout::LegacyBuild);
}

#[test]
fn v2_layout_is_detected() {
    // build/serde/8cf73098e091883d/fingerprint/, incremental/
    let p = probe(false, false, &[("8cf73098e091883d", true)], false, false);
    assert_eq!(probe_profile(&p), ProfileLayout::V2);
}

#[test]
fn artifact_only_side_is_detected() {
    // examples/, .cargo-artifact-lock, .cargo-lock
    let p = probe(false, false, &[], true, true);
    assert_eq!(probe_profile(&p), ProfileLayout::ArtifactOnly);
}

#[test]
fn unmatched_dir_is_unknown() {
    // src/, README.md
    let p = probe(false, false, &[], false, false);
    assert_eq!(probe_profile(&p), ProfileLayout::Unknown);
}

#[test]
fn v2_requires_hash_and_fingerprint() {
    // build/serde/not-a-hash/fingerprint/
    let p = probe(false, false, &[("not-a-hash", true)], false, false);
    assert_eq!(probe_profile(&p), ProfileLayout::Unknown);
}

#[test]
fn v2_probe_skips_files_and_junk_at_pkg_level() {
    // build/stray-file (not a package directory), build/serde/junk-name/
    let p = probe(false, false, &[("junk-name", false)], false, false);
    assert_eq!(probe_profile(&p), ProfileLayout::Unknown);
}

#[test]
fn cachedir_tag_signature_is_verified() {
    assert!(!has_cachedir_signature(b"Signature: wrong"));
    assert!(has_cachedir_signature(b"Signature: 8a477f597d28d172789f06886806bc55\n# comment"));
}

#[test]
fn finds_conventional_target_dir() {
    let children = vec![child("proj/target/debug", ProfileLayout::LegacyBuild, &[])];
    let is_marked = marked(Some("target"), false, false);
    let found = try_target_dir("proj/target".to_string(), is_marked, &children).unwrap();
    assert_eq!(found.root, "proj/target");
    assert_eq!(found.profiles.len(), 1);
}

#[test]
fn finds_renamed_build_dir_via_rustc_info() {
    let children = vec![child("central-build/debug", ProfileLayout::LegacyBuild, &[])];
    let is_marked = marked(Some("central-build"), true, false);
    let found = try_target_dir("central-build".to_string(), is_marked, &children).unwrap();
    assert_eq!(found.root, "central-build");
}

#[test]
fn rejects_source_dir_named_target() {
    // A `Target/` full of sources: marked by name, but no profile grammar.
    let children = vec![child("llvm/lib/Target/X86", ProfileLayout::Unknown, &[])];
    let is_marked = marked(Some("Target"), false, false);
    assert!(is_marked);
    assert!(try_target_dir("llvm/lib/Target".to_string(), is_marked, &children).is_none());
}

#[test]
fn finds_cross_compile_profiles_one_level_down() {
    let children = vec![
        child("proj/target/debug", ProfileLayout::LegacyBuild, &[]),
        child(
            "proj/target/x86_64-unknown-linux-gnu",
            ProfileLayout::Unknown,
            &[
                ("proj/target/x86_64-unknown-linux-gnu/release", ProfileLayout::LegacyBuild),
                ("proj/target/x86_64-unknown-linux-gnu/junk", ProfileLayout::Unknown),
            ],
        ),
    ];
    let found = try_target_dir("proj/target".to_string(), true, &children).unwrap();
    assert_eq!(found.profiles.len(), 2);
}

#[test]
fn pruned_dirs_are_never_entered() {
    assert!(is_pruned("node_modules"));
    assert!(is_pruned(".rustup"));
    assert!(is_pruned(".svn"));
    assert!(is_pruned(".hg"));
}

#[test]
fn a_file_named_target_is_not_a_target_dir() {
    // A regular file has no directory children to probe.
    assert!(try_target_dir("target".to_string(), marked(Some("target"), false, false), &Vec::new()).is_none());
}
