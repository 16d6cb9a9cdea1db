use targone_core::legacy::{ArtifactFile, BuildEntry, FileStamp, FingerprintEntry};
use targone_core::scan::{
    append_dormant_item, append_pdb_items, classify_incremental, restrict_to_tiers, DormantSnapshot, IncrementalEntry,
    PdbCandidate,
    ProfileSnapshot, TargetSnapshot,
};
use targone_core::v2::{V2Package, V2Unit};
use targone_core::{scan_all, scan_profile, PoolStats, ProfileLayout, Tier};

fn s(x: &str) -> String {
    x.to_string()
}

fn path(parts: &[&str]) -> Vec<String> {
    parts.iter().map(|p| p.to_string()).collect()
}

fn lib_fingerprint(pkg: &str, hash: &str, t: i128) -> FingerprintEntry {
    FingerprintEntry {
        name: format!("{pkg}-{hash}"),
        is_dir: true,
        files: vec![
            FileStamp { name: format!("lib-{pkg}"), bytes: 16, mtime: Some(t) },
            FileStamp { name: format!("lib-{pkg}.json"), bytes: 32, mtime: Some(t) },
            FileStamp { name: s("invoked.timestamp"), bytes: 8, mtime: Some(t) },
        ],
    }
}

fn rlib(pkg: &str, hash: &str, bytes: u64) -> ArtifactFile {
    ArtifactFile { pool: s("deps"), name: format!("lib{pkg}-{hash}.rlib"), bytes }
}

fn legacy(fps: Vec<FingerprintEntry>, arts: Vec<ArtifactFile>, build: Vec<BuildEntry>) -> ProfileSnapshot {
    ProfileSnapshot {
        path: s("debug"),
        layout: ProfileLayout::LegacyBuild,
        pools: vec![(s("deps"), PoolStats { bytes: 3000, files: 2 })],
        incremental: Vec::new(),
        fingerprints: Some(fps),
        artifacts: arts,
        build,
        v2_packages: None,
    }
}

#[test]
fn legacy_superseded_lib_is_reclaimable_newest_kept() {
    let snap = legacy(
        vec![lib_fingerprint("serde", "aaaaaaaaaaaaaaaa", 1), lib_fingerprint("serde", "bbbbbbbbbbbbbbbb", 2)],
        vec![rlib("serde", "aaaaaaaaaaaaaaaa", 1000), rlib("serde", "bbbbbbbbbbbbbbbb", 2000)],
        Vec::new(),
    );
    let report = scan_profile(snap);
    let units = report.tiers.iter().find(|t| t.tier == Tier::Units).unwrap();
    assert_eq!(units.reclaimable_bytes, 1000 + 56);
    assert_eq!(units.reclaimable_entries, 2);
    assert_eq!(report.reclaimable_bytes(), 1056);
    assert_eq!(report.total_bytes(), 3000);
}

#[test]
fn plan_orders_fingerprint_before_artifacts() {
    let snap = legacy(
        vec![lib_fingerprint("serde", "bbbbbbbbbbbbbbbb", 2), lib_fingerprint("serde", "aaaaaaaaaaaaaaaa", 1)],
        vec![rlib("serde", "aaaaaaaaaaaaaaaa", 1000), rlib("serde", "bbbbbbbbbbbbbbbb", 2000)],
        Vec::new(),
    );
    let report = scan_profile(snap);
    assert_eq!(report.reclaim.len(), 1);
    let item = &report.reclaim[0];
    assert_eq!(item.delete_first, vec![path(&[".fingerprint", "serde-aaaaaaaaaaaaaaaa"])]);
    assert_eq!(item.delete_then, vec![path(&["deps", "libserde-aaaaaaaaaaaaaaaa.rlib"])]);
}

#[test]
fn single_hash_units_are_never_reclaimable() {
    let report = scan_profile(legacy(
        vec![lib_fingerprint("serde", "aaaaaaaaaaaaaaaa", 1), lib_fingerprint("itoa", "cccccccccccccccc", 1)],
        vec![rlib("serde", "aaaaaaaaaaaaaaaa", 1000), rlib("itoa", "cccccccccccccccc", 500)],
        Vec::new(),
    ));
    assert_eq!(report.reclaimable_bytes(), 0);
    assert!(report.reclaim.is_empty());
}

#[test]
fn check_and_build_modes_are_distinct_identities() {
    // A check-mode fingerprint (rmeta and .d only) arriving after a
    // build-mode one does not supersede it: both are live.
    let report = scan_profile(legacy(
        vec![lib_fingerprint("serde", "aaaaaaaaaaaaaaaa", 1), lib_fingerprint("serde", "eeeeeeeeeeeeeeee", 2)],
        vec![
            rlib("serde", "aaaaaaaaaaaaaaaa", 1000),
            ArtifactFile { pool: s("deps"), name: s("libserde-eeeeeeeeeeeeeeee.rmeta"), bytes: 500 },
            ArtifactFile { pool: s("deps"), name: s("serde-eeeeeeeeeeeeeeee.d"), bytes: 50 },
        ],
        Vec::new(),
    ));
    assert_eq!(report.reclaimable_bytes(), 0);
}

#[test]
fn different_kinds_of_same_package_are_distinct_identities() {
    let run = FingerprintEntry {
        name: s("serde-dddddddddddddddd"),
        is_dir: true,
        files: vec![
            FileStamp { name: s("run-build-script-build-script-build"), bytes: 16, mtime: Some(2) },
            FileStamp { name: s("run-build-script-build-script-build.json"), bytes: 32, mtime: Some(2) },
        ],
    };
    let report = scan_profile(legacy(
        vec![lib_fingerprint("serde", "aaaaaaaaaaaaaaaa", 1), run],
        vec![rlib("serde", "aaaaaaaaaaaaaaaa", 1000)],
        Vec::new(),
    ));
    assert_eq!(report.reclaimable_bytes(), 0);
}

fn bin_fingerprint(hash: &str, t: i128) -> FingerprintEntry {
    FingerprintEntry {
        name: format!("app-{hash}"),
        is_dir: true,
        files: vec![
            FileStamp { name: s("bin-app"), bytes: 100, mtime: Some(t) },
            FileStamp { name: s("bin-app.json"), bytes: 32, mtime: Some(t) },
        ],
    }
}

#[test]
fn orphan_fingerprints_keep_newest_within_orphan_class() {
    let report = scan_profile(legacy(
        vec![bin_fingerprint("aaaaaaaaaaaaaaaa", 1), bin_fingerprint("bbbbbbbbbbbbbbbb", 2)],
        Vec::new(),
        Vec::new(),
    ));
    let orphans = report.tiers.iter().find(|t| t.tier == Tier::OrphanFingerprints).unwrap();
    assert_eq!(orphans.reclaimable_bytes, 132);
    assert_eq!(orphans.reclaimable_entries, 1);
    let units = report.tiers.iter().find(|t| t.tier == Tier::Units).unwrap();
    assert_eq!(units.reclaimable_bytes, 0);
    assert_eq!(report.reclaim[0].delete_first, vec![path(&[".fingerprint", "app-aaaaaaaaaaaaaaaa"])]);
}

#[test]
fn fingerprintless_artifacts_are_recollected() {
    // Residue of an interrupted sweep: artifacts whose fingerprint is gone.
    let report = scan_profile(legacy(
        vec![lib_fingerprint("serde", "bbbbbbbbbbbbbbbb", 1)],
        vec![rlib("serde", "bbbbbbbbbbbbbbbb", 2000), rlib("old", "aaaaaaaaaaaaaaaa", 700)],
        vec![BuildEntry { name: s("old-cccccccccccccccc"), is_dir: true, bytes: 300 }],
    ));
    let units = report.tiers.iter().find(|t| t.tier == Tier::Units).unwrap();
    assert_eq!(units.reclaimable_bytes, 700);
    let bs = report.tiers.iter().find(|t| t.tier == Tier::BuildScripts).unwrap();
    assert_eq!(bs.reclaimable_bytes, 300);
    // The live unit stays untouched.
    assert_eq!(report.reclaimable_bytes(), 1000);
}

fn inc(name: &str, mtime: i128, bytes: u64, children: &[&str], is_dir: bool) -> IncrementalEntry {
    IncrementalEntry { name: s(name), is_dir, mtime, bytes, children: path(children) }
}

#[test]
fn incremental_classification_counts_unparsed() {
    let entries = vec![
        inc("mycrate-aaaa", 1, 300, &["s-x-y-z", "s-x-y.lock"], true),
        inc("mycrate-bbbb", 2, 400, &["s-x-w-z"], true),
        inc("build_script_build-cccc", 1, 50, &[], true),
        inc("build_script_build-dddd", 2, 50, &[], true),
        inc("not-a-dir-eeee", 1, 5, &[], false),
        inc("garbage", 1, 5, &[], true),
    ];
    let (items, unparsed) = classify_incremental(&entries);
    assert_eq!(items.len(), 1);
    assert_eq!(items[0].tier, Tier::Incremental);
    assert_eq!(items[0].delete_first, vec![path(&["incremental", "mycrate-aaaa"])]);
    assert_eq!(items[0].session_locks, vec![path(&["incremental", "mycrate-aaaa", "s-x-y.lock"])]);
    assert_eq!(items[0].bytes, 300);
    assert_eq!(unparsed, 2);
}

fn with_incremental(entries: Vec<IncrementalEntry>) -> ProfileSnapshot {
    let mut snap = legacy(Vec::new(), Vec::new(), Vec::new());
    snap.incremental = entries;
    snap
}

#[test]
fn incremental_keeps_newest_per_crate_and_collects_session_locks() {
    let report = scan_profile(with_incremental(vec![
        inc("mycrate-aaaa", 1, 300, &["s-x-y-z", "s-x-y.lock"], true),
        inc("mycrate-bbbb", 2, 400, &["s-x-w-z"], true),
        inc("other_crate-cccc", 2, 100, &["s-x-v-z"], true),
    ]));
    let inc_tier = report.tiers.iter().find(|t| t.tier == Tier::Incremental).unwrap();
    assert_eq!(inc_tier.reclaimable_bytes, 300);
    assert_eq!(inc_tier.reclaimable_entries, 1);
    let item = report.reclaim.iter().find(|i| i.tier == Tier::Incremental).unwrap();
    assert_eq!(item.session_locks.len(), 1);
    assert_eq!(item.session_locks[0].last().map(String::as_str), Some("s-x-y.lock"));
}

#[test]
fn build_script_build_incremental_dirs_are_never_grouped() {
    let report = scan_profile(with_incremental(vec![
        inc("build_script_build-aaaa", 1, 300, &["s-x-y"], true),
        inc("build_script_build-bbbb", 2, 400, &["s-x-z"], true),
    ]));
    let inc_tier = report.tiers.iter().find(|t| t.tier == Tier::Incremental).unwrap();
    assert_eq!(inc_tier.reclaimable_bytes, 0);
}

#[test]
fn unparsed_incremental_entries_are_kept() {
    let report = scan_profile(with_incremental(vec![inc("not a cargo name!", 1, 100, &["x"], true)]));
    let inc_tier = report.tiers.iter().find(|t| t.tier == Tier::Incremental).unwrap();
    assert_eq!(inc_tier.reclaimable_bytes, 0);
    assert!(report.unparsed_kept >= 1);
}

#[test]
fn unknown_layout_is_never_planned() {
    let mut snap = legacy(
        vec![lib_fingerprint("serde", "aaaaaaaaaaaaaaaa", 1), lib_fingerprint("serde", "bbbbbbbbbbbbbbbb", 2)],
        vec![rlib("serde", "aaaaaaaaaaaaaaaa", 1000), rlib("serde", "bbbbbbbbbbbbbbbb", 2000)],
        Vec::new(),
    );
    snap.layout = ProfileLayout::Unknown;
    let report = scan_profile(snap);
    assert!(report.reclaim.is_empty());
    assert!(report.tiers.is_empty());
}

fn v2_unit(name: &str, t: i128, bytes: u64, outs: &[&str]) -> V2Unit {
    V2Unit {
        name: s(name),
        has_fingerprint: true,
        fingerprint_files: vec![
            FileStamp { name: s("lib-serde"), bytes: 16, mtime: Some(t) },
            FileStamp { name: s("lib-serde.json"), bytes: 32, mtime: Some(t) },
        ],
        out_names: path(outs),
        has_run: false,
        bytes,
    }
}

fn v2(packages: Vec<V2Package>) -> ProfileSnapshot {
    ProfileSnapshot {
        path: s("debug"),
        layout: ProfileLayout::V2,
        pools: Vec::new(),
        incremental: Vec::new(),
        fingerprints: None,
        artifacts: Vec::new(),
        build: Vec::new(),
        v2_packages: Some(packages),
    }
}

#[test]
fn v2_superseded_unit_dirs_are_reclaimable() {
    let snap = v2(vec![V2Package {
        name: s("serde"),
        is_dir: true,
        units: Some(vec![
            v2_unit("aaaaaaaaaaaaaaaa", 1, 1016, &["libserde.rlib"]),
            v2_unit("bbbbbbbbbbbbbbbb", 2, 2016, &["libserde.rlib"]),
        ]),
    }]);
    let report = scan_profile(snap);
    let units = report.tiers.iter().find(|t| t.tier == Tier::Units).unwrap();
    assert_eq!(units.reclaimable_bytes, 1016);
    assert_eq!(units.reclaimable_entries, 1);
    assert_eq!(report.reclaim[0].delete_first, vec![path(&["build", "serde", "aaaaaaaaaaaaaaaa"])]);
}

#[test]
fn pdb_tier_collects_only_unplanned_pdbs() {
    let mut report = scan_profile(legacy(
        vec![lib_fingerprint("serde", "aaaaaaaaaaaaaaaa", 1), lib_fingerprint("serde", "bbbbbbbbbbbbbbbb", 2)],
        vec![rlib("serde", "aaaaaaaaaaaaaaaa", 1000), rlib("serde", "bbbbbbbbbbbbbbbb", 2000)],
        Vec::new(),
    ));
    let base = report.reclaimable_bytes();
    let candidates = vec![
        PdbCandidate { path: path(&["deps", "app-0123456789abcdef.pdb"]), bytes: 700 },
        PdbCandidate { path: path(&["deps", "libserde-aaaaaaaaaaaaaaaa.rlib"]), bytes: 1000 },
        PdbCandidate { path: path(&["build", "x", "out", "y.PDB"]), bytes: 0 },
    ];
    append_pdb_items(&mut report, &candidates);
    let pdb = report.tiers.iter().find(|t| t.tier == Tier::Pdb).unwrap();
    assert_eq!(pdb.reclaimable_bytes, 700);
    assert_eq!(pdb.reclaimable_entries, 2);
    assert_eq!(report.reclaimable_bytes(), base + 700);
}

fn dormant_scene(newest_compile: Option<i128>) -> DormantSnapshot {
    DormantSnapshot {
        newest_compile,
        pools: vec![(s(".fingerprint"), 56), (s("deps"), 1000), (s("incremental"), 200)],
        files: vec![(s("app.exe"), 500), (s(".cargo-build-lock"), 0)],
    }
}

fn dormant_profile() -> ProfileSnapshot {
    legacy(vec![lib_fingerprint("serde", "aaaaaaaaaaaaaaaa", 100)], vec![rlib("serde", "aaaaaaaaaaaaaaaa", 1000)], Vec::new())
}

#[test]
fn dormant_profile_is_wiped_wholesale_keeping_locks() {
    let mut report = scan_profile(dormant_profile());
    // Cutoff after the last compile: dormant.
    assert!(append_dormant_item(&mut report, &dormant_scene(Some(100)), 200));
    assert_eq!(report.reclaim.len(), 1);
    let item = &report.reclaim[0];
    assert_eq!(item.tier, Tier::Dormant);
    assert!(item.delete_then.iter().any(|p| p == &path(&["app.exe"])));
    assert!(!item.delete_then.iter().any(|p| p == &path(&[".cargo-build-lock"])));
    assert_eq!(item.bytes, 56 + 1000 + 200 + 500);
    assert_eq!(item.entries, 4);
    assert_eq!(report.tiers.len(), 1);
    assert_eq!(report.reclaimable_bytes(), 1756);
    // A recent compile: not dormant, plan untouched.
    let mut fresh = scan_profile(dormant_profile());
    assert!(!append_dormant_item(&mut fresh, &dormant_scene(Some(100)), 50));
    assert!(fresh.reclaim.is_empty());
}

#[test]
fn empty_profile_is_never_dormant() {
    // No compile evidence: fail-open, never wipe.
    let mut report = scan_profile(legacy(Vec::new(), Vec::new(), Vec::new()));
    let scene = DormantSnapshot {
        newest_compile: None,
        pools: vec![(s(".fingerprint"), 0), (s("deps"), 0)],
        files: Vec::new(),
    };
    assert!(!append_dormant_item(&mut report, &scene, i128::MAX));
}

#[test]
fn v2_fingerprintless_unit_dir_is_recollected() {
    let live = V2Unit {
        name: s("bbbbbbbbbbbbbbbb"),
        has_fingerprint: true,
        fingerprint_files: vec![FileStamp { name: s("lib-serde"), bytes: 16, mtime: Some(1) }],
        out_names: path(&["libserde-bbbbbbbbbbbbbbbb.rlib"]),
        has_run: false,
        bytes: 2016,
    };
    let residue = V2Unit {
        name: s("aaaaaaaaaaaaaaaa"),
        has_fingerprint: false,
        fingerprint_files: Vec::new(),
        out_names: path(&["libserde-aaaaaaaaaaaaaaaa.rlib"]),
        has_run: false,
        bytes: 500,
    };
    let report = scan_profile(v2(vec![V2Package { name: s("serde"), is_dir: true, units: Some(vec![live, residue]) }]));
    assert_eq!(report.reclaimable_bytes(), 500);
    assert_eq!(report.reclaim[0].delete_first, vec![path(&["build", "serde", "aaaaaaaaaaaaaaaa"])]);
}

#[test]
fn v2_check_and_build_modes_are_distinct_identities() {
    let build_mode = V2Unit {
        name: s("aaaaaaaaaaaaaaaa"),
        has_fingerprint: true,
        fingerprint_files: vec![FileStamp { name: s("lib-serde"), bytes: 16, mtime: Some(1) }],
        out_names: path(&["libserde-aaaaaaaaaaaaaaaa.rlib"]),
        has_run: false,
        bytes: 1016,
    };
    let check_mode = V2Unit {
        name: s("bbbbbbbbbbbbbbbb"),
        has_fingerprint: true,
        fingerprint_files: vec![FileStamp { name: s("lib-serde"), bytes: 16, mtime: Some(2) }],
        out_names: path(&["libserde-bbbbbbbbbbbbbbbb.rmeta"]),
        has_run: false,
        bytes: 216,
    };
    let report = scan_profile(v2(vec![V2Package { name: s("serde"), is_dir: true, units: Some(vec![build_mode, check_mode]) }]));
    assert_eq!(report.reclaimable_bytes(), 0);
}

#[test]
fn reports_are_ordered_by_reclaimable_bytes() {
    let small = legacy(
        vec![lib_fingerprint("a", "aaaaaaaaaaaaaaaa", 1), lib_fingerprint("a", "bbbbbbbbbbbbbbbb", 2)],
        vec![rlib("a", "aaaaaaaaaaaaaaaa", 10), rlib("a", "bbbbbbbbbbbbbbbb", 10)],
        Vec::new(),
    );
    let big = legacy(
        vec![lib_fingerprint("b", "aaaaaaaaaaaaaaaa", 1), lib_fingerprint("b", "bbbbbbbbbbbbbbbb", 2)],
        vec![rlib("b", "aaaaaaaaaaaaaaaa", 5000), rlib("b", "bbbbbbbbbbbbbbbb", 10)],
        Vec::new(),
    );
    let targets = vec![
        TargetSnapshot { root: s("one"), profiles: vec![small], root_pools: Vec::new() },
        TargetSnapshot { root: s("two"), profiles: vec![big], root_pools: Vec::new() },
        TargetSnapshot { root: s("three"), profiles: Vec::new(), root_pools: vec![(s("doc"), PoolStats { bytes: 7, files: 1 })] },
    ];
    let reports = scan_all(targets);
    let roots: Vec<&str> = reports.iter().map(|r| r.root.as_str()).collect();
    assert_eq!(roots, vec!["two", "one", "three"]);
    assert_eq!(reports[0].reclaimable_bytes(), 5056);
    assert_eq!(reports[2].total_bytes(), 7);
}

#[test]
fn tier_filter_keeps_only_selected_tiers() {
    let mut snap = legacy(
        vec![lib_fingerprint("serde", "aaaaaaaaaaaaaaaa", 1), lib_fingerprint("serde", "bbbbbbbbbbbbbbbb", 2)],
        vec![rlib("serde", "aaaaaaaaaaaaaaaa", 1000), rlib("serde", "bbbbbbbbbbbbbbbb", 2000)],
        Vec::new(),
    );
    snap.incremental = vec![inc("mycrate-aa", 1, 300, &["s-x-y-z"], true), inc("mycrate-bb", 2, 400, &["s-x-w-z"], true)];
    let mut report = scan_profile(snap);
    assert_eq!(report.reclaim.len(), 2);
    restrict_to_tiers(&mut report, &vec![Tier::Incremental]);
    assert_eq!(report.reclaim.len(), 1);
    assert_eq!(report.reclaim[0].tier, Tier::Incremental);
    assert_eq!(report.tiers.len(), 1);
    assert_eq!(report.reclaimable_bytes(), 300);
    restrict_to_tiers(&mut report, &Vec::new());
    assert!(report.reclaim.is_empty());
    assert_eq!(report.reclaimable_bytes(), 0);
}

#[test]
fn estimates_add_up_to_the_plan_and_stay_inside_pools() {
    let mut snap = legacy(
        vec![
            lib_fingerprint("serde", "aaaaaaaaaaaaaaaa", 1),
            lib_fingerprint("serde", "bbbbbbbbbbbbbbbb", 2),
            lib_fingerprint("log", "cccccccccccccccc", 1),
            lib_fingerprint("log", "dddddddddddddddd", 3),
        ],
        vec![
            rlib("serde", "aaaaaaaaaaaaaaaa", 1000),
            rlib("serde", "bbbbbbbbbbbbbbbb", 2000),
            rlib("log", "cccccccccccccccc", 300),
            rlib("log", "dddddddddddddddd", 400),
            rlib("gone", "eeeeeeeeeeeeeeee", 77),
        ],
        Vec::new(),
    );
    snap.incremental = vec![
        inc("serde-1abc", 1, 500, &["s.lock"], true),
        inc("serde-2abc", 2, 600, &[], true),
    ];
    let report = scan_profile(snap);
    let sum: u64 = report.reclaim.iter().map(|i| i.bytes).sum();
    assert_eq!(sum, 500 + 1056 + 356 + 77);
    assert_eq!(report.reclaimable_bytes(), sum);
    let tiers: Vec<Tier> = report.tiers.iter().map(|t| t.tier).collect();
    for item in &report.reclaim {
        assert!(tiers.contains(&item.tier));
        for p in item.delete_first.iter().chain(&item.delete_then).chain(&item.session_locks) {
            assert!(p.len() >= 2);
        }
    }
}
