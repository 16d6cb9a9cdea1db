//! Tiers 2–4 on the legacy layout: identity-recency over
//! `(package, state-file set, artifact class)` groups from `.fingerprint/`,
//! paired with `deps/`/`examples/` files and `build/` directories through the
//! shared hash namespace. A fingerprint is only ever reclaimed together with
//! the artifacts of its hash; artifacts whose fingerprint is already gone are
//! re-collected on their own.

use vstd::prelude::*;
use crate::budget::clamp_u64;
use crate::identity::{
    Observation, keeps_one_newest, law_listing_keeps_newest, observations, superseded_order, supersede,
    survivor_of, ident_before,
};
use crate::scan::{ItemModel, ReclaimItem, Tier, item_models};
use crate::text::{
    key_order, lemma_orders_strict_total, insert_unique, is_listing, lemma_sorted_names_injective, lemma_is_listing, lemma_is_sorted_names, listing, name_lists, names,
    sorted_names, str_eq, str_order, strictly_sorted_by,
};
use crate::unit::{
    KindModel, UnitKind, artifact_hash, extension_chain, slice_names, spec_artifact_hash,
    spec_extension_chain, spec_split_hash_suffix, spec_state_files, spec_unit_kind, split_hash_suffix,
    unit_kind_from_files, unit_state_files,
};

verus! {

/// A regular file of `deps/` or `examples/` whose metadata could be read.
pub struct ArtifactFile {
    /// `deps` or `examples`.
    pub pool: String,
    pub name: String,
    pub bytes: u64,
}

/// A child of `build/`.
pub struct BuildEntry {
    pub name: String,
    pub is_dir: bool,
    /// Recursive size in bytes.
    pub bytes: u64,
}

/// A file inside a fingerprint directory.
pub struct FileStamp {
    pub name: String,
    /// Size in bytes (0 when its metadata could not be read).
    pub bytes: u64,
    /// Modification time in nanoseconds from the Unix epoch, when known.
    pub mtime: Option<i128>,
}

/// A child of `.fingerprint/`.
pub struct FingerprintEntry {
    pub name: String,
    pub is_dir: bool,
    /// The files directly inside it (empty when it could not be read).
    pub files: Vec<FileStamp>,
}

// ---------------------------------------------------------------------------
// The artifact index: deps/ and examples/ files by hash
// ---------------------------------------------------------------------------

pub open spec fn art_hash(a: ArtifactFile) -> Option<Seq<char>> {
    spec_artifact_hash(a.name@)
}

/// The artifacts carrying hash `h`, in order.
pub open spec fn arts_with(arts: Seq<ArtifactFile>, h: Seq<char>) -> Seq<ArtifactFile> {
    arts.filter(|a: ArtifactFile| art_hash(a) == Some(h))
}

pub open spec fn art_path(a: ArtifactFile) -> Seq<Seq<char>> {
    seq![a.pool@, a.name@]
}

pub open spec fn art_bytes(s: Seq<ArtifactFile>) -> int
    decreases s.len(),
{
    if s.len() == 0 {
        0
    } else {
        art_bytes(s.drop_last()) + s.last().bytes
    }
}

/// Some artifact carries hash `h`.
pub open spec fn dep_has(arts: Seq<ArtifactFile>, h: Seq<char>) -> bool {
    exists|i: int| 0 <= i < arts.len() && art_hash(#[trigger] arts[i]) == Some(h)
}

pub open spec fn dep_pred(arts: Seq<ArtifactFile>) -> spec_fn(Seq<char>) -> bool {
    |h: Seq<char>| dep_has(arts, h)
}

/// The hashes the artifacts carry, in increasing order.
pub open spec fn dep_hashes(arts: Seq<ArtifactFile>) -> Seq<Seq<char>> {
    listing(dep_pred(arts))
}

/// Some artifact carrying hash `h` has extension chain `x`.
pub open spec fn has_ext(arts: Seq<ArtifactFile>, h: Seq<char>, x: Seq<char>) -> bool {
    exists|i: int|
        0 <= i < arts.len() && art_hash(#[trigger] arts[i]) == Some(h) && spec_extension_chain(
            arts[i].name@,
        ) == x
}

pub open spec fn ext_pred(arts: Seq<ArtifactFile>, h: Seq<char>) -> spec_fn(Seq<char>) -> bool {
    |x: Seq<char>| has_ext(arts, h, x)
}

/// The extension chains of the artifacts carrying hash `h`, in increasing order.
pub open spec fn ext_set(arts: Seq<ArtifactFile>, h: Seq<char>) -> Seq<Seq<char>> {
    listing(ext_pred(arts, h))
}

// ---------------------------------------------------------------------------
// The build index: build/<pkg>-<hash> directories by hash
// ---------------------------------------------------------------------------

pub open spec fn build_hash(b: BuildEntry) -> Option<Seq<char>> {
    if b.is_dir {
        match spec_split_hash_suffix(b.name@) {
            Some((_, h)) => Some(h),
            None => None,
        }
    } else {
        None
    }
}

/// A `build/` directory whose name carries no hash: kept.
pub open spec fn build_unparsed(b: BuildEntry) -> bool {
    b.is_dir && spec_split_hash_suffix(b.name@) is None
}

/// The last `build/` directory with hash `h` (a later one replaces an earlier).
pub open spec fn last_build(build: Seq<BuildEntry>, h: Seq<char>) -> Option<BuildEntry>
    decreases build.len(),
{
    if build.len() == 0 {
        None
    } else if build_hash(build.last()) == Some(h) {
        Some(build.last())
    } else {
        last_build(build.drop_last(), h)
    }
}

pub open spec fn build_has(build: Seq<BuildEntry>, h: Seq<char>) -> bool {
    exists|i: int| 0 <= i < build.len() && build_hash(#[trigger] build[i]) == Some(h)
}

pub open spec fn build_pred(build: Seq<BuildEntry>) -> spec_fn(Seq<char>) -> bool {
    |h: Seq<char>| build_has(build, h)
}

/// The hashes of the `build/` directories, in increasing order.
pub open spec fn build_hashes(build: Seq<BuildEntry>) -> Seq<Seq<char>> {
    listing(build_pred(build))
}

// ---------------------------------------------------------------------------
// Fingerprint units
// ---------------------------------------------------------------------------

pub open spec fn fp_split(e: FingerprintEntry) -> Option<(Seq<char>, Seq<char>)> {
    if e.is_dir {
        spec_split_hash_suffix(e.name@)
    } else {
        None
    }
}

pub open spec fn fp_hash(e: FingerprintEntry) -> Seq<char> {
    let (_, h) = fp_split(e)->0;
    h
}

pub open spec fn fp_file_names(e: FingerprintEntry) -> Seq<Seq<char>> {
    Seq::new(e.files@.len(), |i: int| e.files@[i].name@)
}

pub open spec fn fp_kind(e: FingerprintEntry) -> Option<KindModel> {
    spec_unit_kind(fp_file_names(e))
}

/// A fingerprint directory that names a unit: `<pkg>-<hash>` with recognizable
/// state files.
pub open spec fn is_fp_unit(e: FingerprintEntry) -> bool {
    fp_split(e) is Some && fp_kind(e) is Some
}

/// A `.fingerprint/` entry that matches no grammar: kept.
pub open spec fn fp_unparsed(e: FingerprintEntry) -> bool {
    !e.is_dir || spec_split_hash_suffix(e.name@) is None || fp_kind(e) is None
}

/// Some fingerprint directory carries hash `h` (classifiable or not).
pub open spec fn fp_has(fps: Seq<FingerprintEntry>, h: Seq<char>) -> bool {
    exists|i: int| 0 <= i < fps.len() && fp_split(#[trigger] fps[i]) is Some && fp_hash(fps[i]) == h
}

pub open spec fn stamps_bytes(s: Seq<FileStamp>) -> int
    decreases s.len(),
{
    if s.len() == 0 {
        0
    } else {
        stamps_bytes(s.drop_last()) + s.last().bytes
    }
}

/// The newest known modification time among `s`, never before the epoch.
pub open spec fn stamps_recency(s: Seq<FileStamp>) -> int
    decreases s.len(),
{
    if s.len() == 0 {
        0
    } else {
        let prev = stamps_recency(s.drop_last());
        match s.last().mtime {
            Some(m) => if m > prev {
                m as int
            } else {
                prev
            },
            None => prev,
        }
    }
}

/// Which artifacts the fingerprint's hash owns, encoded as a name list that
/// orders the classes: a `build/` directory (`[]`), `deps/` files (`["d"]`
/// then their extension chains), or nothing (`["o"]`).
pub open spec fn class_key(arts: Seq<ArtifactFile>, build: Seq<BuildEntry>, h: Seq<char>) -> Seq<Seq<char>> {
    if last_build(build, h) is Some {
        Seq::empty()
    } else if arts_with(arts, h).len() > 0 {
        seq!["d"@] + ext_set(arts, h)
    } else {
        seq!["o"@]
    }
}

/// The identity key of a fingerprint unit.
pub open spec fn unit_key(arts: Seq<ArtifactFile>, build: Seq<BuildEntry>, e: FingerprintEntry) -> Seq<Seq<Seq<char>>> {
    let (pkg, h) = fp_split(e)->0;
    seq![
        seq![pkg],
        sorted_names(spec_state_files(fp_file_names(e)).to_multiset()),
        class_key(arts, build, h),
    ]
}

pub open spec fn fp_units(fps: Seq<FingerprintEntry>) -> Seq<FingerprintEntry> {
    fps.filter(|e: FingerprintEntry| is_fp_unit(e))
}

pub open spec fn legacy_observations(
    arts: Seq<ArtifactFile>,
    build: Seq<BuildEntry>,
    units: Seq<FingerprintEntry>,
) -> Seq<(Seq<Seq<Seq<char>>>, int)> {
    Seq::new(units.len(), |i: int| (unit_key(arts, build, units[i]), stamps_recency(units[i].files@)))
}

pub open spec fn is_build_script(k: KindModel) -> bool {
    k is BuildScriptCompile || k is BuildScriptRun
}

/// The deletion of one superseded fingerprint unit with its artifacts.
pub open spec fn unit_item(arts: Seq<ArtifactFile>, build: Seq<BuildEntry>, e: FingerprintEntry) -> ItemModel {
    let h = fp_hash(e);
    let first = seq![seq![".fingerprint"@, e.name@]];
    let fpb = clamp_u64(stamps_bytes(e.files@));
    match last_build(build, h) {
        Some(b) => ItemModel {
            tier: if is_build_script(fp_kind(e)->0) {
                Tier::BuildScripts
            } else {
                Tier::Units
            },
            delete_first: first,
            delete_then: seq![seq!["build"@, b.name@]],
            session_locks: Seq::empty(),
            bytes: clamp_u64(fpb + b.bytes),
            entries: 2,
        },
        None => if arts_with(arts, h).len() > 0 {
            ItemModel {
                tier: if is_build_script(fp_kind(e)->0) {
                    Tier::BuildScripts
                } else {
                    Tier::Units
                },
                delete_first: first,
                delete_then: arts_with(arts, h).map_values(|a: ArtifactFile| art_path(a)),
                session_locks: Seq::empty(),
                bytes: clamp_u64(fpb + clamp_u64(art_bytes(arts_with(arts, h)))),
                entries: clamp_u64(1 + arts_with(arts, h).len() as int),
            }
        } else {
            ItemModel {
                tier: Tier::OrphanFingerprints,
                delete_first: first,
                delete_then: Seq::empty(),
                session_locks: Seq::empty(),
                bytes: fpb,
                entries: 1,
            }
        },
    }
}

/// The re-collection of artifacts whose fingerprint is gone.
pub open spec fn dep_residue_item(arts: Seq<ArtifactFile>, h: Seq<char>) -> ItemModel {
    ItemModel {
        tier: Tier::Units,
        delete_first: Seq::empty(),
        delete_then: arts_with(arts, h).map_values(|a: ArtifactFile| art_path(a)),
        session_locks: Seq::empty(),
        bytes: clamp_u64(art_bytes(arts_with(arts, h))),
        entries: arts_with(arts, h).len() as int,
    }
}

/// The re-collection of a `build/` directory whose fingerprint is gone.
pub open spec fn build_residue_item(build: Seq<BuildEntry>, h: Seq<char>) -> ItemModel {
    ItemModel {
        tier: Tier::BuildScripts,
        delete_first: seq![seq!["build"@, last_build(build, h)->0.name@]],
        delete_then: Seq::empty(),
        session_locks: Seq::empty(),
        bytes: last_build(build, h)->0.bytes as int,
        entries: 1,
    }
}

/// The legacy-layout plan: superseded units in identity order, then
/// fingerprint-less artifacts by hash, then fingerprint-less `build/`
/// directories by hash.
pub open spec fn legacy_plan(
    fps: Seq<FingerprintEntry>,
    arts: Seq<ArtifactFile>,
    build: Seq<BuildEntry>,
) -> Seq<ItemModel> {
    let units = fp_units(fps);
    superseded_order(legacy_observations(arts, build, units)).map_values(
        |p: usize| unit_item(arts, build, units[p as int]),
    ) + dep_hashes(arts).filter(|h: Seq<char>| !fp_has(fps, h)).map_values(
        |h: Seq<char>| dep_residue_item(arts, h),
    ) + build_hashes(build).filter(|h: Seq<char>| !fp_has(fps, h)).map_values(
        |h: Seq<char>| build_residue_item(build, h),
    )
}

/// Entries of `.fingerprint/` and `build/` that match no grammar.
pub open spec fn legacy_unparsed(fps: Seq<FingerprintEntry>, build: Seq<BuildEntry>) -> int {
    crate::scan::count_where(build, |b: BuildEntry| build_unparsed(b)) + crate::scan::count_where(
        fps,
        |e: FingerprintEntry| fp_unparsed(e),
    )
}


// ---------------------------------------------------------------------------
// Executable index building
// ---------------------------------------------------------------------------

fn hash_of_artifact(a: &ArtifactFile) -> (r: Option<String>)
    ensures
        match r {
            Some(h) => art_hash(*a) == Some(h@),
            None => art_hash(*a) is None,
        },
{
    match artifact_hash(a.name.as_str()) {
        Some(h) => Some(h.to_owned()),
        None => None,
    }
}

/// The hash of each artifact, and the sorted distinct hashes.
fn artifact_index(arts: &Vec<ArtifactFile>) -> (r: (Vec<Option<String>>, Vec<String>))
    ensures
        r.0@.len() == arts@.len(),
        forall|i: int| 0 <= i < arts@.len() ==> match #[trigger] r.0@[i] {
            Some(h) => art_hash(arts@[i]) == Some(h@),
            None => art_hash(arts@[i]) is None,
        },
        names(r.1@) == dep_hashes(arts@),
{
    let mut hashes: Vec<Option<String>> = Vec::new();
    let mut list: Vec<String> = Vec::new();
    let mut i: usize = 0;
    while i < arts.len()
        invariant
            i <= arts@.len(),
            hashes@.len() == i,
            forall|k: int| 0 <= k < i ==> match #[trigger] hashes@[k] {
                Some(h) => art_hash(arts@[k]) == Some(h@),
                None => art_hash(arts@[k]) is None,
            },
            strictly_sorted_by(names(list@), str_order()),
            forall|x: Seq<char>| #[trigger] names(list@).contains(x) <==> exists|k: int|
                0 <= k < i && art_hash(#[trigger] arts@[k]) == Some(x),
        decreases arts.len() - i,
    {
        let h = hash_of_artifact(&arts[i]);
        match &h {
            Some(hs) => {
                let ghost old_list = names(list@);
                insert_unique(&mut list, hs.clone());
                assert forall|x: Seq<char>| #[trigger] names(list@).contains(x) <==> exists|k: int|
                    0 <= k < i + 1 && art_hash(#[trigger] arts@[k]) == Some(x) by {
                    if x == hs@ {
                        assert(art_hash(arts@[i as int]) == Some(x));
                    }
                    if exists|k: int| 0 <= k < i + 1 && art_hash(#[trigger] arts@[k]) == Some(x) {
                        let k = choose|k: int| 0 <= k < i + 1 && art_hash(#[trigger] arts@[k]) == Some(x);
                        if k < i {
                            assert(old_list.contains(x));
                        }
                    }
                }
            },
            None => {
                assert forall|x: Seq<char>| #[trigger] names(list@).contains(x) <==> exists|k: int|
                    0 <= k < i + 1 && art_hash(#[trigger] arts@[k]) == Some(x) by {
                    if exists|k: int| 0 <= k < i + 1 && art_hash(#[trigger] arts@[k]) == Some(x) {
                        let k = choose|k: int| 0 <= k < i + 1 && art_hash(#[trigger] arts@[k]) == Some(x);
                        assert(k < i);
                    }
                }
            },
        }
        hashes.push(h);
        i = i + 1;
    }
    proof {
        assert(is_listing(names(list@), dep_pred(arts@)));
        lemma_is_listing(names(list@), dep_pred(arts@));
    }
    (hashes, list)
}

/// Paths, bytes, count and extension chains of the artifacts with hash `h`.
fn deps_for(arts: &Vec<ArtifactFile>, hashes: &Vec<Option<String>>, h: &String) -> (r: (
    Vec<Vec<String>>,
    u64,
    u64,
    Vec<String>,
))
    requires
        hashes@.len() == arts@.len(),
        forall|i: int| 0 <= i < arts@.len() ==> match #[trigger] hashes@[i] {
            Some(x) => art_hash(arts@[i]) == Some(x@),
            None => art_hash(arts@[i]) is None,
        },
    ensures
        name_lists(r.0@) == arts_with(arts@, h@).map_values(|a: ArtifactFile| art_path(a)),
        r.1 == clamp_u64(art_bytes(arts_with(arts@, h@))),
        r.2 == arts_with(arts@, h@).len(),
        names(r.3@) == ext_set(arts@, h@),
{
    let ghost pred = |a: ArtifactFile| art_hash(a) == Some(h@);
    let ghost f = |a: ArtifactFile| art_path(a);
    let mut paths: Vec<Vec<String>> = Vec::new();
    let mut bytes: u64 = 0;
    let mut files: u64 = 0;
    let mut exts: Vec<String> = Vec::new();
    let mut i: usize = 0;
    assert(arts@.take(0).filter(pred) =~= Seq::<ArtifactFile>::empty());
    assert(name_lists(paths@) =~= arts@.take(0).filter(pred).map_values(f));
    while i < arts.len()
        invariant
            i <= arts@.len(),
            hashes@.len() == arts@.len(),
            forall|k: int| 0 <= k < arts@.len() ==> match #[trigger] hashes@[k] {
                Some(x) => art_hash(arts@[k]) == Some(x@),
                None => art_hash(arts@[k]) is None,
            },
            pred == (|a: ArtifactFile| art_hash(a) == Some(h@)),
            f == (|a: ArtifactFile| art_path(a)),
            name_lists(paths@) == arts@.take(i as int).filter(pred).map_values(f),
            bytes == clamp_u64(art_bytes(arts@.take(i as int).filter(pred))),
            files == arts@.take(i as int).filter(pred).len(),
            files <= i,
            strictly_sorted_by(names(exts@), str_order()),
            forall|x: Seq<char>| #[trigger] names(exts@).contains(x) <==> exists|k: int|
                0 <= k < i && art_hash(#[trigger] arts@[k]) == Some(h@) && spec_extension_chain(arts@[k].name@) == x,
        decreases arts.len() - i,
    {
        let ghost sel_before = arts@.take(i as int).filter(pred);
        proof {
            assert(arts@.take(i + 1) =~= arts@.take(i as int).push(arts@[i as int]));
            arts@.take(i as int).lemma_filter_push(arts@[i as int], pred);
        }
        let matches = match &hashes[i] {
            Some(x) => str_eq(x.as_str(), h.as_str()),
            None => false,
        };
        assert(matches == pred(arts@[i as int]));
        if matches {
            let a = &arts[i];
            let ghost old_paths = name_lists(paths@);
            let ghost old_exts = names(exts@);
            paths.push(vec![a.pool.clone(), a.name.clone()]);
            bytes = bytes.saturating_add(a.bytes);
            files = files + 1;
            insert_unique(&mut exts, extension_chain(a.name.as_str()).to_owned());
            proof {
                let sel = arts@.take(i + 1).filter(pred);
                assert(sel =~= sel_before.push(arts@[i as int]));
                assert(sel.drop_last() =~= sel_before);
                assert(names(paths@[paths@.len() - 1]@) =~= seq![a.pool@, a.name@]);
                assert(name_lists(paths@) =~= old_paths.push(art_path(arts@[i as int])));
                assert(sel.map_values(f) =~= sel_before.map_values(f).push(f(arts@[i as int])));
                assert forall|x: Seq<char>| #[trigger] names(exts@).contains(x) <==> exists|k: int|
                    0 <= k < i + 1 && art_hash(#[trigger] arts@[k]) == Some(h@) && spec_extension_chain(arts@[k].name@) == x by {
                    if x == spec_extension_chain(a.name@) {
                        assert(art_hash(arts@[i as int]) == Some(h@));
                    }
                    if exists|k: int| 0 <= k < i + 1 && art_hash(#[trigger] arts@[k]) == Some(h@) && spec_extension_chain(arts@[k].name@) == x {
                        let k = choose|k: int| 0 <= k < i + 1 && art_hash(#[trigger] arts@[k]) == Some(h@) && spec_extension_chain(arts@[k].name@) == x;
                        if k < i {
                            assert(old_exts.contains(x));
                        }
                    }
                }
            }
        } else {
            proof {
                assert(arts@.take(i + 1).filter(pred) =~= sel_before);
                assert forall|x: Seq<char>| #[trigger] names(exts@).contains(x) <==> exists|k: int|
                    0 <= k < i + 1 && art_hash(#[trigger] arts@[k]) == Some(h@) && spec_extension_chain(arts@[k].name@) == x by {
                    if exists|k: int| 0 <= k < i + 1 && art_hash(#[trigger] arts@[k]) == Some(h@) && spec_extension_chain(arts@[k].name@) == x {
                        let k = choose|k: int| 0 <= k < i + 1 && art_hash(#[trigger] arts@[k]) == Some(h@) && spec_extension_chain(arts@[k].name@) == x;
                        assert(k < i);
                    }
                }
            }
        }
        i = i + 1;
    }
    assert(arts@.take(i as int) =~= arts@);
    proof {
        assert(is_listing(names(exts@), ext_pred(arts@, h@)));
        lemma_is_listing(names(exts@), ext_pred(arts@, h@));
    }
    (paths, bytes, files, exts)
}


fn hash_of_build(b: &BuildEntry) -> (r: Option<String>)
    ensures
        match r {
            Some(h) => build_hash(*b) == Some(h@),
            None => build_hash(*b) is None,
        },
{
    if !b.is_dir {
        return None;
    }
    match split_hash_suffix(b.name.as_str()) {
        Some((_, h)) => Some(h.to_owned()),
        None => None,
    }
}

/// The hash of each `build/` entry, the sorted distinct hashes, and the
/// number of directories whose name carries none.
fn build_index(build: &Vec<BuildEntry>) -> (r: (Vec<Option<String>>, Vec<String>, u64))
    ensures
        r.0@.len() == build@.len(),
        forall|i: int| 0 <= i < build@.len() ==> match #[trigger] r.0@[i] {
            Some(h) => build_hash(build@[i]) == Some(h@),
            None => build_hash(build@[i]) is None,
        },
        names(r.1@) == build_hashes(build@),
        is_listing(names(r.1@), build_pred(build@)),
        r.2 == crate::scan::count_where(build@, |b: BuildEntry| build_unparsed(b)),
        r.2 <= build@.len(),
{
    let ghost unp = |b: BuildEntry| build_unparsed(b);
    let mut hashes: Vec<Option<String>> = Vec::new();
    let mut list: Vec<String> = Vec::new();
    let mut unparsed: u64 = 0;
    let mut i: usize = 0;
    assert(build@.take(0) =~= Seq::<BuildEntry>::empty());
    while i < build.len()
        invariant
            i <= build@.len(),
            unp == (|b: BuildEntry| build_unparsed(b)),
            hashes@.len() == i,
            forall|k: int| 0 <= k < i ==> match #[trigger] hashes@[k] {
                Some(h) => build_hash(build@[k]) == Some(h@),
                None => build_hash(build@[k]) is None,
            },
            strictly_sorted_by(names(list@), str_order()),
            forall|x: Seq<char>| #[trigger] names(list@).contains(x) <==> exists|k: int|
                0 <= k < i && build_hash(#[trigger] build@[k]) == Some(x),
            unparsed == crate::scan::count_where(build@.take(i as int), unp),
            unparsed <= i,
        decreases build.len() - i,
    {
        let b = &build[i];
        assert(build@.take(i + 1).drop_last() =~= build@.take(i as int));
        if b.is_dir && split_hash_suffix(b.name.as_str()).is_none() {
            unparsed = unparsed + 1;
        }
        let h = hash_of_build(b);
        match &h {
            Some(hs) => {
                let ghost old_list = names(list@);
                insert_unique(&mut list, hs.clone());
                assert forall|x: Seq<char>| #[trigger] names(list@).contains(x) <==> exists|k: int|
                    0 <= k < i + 1 && build_hash(#[trigger] build@[k]) == Some(x) by {
                    if x == hs@ {
                        assert(build_hash(build@[i as int]) == Some(x));
                    }
                    if exists|k: int| 0 <= k < i + 1 && build_hash(#[trigger] build@[k]) == Some(x) {
                        let k = choose|k: int| 0 <= k < i + 1 && build_hash(#[trigger] build@[k]) == Some(x);
                        if k < i {
                            assert(old_list.contains(x));
                        }
                    }
                }
            },
            None => {
                assert forall|x: Seq<char>| #[trigger] names(list@).contains(x) <==> exists|k: int|
                    0 <= k < i + 1 && build_hash(#[trigger] build@[k]) == Some(x) by {
                    if exists|k: int| 0 <= k < i + 1 && build_hash(#[trigger] build@[k]) == Some(x) {
                        let k = choose|k: int| 0 <= k < i + 1 && build_hash(#[trigger] build@[k]) == Some(x);
                        assert(k < i);
                    }
                }
            },
        }
        hashes.push(h);
        i = i + 1;
    }
    assert(build@.take(i as int) =~= build@);
    proof {
        assert(is_listing(names(list@), build_pred(build@)));
        lemma_is_listing(names(list@), build_pred(build@));
    }
    (hashes, list, unparsed)
}

/// Position of the last `build/` directory with hash `h`.
fn last_build_for(build: &Vec<BuildEntry>, hashes: &Vec<Option<String>>, h: &str) -> (r: Option<usize>)
    requires
        hashes@.len() == build@.len(),
        forall|i: int| 0 <= i < build@.len() ==> match #[trigger] hashes@[i] {
            Some(x) => build_hash(build@[i]) == Some(x@),
            None => build_hash(build@[i]) is None,
        },
    ensures
        match r {
            Some(k) => k < build@.len() && last_build(build@, h@) == Some(build@[k as int]),
            None => last_build(build@, h@) is None,
        },
{
    let mut i: usize = build.len();
    assert(build@.take(i as int) =~= build@);
    while i > 0
        invariant
            i <= build@.len(),
            hashes@.len() == build@.len(),
            forall|k: int| 0 <= k < build@.len() ==> match #[trigger] hashes@[k] {
                Some(x) => build_hash(build@[k]) == Some(x@),
                None => build_hash(build@[k]) is None,
            },
            last_build(build@, h@) == last_build(build@.take(i as int), h@),
        decreases i,
    {
        let found = match &hashes[i - 1] {
            Some(x) => str_eq(x.as_str(), h),
            None => false,
        };
        assert(build@.take(i as int).last() == build@[i - 1]);
        assert(build@.take(i as int).drop_last() =~= build@.take(i - 1));
        if found {
            return Some(i - 1);
        }
        i = i - 1;
    }
    None
}

/// `h` occurs in `v`.
fn has_name(v: &Vec<String>, h: &str) -> (r: bool)
    ensures
        r == names(v@).contains(h@),
{
    let mut i: usize = 0;
    while i < v.len()
        invariant
            i <= v@.len(),
            forall|k: int| 0 <= k < i ==> names(v@)[k] != h@,
        decreases v.len() - i,
    {
        if str_eq(v[i].as_str(), h) {
            assert(names(v@)[i as int] == h@);
            return true;
        }
        i = i + 1;
    }
    false
}

/// The names of the files in a fingerprint directory.
fn file_names(e: &FingerprintEntry) -> (r: Vec<&str>)
    ensures
        slice_names(r@) == fp_file_names(*e),
{
    let mut r: Vec<&str> = Vec::new();
    let mut i: usize = 0;
    while i < e.files.len()
        invariant
            i <= e.files@.len(),
            r@.len() == i,
            forall|k: int| 0 <= k < i ==> #[trigger] r@[k]@ == e.files@[k].name@,
        decreases e.files.len() - i,
    {
        r.push(e.files[i].name.as_str());
        i = i + 1;
    }
    assert(slice_names(r@) =~= fp_file_names(*e));
    r
}

/// Saturated byte total and newest modification time of the files.
fn stamps_summary(files: &Vec<FileStamp>) -> (r: (u64, i128))
    ensures
        r.0 == clamp_u64(stamps_bytes(files@)),
        r.1 == stamps_recency(files@),
{
    let mut bytes: u64 = 0;
    let mut recency: i128 = 0;
    let mut i: usize = 0;
    assert(files@.take(0) =~= Seq::<FileStamp>::empty());
    while i < files.len()
        invariant
            i <= files@.len(),
            bytes == clamp_u64(stamps_bytes(files@.take(i as int))),
            recency == stamps_recency(files@.take(i as int)),
        decreases files.len() - i,
    {
        assert(files@.take(i + 1).drop_last() =~= files@.take(i as int));
        let f = &files[i];
        bytes = bytes.saturating_add(f.bytes);
        match f.mtime {
            Some(m) => {
                if m > recency {
                    recency = m;
                }
            },
            None => {},
        }
        i = i + 1;
    }
    assert(files@.take(i as int) =~= files@);
    (bytes, recency)
}


/// The identity key of a fingerprint unit.
fn unit_key_of(
    e: &FingerprintEntry,
    arts: &Vec<ArtifactFile>,
    ahashes: &Vec<Option<String>>,
    build: &Vec<BuildEntry>,
    bhashes: &Vec<Option<String>>,
    pkg: &str,
    h: &String,
) -> (key: Vec<Vec<String>>)
    requires
        fp_split(*e) == Some((pkg@, h@)),
        ahashes@.len() == arts@.len(),
        forall|i: int| 0 <= i < arts@.len() ==> match #[trigger] ahashes@[i] {
            Some(x) => art_hash(arts@[i]) == Some(x@),
            None => art_hash(arts@[i]) is None,
        },
        bhashes@.len() == build@.len(),
        forall|i: int| 0 <= i < build@.len() ==> match #[trigger] bhashes@[i] {
            Some(x) => build_hash(build@[i]) == Some(x@),
            None => build_hash(build@[i]) is None,
        },
    ensures
        name_lists(key@) == unit_key(arts@, build@, *e),
{
    let fnames = file_names(e);
    let state = unit_state_files(fnames.as_slice());
    proof {
        lemma_is_sorted_names(names(state@));
    }
    let class: Vec<String> = match last_build_for(build, bhashes, h.as_str()) {
        Some(_) => Vec::new(),
        None => {
            let (_, _, files, exts) = deps_for(arts, ahashes, h);
            if files > 0 {
                let mut c: Vec<String> = vec!["d".to_owned()];
                let mut j: usize = 0;
                while j < exts.len()
                    invariant
                        j <= exts@.len(),
                        names(c@) == seq!["d"@] + names(exts@).take(j as int),
                    decreases exts.len() - j,
                {
                    let ghost before = names(c@);
                    c.push(exts[j].clone());
                    assert(names(exts@).take(j + 1) =~= names(exts@).take(j as int).push(names(exts@)[j as int]));
                    assert(names(c@) =~= before.push(exts@[j as int]@));
                    j = j + 1;
                }
                assert(names(exts@).take(j as int) =~= names(exts@));
                c
            } else {
                vec!["o".to_owned()]
            }
        },
    };
    let key = vec![vec![pkg.to_owned()], state, class];
    proof {
        assert(names(key@[0]@) =~= seq![pkg@]);
        assert(names(key@[2]@) =~= class_key(arts@, build@, h@));
        assert(name_lists(key@) =~= unit_key(arts@, build@, *e));
    }
    key
}

/// The item that deletes a fingerprint unit with its artifacts.
fn unit_item_of(
    e: &FingerprintEntry,
    arts: &Vec<ArtifactFile>,
    ahashes: &Vec<Option<String>>,
    build: &Vec<BuildEntry>,
    bhashes: &Vec<Option<String>>,
) -> (item: ReclaimItem)
    requires
        is_fp_unit(*e),
        ahashes@.len() == arts@.len(),
        forall|i: int| 0 <= i < arts@.len() ==> match #[trigger] ahashes@[i] {
            Some(x) => art_hash(arts@[i]) == Some(x@),
            None => art_hash(arts@[i]) is None,
        },
        bhashes@.len() == build@.len(),
        forall|i: int| 0 <= i < build@.len() ==> match #[trigger] bhashes@[i] {
            Some(x) => build_hash(build@[i]) == Some(x@),
            None => build_hash(build@[i]) is None,
        },
    ensures
        item@ == unit_item(arts@, build@, *e),
{
    let h: String = match split_hash_suffix(e.name.as_str()) {
        Some((_, h)) => h.to_owned(),
        None => {
            assert(false);
            String::new()
        },
    };
    assert(h@ == fp_hash(*e));
    let fnames = file_names(e);
    let is_bs = match unit_kind_from_files(fnames.as_slice()) {
        Some(UnitKind::BuildScriptCompile) => true,
        Some(UnitKind::BuildScriptRun) => true,
        _ => false,
    };
    assert(is_bs == is_build_script(fp_kind(*e)->0));
    let (fpb, _) = stamps_summary(&e.files);
    let first = vec![vec![".fingerprint".to_owned(), e.name.clone()]];
    proof {
        assert(names(first@[0]@) =~= seq![".fingerprint"@, e.name@]);
        assert(name_lists(first@) =~= seq![seq![".fingerprint"@, e.name@]]);
    }
    let tier = if is_bs {
        Tier::BuildScripts
    } else {
        Tier::Units
    };
    match last_build_for(build, bhashes, h.as_str()) {
        Some(k) => {
            let b = &build[k];
            let then = vec![vec!["build".to_owned(), b.name.clone()]];
            let none: Vec<Vec<String>> = Vec::new();
            proof {
                assert(names(then@[0]@) =~= seq!["build"@, b.name@]);
                assert(name_lists(then@) =~= seq![seq!["build"@, b.name@]]);
                assert(name_lists(none@) =~= Seq::<Seq<Seq<char>>>::empty());
            }
            ReclaimItem {
                tier,
                delete_first: first,
                delete_then: then,
                session_locks: none,
                bytes: fpb.saturating_add(b.bytes),
                entries: 2,
            }
        },
        None => {
            let (paths, bytes, files, _) = deps_for(arts, ahashes, &h);
            if files > 0 {
                let none: Vec<Vec<String>> = Vec::new();
                proof {
                    assert(name_lists(none@) =~= Seq::<Seq<Seq<char>>>::empty());
                }
                ReclaimItem {
                    tier,
                    delete_first: first,
                    delete_then: paths,
                    session_locks: none,
                    bytes: fpb.saturating_add(bytes),
                    entries: files.saturating_add(1),
                }
            } else {
                let none: Vec<Vec<String>> = Vec::new();
                let none2: Vec<Vec<String>> = Vec::new();
                proof {
                    assert(name_lists(none@) =~= Seq::<Seq<Seq<char>>>::empty());
                    assert(name_lists(none2@) =~= Seq::<Seq<Seq<char>>>::empty());
                }
                ReclaimItem {
                    tier: Tier::OrphanFingerprints,
                    delete_first: first,
                    delete_then: none,
                    session_locks: none2,
                    bytes: fpb,
                    entries: 1,
                }
            }
        },
    }
}

/// What one `.fingerprint/` entry contributes: its `(package, hash)` when it
/// carries a hash, and whether it names a unit.
fn fp_parts(e: &FingerprintEntry) -> (r: (Option<(String, String)>, bool))
    ensures
        match r.0 {
            Some((p, h)) => fp_split(*e) == Some((p@, h@)),
            None => fp_split(*e) is None,
        },
        r.1 == is_fp_unit(*e),
{
    if !e.is_dir {
        return (None, false);
    }
    match split_hash_suffix(e.name.as_str()) {
        Some((p, h)) => {
            let fnames = file_names(e);
            let named = unit_kind_from_files(fnames.as_slice()).is_some();
            (Some((p.to_owned(), h.to_owned())), named)
        },
        None => (None, false),
    }
}

/// Two fingerprint units of the same package with the same state files (as
/// a set of names with multiplicity, whatever their order on disk).
pub open spec fn same_package_and_state(a: FingerprintEntry, b: FingerprintEntry) -> bool {
    &&& (fp_split(a)->0).0 == (fp_split(b)->0).0
    &&& spec_state_files(fp_file_names(a)).to_multiset() == spec_state_files(fp_file_names(b)).to_multiset()
}

/// Two fingerprint units own the same class of artifacts: both a `build/`
/// directory, or both `deps/` files with the same extension chains, or
/// neither.
pub open spec fn same_artifact_class(
    arts: Seq<ArtifactFile>,
    build: Seq<BuildEntry>,
    a: FingerprintEntry,
    b: FingerprintEntry,
) -> bool {
    let ha = fp_hash(a);
    let hb = fp_hash(b);
    &&& (last_build(build, ha) is Some <==> last_build(build, hb) is Some)
    &&& last_build(build, ha) is None ==> (arts_with(arts, ha).len() > 0 <==> arts_with(arts, hb).len() > 0)
    &&& last_build(build, ha) is None && arts_with(arts, ha).len() > 0 ==> ext_set(arts, ha) == ext_set(arts, hb)
}

/// Unit `q` has a unit kept out of `ps` with the same package, the same
/// state files and the same artifact class, and at least as recent.
pub open spec fn kept_twin(
    arts: Seq<ArtifactFile>,
    build: Seq<BuildEntry>,
    units: Seq<FingerprintEntry>,
    ps: Seq<usize>,
    q: int,
) -> bool {
    exists|j: int|
        0 <= j < units.len() && j != q && !ps.contains(j as usize) && #[trigger] same_package_and_state(
            units[j],
            units[q],
        ) && same_artifact_class(arts, build, units[j], units[q]) && stamps_recency(units[q].files@)
            <= stamps_recency(units[j].files@)
}

/// A unit planned as superseded always has a kept unit of the same package
/// and the same state files: units whose state-file sets differ (a build
/// script's compile and run units, a lib and its test) never supersede each
/// other.
pub proof fn law_legacy_superseded_by_same_state(
    arts: Seq<ArtifactFile>,
    build: Seq<BuildEntry>,
    units: Seq<FingerprintEntry>,
    ps: Seq<usize>,
)
    requires
        units.len() <= usize::MAX,
        keeps_one_newest(legacy_observations(arts, build, units), ps),
    ensures
        forall|k: int| 0 <= k < ps.len() ==> #[trigger] kept_twin(arts, build, units, ps, ps[k] as int),
{
    let obs = legacy_observations(arts, build, units);
    assert forall|k: int| 0 <= k < ps.len() implies #[trigger] kept_twin(arts, build, units, ps, ps[k] as int) by {
        let q = ps[k] as int;
        assert(q < obs.len());
        assert(survivor_of(obs, ps, q));
        let j = choose|j: int|
            0 <= j < obs.len() && obs[j].0 == obs[q].0 && !ps.contains(j as usize) && (forall|m: int|
                0 <= m < obs.len() && obs[m].0 == obs[q].0 && m != j ==> #[trigger] ps.contains(m as usize)
                    && ident_before(obs, m, j));
        assert(ps.contains(ps[k]));
        assert((j as usize) as int == j);
        let kj = unit_key(arts, build, units[j]);
        let kq = unit_key(arts, build, units[q]);
        assert(kj == obs[j].0 && kq == obs[q].0);
        assert(kj[0][0] == (fp_split(units[j])->0).0);
        assert(kq[0][0] == (fp_split(units[q])->0).0);
        assert(kj[1] == kq[1]);
        lemma_sorted_names_injective(
            spec_state_files(fp_file_names(units[j])),
            spec_state_files(fp_file_names(units[q])),
        );
        assert(same_package_and_state(units[j], units[q]));
        let hj = fp_hash(units[j]);
        let hq = fp_hash(units[q]);
        assert(kj[2] == class_key(arts, build, hj));
        assert(kq[2] == class_key(arts, build, hq));
        assert(kj[2] == kq[2]);
        reveal_strlit("d");
        reveal_strlit("o");
        if last_build(build, hj) is None && arts_with(arts, hj).len() > 0 {
            assert(kj[2][0] == "d"@);
            if last_build(build, hq) is None && arts_with(arts, hq).len() == 0 {
                assert(kq[2][0] == "o"@);
                assert("d"@[0] != "o"@[0]);
            }
            assert(kj[2].skip(1) =~= ext_set(arts, hj));
            assert(kq[2].skip(1) =~= ext_set(arts, hq));
        }
        if last_build(build, hq) is None && arts_with(arts, hq).len() > 0 && last_build(build, hj) is None
            && arts_with(arts, hj).len() == 0 {
            assert(kj[2][0] == "o"@);
            assert(kq[2][0] == "d"@);
            assert("d"@[0] != "o"@[0]);
        }
        assert(same_artifact_class(arts, build, units[j], units[q]));
        assert(ps.contains(q as usize));
        assert(ident_before(obs, q, j));
        lemma_orders_strict_total();
        assert(!key_order()(obs[q].0, obs[j].0));
        assert(obs[q].1 == stamps_recency(units[q].files@) && obs[j].1 == stamps_recency(units[j].files@));
    }
}


/// Tiers 2–4 on the legacy layout. Returns the plan and the number of
/// `.fingerprint/` and `build/` entries kept because they match no grammar.
pub fn classify_legacy(
    fps: &Vec<FingerprintEntry>,
    arts: &Vec<ArtifactFile>,
    build: &Vec<BuildEntry>,
) -> (res: (Vec<ReclaimItem>, u64))
    ensures
        item_models(res.0@) == legacy_plan(fps@, arts@, build@),
        res.1 == clamp_u64(legacy_unparsed(fps@, build@)),
        // Keep-newest per identity: the plan opens with the items of every
        // fingerprint unit but the newest of its identity (package,
        // state-file set, artifact class), once each, each deleting the
        // unit's fingerprint directory first and its artifacts after.
        exists|ps: Seq<usize>|
            #[trigger] keeps_one_newest(legacy_observations(arts@, build@, fp_units(fps@)), ps) && ps.len()
                <= res.0@.len() && (forall|k: int|
                0 <= k < ps.len() ==> item_models(res.0@)[k] == unit_item(arts@, build@, fp_units(fps@)[ps[k] as int])
                    && item_models(res.0@)[k].delete_first == seq![seq![".fingerprint"@, fp_units(fps@)[ps[k] as int].name@]])
                // ... and only for a kept unit of the same package with the
                // same state files.
                && forall|k: int| 0 <= k < ps.len() ==> #[trigger] kept_twin(arts@, build@, fp_units(fps@), ps, ps[k] as int),
{
    let (ahashes, dep_list) = artifact_index(arts);
    let (bhashes, build_list, build_unparsed_n) = build_index(build);
    let ghost upred = |e: FingerprintEntry| is_fp_unit(e);
    let ghost unp = |e: FingerprintEntry| fp_unparsed(e);
    let mut fp_hashes: Vec<String> = Vec::new();
    let mut unit_of: Vec<usize> = Vec::new();
    let mut obs: Vec<Observation> = Vec::new();
    let mut unparsed: u64 = 0;
    let mut i: usize = 0;
    assert(fps@.take(0).filter(upred) =~= Seq::<FingerprintEntry>::empty());
    assert(fps@.take(0) =~= Seq::<FingerprintEntry>::empty());
    while i < fps.len()
        invariant
            i <= fps@.len(),
            upred == (|e: FingerprintEntry| is_fp_unit(e)),
            unp == (|e: FingerprintEntry| fp_unparsed(e)),
            ahashes@.len() == arts@.len(),
            forall|k: int| 0 <= k < arts@.len() ==> match #[trigger] ahashes@[k] {
                Some(x) => art_hash(arts@[k]) == Some(x@),
                None => art_hash(arts@[k]) is None,
            },
            bhashes@.len() == build@.len(),
            forall|k: int| 0 <= k < build@.len() ==> match #[trigger] bhashes@[k] {
                Some(x) => build_hash(build@[k]) == Some(x@),
                None => build_hash(build@[k]) is None,
            },
            forall|x: Seq<char>| #[trigger] names(fp_hashes@).contains(x) <==> exists|k: int|
                0 <= k < i && fp_split(#[trigger] fps@[k]) is Some && fp_hash(fps@[k]) == x,
            unit_of@.len() == obs@.len(),
            unit_of@.len() == fps@.take(i as int).filter(upred).len(),
            forall|k: int| 0 <= k < unit_of@.len() ==> #[trigger] unit_of@[k] < fps@.len(),
            forall|k: int| 0 <= k < unit_of@.len() ==> fps@[#[trigger] unit_of@[k] as int] == fps@.take(i as int).filter(upred)[k],
            observations(obs@) == legacy_observations(arts@, build@, fps@.take(i as int).filter(upred)),
            unparsed == crate::scan::count_where(fps@.take(i as int), unp),
            unparsed <= i,
        decreases fps.len() - i,
    {
        let e = &fps[i];
        let ghost units_before = fps@.take(i as int).filter(upred);
        proof {
            assert(fps@.take(i + 1) =~= fps@.take(i as int).push(fps@[i as int]));
            fps@.take(i as int).lemma_filter_push(fps@[i as int], upred);
            assert(fps@.take(i + 1).drop_last() =~= fps@.take(i as int));
        }
        let (split, named) = fp_parts(e);
        match split {
            Some((pkg, h)) => {
                let ghost old_hashes = names(fp_hashes@);
                fp_hashes.push(h.clone());
                proof {
                    let nh = names(fp_hashes@);
                    assert(nh =~= old_hashes.push(h@));
                    assert(fp_split(fps@[i as int]) is Some && fp_hash(fps@[i as int]) == h@);
                    assert forall|x: Seq<char>| #[trigger] nh.contains(x) <==> exists|k: int|
                        0 <= k < i + 1 && fp_split(#[trigger] fps@[k]) is Some && fp_hash(fps@[k]) == x by {
                        if nh.contains(x) {
                            let q = choose|q: int| 0 <= q < nh.len() && nh[q] == x;
                            if q < old_hashes.len() {
                                assert(old_hashes[q] == x);
                                assert(old_hashes.contains(x));
                                let k = choose|k: int| 0 <= k < i && fp_split(#[trigger] fps@[k]) is Some && fp_hash(fps@[k]) == x;
                                assert(0 <= k < i + 1 && fp_split(fps@[k]) is Some && fp_hash(fps@[k]) == x);
                            } else {
                                assert(x == h@);
                            }
                        }
                        if exists|k: int| 0 <= k < i + 1 && fp_split(#[trigger] fps@[k]) is Some && fp_hash(fps@[k]) == x {
                            let k = choose|k: int| 0 <= k < i + 1 && fp_split(#[trigger] fps@[k]) is Some && fp_hash(fps@[k]) == x;
                            if k < i {
                                assert(old_hashes.contains(x));
                                let q = choose|q: int| 0 <= q < old_hashes.len() && old_hashes[q] == x;
                                assert(nh[q] == x);
                            } else {
                                assert(nh[old_hashes.len() as int] == x);
                            }
                        }
                    }
                }
                if named {
                    let key = unit_key_of(e, arts, &ahashes, build, &bhashes, pkg.as_str(), &h);
                    let (_, recency) = stamps_summary(&e.files);
                    let ghost old_obs = obs@;
                    unit_of.push(i);
                    obs.push(Observation { key, recency });
                    proof {
                        let units = fps@.take(i + 1).filter(upred);
                        assert(units =~= units_before.push(fps@[i as int]));
                        let n = units.len() - 1;
                        assert forall|k: int| 0 <= k < n implies #[trigger] observations(obs@)[k] == legacy_observations(arts@, build@, units)[k] by {
                            assert(observations(obs@)[k] == observations(old_obs)[k]);
                            assert(legacy_observations(arts@, build@, units)[k] == legacy_observations(arts@, build@, units_before)[k]);
                        }
                        assert(observations(obs@)[n] == legacy_observations(arts@, build@, units)[n]);
                        assert(observations(obs@) =~= legacy_observations(arts@, build@, units));
                    }
                    assert(!fp_unparsed(*e));
                } else {
                    unparsed = unparsed + 1;
                    proof {
                        assert(fps@.take(i + 1).filter(upred) =~= units_before);
                    }
                }
            },
            None => {
                unparsed = unparsed + 1;
                proof {
                    assert(fps@.take(i + 1).filter(upred) =~= units_before);
                    assert forall|x: Seq<char>| #[trigger] names(fp_hashes@).contains(x) <==> exists|k: int|
                        0 <= k < i + 1 && fp_split(#[trigger] fps@[k]) is Some && fp_hash(fps@[k]) == x by {
                        if exists|k: int| 0 <= k < i + 1 && fp_split(#[trigger] fps@[k]) is Some && fp_hash(fps@[k]) == x {
                            let k = choose|k: int| 0 <= k < i + 1 && fp_split(#[trigger] fps@[k]) is Some && fp_hash(fps@[k]) == x;
                            assert(k < i);
                        }
                    }
                }
            },
        }
        i = i + 1;
    }
    assert(fps@.take(i as int) =~= fps@);
    let ghost units = fp_units(fps@);
    assert(units == fps@.filter(upred));
    // Superseded units, in identity order.
    let order = supersede(&obs);
    let mut items: Vec<ReclaimItem> = Vec::new();
    let mut p: usize = 0;
    while p < order.len()
        invariant
            p <= order@.len(),
            units == fp_units(fps@),
            upred == (|e: FingerprintEntry| is_fp_unit(e)),
            units == fps@.filter(upred),
            order@ == superseded_order(legacy_observations(arts@, build@, units)),
            forall|k: int| 0 <= k < order@.len() ==> #[trigger] order@[k] < obs@.len(),
            unit_of@.len() == obs@.len(),
            unit_of@.len() == units.len(),
            forall|k: int| 0 <= k < unit_of@.len() ==> #[trigger] unit_of@[k] < fps@.len(),
            forall|k: int| 0 <= k < unit_of@.len() ==> fps@[#[trigger] unit_of@[k] as int] == units[k],
            ahashes@.len() == arts@.len(),
            forall|k: int| 0 <= k < arts@.len() ==> match #[trigger] ahashes@[k] {
                Some(x) => art_hash(arts@[k]) == Some(x@),
                None => art_hash(arts@[k]) is None,
            },
            bhashes@.len() == build@.len(),
            forall|k: int| 0 <= k < build@.len() ==> match #[trigger] bhashes@[k] {
                Some(x) => build_hash(build@[k]) == Some(x@),
                None => build_hash(build@[k]) is None,
            },
            item_models(items@) == order@.take(p as int).map_values(|q: usize| unit_item(arts@, build@, units[q as int])),
        decreases order.len() - p,
    {
        let e = &fps[unit_of[order[p]]];
        proof {
            assert(units[order@[p as int] as int] == *e);
            fps@.lemma_filter_pred(upred, order@[p as int] as int);
        }
        let item = unit_item_of(e, arts, &ahashes, build, &bhashes);
        let ghost before = items@;
        items.push(item);
        proof {
            assert(order@.take(p + 1) =~= order@.take(p as int).push(order@[p as int]));
            assert(item_models(items@) =~= item_models(before).push(unit_item(arts@, build@, units[order@[p as int] as int])));
        }
        p = p + 1;
    }
    assert(order@.take(p as int) =~= order@);
    // Artifacts whose fingerprint is gone, by hash.
    let ghost dpred = |h: Seq<char>| !fp_has(fps@, h);
    let ghost dmap = |h: Seq<char>| dep_residue_item(arts@, h);
    let mut dep_items: Vec<ReclaimItem> = Vec::new();
    let mut j: usize = 0;
    assert(names(dep_list@).take(0).filter(dpred) =~= Seq::<Seq<char>>::empty());
    assert(item_models(dep_items@) =~= names(dep_list@).take(0).filter(dpred).map_values(dmap));
    while j < dep_list.len()
        invariant
            j <= dep_list@.len(),
            dpred == (|h: Seq<char>| !fp_has(fps@, h)),
            dmap == (|h: Seq<char>| dep_residue_item(arts@, h)),
            forall|x: Seq<char>| #[trigger] names(fp_hashes@).contains(x) <==> fp_has(fps@, x),
            ahashes@.len() == arts@.len(),
            forall|k: int| 0 <= k < arts@.len() ==> match #[trigger] ahashes@[k] {
                Some(x) => art_hash(arts@[k]) == Some(x@),
                None => art_hash(arts@[k]) is None,
            },
            item_models(dep_items@) == names(dep_list@).take(j as int).filter(dpred).map_values(dmap),
        decreases dep_list.len() - j,
    {
        let h = &dep_list[j];
        let ghost all = names(dep_list@);
        proof {
            assert(all.take(j + 1) =~= all.take(j as int).push(all[j as int]));
            all.take(j as int).lemma_filter_push(all[j as int], dpred);
        }
        if !has_name(&fp_hashes, h.as_str()) {
            let (paths, bytes, files, _) = deps_for(arts, &ahashes, h);
            let ghost before = dep_items@;
            dep_items.push(ReclaimItem {
                tier: Tier::Units,
                delete_first: Vec::new(),
                delete_then: paths,
                session_locks: Vec::new(),
                bytes,
                entries: files,
            });
            proof {
                let it = dep_items@[dep_items@.len() - 1];
                assert(name_lists(it.delete_first@) =~= Seq::<Seq<Seq<char>>>::empty());
                assert(name_lists(it.session_locks@) =~= Seq::<Seq<Seq<char>>>::empty());
                assert(all.take(j + 1).filter(dpred) =~= all.take(j as int).filter(dpred).push(all[j as int]));
                assert(item_models(dep_items@) =~= item_models(before).push(dmap(all[j as int])));
            }
        } else {
            assert(all.take(j + 1).filter(dpred) =~= all.take(j as int).filter(dpred));
        }
        j = j + 1;
    }
    assert(names(dep_list@).take(j as int) =~= names(dep_list@));
    // build/ directories whose fingerprint is gone, by hash.
    let ghost bmap = |h: Seq<char>| build_residue_item(build@, h);
    let mut build_items: Vec<ReclaimItem> = Vec::new();
    let mut j: usize = 0;
    assert(names(build_list@).take(0).filter(dpred) =~= Seq::<Seq<char>>::empty());
    assert(item_models(build_items@) =~= names(build_list@).take(0).filter(dpred).map_values(bmap));
    while j < build_list.len()
        invariant
            j <= build_list@.len(),
            dpred == (|h: Seq<char>| !fp_has(fps@, h)),
            bmap == (|h: Seq<char>| build_residue_item(build@, h)),
            forall|x: Seq<char>| #[trigger] names(fp_hashes@).contains(x) <==> fp_has(fps@, x),
            names(build_list@) == build_hashes(build@),
            is_listing(names(build_list@), build_pred(build@)),
            bhashes@.len() == build@.len(),
            forall|k: int| 0 <= k < build@.len() ==> match #[trigger] bhashes@[k] {
                Some(x) => build_hash(build@[k]) == Some(x@),
                None => build_hash(build@[k]) is None,
            },
            item_models(build_items@) == names(build_list@).take(j as int).filter(dpred).map_values(bmap),
        decreases build_list.len() - j,
    {
        let h = &build_list[j];
        let ghost all = names(build_list@);
        proof {
            assert(all.take(j + 1) =~= all.take(j as int).push(all[j as int]));
            all.take(j as int).lemma_filter_push(all[j as int], dpred);
        }
        if !has_name(&fp_hashes, h.as_str()) {
            let k = match last_build_for(build, &bhashes, h.as_str()) {
                Some(k) => k,
                None => {
                    proof {
                        assert(is_listing(all, build_pred(build@)));
                        assert(all.contains(h@));
                        assert(build_has(build@, h@));
                        let w = choose|w: int| 0 <= w < build@.len() && build_hash(#[trigger] build@[w]) == Some(h@);
                        lemma_last_build_found(build@, h@, w);
                    }
                    0
                },
            };
            let b = &build[k];
            let first = vec![vec!["build".to_owned(), b.name.clone()]];
            let ghost before = build_items@;
            build_items.push(ReclaimItem {
                tier: Tier::BuildScripts,
                delete_first: first,
                delete_then: Vec::new(),
                session_locks: Vec::new(),
                bytes: b.bytes,
                entries: 1,
            });
            proof {
                let it = build_items@[build_items@.len() - 1];
                assert(names(it.delete_first@[0]@) =~= seq!["build"@, b.name@]);
                assert(name_lists(it.delete_first@) =~= seq![seq!["build"@, b.name@]]);
                assert(name_lists(it.delete_then@) =~= Seq::<Seq<Seq<char>>>::empty());
                assert(name_lists(it.session_locks@) =~= Seq::<Seq<Seq<char>>>::empty());
                assert(all.take(j + 1).filter(dpred) =~= all.take(j as int).filter(dpred).push(all[j as int]));
                assert(item_models(build_items@) =~= item_models(before).push(bmap(all[j as int])));
            }
        } else {
            assert(all.take(j + 1).filter(dpred) =~= all.take(j as int).filter(dpred));
        }
        j = j + 1;
    }
    assert(names(build_list@).take(j as int) =~= names(build_list@));
    let ghost g = items@;
    let ghost d = dep_items@;
    let ghost bi = build_items@;
    items.append(&mut dep_items);
    items.append(&mut build_items);
    proof {
        assert(items@ =~= g + d + bi);
        assert(item_models(items@) =~= item_models(g) + item_models(d) + item_models(bi));
        let lo = legacy_observations(arts@, build@, units);
        assert(lo.len() == obs@.len());
        law_listing_keeps_newest(lo, order@);
        assert forall|k: int| 0 <= k < order@.len() implies item_models(items@)[k] == unit_item(
            arts@,
            build@,
            units[order@[k] as int],
        ) && item_models(items@)[k].delete_first == seq![seq![".fingerprint"@, units[order@[k] as int].name@]] by {
            assert(item_models(items@)[k] == item_models(g)[k]);
        }
        assert(keeps_one_newest(legacy_observations(arts@, build@, fp_units(fps@)), order@));
        fps@.lemma_filter_len(|e: FingerprintEntry| is_fp_unit(e));
        law_legacy_superseded_by_same_state(arts@, build@, fp_units(fps@), order@);
    }
    (items, (build_unparsed_n as u64).saturating_add(unparsed))
}

proof fn lemma_last_build_found(build: Seq<BuildEntry>, h: Seq<char>, w: int)
    requires
        0 <= w < build.len(),
        build_hash(build[w]) == Some(h),
    ensures
        last_build(build, h) is Some,
    decreases build.len(),
{
    if build_hash(build.last()) != Some(h) {
        assert(w < build.len() - 1);
        assert(build.drop_last()[w] == build[w]);
        lemma_last_build_found(build.drop_last(), h, w);
    }
}

} // verus!
