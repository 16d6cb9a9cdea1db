//! Identity-recency classification of a scanned profile directory.
//!
//! The primary rule is *keep the newest per identity key*, with no wall-clock
//! cliffs. The identity key is `(package, unit-state-file set, artifact
//! class)`: the state-file set separates unit kinds and multi-bin groupings;
//! the artifact class separates check-mode from build-mode fingerprints of the
//! same unit (both live, never generations of each other); hash-absent
//! fingerprints group among themselves only.
//!
//! Classification works on a [`ProfileSnapshot`]: names, sizes and
//! modification times observed in the profile, never file contents. It
//! produces concrete [`ReclaimItem`]s: what to delete, in which order
//! (fingerprint directory before its artifacts), and which rustc session locks
//! must be held. Paths are lists of names relative to the profile directory.

use vstd::prelude::*;
use crate::budget::{ByReclaimable, clamp_u64};
use crate::order::{IndexOrder, sort_indices};
use crate::identity::{
    Observation, ident_before, survivor_of, keeps_one_newest, law_listing_keeps_newest, observations, superseded_order, supersede,
};
use crate::layout::ProfileLayout;
use crate::text::{key_order, lemma_orders_strict_total, chars_of, ends_with, find_last, has_suffix, last_index, name_lists, names, str_eq, strings_eq};
use crate::budget::{ascii_lower, lower_chars};
use crate::unit::{incremental_group, spec_incremental_group};
use crate::legacy::{
    ArtifactFile, BuildEntry, FingerprintEntry, art_path, arts_with, build_hashes, build_residue_item,
    classify_legacy, dep_hashes, dep_residue_item, fp_has, fp_hash, fp_units, legacy_observations,
    legacy_plan, legacy_unparsed, unit_item,
};
use crate::v2::{
    V2Package, V2Unit, classify_v2, flat_units, is_v2_residue, is_v2_unit, v2_item, v2_observations, v2_plan,
    v2_unit_tier, v2_unparsed_count,
};

verus! {

/// Recursive size and count of a directory tree.
#[derive(Debug, Clone, Copy, Default)]
pub struct PoolStats {
    pub bytes: u64,
    pub files: u64,
}

/// Reclaim tiers, cheapest and safest first.
#[derive(Debug, Clone, Copy, PartialEq, Eq, Structural)]
pub enum Tier {
    /// Superseded `incremental/<crate>-<disambiguator>` directories.
    Incremental,
    /// Superseded compiled-unit artifacts and their fingerprint directories.
    Units,
    /// Superseded build-script directories under `build/` and their fingerprints.
    BuildScripts,
    /// Superseded hash-absent fingerprint directories (nothing to pair with).
    OrphanFingerprints,
    /// Opt-in: every `.pdb` under `deps/` and `build/` not already planned.
    Pdb,
    /// Opt-in: full pool wipe of a profile that has not compiled since a cutoff.
    Dormant,
}

/// One concrete deletion unit. `delete_first` paths go before `delete_then`
/// paths (fingerprint before artifacts). If any of `session_locks` cannot be
/// locked exclusively, the whole item is skipped.
#[derive(Debug, Clone)]
pub struct ReclaimItem {
    pub tier: Tier,
    pub delete_first: Vec<Vec<String>>,
    pub delete_then: Vec<Vec<String>>,
    pub session_locks: Vec<Vec<String>>,
    pub bytes: u64,
    pub entries: u64,
}

/// The mathematical value of a [`ReclaimItem`].
pub struct ItemModel {
    pub tier: Tier,
    pub delete_first: Seq<Seq<Seq<char>>>,
    pub delete_then: Seq<Seq<Seq<char>>>,
    pub session_locks: Seq<Seq<Seq<char>>>,
    pub bytes: int,
    pub entries: int,
}

impl View for ReclaimItem {
    type V = ItemModel;

    open spec fn view(&self) -> ItemModel {
        ItemModel {
            tier: self.tier,
            delete_first: name_lists(self.delete_first@),
            delete_then: name_lists(self.delete_then@),
            session_locks: name_lists(self.session_locks@),
            bytes: self.bytes as int,
            entries: self.entries as int,
        }
    }
}

/// The values of a list of items.
pub open spec fn item_models(v: Seq<ReclaimItem>) -> Seq<ItemModel> {
    Seq::new(v.len(), |i: int| v[i]@)
}

// ---------------------------------------------------------------------------
// incremental/
// ---------------------------------------------------------------------------

/// A child of `incremental/` whose metadata could be read.
pub struct IncrementalEntry {
    pub name: String,
    pub is_dir: bool,
    /// Modification time, nanoseconds from the Unix epoch (the epoch when unknown).
    pub mtime: i128,
    /// Recursive size in bytes.
    pub bytes: u64,
    /// Names of the entries directly inside it.
    pub children: Vec<String>,
}

/// The crate an incremental entry caches, when it takes part in grouping.
/// Every package's build script compiles to the crate name
/// `build_script_build`: same-name directories there are different packages,
/// not generations, so they never group.
pub open spec fn inc_crate(e: IncrementalEntry) -> Option<Seq<char>> {
    if e.is_dir {
        match spec_incremental_group(e.name@) {
            Some((krate, _)) => if krate == "build_script_build"@ {
                None
            } else {
                Some(krate)
            },
            None => None,
        }
    } else {
        None
    }
}

/// The entry matches no grammar and is kept.
pub open spec fn inc_unparsed(e: IncrementalEntry) -> bool {
    !e.is_dir || spec_incremental_group(e.name@) is None
}

/// The entries that take part in grouping.
pub open spec fn inc_units(entries: Seq<IncrementalEntry>) -> Seq<IncrementalEntry> {
    entries.filter(|e: IncrementalEntry| inc_crate(e) is Some)
}

/// The identity observations of incremental units: key `[[crate]]`, recency
/// the directory's modification time.
pub open spec fn inc_observations(units: Seq<IncrementalEntry>) -> Seq<(Seq<Seq<Seq<char>>>, int)> {
    Seq::new(units.len(), |i: int| (seq![seq![inc_crate(units[i])->0]], units[i].mtime as int))
}

/// The rustc session lock files directly inside an incremental directory.
pub open spec fn inc_locks(e: IncrementalEntry) -> Seq<Seq<Seq<char>>> {
    names(e.children@).filter(|c: Seq<char>| has_suffix(c, ".lock"@)).map_values(
        |c: Seq<char>| seq!["incremental"@, e.name@, c],
    )
}

/// The deletion of one superseded incremental directory.
pub open spec fn inc_item(e: IncrementalEntry) -> ItemModel {
    ItemModel {
        tier: Tier::Incremental,
        delete_first: seq![seq!["incremental"@, e.name@]],
        delete_then: Seq::empty(),
        session_locks: inc_locks(e),
        bytes: e.bytes as int,
        entries: 1,
    }
}

/// Tier 1 plan: all but the newest incremental directory of every crate.
pub open spec fn inc_plan(entries: Seq<IncrementalEntry>) -> Seq<ItemModel> {
    let units = inc_units(entries);
    superseded_order(inc_observations(units)).map_values(|p: usize| inc_item(units[p as int]))
}

/// Number of entries that match no grammar.
pub open spec fn count_where<T>(s: Seq<T>, p: spec_fn(T) -> bool) -> int
    decreases s.len(),
{
    if s.len() == 0 {
        0
    } else {
        count_where(s.drop_last(), p) + if p(s.last()) {
            1int
        } else {
            0
        }
    }
}

fn inc_crate_of(e: &IncrementalEntry) -> (r: Option<String>)
    ensures
        match r {
            Some(k) => inc_crate(*e) == Some(k@),
            None => inc_crate(*e) is None,
        },
{
    if !e.is_dir {
        return None;
    }
    match incremental_group(e.name.as_str()) {
        Some((krate, _)) => if str_eq(krate, "build_script_build") {
            None
        } else {
            Some(krate.to_owned())
        },
        None => None,
    }
}

fn lock_paths(e: &IncrementalEntry) -> (r: Vec<Vec<String>>)
    ensures
        name_lists(r@) == inc_locks(*e),
{
    let mut r: Vec<Vec<String>> = Vec::new();
    let ghost all = names(e.children@);
    let ghost pred = |c: Seq<char>| has_suffix(c, ".lock"@);
    let ghost f = |c: Seq<char>| seq!["incremental"@, e.name@, c];
    let mut i: usize = 0;
    assert(all.take(0).filter(pred) =~= Seq::<Seq<char>>::empty());
    assert(name_lists(r@) =~= all.take(0).filter(pred).map_values(f));
    while i < e.children.len()
        invariant
            i <= e.children@.len(),
            all == names(e.children@),
            pred == (|c: Seq<char>| has_suffix(c, ".lock"@)),
            f == (|c: Seq<char>| seq!["incremental"@, e.name@, c]),
            name_lists(r@) == all.take(i as int).filter(pred).map_values(f),
        decreases e.children.len() - i,
    {
        let c = &e.children[i];
        proof {
            assert(all.take(i + 1) =~= all.take(i as int).push(all[i as int]));
            all.take(i as int).lemma_filter_push(all[i as int], pred);
        }
        if ends_with(&chars_of(c.as_str()), ".lock") {
            let ghost before = r@;
            r.push(vec!["incremental".to_owned(), e.name.clone(), c.clone()]);
            proof {
                let p = r@[r@.len() - 1];
                assert(names(p@) =~= seq!["incremental"@, e.name@, c@]);
                assert(name_lists(r@) =~= name_lists(before).push(f(all[i as int])));
                assert(all.take(i + 1).filter(pred) =~= all.take(i as int).filter(pred).push(all[i as int]));
            }
        } else {
            assert(all.take(i + 1).filter(pred) =~= all.take(i as int).filter(pred));
        }
        i = i + 1;
    }
    assert(all.take(i as int) =~= all);
    r
}

/// Incremental directory `q` has a directory kept out of `ps` of the same
/// crate, at least as recent.
pub open spec fn inc_kept_twin(units: Seq<IncrementalEntry>, ps: Seq<usize>, q: int) -> bool {
    exists|j: int|
        0 <= j < units.len() && j != q && !ps.contains(j as usize) && #[trigger] inc_crate(units[j]) == inc_crate(
            units[q],
        ) && units[q].mtime <= units[j].mtime
}

/// An incremental directory planned as superseded always has a kept
/// directory of the same crate that is at least as recent: directories of
/// different crates never supersede each other.
pub proof fn law_incremental_superseded_by_same_crate(entries: Seq<IncrementalEntry>, ps: Seq<usize>)
    requires
        inc_units(entries).len() <= usize::MAX,
        keeps_one_newest(inc_observations(inc_units(entries)), ps),
    ensures
        forall|k: int| 0 <= k < ps.len() ==> #[trigger] inc_kept_twin(inc_units(entries), ps, ps[k] as int),
{
    let units = inc_units(entries);
    let obs = inc_observations(units);
    let pred = |e: IncrementalEntry| inc_crate(e) is Some;
    assert forall|k: int| 0 <= k < ps.len() implies #[trigger] inc_kept_twin(units, ps, ps[k] as int) by {
        let q = ps[k] as int;
        assert(q < obs.len());
        assert(survivor_of(obs, ps, q));
        let j = choose|j: int|
            0 <= j < obs.len() && obs[j].0 == obs[q].0 && !ps.contains(j as usize) && (forall|m: int|
                0 <= m < obs.len() && obs[m].0 == obs[q].0 && m != j ==> #[trigger] ps.contains(m as usize)
                    && ident_before(obs, m, j));
        assert(ps.contains(ps[k]));
        assert((j as usize) as int == j);
        entries.lemma_filter_pred(pred, j);
        entries.lemma_filter_pred(pred, q);
        assert(obs[j].0[0][0] == inc_crate(units[j])->0);
        assert(obs[q].0[0][0] == inc_crate(units[q])->0);
        assert(ps.contains(q as usize));
        assert(ident_before(obs, q, j));
        lemma_orders_strict_total();
        assert(!key_order()(obs[q].0, obs[j].0));
    }
}

/// Tier 1: keep the newest incremental directory per crate name. Returns the
/// plan and the number of entries kept because they match no grammar.
pub fn classify_incremental(entries: &Vec<IncrementalEntry>) -> (res: (Vec<ReclaimItem>, u64))
    ensures
        item_models(res.0@) == inc_plan(entries@),
        res.1 == count_where(entries@, |e: IncrementalEntry| inc_unparsed(e)),
        // Fail-open: only directories named `<crate>-<disambiguator>`, of a
        // crate that groups, are ever planned.
        forall|k: int|
            0 <= k < res.0@.len() ==> exists|j: int|
                0 <= j < entries@.len() && inc_crate(entries@[j]) is Some && #[trigger] item_models(res.0@)[k]
                    == inc_item(entries@[j]),
        // Keep-newest per crate (an incremental directory's identity key is
        // its crate): the plan deletes, once each, every directory but the
        // newest of its crate.
        exists|ps: Seq<usize>|
            #[trigger] keeps_one_newest(inc_observations(inc_units(entries@)), ps) && item_models(res.0@)
                == ps.map_values(|q: usize| inc_item(inc_units(entries@)[q as int]))
                // ... and only for a kept directory of the same crate.
                && forall|k: int| 0 <= k < ps.len() ==> #[trigger] inc_kept_twin(inc_units(entries@), ps, ps[k] as int),
{
    let ghost pred = |e: IncrementalEntry| inc_crate(e) is Some;
    let ghost unp = |e: IncrementalEntry| inc_unparsed(e);
    let mut unit_of: Vec<usize> = Vec::new();
    let mut obs: Vec<Observation> = Vec::new();
    let mut unparsed: u64 = 0;
    let mut i: usize = 0;
    assert(entries@.take(0).filter(pred) =~= Seq::<IncrementalEntry>::empty());
    assert(entries@.take(0) =~= Seq::<IncrementalEntry>::empty());
    while i < entries.len()
        invariant
            i <= entries@.len(),
            pred == (|e: IncrementalEntry| inc_crate(e) is Some),
            unp == (|e: IncrementalEntry| inc_unparsed(e)),
            unit_of@.len() == obs@.len(),
            unit_of@.len() == entries@.take(i as int).filter(pred).len(),
            forall|k: int| 0 <= k < unit_of@.len() ==> #[trigger] unit_of@[k] < entries@.len(),
            forall|k: int| 0 <= k < unit_of@.len() ==> entries@[#[trigger] unit_of@[k] as int] == entries@.take(i as int).filter(pred)[k],
            observations(obs@) == inc_observations(entries@.take(i as int).filter(pred)),
            unparsed as int == count_where(entries@.take(i as int), unp),
            unparsed <= i,
        decreases entries.len() - i,
    {
        let e = &entries[i];
        let ghost units_before = entries@.take(i as int).filter(pred);
        proof {
            assert(entries@.take(i + 1) =~= entries@.take(i as int).push(entries@[i as int]));
            entries@.take(i as int).lemma_filter_push(entries@[i as int], pred);
            assert(entries@.take(i + 1).drop_last() =~= entries@.take(i as int));
        }
        if !e.is_dir || incremental_group(e.name.as_str()).is_none() {
            unparsed = unparsed + 1;
        }
        match inc_crate_of(e) {
            Some(krate) => {
                let ghost kv = krate@;
                let ghost old_obs = obs@;
                unit_of.push(i);
                obs.push(Observation { key: vec![vec![krate]], recency: e.mtime });
                proof {
                    let units = entries@.take(i + 1).filter(pred);
                    assert(units =~= units_before.push(entries@[i as int]));
                    let last = obs@[obs@.len() - 1];
                    assert(last.key@.len() == 1);
                    assert(last.key@[0]@.len() == 1);
                    assert(last.key@[0]@[0]@ == kv);
                    assert(names(last.key@[0]@) =~= seq![kv]);
                    assert(name_lists(last.key@) =~= seq![seq![kv]]);
                    let n = units.len() - 1;
                    assert(units[n] == entries@[i as int]);
                    assert(inc_crate(units[n]) == Some(kv));
                    assert(inc_observations(units)[n] == (seq![seq![kv]], e.mtime as int));
                    assert(observations(obs@)[n] == (seq![seq![kv]], e.mtime as int));
                    assert forall|k: int| 0 <= k < n implies #[trigger] observations(obs@)[k] == inc_observations(units)[k] by {
                        assert(observations(obs@)[k] == observations(obs@.drop_last())[k]);
                        assert(obs@.drop_last() == old_obs);
                        assert(inc_observations(units)[k] == inc_observations(units_before)[k]);
                    }
                    assert(observations(obs@) =~= inc_observations(units));
                }
            },
            None => {
                proof {
                    assert(entries@.take(i + 1).filter(pred) =~= units_before);
                }
            },
        }
        i = i + 1;
    }
    assert(entries@.take(i as int) =~= entries@);
    let ghost units = inc_units(entries@);
    let order = supersede(&obs);
    let mut items: Vec<ReclaimItem> = Vec::new();
    let mut p: usize = 0;
    while p < order.len()
        invariant
            p <= order@.len(),
            units == inc_units(entries@),
            order@ == superseded_order(inc_observations(units)),
            forall|k: int| 0 <= k < order@.len() ==> #[trigger] order@[k] < obs@.len(),
            unit_of@.len() == obs@.len(),
            unit_of@.len() == units.len(),
            forall|k: int| 0 <= k < unit_of@.len() ==> #[trigger] unit_of@[k] < entries@.len(),
            forall|k: int| 0 <= k < unit_of@.len() ==> entries@[#[trigger] unit_of@[k] as int] == units[k],
            item_models(items@) == order@.take(p as int).map_values(|q: usize| inc_item(units[q as int])),
        decreases order.len() - p,
    {
        let e = &entries[unit_of[order[p]]];
        let locks = lock_paths(e);
        let ghost before = items@;
        items.push(ReclaimItem {
            tier: Tier::Incremental,
            delete_first: vec![vec!["incremental".to_owned(), e.name.clone()]],
            delete_then: Vec::new(),
            session_locks: locks,
            bytes: e.bytes,
            entries: 1,
        });
        proof {
            let it = items@[items@.len() - 1];
            assert(names(it.delete_first@[0]@) =~= seq!["incremental"@, e.name@]);
            assert(name_lists(it.delete_first@) =~= seq![seq!["incremental"@, e.name@]]);
            assert(name_lists(it.delete_then@) =~= Seq::<Seq<Seq<char>>>::empty());
            assert(order@.take(p + 1) =~= order@.take(p as int).push(order@[p as int]));
            assert(item_models(items@) =~= item_models(before).push(inc_item(units[order@[p as int] as int])));
        }
        p = p + 1;
    }
    assert(order@.take(p as int) =~= order@);
    proof {
        assert forall|k: int| 0 <= k < items@.len() implies exists|j: int|
            0 <= j < entries@.len() && inc_crate(entries@[j]) is Some && #[trigger] item_models(items@)[k]
                == inc_item(entries@[j]) by {
            let q = order@[k] as int;
            assert(item_models(items@)[k] == inc_item(units[q]));
            entries@.lemma_filter_pred(pred, q);
            let j = unit_of@[q] as int;
            assert(entries@[j] == units[q]);
        }
        assert(inc_observations(units).len() == obs@.len());
        law_listing_keeps_newest(inc_observations(units), order@);
        assert(keeps_one_newest(inc_observations(inc_units(entries@)), order@));
        law_incremental_superseded_by_same_crate(entries@, order@);
    }
    (items, unparsed)
}


// ---------------------------------------------------------------------------
// Profile and target reports
// ---------------------------------------------------------------------------

/// What a scan observed in one profile directory: names, sizes and
/// modification times only.
pub struct ProfileSnapshot {
    /// The profile directory.
    pub path: String,
    pub layout: ProfileLayout,
    /// Size of each pool present (`.fingerprint`, `deps`, `build`,
    /// `incremental`, `examples`, and `uplifted` for the profile's own files).
    pub pools: Vec<(String, PoolStats)>,
    /// The children of `incremental/` whose metadata could be read.
    pub incremental: Vec<IncrementalEntry>,
    /// The children of `.fingerprint/`, when it could be read.
    pub fingerprints: Option<Vec<FingerprintEntry>>,
    /// The regular files of `deps/` then `examples/`.
    pub artifacts: Vec<ArtifactFile>,
    /// The children of `build/` (legacy layout).
    pub build: Vec<BuildEntry>,
    /// The children of `build/` (layout v2), when it could be read.
    pub v2_packages: Option<Vec<V2Package>>,
}

/// Reclaimable bytes and entries of one tier.
#[derive(Debug, Clone, Copy)]
pub struct TierEstimate {
    pub tier: Tier,
    pub reclaimable_bytes: u64,
    pub reclaimable_entries: u64,
}

/// The scan of one profile directory.
pub struct ProfileReport {
    pub path: String,
    pub layout: ProfileLayout,
    pub pools: Vec<(String, PoolStats)>,
    pub tiers: Vec<TierEstimate>,
    /// The concrete deletion plan behind the tier estimates.
    pub reclaim: Vec<ReclaimItem>,
    /// Entries that matched no grammar and were therefore kept.
    pub unparsed_kept: u64,
}

/// The plan for a profile.
pub open spec fn profile_plan(snap: ProfileSnapshot) -> Seq<ItemModel> {
    match snap.layout {
        ProfileLayout::LegacyBuild => inc_plan(snap.incremental@) + match snap.fingerprints {
            Some(f) => legacy_plan(f@, snap.artifacts@, snap.build@),
            None => Seq::empty(),
        },
        ProfileLayout::V2 => inc_plan(snap.incremental@) + match snap.v2_packages {
            Some(p) => v2_plan(p@),
            None => Seq::empty(),
        },
        _ => Seq::empty(),
    }
}

/// Entries kept because they match no grammar.
pub open spec fn profile_unparsed(snap: ProfileSnapshot) -> int {
    let inc = count_where(snap.incremental@, |e: IncrementalEntry| inc_unparsed(e));
    match snap.layout {
        ProfileLayout::LegacyBuild => clamp_u64(
            inc + match snap.fingerprints {
                Some(f) => clamp_u64(legacy_unparsed(f@, snap.build@)),
                None => 0,
            },
        ),
        ProfileLayout::V2 => clamp_u64(
            inc + match snap.v2_packages {
                Some(p) => clamp_u64(v2_unparsed_count(p@)),
                None => 0,
            },
        ),
        _ => 0,
    }
}

/// The tiers a layout reports estimates for.
pub open spec fn tier_set(layout: ProfileLayout) -> Seq<Tier> {
    match layout {
        ProfileLayout::LegacyBuild => seq![
            Tier::Incremental,
            Tier::Units,
            Tier::BuildScripts,
            Tier::OrphanFingerprints,
        ],
        ProfileLayout::V2 => seq![Tier::Incremental, Tier::Units, Tier::BuildScripts],
        _ => Seq::empty(),
    }
}

/// Total bytes of the items of tier `t`.
pub open spec fn tier_bytes(items: Seq<ItemModel>, t: Tier) -> int
    decreases items.len(),
{
    if items.len() == 0 {
        0
    } else {
        tier_bytes(items.drop_last(), t) + if items.last().tier == t {
            items.last().bytes
        } else {
            0
        }
    }
}

/// Total entries of the items of tier `t`.
pub open spec fn tier_entries(items: Seq<ItemModel>, t: Tier) -> int
    decreases items.len(),
{
    if items.len() == 0 {
        0
    } else {
        tier_entries(items.drop_last(), t) + if items.last().tier == t {
            items.last().entries
        } else {
            0
        }
    }
}

/// The value of a tier estimate.
pub open spec fn estimate_model(e: TierEstimate) -> (Tier, int, int) {
    (e.tier, e.reclaimable_bytes as int, e.reclaimable_entries as int)
}

pub open spec fn estimates(v: Seq<TierEstimate>) -> Seq<(Tier, int, int)> {
    Seq::new(v.len(), |i: int| estimate_model(v[i]))
}

/// The tier estimates derived from a plan: one per tier of the layout, in
/// order, each summing the items of that tier.
pub open spec fn plan_estimates(layout: ProfileLayout, items: Seq<ItemModel>) -> Seq<(Tier, int, int)> {
    tier_set(layout).map_values(
        |t: Tier| (t, clamp_u64(tier_bytes(items, t)), clamp_u64(tier_entries(items, t))),
    )
}

fn estimate_for(items: &Vec<ReclaimItem>, tier: Tier) -> (e: TierEstimate)
    ensures
        estimate_model(e) == (tier, clamp_u64(tier_bytes(item_models(items@), tier)), clamp_u64(
            tier_entries(item_models(items@), tier),
        )),
{
    let ghost m = item_models(items@);
    let mut bytes: u64 = 0;
    let mut entries: u64 = 0;
    let mut i: usize = 0;
    assert(m.take(0) =~= Seq::<ItemModel>::empty());
    while i < items.len()
        invariant
            i <= items@.len(),
            m == item_models(items@),
            bytes == clamp_u64(tier_bytes(m.take(i as int), tier)),
            entries == clamp_u64(tier_entries(m.take(i as int), tier)),
        decreases items.len() - i,
    {
        assert(m.take(i + 1).drop_last() =~= m.take(i as int));
        assert(m.take(i + 1).last() == items@[i as int]@);
        if items[i].tier == tier {
            bytes = bytes.saturating_add(items[i].bytes);
            entries = entries.saturating_add(items[i].entries);
        }
        i = i + 1;
    }
    assert(m.take(i as int) =~= m);
    TierEstimate { tier, reclaimable_bytes: bytes, reclaimable_entries: entries }
}

fn tiers_of(layout: ProfileLayout) -> (r: Vec<Tier>)
    ensures
        r@ == tier_set(layout),
{
    match layout {
        ProfileLayout::LegacyBuild => vec![
            Tier::Incremental,
            Tier::Units,
            Tier::BuildScripts,
            Tier::OrphanFingerprints,
        ],
        ProfileLayout::V2 => vec![Tier::Incremental, Tier::Units, Tier::BuildScripts],
        _ => Vec::new(),
    }
}

fn estimates_for(layout: ProfileLayout, items: &Vec<ReclaimItem>) -> (r: Vec<TierEstimate>)
    ensures
        estimates(r@) == plan_estimates(layout, item_models(items@)),
{
    let ts = tiers_of(layout);
    let ghost f = |t: Tier| (t, clamp_u64(tier_bytes(item_models(items@), t)), clamp_u64(tier_entries(item_models(items@), t)));
    let mut r: Vec<TierEstimate> = Vec::new();
    let mut i: usize = 0;
    while i < ts.len()
        invariant
            i <= ts@.len(),
            ts@ == tier_set(layout),
            f == (|t: Tier| (t, clamp_u64(tier_bytes(item_models(items@), t)), clamp_u64(tier_entries(item_models(items@), t)))),
            estimates(r@) == ts@.take(i as int).map_values(f),
        decreases ts.len() - i,
    {
        let ghost before = r@;
        r.push(estimate_for(items, ts[i]));
        assert(ts@.take(i + 1) =~= ts@.take(i as int).push(ts@[i as int]));
        assert(estimates(r@) =~= estimates(before).push(f(ts@[i as int])));
        i = i + 1;
    }
    assert(ts@.take(i as int) =~= ts@);
    r
}

/// Scan one profile directory from what was observed in it. Read-only.
pub fn scan_profile(snap: ProfileSnapshot) -> (report: ProfileReport)
    ensures
        is_scan_of(report, snap),
{
    let (mut reclaim, unparsed) = match snap.layout {
        ProfileLayout::LegacyBuild => {
            let (mut items, inc_unparsed_n) = classify_incremental(&snap.incremental);
            let (mut more, more_unparsed) = match &snap.fingerprints {
                Some(f) => classify_legacy(f, &snap.artifacts, &snap.build),
                None => (Vec::new(), 0),
            };
            let ghost a = items@;
            let ghost b = more@;
            items.append(&mut more);
            assert(items@ =~= a + b);
            assert(item_models(items@) =~= item_models(a) + item_models(b));
            (items, inc_unparsed_n.saturating_add(more_unparsed))
        },
        ProfileLayout::V2 => {
            let (mut items, inc_unparsed_n) = classify_incremental(&snap.incremental);
            let (mut more, more_unparsed) = match &snap.v2_packages {
                Some(p) => classify_v2(p),
                None => (Vec::new(), 0),
            };
            let ghost a = items@;
            let ghost b = more@;
            items.append(&mut more);
            assert(items@ =~= a + b);
            assert(item_models(items@) =~= item_models(a) + item_models(b));
            (items, inc_unparsed_n.saturating_add(more_unparsed))
        },
        _ => (Vec::new(), 0),
    };
    assert(snap.layout != ProfileLayout::LegacyBuild && snap.layout != ProfileLayout::V2 ==> item_models(reclaim@) =~= Seq::<ItemModel>::empty());
    let tiers = estimates_for(snap.layout, &reclaim);
    ProfileReport {
        path: snap.path,
        layout: snap.layout,
        pools: snap.pools,
        tiers,
        reclaim,
        unparsed_kept: unparsed,
    }
}


/// The scan of one profile is `report`: same path, layout and pools, the plan
/// of `profile_plan`, its tier estimates, and the count of kept entries.
pub open spec fn is_scan_of(report: ProfileReport, snap: ProfileSnapshot) -> bool {
    &&& report.path == snap.path
    &&& report.layout == snap.layout
    &&& report.pools == snap.pools
    &&& item_models(report.reclaim@) == profile_plan(snap)
    &&& estimates(report.tiers@) == plan_estimates(snap.layout, profile_plan(snap))
    &&& report.unparsed_kept == profile_unparsed(snap)
}

/// Total bytes of a list of pools.
pub open spec fn pool_bytes(pools: Seq<(String, PoolStats)>) -> int
    decreases pools.len(),
{
    if pools.len() == 0 {
        0
    } else {
        pool_bytes(pools.drop_last()) + pools.last().1.bytes
    }
}

/// Total reclaimable bytes of a list of tier estimates.
pub open spec fn estimate_bytes(tiers: Seq<TierEstimate>) -> int
    decreases tiers.len(),
{
    if tiers.len() == 0 {
        0
    } else {
        estimate_bytes(tiers.drop_last()) + tiers.last().reclaimable_bytes
    }
}

fn sum_pools(pools: &Vec<(String, PoolStats)>) -> (r: u64)
    ensures
        r == clamp_u64(pool_bytes(pools@)),
{
    let mut acc: u64 = 0;
    let mut i: usize = 0;
    assert(pools@.take(0) =~= Seq::<(String, PoolStats)>::empty());
    while i < pools.len()
        invariant
            i <= pools@.len(),
            acc == clamp_u64(pool_bytes(pools@.take(i as int))),
        decreases pools.len() - i,
    {
        assert(pools@.take(i + 1).drop_last() =~= pools@.take(i as int));
        acc = acc.saturating_add(pools[i].1.bytes);
        i = i + 1;
    }
    assert(pools@.take(i as int) =~= pools@);
    acc
}

impl ProfileReport {
    /// Bytes held by the profile's pools (saturating).
    pub fn total_bytes(&self) -> (r: u64)
        ensures
            r == clamp_u64(pool_bytes(self.pools@)),
    {
        sum_pools(&self.pools)
    }

    /// Bytes the tier estimates can reclaim (saturating).
    pub fn reclaimable_bytes(&self) -> (r: u64)
        ensures
            r == clamp_u64(estimate_bytes(self.tiers@)),
    {
        let mut acc: u64 = 0;
        let mut i: usize = 0;
        assert(self.tiers@.take(0) =~= Seq::<TierEstimate>::empty());
        while i < self.tiers.len()
            invariant
                i <= self.tiers@.len(),
                acc == clamp_u64(estimate_bytes(self.tiers@.take(i as int))),
            decreases self.tiers.len() - i,
        {
            assert(self.tiers@.take(i + 1).drop_last() =~= self.tiers@.take(i as int));
            acc = acc.saturating_add(self.tiers[i].reclaimable_bytes);
            i = i + 1;
        }
        assert(self.tiers@.take(i as int) =~= self.tiers@);
        acc
    }
}

/// What a scan observed in one target directory.
pub struct TargetSnapshot {
    pub root: String,
    pub profiles: Vec<ProfileSnapshot>,
    /// Root-level pools outside any profile (`doc/`, `package/`).
    pub root_pools: Vec<(String, PoolStats)>,
}

/// The scan of one target directory.
pub struct TargetReport {
    pub root: String,
    pub profiles: Vec<ProfileReport>,
    /// Root-level pools outside any profile (`doc/`, `package/`).
    pub root_pools: Vec<(String, PoolStats)>,
}

pub open spec fn profiles_total(ps: Seq<ProfileReport>) -> int
    decreases ps.len(),
{
    if ps.len() == 0 {
        0
    } else {
        profiles_total(ps.drop_last()) + clamp_u64(pool_bytes(ps.last().pools@))
    }
}

pub open spec fn profiles_reclaimable(ps: Seq<ProfileReport>) -> int
    decreases ps.len(),
{
    if ps.len() == 0 {
        0
    } else {
        profiles_reclaimable(ps.drop_last()) + clamp_u64(estimate_bytes(ps.last().tiers@))
    }
}

impl TargetReport {
    /// Bytes held by the profiles and the root-level pools (saturating).
    pub fn total_bytes(&self) -> (r: u64)
        ensures
            r == clamp_u64(profiles_total(self.profiles@) + pool_bytes(self.root_pools@)),
    {
        let mut acc: u64 = 0;
        let mut i: usize = 0;
        assert(self.profiles@.take(0) =~= Seq::<ProfileReport>::empty());
        while i < self.profiles.len()
            invariant
                i <= self.profiles@.len(),
                acc == clamp_u64(profiles_total(self.profiles@.take(i as int))),
            decreases self.profiles.len() - i,
        {
            assert(self.profiles@.take(i + 1).drop_last() =~= self.profiles@.take(i as int));
            acc = acc.saturating_add(self.profiles[i].total_bytes());
            i = i + 1;
        }
        assert(self.profiles@.take(i as int) =~= self.profiles@);
        let mut j: usize = 0;
        assert(self.root_pools@.take(0) =~= Seq::<(String, PoolStats)>::empty());
        while j < self.root_pools.len()
            invariant
                j <= self.root_pools@.len(),
                acc == clamp_u64(profiles_total(self.profiles@) + pool_bytes(self.root_pools@.take(j as int))),
            decreases self.root_pools.len() - j,
        {
            assert(self.root_pools@.take(j + 1).drop_last() =~= self.root_pools@.take(j as int));
            acc = acc.saturating_add(self.root_pools[j].1.bytes);
            j = j + 1;
        }
        assert(self.root_pools@.take(j as int) =~= self.root_pools@);
        acc
    }

    /// Bytes the profiles can reclaim (saturating).
    pub fn reclaimable_bytes(&self) -> (r: u64)
        ensures
            r == clamp_u64(profiles_reclaimable(self.profiles@)),
    {
        let mut acc: u64 = 0;
        let mut i: usize = 0;
        assert(self.profiles@.take(0) =~= Seq::<ProfileReport>::empty());
        while i < self.profiles.len()
            invariant
                i <= self.profiles@.len(),
                acc == clamp_u64(profiles_reclaimable(self.profiles@.take(i as int))),
            decreases self.profiles.len() - i,
        {
            assert(self.profiles@.take(i + 1).drop_last() =~= self.profiles@.take(i as int));
            acc = acc.saturating_add(self.profiles[i].reclaimable_bytes());
            i = i + 1;
        }
        assert(self.profiles@.take(i as int) =~= self.profiles@);
        acc
    }
}

/// Scan one discovered target directory from what was observed in it.
pub fn scan_target_dir(t: TargetSnapshot) -> (report: TargetReport)
    ensures
        report.root == t.root,
        report.root_pools == t.root_pools,
        report.profiles@.len() == t.profiles@.len(),
        forall|i: int| 0 <= i < t.profiles@.len() ==> is_scan_of(#[trigger] report.profiles@[i], t.profiles@[i]),
{
    let TargetSnapshot { root, profiles, root_pools } = t;
    let ghost all = profiles@;
    let mut rest = profiles;
    let mut out: Vec<ProfileReport> = Vec::new();
    while rest.len() > 0
        invariant
            out@.len() + rest@.len() == all.len(),
            rest@ == all.skip(out@.len() as int),
            forall|i: int| 0 <= i < out@.len() ==> is_scan_of(#[trigger] out@[i], all[i]),
        decreases rest.len(),
    {
        let ghost k = out@.len();
        let snap = rest.remove(0);
        assert(snap == all[k as int]);
        assert(rest@ =~= all.skip((k + 1) as int));
        out.push(scan_profile(snap));
    }
    TargetReport { root, profiles: out, root_pools }
}

/// Fail-closed: a profile whose layout matched no grammar, or the
/// artifact-only half of a split, is never planned for deletion and has no
/// tier estimates.
pub proof fn law_unmatched_layout_plans_nothing(snap: ProfileSnapshot)
    requires
        snap.layout == ProfileLayout::Unknown || snap.layout == ProfileLayout::ArtifactOnly,
    ensures
        profile_plan(snap).len() == 0,
        plan_estimates(snap.layout, profile_plan(snap)).len() == 0,
{
}

/// A path inside one of the profile's pools: a pool name, then at least one
/// more name. Never the profile directory itself, nor a file directly in it
/// (its build locks, `CACHEDIR.TAG`).
pub open spec fn inside_pool(p: Seq<Seq<char>>) -> bool {
    p.len() >= 2
}

/// Every path an item deletes or locks lies inside a pool.
pub open spec fn item_inside_pools(it: ItemModel) -> bool {
    &&& forall|k: int| 0 <= k < it.delete_first.len() ==> inside_pool(#[trigger] it.delete_first[k])
    &&& forall|k: int| 0 <= k < it.delete_then.len() ==> inside_pool(#[trigger] it.delete_then[k])
    &&& forall|k: int| 0 <= k < it.session_locks.len() ==> inside_pool(#[trigger] it.session_locks[k])
}

/// Total bytes of a plan.
pub open spec fn plan_bytes(items: Seq<ItemModel>) -> int
    decreases items.len(),
{
    if items.len() == 0 {
        0
    } else {
        plan_bytes(items.drop_last()) + items.last().bytes
    }
}

proof fn lemma_inc_plan_shape(entries: Seq<IncrementalEntry>)
    ensures
        forall|i: int|
            0 <= i < inc_plan(entries).len() ==> (#[trigger] inc_plan(entries)[i]).tier == Tier::Incremental
                && item_inside_pools(inc_plan(entries)[i]),
{
    let units = inc_units(entries);
    let ord = superseded_order(inc_observations(units));
    assert forall|i: int| 0 <= i < inc_plan(entries).len() implies (#[trigger] inc_plan(entries)[i]).tier
        == Tier::Incremental && item_inside_pools(inc_plan(entries)[i]) by {
        let e = units[ord[i] as int];
        assert(inc_plan(entries)[i] == inc_item(e));
        let kept = names(e.children@).filter(|c: Seq<char>| has_suffix(c, ".lock"@));
        assert forall|k: int| 0 <= k < inc_locks(e).len() implies inside_pool(#[trigger] inc_locks(e)[k]) by {
            assert(inc_locks(e)[k] == seq!["incremental"@, e.name@, kept[k]]);
        }
    }
}

proof fn lemma_legacy_plan_shape(fps: Seq<FingerprintEntry>, arts: Seq<ArtifactFile>, build: Seq<BuildEntry>)
    ensures
        forall|i: int|
            0 <= i < legacy_plan(fps, arts, build).len() ==> {
                let it = #[trigger] legacy_plan(fps, arts, build)[i];
                &&& (it.tier == Tier::Units || it.tier == Tier::BuildScripts || it.tier
                    == Tier::OrphanFingerprints)
                &&& item_inside_pools(it)
            },
{
    let units = fp_units(fps);
    let a = superseded_order(legacy_observations(arts, build, units)).map_values(
        |p: usize| unit_item(arts, build, units[p as int]),
    );
    let b = dep_hashes(arts).filter(|h: Seq<char>| !fp_has(fps, h)).map_values(
        |h: Seq<char>| dep_residue_item(arts, h),
    );
    let c = build_hashes(build).filter(|h: Seq<char>| !fp_has(fps, h)).map_values(
        |h: Seq<char>| build_residue_item(build, h),
    );
    let plan = legacy_plan(fps, arts, build);
    assert(plan == a + b + c);
    assert forall|i: int| 0 <= i < plan.len() implies {
        let it = #[trigger] plan[i];
        &&& (it.tier == Tier::Units || it.tier == Tier::BuildScripts || it.tier == Tier::OrphanFingerprints)
        &&& item_inside_pools(it)
    } by {
        if i < a.len() {
            let ord = superseded_order(legacy_observations(arts, build, units));
            let e = units[ord[i] as int];
            assert(plan[i] == unit_item(arts, build, e));
            let ws = arts_with(arts, fp_hash(e));
            let paths = ws.map_values(|x: ArtifactFile| art_path(x));
            assert forall|k: int| 0 <= k < paths.len() implies inside_pool(#[trigger] paths[k]) by {
                assert(paths[k] == art_path(ws[k]));
            }
        } else if i < a.len() + b.len() {
            let hs = dep_hashes(arts).filter(|h: Seq<char>| !fp_has(fps, h));
            let h = hs[i - a.len()];
            assert(plan[i] == dep_residue_item(arts, h));
            let ws = arts_with(arts, h);
            let paths = ws.map_values(|x: ArtifactFile| art_path(x));
            assert forall|k: int| 0 <= k < paths.len() implies inside_pool(#[trigger] paths[k]) by {
                assert(paths[k] == art_path(ws[k]));
            }
        } else {
            let hs = build_hashes(build).filter(|h: Seq<char>| !fp_has(fps, h));
            assert(plan[i] == build_residue_item(build, hs[i - a.len() - b.len()]));
        }
    }
}

proof fn lemma_v2_plan_shape(pkgs: Seq<V2Package>)
    ensures
        forall|i: int|
            0 <= i < v2_plan(pkgs).len() ==> {
                let it = #[trigger] v2_plan(pkgs)[i];
                &&& (it.tier == Tier::Units || it.tier == Tier::BuildScripts)
                &&& item_inside_pools(it)
            },
{
    let flat = flat_units(pkgs);
    let units = flat.filter(|pu: (Seq<char>, V2Unit)| is_v2_unit(pu));
    let res = flat.filter(|pu: (Seq<char>, V2Unit)| is_v2_residue(pu));
    let a = res.map_values(|pu: (Seq<char>, V2Unit)| v2_item(pu, Tier::Units));
    let ord = superseded_order(v2_observations(units));
    let b = ord.map_values(|p: usize| v2_item(units[p as int], v2_unit_tier(units[p as int])));
    let plan = v2_plan(pkgs);
    assert(plan == a + b);
    assert forall|i: int| 0 <= i < plan.len() implies {
        let it = #[trigger] plan[i];
        &&& (it.tier == Tier::Units || it.tier == Tier::BuildScripts)
        &&& item_inside_pools(it)
    } by {
        if i < a.len() {
            assert(plan[i] == v2_item(res[i], Tier::Units));
        } else {
            let u = units[ord[i - a.len()] as int];
            assert(plan[i] == v2_item(u, v2_unit_tier(u)));
        }
    }
}

proof fn lemma_profile_plan_shape(snap: ProfileSnapshot)
    ensures
        forall|i: int|
            0 <= i < profile_plan(snap).len() ==> tier_set(snap.layout).contains(
                (#[trigger] profile_plan(snap)[i]).tier,
            ) && item_inside_pools(profile_plan(snap)[i]),
{
    let plan = profile_plan(snap);
    let ts = tier_set(snap.layout);
    lemma_inc_plan_shape(snap.incremental@);
    let inc = inc_plan(snap.incremental@);
    assert forall|i: int| 0 <= i < plan.len() implies ts.contains((#[trigger] plan[i]).tier) && item_inside_pools(
        plan[i],
    ) by {
        match snap.layout {
            ProfileLayout::LegacyBuild => {
                if i < inc.len() {
                    assert(plan[i] == inc[i]);
                    assert(ts[0] == Tier::Incremental);
                } else {
                    let f = snap.fingerprints->0@;
                    lemma_legacy_plan_shape(f, snap.artifacts@, snap.build@);
                    assert(plan[i] == legacy_plan(f, snap.artifacts@, snap.build@)[i - inc.len()]);
                    assert(ts[1] == Tier::Units && ts[2] == Tier::BuildScripts && ts[3]
                        == Tier::OrphanFingerprints);
                }
            },
            ProfileLayout::V2 => {
                if i < inc.len() {
                    assert(plan[i] == inc[i]);
                    assert(ts[0] == Tier::Incremental);
                } else {
                    let p = snap.v2_packages->0@;
                    lemma_v2_plan_shape(p);
                    assert(plan[i] == v2_plan(p)[i - inc.len()]);
                    assert(ts[1] == Tier::Units && ts[2] == Tier::BuildScripts);
                }
            },
            _ => {},
        }
    }
}

/// Nothing a profile scan plans touches the profile directory itself or a
/// file directly in it: every path deleted or locked lies inside a pool.
pub proof fn law_plan_stays_inside_pools(snap: ProfileSnapshot)
    ensures
        forall|i: int| 0 <= i < profile_plan(snap).len() ==> item_inside_pools(#[trigger] profile_plan(snap)[i]),
{
    lemma_profile_plan_shape(snap);
}

proof fn lemma_tier_bytes_parts(items: Seq<ItemModel>)
    requires
        forall|i: int| 0 <= i < items.len() ==> (#[trigger] items[i]).bytes >= 0,
    ensures
        tier_bytes(items, Tier::Incremental) + tier_bytes(items, Tier::Units) + tier_bytes(items, Tier::BuildScripts)
            + tier_bytes(items, Tier::OrphanFingerprints) + tier_bytes(items, Tier::Pdb) + tier_bytes(
            items,
            Tier::Dormant,
        ) == plan_bytes(items),
        forall|t: Tier| 0 <= #[trigger] tier_bytes(items, t),
        forall|t: Tier|
            (forall|i: int| 0 <= i < items.len() ==> (#[trigger] items[i]).tier != t) ==> #[trigger] tier_bytes(items, t) == 0,
    decreases items.len(),
{
    if items.len() > 0 {
        let p = items.drop_last();
        assert forall|i: int| 0 <= i < p.len() implies (#[trigger] p[i]).bytes >= 0 by {
            assert(p[i] == items[i]);
        }
        lemma_tier_bytes_parts(p);
        assert(items.last() == items[items.len() - 1]);
        assert forall|t: Tier|
            (forall|i: int| 0 <= i < items.len() ==> (#[trigger] items[i]).tier != t) implies #[trigger] tier_bytes(items, t) == 0 by {
            assert forall|i: int| 0 <= i < p.len() implies (#[trigger] p[i]).tier != t by {
                assert(p[i] == items[i]);
            }
        }
    }
}

/// The tier estimates of a profile scan add up to the whole plan: every
/// planned item belongs to one of the layout's estimated tiers, and the
/// reclaimable total is the sum of the items' bytes (when that sum fits in
/// `u64`; the estimates saturate otherwise).
pub proof fn law_estimates_sum_the_plan(report: ProfileReport, snap: ProfileSnapshot)
    requires
        is_scan_of(report, snap),
        plan_bytes(item_models(report.reclaim@)) <= u64::MAX,
    ensures
        forall|i: int|
            0 <= i < report.reclaim@.len() ==> tier_set(report.layout).contains((#[trigger] report.reclaim@[i]).tier),
        estimate_bytes(report.tiers@) == plan_bytes(item_models(report.reclaim@)),
{
    let items = item_models(report.reclaim@);
    let ts = tier_set(snap.layout);
    let tiers = report.tiers@;
    lemma_profile_plan_shape(snap);
    assert forall|i: int| 0 <= i < report.reclaim@.len() implies tier_set(report.layout).contains(
        (#[trigger] report.reclaim@[i]).tier,
    ) by {
        assert(items[i] == report.reclaim@[i]@);
    }
    assert forall|i: int| 0 <= i < items.len() implies (#[trigger] items[i]).bytes >= 0 by {
        assert(items[i] == report.reclaim@[i]@);
    }
    lemma_tier_bytes_parts(items);
    assert(estimates(tiers).len() == tiers.len());
    assert(plan_estimates(snap.layout, items).len() == ts.len());
    assert forall|k: int| 0 <= k < tiers.len() implies (#[trigger] tiers[k]).reclaimable_bytes == clamp_u64(
        tier_bytes(items, ts[k]),
    ) by {
        assert(estimates(tiers)[k] == plan_estimates(snap.layout, items)[k]);
    }
    match snap.layout {
        ProfileLayout::LegacyBuild => {
            assert(forall|i: int| 0 <= i < items.len() ==> (#[trigger] items[i]).tier != Tier::Pdb) by {
                assert forall|i: int| 0 <= i < items.len() implies (#[trigger] items[i]).tier != Tier::Pdb by {
                    assert(ts.contains(items[i].tier));
                }
            }
            assert(forall|i: int| 0 <= i < items.len() ==> (#[trigger] items[i]).tier != Tier::Dormant) by {
                assert forall|i: int| 0 <= i < items.len() implies (#[trigger] items[i]).tier != Tier::Dormant by {
                    assert(ts.contains(items[i].tier));
                }
            }
            assert(tier_bytes(items, Tier::Pdb) == 0);
            assert(tier_bytes(items, Tier::Dormant) == 0);
            assert(tiers.len() == 4);
            assert(tiers.drop_last().drop_last().drop_last().drop_last().len() == 0);
            reveal_with_fuel(estimate_bytes, 5);
            assert(tiers[0].reclaimable_bytes == tier_bytes(items, Tier::Incremental));
            assert(tiers[1].reclaimable_bytes == tier_bytes(items, Tier::Units));
            assert(tiers[2].reclaimable_bytes == tier_bytes(items, Tier::BuildScripts));
            assert(tiers[3].reclaimable_bytes == tier_bytes(items, Tier::OrphanFingerprints));
        },
        ProfileLayout::V2 => {
            assert(forall|i: int| 0 <= i < items.len() ==> (#[trigger] items[i]).tier != Tier::Pdb) by {
                assert forall|i: int| 0 <= i < items.len() implies (#[trigger] items[i]).tier != Tier::Pdb by {
                    assert(ts.contains(items[i].tier));
                }
            }
            assert(forall|i: int| 0 <= i < items.len() ==> (#[trigger] items[i]).tier != Tier::Dormant) by {
                assert forall|i: int| 0 <= i < items.len() implies (#[trigger] items[i]).tier != Tier::Dormant by {
                    assert(ts.contains(items[i].tier));
                }
            }
            assert(forall|i: int| 0 <= i < items.len() ==> (#[trigger] items[i]).tier != Tier::OrphanFingerprints) by {
                assert forall|i: int| 0 <= i < items.len() implies (#[trigger] items[i]).tier != Tier::OrphanFingerprints by {
                    assert(ts.contains(items[i].tier));
                }
            }
            assert(tier_bytes(items, Tier::Pdb) == 0);
            assert(tier_bytes(items, Tier::Dormant) == 0);
            assert(tier_bytes(items, Tier::OrphanFingerprints) == 0);
            assert(tiers.len() == 3);
            reveal_with_fuel(estimate_bytes, 4);
            assert(tiers[0].reclaimable_bytes == tier_bytes(items, Tier::Incremental));
            assert(tiers[1].reclaimable_bytes == tier_bytes(items, Tier::Units));
            assert(tiers[2].reclaimable_bytes == tier_bytes(items, Tier::BuildScripts));
        },
        _ => {
            assert(items.len() == 0);
            assert(tiers.len() == 0);
        },
    }
}

/// `report` is the scan of target directory `t`.
pub open spec fn is_target_scan_of(report: TargetReport, t: TargetSnapshot) -> bool {
    &&& report.root == t.root
    &&& report.root_pools == t.root_pools
    &&& report.profiles@.len() == t.profiles@.len()
    &&& forall|i: int| 0 <= i < t.profiles@.len() ==> is_scan_of(#[trigger] report.profiles@[i], t.profiles@[i])
}

/// Reclaimable bytes of a target report, as `reclaimable_bytes` computes them.
pub open spec fn target_reclaimable(r: TargetReport) -> int {
    clamp_u64(profiles_reclaimable(r.profiles@))
}

/// `r` lists the scans of `targets` taken in the order `ord` (a permutation
/// of the positions of `targets`): more reclaimable bytes first, ties in the
/// order of `targets`.
pub open spec fn is_sweep_order(targets: Seq<TargetSnapshot>, r: Seq<TargetReport>, ord: Seq<usize>) -> bool {
    &&& r.len() == targets.len()
    &&& ord.len() == targets.len()
    &&& forall|x: usize| #[trigger] ord.contains(x) <==> x < targets.len()
    &&& forall|k: int| 0 <= k < ord.len() ==> #[trigger] ord[k] < targets.len() && is_target_scan_of(r[k], targets[ord[k] as int])
    &&& forall|a: int, b: int|
        0 <= a < b < r.len() ==> target_reclaimable(#[trigger] r[a]) > target_reclaimable(#[trigger] r[b])
            || (target_reclaimable(r[a]) == target_reclaimable(r[b]) && ord[a] < ord[b])
}

/// Scan every discovered target directory and order the reports by
/// descending reclaimable bytes (ties in discovery order): the order in which
/// a budget-driven sweep processes them.
pub fn scan_all(targets: Vec<TargetSnapshot>) -> (r: Vec<TargetReport>)
    ensures
        r@.len() == targets@.len(),
        exists|ord: Seq<usize>| #[trigger] is_sweep_order(targets@, r@, ord),
{
    let ghost all = targets@;
    let mut rest = targets;
    let mut reports: Vec<TargetReport> = Vec::new();
    while rest.len() > 0
        invariant
            reports@.len() + rest@.len() == all.len(),
            rest@ == all.skip(reports@.len() as int),
            forall|i: int| 0 <= i < reports@.len() ==> is_target_scan_of(#[trigger] reports@[i], all[i]),
        decreases rest.len(),
    {
        let ghost k = reports@.len();
        let t = rest.remove(0);
        assert(t == all[k as int]);
        assert(rest@ =~= all.skip((k + 1) as int));
        reports.push(scan_target_dir(t));
    }
    let n = reports.len();
    let mut keys: Vec<(u64, u64)> = Vec::new();
    let mut i: usize = 0;
    while i < n
        invariant
            n == reports@.len(),
            i <= n,
            keys@.len() == i,
            forall|j: int| 0 <= j < i ==> #[trigger] keys@[j].1 == target_reclaimable(reports@[j]),
        decreases n - i,
    {
        keys.push((reports[i].total_bytes(), reports[i].reclaimable_bytes()));
        i = i + 1;
    }
    let by = ByReclaimable { dirs: keys.as_slice() };
    let ord = sort_indices(&by);
    let ghost orig = reports@;
    let mut slots: Vec<Option<TargetReport>> = Vec::new();
    let mut rest = reports;
    while rest.len() > 0
        invariant
            slots@.len() + rest@.len() == n,
            rest@ == orig.skip(slots@.len() as int),
            orig.len() == n,
            forall|j: int| 0 <= j < slots@.len() ==> #[trigger] slots@[j] == Some(orig[j]),
        decreases rest.len(),
    {
        let ghost k = slots@.len();
        let t = rest.remove(0);
        assert(t == orig[k as int]);
        assert(rest@ =~= orig.skip((k + 1) as int));
        slots.push(Some(t));
    }
    let mut out: Vec<TargetReport> = Vec::new();
    let mut k: usize = 0;
    while k < n
        invariant
            n == orig.len(),
            n == ord@.len(),
            slots@.len() == n,
            k <= n,
            out@.len() == k,
            forall|q: int| 0 <= q < n ==> #[trigger] ord@[q] < n,
            forall|a: int, b: int| 0 <= a < b < n ==> #[trigger] ord@[a] != #[trigger] ord@[b],
            forall|q: int| 0 <= q < k ==> #[trigger] out@[q] == orig[ord@[q] as int],
            forall|j: int|
                0 <= j < n ==> (#[trigger] slots@[j] == Some(orig[j]) || exists|q: int| 0 <= q < k && ord@[q] == j),
            forall|q: int| k <= q < n ==> #[trigger] slots@[ord@[q] as int] == Some(orig[ord@[q] as int]),
        decreases n - k,
    {
        let idx = ord[k];
        let mut taken: Option<TargetReport> = None;
        std::mem::swap(&mut taken, &mut slots[idx]);
        match taken {
            Some(t) => {
                out.push(t);
            },
            None => {
                assert(false);
            },
        }
        k = k + 1;
    }
    proof {
        let o = by;
        assert forall|a: int, b: int| 0 <= a < b < out@.len() implies target_reclaimable(#[trigger] out@[a])
            > target_reclaimable(#[trigger] out@[b]) || (target_reclaimable(out@[a]) == target_reclaimable(out@[b])
            && ord@[a] < ord@[b]) by {
            assert(o.before(ord@[a] as int, ord@[b] as int));
        }
        assert forall|q: int| 0 <= q < ord@.len() implies #[trigger] ord@[q] < all.len() && is_target_scan_of(
            out@[q],
            all[ord@[q] as int],
        ) by {
            assert(out@[q] == orig[ord@[q] as int]);
        }
        assert(is_sweep_order(all, out@, ord@));
    }
    out
}

// ---------------------------------------------------------------------------
// Restricting a sweep to some tiers
// ---------------------------------------------------------------------------

fn has_tier(keep: &Vec<Tier>, t: Tier) -> (b: bool)
    ensures
        b == keep@.contains(t),
{
    let mut i: usize = 0;
    while i < keep.len()
        invariant
            i <= keep@.len(),
            forall|k: int| 0 <= k < i ==> keep@[k] != t,
        decreases keep.len() - i,
    {
        if keep[i] == t {
            assert(keep@[i as int] == t);
            return true;
        }
        i = i + 1;
    }
    false
}

/// Restrict a profile's plan, and its tier estimates, to the tiers in `keep`.
pub fn restrict_to_tiers(report: &mut ProfileReport, keep: &Vec<Tier>)
    ensures
        final(report).path == old(report).path,
        final(report).layout == old(report).layout,
        final(report).pools == old(report).pools,
        final(report).unparsed_kept == old(report).unparsed_kept,
        item_models(final(report).reclaim@) == item_models(old(report).reclaim@).filter(
            |it: ItemModel| keep@.contains(it.tier),
        ),
        estimates(final(report).tiers@) == estimates(old(report).tiers@).filter(
            |e: (Tier, int, int)| keep@.contains(e.0),
        ),
{
    let ghost f = |it: ItemModel| keep@.contains(it.tier);
    let ghost g = |e: (Tier, int, int)| keep@.contains(e.0);
    let mut items: Vec<ReclaimItem> = Vec::new();
    std::mem::swap(&mut items, &mut report.reclaim);
    let ghost all = items@;
    assert(all.len() == items.len());
    let mut kept: Vec<ReclaimItem> = Vec::new();
    let mut taken: usize = 0;
    assert(item_models(all.take(0)) =~= Seq::<ItemModel>::empty());
    while items.len() > 0
        invariant
            taken + items@.len() == all.len(),
            all.len() <= usize::MAX,
            items@ == all.skip(taken as int),
            f == (|it: ItemModel| keep@.contains(it.tier)),
            item_models(kept@) == item_models(all.take(taken as int)).filter(f),
        decreases items.len(),
    {
        let it = items.remove(0);
        proof {
            assert(it == all[taken as int]);
            assert(items@ =~= all.skip(taken + 1));
            assert(item_models(all.take(taken + 1)) =~= item_models(all.take(taken as int)).push(it@));
            item_models(all.take(taken as int)).lemma_filter_push(it@, f);
        }
        if has_tier(keep, it.tier) {
            let ghost before = kept@;
            kept.push(it);
            assert(item_models(kept@) =~= item_models(before).push(kept@[kept@.len() - 1]@));
        }
        taken = taken + 1;
    }
    assert(all.take(taken as int) =~= all);
    report.reclaim = kept;
    let mut tiers: Vec<TierEstimate> = Vec::new();
    std::mem::swap(&mut tiers, &mut report.tiers);
    let ghost all_t = tiers@;
    let mut kept_t: Vec<TierEstimate> = Vec::new();
    let mut j: usize = 0;
    assert(estimates(all_t.take(0)) =~= Seq::<(Tier, int, int)>::empty());
    while j < tiers.len()
        invariant
            j <= tiers@.len(),
            tiers@ == all_t,
            g == (|e: (Tier, int, int)| keep@.contains(e.0)),
            estimates(kept_t@) == estimates(all_t.take(j as int)).filter(g),
        decreases tiers.len() - j,
    {
        let e = tiers[j];
        proof {
            assert(estimates(all_t.take(j + 1)) =~= estimates(all_t.take(j as int)).push(estimate_model(e)));
            estimates(all_t.take(j as int)).lemma_filter_push(estimate_model(e), g);
        }
        if has_tier(keep, e.tier) {
            let ghost before = kept_t@;
            kept_t.push(e);
            assert(estimates(kept_t@) =~= estimates(before).push(estimate_model(e)));
        }
        j = j + 1;
    }
    assert(all_t.take(j as int) =~= all_t);
    report.tiers = kept_t;
}

// ---------------------------------------------------------------------------
// Opt-in tiers: debug symbols and dormant profiles
// ---------------------------------------------------------------------------

/// A regular file found under `deps/` or `build/`, by its path relative to
/// the profile.
pub struct PdbCandidate {
    pub path: Vec<String>,
    pub bytes: u64,
}

/// The extension of a file name is `pdb` in any ASCII case (the extension is
/// what follows the last `.`, when something precedes that dot).
pub open spec fn is_pdb_name(n: Seq<char>) -> bool {
    n != ".."@ && match last_index(n, '.') {
        Some(k) => k > 0 && ascii_lower(n.skip(k + 1)) == "pdb"@,
        None => false,
    }
}

/// `d` is a leading part of path `p` (component-wise).
pub open spec fn is_path_prefix(d: Seq<Seq<char>>, p: Seq<Seq<char>>) -> bool {
    d.len() <= p.len() && p.take(d.len() as int) == d
}

/// Item `it` reclaims path `p`: it lists `p` as a file, or `p` lies under
/// a directory it lists.
pub open spec fn item_covers(it: ItemModel, p: Seq<Seq<char>>) -> bool {
    it.delete_then.contains(p) || exists|j: int|
        0 <= j < it.delete_first.len() && is_path_prefix(#[trigger] it.delete_first[j], p)
}

/// Path `p` is already reclaimed by some item of the plan.
pub open spec fn is_planned(items: Seq<ItemModel>, p: Seq<Seq<char>>) -> bool {
    exists|i: int| 0 <= i < items.len() && #[trigger] item_covers(items[i], p)
}

pub open spec fn pdb_wanted(items: Seq<ItemModel>, c: PdbCandidate) -> bool {
    names(c.path@).len() > 0 && is_pdb_name(names(c.path@).last()) && !is_planned(items, names(c.path@))
}

pub open spec fn candidates_bytes(s: Seq<PdbCandidate>) -> int
    decreases s.len(),
{
    if s.len() == 0 {
        0
    } else {
        candidates_bytes(s.drop_last()) + s.last().bytes
    }
}

fn pdb_name(n: &String) -> (b: bool)
    ensures
        b == is_pdb_name(n@),
{
    let c = chars_of(n.as_str());
    if str_eq(n.as_str(), "..") {
        return false;
    }
    let len = c.len();
    match find_last(&c, '.') {
        Some(k) => {
            if k == 0 {
                return false;
            }
            let ext = crate::text::sub_chars(&c, k + 1, len);
            assert(ext@ =~= n@.skip(k + 1));
            let l = lower_chars(&ext);
            crate::text::chars_eq(&l, &chars_of("pdb"))
        },
        None => false,
    }
}

fn path_prefix(d: &Vec<String>, p: &Vec<String>) -> (b: bool)
    ensures
        b == is_path_prefix(names(d@), names(p@)),
{
    if d.len() > p.len() {
        return false;
    }
    let mut i: usize = 0;
    while i < d.len()
        invariant
            i <= d@.len(),
            d@.len() <= p@.len(),
            forall|k: int| 0 <= k < i ==> names(d@)[k] == names(p@)[k],
        decreases d.len() - i,
    {
        if !str_eq(d[i].as_str(), p[i].as_str()) {
            assert(names(p@).take(d@.len() as int)[i as int] != names(d@)[i as int]);
            return false;
        }
        i = i + 1;
    }
    assert(names(p@).take(d@.len() as int) =~= names(d@));
    true
}

fn planned(items: &Vec<ReclaimItem>, p: &Vec<String>) -> (b: bool)
    ensures
        b == is_planned(item_models(items@), names(p@)),
{
    let ghost m = item_models(items@);
    let ghost pv = names(p@);
    let mut i: usize = 0;
    while i < items.len()
        invariant
            i <= items@.len(),
            m == item_models(items@),
            pv == names(p@),
            forall|q: int| 0 <= q < i ==> !#[trigger] item_covers(m[q], pv),
        decreases items.len() - i,
    {
        let it = &items[i];
        assert(m[i as int] == it@);
        let mut j: usize = 0;
        while j < it.delete_then.len()
            invariant
                i < items@.len(),
                m == item_models(items@),
                m[i as int] == it@,
                j <= it.delete_then@.len(),
                pv == names(p@),
                forall|q: int| 0 <= q < j ==> name_lists(it.delete_then@)[q] != pv,
            decreases it.delete_then.len() - j,
        {
            if strings_eq(&it.delete_then[j], p) {
                assert(name_lists(it.delete_then@)[j as int] == pv);
                assert(item_covers(m[i as int], pv));
                return true;
            }
            j = j + 1;
        }
        let mut j: usize = 0;
        while j < it.delete_first.len()
            invariant
                i < items@.len(),
                m == item_models(items@),
                m[i as int] == it@,
                j <= it.delete_first@.len(),
                pv == names(p@),
                forall|q: int| 0 <= q < j ==> !is_path_prefix(#[trigger] name_lists(it.delete_first@)[q], pv),
            decreases it.delete_first.len() - j,
        {
            if path_prefix(&it.delete_first[j], p) {
                assert(is_path_prefix(m[i as int].delete_first[j as int], pv));
                assert(item_covers(m[i as int], pv));
                return true;
            }
            j = j + 1;
        }
        assert(!item_covers(m[i as int], pv));
        i = i + 1;
    }
    false
}

/// No `.pdb` that the PDB tier collects lies inside a directory the plan
/// already deletes (component-wise), nor is it a file the plan already
/// deletes: nothing is reclaimed, or counted, twice.
pub proof fn law_pdb_skips_planned(items: Seq<ItemModel>, candidates: Seq<PdbCandidate>)
    ensures
        ({
            let found = candidates.filter(|c: PdbCandidate| pdb_wanted(items, c));
            forall|k: int, i: int, j: int|
                #![trigger found[k], items[i].delete_first[j]]
                0 <= k < found.len() && 0 <= i < items.len() && 0 <= j < items[i].delete_first.len() ==> !(
                items[i].delete_first[j].len() <= names(found[k].path@).len() && names(found[k].path@).take(
                    items[i].delete_first[j].len() as int,
                ) == items[i].delete_first[j])
        }),
        ({
            let found = candidates.filter(|c: PdbCandidate| pdb_wanted(items, c));
            forall|k: int, i: int, j: int|
                #![trigger found[k], items[i].delete_then[j]]
                0 <= k < found.len() && 0 <= i < items.len() && 0 <= j < items[i].delete_then.len()
                    ==> names(found[k].path@) != items[i].delete_then[j]
        }),
{
    let pred = |c: PdbCandidate| pdb_wanted(items, c);
    let found = candidates.filter(pred);
    assert forall|k: int, i: int, j: int|
        #![trigger found[k], items[i].delete_first[j]]
        0 <= k < found.len() && 0 <= i < items.len() && 0 <= j < items[i].delete_first.len() implies !(
        items[i].delete_first[j].len() <= names(found[k].path@).len() && names(found[k].path@).take(
            items[i].delete_first[j].len() as int,
        ) == items[i].delete_first[j]) by {
        candidates.lemma_filter_pred(pred, k);
        let p = names(found[k].path@);
        assert(!is_planned(items, p));
        if is_path_prefix(items[i].delete_first[j], p) {
            assert(item_covers(items[i], p));
        }
    }
    assert forall|k: int, i: int, j: int|
        #![trigger found[k], items[i].delete_then[j]]
        0 <= k < found.len() && 0 <= i < items.len() && 0 <= j < items[i].delete_then.len() implies names(
        found[k].path@,
    ) != items[i].delete_then[j] by {
        candidates.lemma_filter_pred(pred, k);
        let p = names(found[k].path@);
        assert(!is_planned(items, p));
        if p == items[i].delete_then[j] {
            assert(items[i].delete_then.contains(p));
            assert(item_covers(items[i], p));
        }
    }
}

/// Tier 5 (opt-in): plan every `.pdb` among `candidates` (the regular files
/// under `deps/` and `build/`) that the plan does not already cover. Debug
/// symbols are terminal outputs; regenerating them costs a re-link.
pub fn append_pdb_items(report: &mut ProfileReport, candidates: &Vec<PdbCandidate>)
    ensures
        final(report).path == old(report).path,
        final(report).layout == old(report).layout,
        final(report).pools == old(report).pools,
        final(report).unparsed_kept == old(report).unparsed_kept,
        ({
            let items = item_models(old(report).reclaim@);
            let found = candidates@.filter(|c: PdbCandidate| pdb_wanted(items, c));
            if (old(report).layout == ProfileLayout::LegacyBuild || old(report).layout == ProfileLayout::V2)
                && found.len() > 0 {
                let item = ItemModel {
                    tier: Tier::Pdb,
                    delete_first: Seq::empty(),
                    delete_then: found.map_values(|c: PdbCandidate| names(c.path@)),
                    session_locks: Seq::empty(),
                    bytes: clamp_u64(candidates_bytes(found)),
                    entries: found.len() as int,
                };
                &&& item_models(final(report).reclaim@) == items.push(item)
                &&& estimates(final(report).tiers@) == estimates(old(report).tiers@).push(
                    (Tier::Pdb, item.bytes, item.entries),
                )
            } else {
                &&& final(report).reclaim@ == old(report).reclaim@
                &&& final(report).tiers@ == old(report).tiers@
            }
        }),
        // Nothing added lies inside a directory the plan already deletes, or
        // is a file the plan already deletes.
        ({
            let items = item_models(old(report).reclaim@);
            let fin = item_models(final(report).reclaim@);
            forall|q: int, k: int, i: int, j: int|
                #![trigger fin[q].delete_then[k], items[i].delete_first[j]]
                items.len() <= q < fin.len() && 0 <= k < fin[q].delete_then.len() && 0 <= i < items.len() && 0 <= j
                    < items[i].delete_first.len() ==> !(items[i].delete_first[j].len() <= fin[q].delete_then[k].len()
                    && fin[q].delete_then[k].take(items[i].delete_first[j].len() as int) == items[i].delete_first[j])
        }),
        ({
            let items = item_models(old(report).reclaim@);
            let fin = item_models(final(report).reclaim@);
            forall|q: int, k: int, i: int, j: int|
                #![trigger fin[q].delete_then[k], items[i].delete_then[j]]
                items.len() <= q < fin.len() && 0 <= k < fin[q].delete_then.len() && 0 <= i < items.len() && 0 <= j
                    < items[i].delete_then.len() ==> fin[q].delete_then[k] != items[i].delete_then[j]
        }),
{
    proof {
        law_pdb_skips_planned(item_models(report.reclaim@), candidates@);
    }
    if !(report.layout == ProfileLayout::LegacyBuild || report.layout == ProfileLayout::V2) {
        return;
    }
    let ghost items = item_models(report.reclaim@);
    let ghost pred = |c: PdbCandidate| pdb_wanted(items, c);
    let ghost f = |c: PdbCandidate| names(c.path@);
    let mut files: Vec<Vec<String>> = Vec::new();
    let mut bytes: u64 = 0;
    let mut count: u64 = 0;
    let mut i: usize = 0;
    assert(candidates@.take(0).filter(pred) =~= Seq::<PdbCandidate>::empty());
    assert(name_lists(files@) =~= candidates@.take(0).filter(pred).map_values(f));
    while i < candidates.len()
        invariant
            i <= candidates@.len(),
            items == item_models(report.reclaim@),
            pred == (|c: PdbCandidate| pdb_wanted(items, c)),
            f == (|c: PdbCandidate| names(c.path@)),
            name_lists(files@) == candidates@.take(i as int).filter(pred).map_values(f),
            bytes == clamp_u64(candidates_bytes(candidates@.take(i as int).filter(pred))),
            count == candidates@.take(i as int).filter(pred).len(),
            count <= i,
        decreases candidates.len() - i,
    {
        let c = &candidates[i];
        let ghost before = candidates@.take(i as int).filter(pred);
        proof {
            assert(candidates@.take(i + 1) =~= candidates@.take(i as int).push(candidates@[i as int]));
            candidates@.take(i as int).lemma_filter_push(candidates@[i as int], pred);
        }
        let wanted = c.path.len() > 0 && pdb_name(&c.path[c.path.len() - 1]) && !planned(&report.reclaim, &c.path);
        proof {
            if c.path@.len() > 0 {
                assert(names(c.path@).last() == c.path@[c.path@.len() - 1]@);
            }
        }
        assert(wanted == pred(candidates@[i as int]));
        if wanted {
            let ghost old_files = name_lists(files@);
            files.push(c.path.clone());
            bytes = bytes.saturating_add(c.bytes);
            count = count + 1;
            proof {
                let sel = candidates@.take(i + 1).filter(pred);
                assert(sel =~= before.push(candidates@[i as int]));
                assert(sel.drop_last() =~= before);
                assert(name_lists(files@) =~= old_files.push(f(candidates@[i as int])));
                assert(sel.map_values(f) =~= before.map_values(f).push(f(candidates@[i as int])));
            }
        } else {
            assert(candidates@.take(i + 1).filter(pred) =~= before);
        }
        i = i + 1;
    }
    assert(candidates@.take(i as int) =~= candidates@);
    if count == 0 {
        return;
    }
    let none: Vec<Vec<String>> = Vec::new();
    let none2: Vec<Vec<String>> = Vec::new();
    proof {
        assert(name_lists(none@) =~= Seq::<Seq<Seq<char>>>::empty());
        assert(name_lists(none2@) =~= Seq::<Seq<Seq<char>>>::empty());
    }
    let ghost old_reclaim = report.reclaim@;
    let ghost old_tiers = report.tiers@;
    report.reclaim.push(ReclaimItem {
        tier: Tier::Pdb,
        delete_first: none,
        delete_then: files,
        session_locks: none2,
        bytes,
        entries: count,
    });
    report.tiers.push(TierEstimate { tier: Tier::Pdb, reclaimable_bytes: bytes, reclaimable_entries: count });
    proof {
        assert(item_models(report.reclaim@) =~= item_models(old_reclaim).push(report.reclaim@.last()@));
        assert(estimates(report.tiers@) =~= estimates(old_tiers).push(estimate_model(report.tiers@.last())));
    }
}

/// What a dormancy check observed in one profile directory.
pub struct DormantSnapshot {
    /// The newest modification time of any file within four levels under
    /// `.fingerprint/` and `build/`: the last actual compile.
    pub newest_compile: Option<i128>,
    /// The pools present, in the order `.fingerprint`, `deps`, `build`,
    /// `incremental`, `examples`, with their recursive sizes.
    pub pools: Vec<(String, u64)>,
    /// The regular files directly in the profile directory, with their sizes.
    pub files: Vec<(String, u64)>,
}

/// Lock and marker files that survive any wipe.
pub open spec fn is_kept_in_profile(n: Seq<char>) -> bool {
    n == ".cargo-lock"@ || n == ".cargo-build-lock"@ || n == ".cargo-artifact-lock"@ || n == "CACHEDIR.TAG"@
}

pub open spec fn named_bytes(s: Seq<(String, u64)>) -> int
    decreases s.len(),
{
    if s.len() == 0 {
        0
    } else {
        named_bytes(s.drop_last()) + s.last().1
    }
}

/// The profile has not compiled since `cutoff`: a layout with pools, compile
/// evidence, and that evidence at or before the cutoff.
pub open spec fn is_dormant(layout: ProfileLayout, snap: DormantSnapshot, cutoff: i128) -> bool {
    (layout == ProfileLayout::LegacyBuild || layout == ProfileLayout::V2) && match snap.newest_compile {
        Some(n) => n <= cutoff,
        None => false,
    }
}

/// The wipe of a dormant profile: every pool, then every file of the profile
/// directory except locks and markers.
pub open spec fn dormant_item(snap: DormantSnapshot) -> ItemModel {
    let wiped = snap.files@.filter(|f: (String, u64)| !is_kept_in_profile(f.0@));
    ItemModel {
        tier: Tier::Dormant,
        delete_first: snap.pools@.map_values(|p: (String, u64)| seq![p.0@]),
        delete_then: wiped.map_values(|f: (String, u64)| seq![f.0@]),
        session_locks: Seq::empty(),
        bytes: clamp_u64(named_bytes(snap.pools@) + named_bytes(wiped)),
        entries: clamp_u64((snap.pools@.len() + wiped.len()) as int),
    }
}

fn kept_in_profile(n: &String) -> (b: bool)
    ensures
        b == is_kept_in_profile(n@),
{
    str_eq(n.as_str(), ".cargo-lock") || str_eq(n.as_str(), ".cargo-build-lock") || str_eq(
        n.as_str(),
        ".cargo-artifact-lock",
    ) || str_eq(n.as_str(), "CACHEDIR.TAG")
}

/// A dormant wipe keeps Cargo's locks and the cache marker: it never
/// deletes `.cargo-lock`, `.cargo-build-lock`, `.cargo-artifact-lock` or
/// `CACHEDIR.TAG`, and it deletes every other file of the profile directory.
pub proof fn law_dormant_wipe_keeps_locks(snap: DormantSnapshot)
    ensures
        forall|k: int|
            0 <= k < dormant_item(snap).delete_then.len() ==> {
                let p = #[trigger] dormant_item(snap).delete_then[k];
                &&& p != seq![".cargo-lock"@]
                &&& p != seq![".cargo-build-lock"@]
                &&& p != seq![".cargo-artifact-lock"@]
                &&& p != seq!["CACHEDIR.TAG"@]
            },
        forall|i: int|
            0 <= i < snap.files@.len() && ({
                let n = #[trigger] snap.files@[i].0@;
                &&& n != ".cargo-lock"@
                &&& n != ".cargo-build-lock"@
                &&& n != ".cargo-artifact-lock"@
                &&& n != "CACHEDIR.TAG"@
            }) ==> dormant_item(snap).delete_then.contains(seq![snap.files@[i].0@]),
{
    let pred = |f: (String, u64)| !is_kept_in_profile(f.0@);
    let wiped = snap.files@.filter(pred);
    let dt = dormant_item(snap).delete_then;
    assert forall|k: int| 0 <= k < dt.len() implies {
        let p = #[trigger] dt[k];
        &&& p != seq![".cargo-lock"@]
        &&& p != seq![".cargo-build-lock"@]
        &&& p != seq![".cargo-artifact-lock"@]
        &&& p != seq!["CACHEDIR.TAG"@]
    } by {
        snap.files@.lemma_filter_pred(pred, k);
        let x = wiped[k].0@;
        assert(dt[k] == seq![x]);
        assert(seq![x][0] == x);
        assert(seq![".cargo-lock"@][0] == ".cargo-lock"@);
        assert(seq![".cargo-build-lock"@][0] == ".cargo-build-lock"@);
        assert(seq![".cargo-artifact-lock"@][0] == ".cargo-artifact-lock"@);
        assert(seq!["CACHEDIR.TAG"@][0] == "CACHEDIR.TAG"@);
    }
    assert forall|i: int|
        0 <= i < snap.files@.len() && ({
            let n = #[trigger] snap.files@[i].0@;
            &&& n != ".cargo-lock"@
            &&& n != ".cargo-build-lock"@
            &&& n != ".cargo-artifact-lock"@
            &&& n != "CACHEDIR.TAG"@
        }) implies dt.contains(seq![snap.files@[i].0@]) by {
        snap.files@.lemma_filter_contains(pred, i);
        let m = choose|m: int| 0 <= m < wiped.len() && wiped[m] == snap.files@[i];
        assert(dt[m] == seq![snap.files@[i].0@]);
    }
}

/// Tier 6 (opt-in): when the profile's newest compile is at or before
/// `cutoff`, replace the plan with one full-pool wipe (locks and markers
/// kept). Returns whether the profile was dormant. No compile evidence means
/// not dormant.
pub fn append_dormant_item(report: &mut ProfileReport, snap: &DormantSnapshot, cutoff: i128) -> (dormant: bool)
    ensures
        dormant == is_dormant(old(report).layout, *snap, cutoff),
        final(report).path == old(report).path,
        final(report).layout == old(report).layout,
        final(report).pools == old(report).pools,
        final(report).unparsed_kept == old(report).unparsed_kept,
        dormant ==> item_models(final(report).reclaim@) == seq![dormant_item(*snap)],
        dormant ==> estimates(final(report).tiers@) == seq![(Tier::Dormant, dormant_item(*snap).bytes, dormant_item(*snap).entries)],
        !dormant ==> final(report).reclaim@ == old(report).reclaim@ && final(report).tiers@ == old(report).tiers@,
        // The wipe never deletes Cargo's locks or the cache marker.
        dormant ==> forall|k: int|
            0 <= k < item_models(final(report).reclaim@)[0].delete_then.len() ==> {
                let p = #[trigger] item_models(final(report).reclaim@)[0].delete_then[k];
                &&& p != seq![".cargo-lock"@]
                &&& p != seq![".cargo-build-lock"@]
                &&& p != seq![".cargo-artifact-lock"@]
                &&& p != seq!["CACHEDIR.TAG"@]
            },
{
    proof {
        law_dormant_wipe_keeps_locks(*snap);
    }
    if !(report.layout == ProfileLayout::LegacyBuild || report.layout == ProfileLayout::V2) {
        return false;
    }
    match snap.newest_compile {
        None => return false,
        Some(n) => {
            if n > cutoff {
                return false;
            }
        },
    }
    let ghost pmap = |p: (String, u64)| seq![p.0@];
    let mut first: Vec<Vec<String>> = Vec::new();
    let mut bytes: u64 = 0;
    let mut entries: u64 = 0;
    let mut i: usize = 0;
    assert(snap.pools@.take(0) =~= Seq::<(String, u64)>::empty());
    assert(name_lists(first@) =~= snap.pools@.take(0).map_values(pmap));
    while i < snap.pools.len()
        invariant
            i <= snap.pools@.len(),
            pmap == (|p: (String, u64)| seq![p.0@]),
            name_lists(first@) == snap.pools@.take(i as int).map_values(pmap),
            bytes == clamp_u64(named_bytes(snap.pools@.take(i as int))),
            entries == i,
        decreases snap.pools.len() - i,
    {
        let ghost before = name_lists(first@);
        first.push(vec![snap.pools[i].0.clone()]);
        bytes = bytes.saturating_add(snap.pools[i].1);
        entries = entries + 1;
        proof {
            assert(snap.pools@.take(i + 1) =~= snap.pools@.take(i as int).push(snap.pools@[i as int]));
            assert(snap.pools@.take(i + 1).drop_last() =~= snap.pools@.take(i as int));
            assert(names(first@[first@.len() - 1]@) =~= seq![snap.pools@[i as int].0@]);
            assert(name_lists(first@) =~= before.push(pmap(snap.pools@[i as int])));
        }
        i = i + 1;
    }
    assert(snap.pools@.take(i as int) =~= snap.pools@);
    let ghost kpred = |f: (String, u64)| !is_kept_in_profile(f.0@);
    let ghost fmap = |f: (String, u64)| seq![f.0@];
    let ghost pool_total = named_bytes(snap.pools@);
    let ghost npools = snap.pools@.len();
    let mut then: Vec<Vec<String>> = Vec::new();
    let mut j: usize = 0;
    assert(snap.files@.take(0).filter(kpred) =~= Seq::<(String, u64)>::empty());
    assert(name_lists(then@) =~= snap.files@.take(0).filter(kpred).map_values(fmap));
    while j < snap.files.len()
        invariant
            j <= snap.files@.len(),
            kpred == (|f: (String, u64)| !is_kept_in_profile(f.0@)),
            fmap == (|f: (String, u64)| seq![f.0@]),
            pool_total == named_bytes(snap.pools@),
            npools == snap.pools@.len(),
            name_lists(then@) == snap.files@.take(j as int).filter(kpred).map_values(fmap),
            bytes == clamp_u64(pool_total + named_bytes(snap.files@.take(j as int).filter(kpred))),
            entries == clamp_u64((npools + snap.files@.take(j as int).filter(kpred).len()) as int),
        decreases snap.files.len() - j,
    {
        let ghost before = snap.files@.take(j as int).filter(kpred);
        proof {
            assert(snap.files@.take(j + 1) =~= snap.files@.take(j as int).push(snap.files@[j as int]));
            snap.files@.take(j as int).lemma_filter_push(snap.files@[j as int], kpred);
        }
        if !kept_in_profile(&snap.files[j].0) {
            let ghost old_then = name_lists(then@);
            then.push(vec![snap.files[j].0.clone()]);
            bytes = bytes.saturating_add(snap.files[j].1);
            entries = entries.saturating_add(1);
            proof {
                let sel = snap.files@.take(j + 1).filter(kpred);
                assert(sel =~= before.push(snap.files@[j as int]));
                assert(sel.drop_last() =~= before);
                assert(names(then@[then@.len() - 1]@) =~= seq![snap.files@[j as int].0@]);
                assert(name_lists(then@) =~= old_then.push(fmap(snap.files@[j as int])));
                assert(sel.map_values(fmap) =~= before.map_values(fmap).push(fmap(snap.files@[j as int])));
            }
        } else {
            assert(snap.files@.take(j + 1).filter(kpred) =~= before);
        }
        j = j + 1;
    }
    assert(snap.files@.take(j as int) =~= snap.files@);
    let none: Vec<Vec<String>> = Vec::new();
    proof {
        assert(name_lists(none@) =~= Seq::<Seq<Seq<char>>>::empty());
    }
    report.reclaim = vec![ReclaimItem {
        tier: Tier::Dormant,
        delete_first: first,
        delete_then: then,
        session_locks: none,
        bytes,
        entries,
    }];
    report.tiers = vec![TierEstimate { tier: Tier::Dormant, reclaimable_bytes: bytes, reclaimable_entries: entries }];
    proof {
        assert(item_models(report.reclaim@) =~= seq![dormant_item(*snap)]);
        assert(estimates(report.tiers@) =~= seq![(Tier::Dormant, dormant_item(*snap).bytes, dormant_item(*snap).entries)]);
    }
    true
}

} // verus!
