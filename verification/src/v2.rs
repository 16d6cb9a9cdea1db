//! Tiers 2–3 on layout v2: superseded whole unit directories
//! `build/<pkg>/<hash>/`, grouped by `(package, state-file set, output
//! extension set)` — the same mode-aware identity as the legacy layout, with
//! the unit directory as the atomic artifact.

use vstd::prelude::*;
use crate::budget::clamp_u64;
use crate::identity::{
    Observation, ident_before, keeps_one_newest, law_listing_keeps_newest, observations, superseded_order, supersede,
    survivor_of,
};
use crate::legacy::{FileStamp, is_build_script, stamps_recency};
use crate::scan::{ItemModel, ReclaimItem, Tier, count_where, item_models};
use crate::text::{
    key_order, lemma_orders_strict_total, insert_unique, is_listing, lemma_sorted_names_injective, lemma_is_listing, lemma_is_sorted_names, listing, name_lists, names,
    sorted_names, str_order, strictly_sorted_by,
};
use crate::unit::{
    KindModel, UnitKind, extension_chain, is_unit_hash, slice_names, spec_extension_chain,
    spec_is_unit_hash, spec_state_files, spec_unit_kind, unit_kind_from_files, unit_state_files,
};

verus! {

/// A child `build/<pkg>/<name>` of a package directory.
pub struct V2Unit {
    pub name: String,
    /// `<name>/fingerprint` is a directory.
    pub has_fingerprint: bool,
    /// The files of `<name>/fingerprint`.
    pub fingerprint_files: Vec<FileStamp>,
    /// The names inside `<name>/out`.
    pub out_names: Vec<String>,
    /// `<name>/run` is a directory.
    pub has_run: bool,
    /// Recursive size in bytes.
    pub bytes: u64,
}

/// A child `build/<pkg>` of the build directory.
pub struct V2Package {
    pub name: String,
    pub is_dir: bool,
    /// Its children, when it could be read.
    pub units: Option<Vec<V2Unit>>,
}

/// Every unit with its package name, in walk order.
pub open spec fn flat_units(pkgs: Seq<V2Package>) -> Seq<(Seq<char>, V2Unit)>
    decreases pkgs.len(),
{
    if pkgs.len() == 0 {
        Seq::empty()
    } else {
        let last = pkgs.last();
        flat_units(pkgs.drop_last()) + if last.is_dir && last.units is Some {
            last.units->0@.map_values(|u: V2Unit| (last.name@, u))
        } else {
            Seq::empty()
        }
    }
}

pub open spec fn v2_file_names(u: V2Unit) -> Seq<Seq<char>> {
    Seq::new(u.fingerprint_files@.len(), |i: int| u.fingerprint_files@[i].name@)
}

pub open spec fn v2_kind(u: V2Unit) -> Option<KindModel> {
    spec_unit_kind(v2_file_names(u))
}

/// A unit directory with a valid hash but no fingerprint half: residue of an
/// interrupted sweep, re-collected.
pub open spec fn is_v2_residue(pu: (Seq<char>, V2Unit)) -> bool {
    spec_is_unit_hash(pu.1.name@) && !pu.1.has_fingerprint
}

/// A unit directory that takes part in grouping.
pub open spec fn is_v2_unit(pu: (Seq<char>, V2Unit)) -> bool {
    spec_is_unit_hash(pu.1.name@) && pu.1.has_fingerprint && v2_kind(pu.1) is Some
}

/// A unit directory that matches no grammar: kept.
pub open spec fn v2_unparsed(pu: (Seq<char>, V2Unit)) -> bool {
    !spec_is_unit_hash(pu.1.name@) || (pu.1.has_fingerprint && v2_kind(pu.1) is None)
}

/// The output extension set: extension chains under `out/`, plus `run/` when
/// a `run/` directory exists.
pub open spec fn has_out_ext(u: V2Unit, x: Seq<char>) -> bool {
    (exists|i: int| 0 <= i < u.out_names@.len() && spec_extension_chain(#[trigger] u.out_names@[i]@) == x) || (
    u.has_run && x == "run/"@)
}

pub open spec fn out_ext_pred(u: V2Unit) -> spec_fn(Seq<char>) -> bool {
    |x: Seq<char>| has_out_ext(u, x)
}

pub open spec fn v2_key(pu: (Seq<char>, V2Unit)) -> Seq<Seq<Seq<char>>> {
    seq![
        seq![pu.0],
        sorted_names(spec_state_files(v2_file_names(pu.1)).to_multiset()),
        listing(out_ext_pred(pu.1)),
    ]
}

pub open spec fn v2_observations(units: Seq<(Seq<char>, V2Unit)>) -> Seq<(Seq<Seq<Seq<char>>>, int)> {
    Seq::new(units.len(), |i: int| (v2_key(units[i]), stamps_recency(units[i].1.fingerprint_files@)))
}

pub open spec fn v2_item(pu: (Seq<char>, V2Unit), tier: Tier) -> ItemModel {
    ItemModel {
        tier,
        delete_first: seq![seq!["build"@, pu.0, pu.1.name@]],
        delete_then: Seq::empty(),
        session_locks: Seq::empty(),
        bytes: pu.1.bytes as int,
        entries: 1,
    }
}

pub open spec fn v2_unit_tier(pu: (Seq<char>, V2Unit)) -> Tier {
    if is_build_script(v2_kind(pu.1)->0) {
        Tier::BuildScripts
    } else {
        Tier::Units
    }
}

/// The v2 plan: fingerprint-less unit directories in walk order, then the
/// superseded units in identity order.
pub open spec fn v2_plan(pkgs: Seq<V2Package>) -> Seq<ItemModel> {
    let flat = flat_units(pkgs);
    let units = flat.filter(|pu: (Seq<char>, V2Unit)| is_v2_unit(pu));
    flat.filter(|pu: (Seq<char>, V2Unit)| is_v2_residue(pu)).map_values(
        |pu: (Seq<char>, V2Unit)| v2_item(pu, Tier::Units),
    ) + superseded_order(v2_observations(units)).map_values(
        |p: usize| v2_item(units[p as int], v2_unit_tier(units[p as int])),
    )
}

/// Entries under `build/` that match no grammar.
pub open spec fn v2_unparsed_count(pkgs: Seq<V2Package>) -> int {
    count_where(pkgs, |p: V2Package| !p.is_dir) + count_where(
        flat_units(pkgs),
        |pu: (Seq<char>, V2Unit)| v2_unparsed(pu),
    )
}

// ---------------------------------------------------------------------------
// Executable classification
// ---------------------------------------------------------------------------

/// Positions `(package, unit)` of every unit, matching `flat_units`.
fn flatten(pkgs: &Vec<V2Package>) -> (r: Vec<(usize, usize)>)
    ensures
        r@.len() == flat_units(pkgs@).len(),
        forall|k: int| 0 <= k < r@.len() ==> {
            let (a, b) = #[trigger] r@[k];
            &&& a < pkgs@.len()
            &&& pkgs@[a as int].units is Some
            &&& b < pkgs@[a as int].units->0@.len()
            &&& flat_units(pkgs@)[k] == (pkgs@[a as int].name@, pkgs@[a as int].units->0@[b as int])
        },
{
    let mut r: Vec<(usize, usize)> = Vec::new();
    let mut i: usize = 0;
    assert(pkgs@.take(0) =~= Seq::<V2Package>::empty());
    while i < pkgs.len()
        invariant
            i <= pkgs@.len(),
            r@.len() == flat_units(pkgs@.take(i as int)).len(),
            forall|k: int| 0 <= k < r@.len() ==> {
                let (a, b) = #[trigger] r@[k];
                &&& a < pkgs@.len()
                &&& pkgs@[a as int].units is Some
                &&& b < pkgs@[a as int].units->0@.len()
                &&& flat_units(pkgs@.take(i as int))[k] == (pkgs@[a as int].name@, pkgs@[a as int].units->0@[b as int])
            },
        decreases pkgs.len() - i,
    {
        let pkg = &pkgs[i];
        let ghost before = flat_units(pkgs@.take(i as int));
        assert(pkgs@.take(i + 1).drop_last() =~= pkgs@.take(i as int));
        assert(pkgs@.take(i + 1).last() == pkgs@[i as int]);
        if pkg.is_dir {
            match &pkg.units {
                Some(units) => {
                    let ghost added = units@.map_values(|u: V2Unit| (pkg.name@, u));
                    assert(flat_units(pkgs@.take(i + 1)) == before + added);
                    let mut j: usize = 0;
                    while j < units.len()
                        invariant
                            i < pkgs@.len(),
                            pkg == pkgs@[i as int],
                            pkg.units == Some(*units),
                            j <= units@.len(),
                            added == units@.map_values(|u: V2Unit| (pkg.name@, u)),
                            r@.len() == before.len() + j,
                            forall|k: int| 0 <= k < r@.len() ==> {
                                let (a, b) = #[trigger] r@[k];
                                &&& a < pkgs@.len()
                                &&& pkgs@[a as int].units is Some
                                &&& b < pkgs@[a as int].units->0@.len()
                                &&& (before + added)[k] == (pkgs@[a as int].name@, pkgs@[a as int].units->0@[b as int])
                            },
                        decreases units.len() - j,
                    {
                        r.push((i, j));
                        j = j + 1;
                    }
                },
                None => {
                    assert(flat_units(pkgs@.take(i + 1)) =~= before);
                },
            }
        } else {
            assert(flat_units(pkgs@.take(i + 1)) =~= before);
        }
        proof {
            assert forall|k: int| 0 <= k < r@.len() implies {
                let (a, b) = #[trigger] r@[k];
                flat_units(pkgs@.take(i + 1))[k] == (pkgs@[a as int].name@, pkgs@[a as int].units->0@[b as int])
            } by {
                if k < before.len() {
                    assert(flat_units(pkgs@.take(i + 1))[k] == before[k]);
                }
            }
        }
        i = i + 1;
    }
    assert(pkgs@.take(i as int) =~= pkgs@);
    r
}

/// The output extension set of a unit, in increasing order.
fn out_exts(u: &V2Unit) -> (r: Vec<String>)
    ensures
        names(r@) == listing(out_ext_pred(*u)),
{
    let mut r: Vec<String> = Vec::new();
    let mut i: usize = 0;
    while i < u.out_names.len()
        invariant
            i <= u.out_names@.len(),
            strictly_sorted_by(names(r@), str_order()),
            forall|x: Seq<char>| #[trigger] names(r@).contains(x) <==> exists|k: int|
                0 <= k < i && spec_extension_chain(#[trigger] u.out_names@[k]@) == x,
        decreases u.out_names.len() - i,
    {
        let ghost old = names(r@);
        let e = extension_chain(u.out_names[i].as_str()).to_owned();
        let ghost ev = e@;
        insert_unique(&mut r, e);
        assert forall|x: Seq<char>| #[trigger] names(r@).contains(x) <==> exists|k: int|
            0 <= k < i + 1 && spec_extension_chain(#[trigger] u.out_names@[k]@) == x by {
            if x == ev {
                assert(spec_extension_chain(u.out_names@[i as int]@) == x);
            }
            if exists|k: int| 0 <= k < i + 1 && spec_extension_chain(#[trigger] u.out_names@[k]@) == x {
                let k = choose|k: int| 0 <= k < i + 1 && spec_extension_chain(#[trigger] u.out_names@[k]@) == x;
                if k < i {
                    assert(old.contains(x));
                }
            }
        }
        i = i + 1;
    }
    if u.has_run {
        let ghost old = names(r@);
        insert_unique(&mut r, "run/".to_owned());
        assert forall|x: Seq<char>| #[trigger] names(r@).contains(x) <==> has_out_ext(*u, x) by {
            if old.contains(x) {
            }
        }
    } else {
        assert forall|x: Seq<char>| #[trigger] names(r@).contains(x) <==> has_out_ext(*u, x) by {}
    }
    proof {
        assert(is_listing(names(r@), out_ext_pred(*u)));
        lemma_is_listing(names(r@), out_ext_pred(*u));
    }
    r
}

fn v2_file_name_list(u: &V2Unit) -> (r: Vec<&str>)
    ensures
        slice_names(r@) == v2_file_names(*u),
{
    let mut r: Vec<&str> = Vec::new();
    let mut i: usize = 0;
    while i < u.fingerprint_files.len()
        invariant
            i <= u.fingerprint_files@.len(),
            r@.len() == i,
            forall|k: int| 0 <= k < i ==> #[trigger] r@[k]@ == u.fingerprint_files@[k].name@,
        decreases u.fingerprint_files.len() - i,
    {
        r.push(u.fingerprint_files[i].name.as_str());
        i = i + 1;
    }
    assert(slice_names(r@) =~= v2_file_names(*u));
    r
}

fn recency_of(files: &Vec<FileStamp>) -> (r: i128)
    ensures
        r == stamps_recency(files@),
{
    let mut recency: i128 = 0;
    let mut i: usize = 0;
    assert(files@.take(0) =~= Seq::<FileStamp>::empty());
    while i < files.len()
        invariant
            i <= files@.len(),
            recency == stamps_recency(files@.take(i as int)),
        decreases files.len() - i,
    {
        assert(files@.take(i + 1).drop_last() =~= files@.take(i as int));
        match files[i].mtime {
            Some(m) => {
                if m > recency {
                    recency = m;
                }
            },
            None => {},
        }
        i = i + 1;
    }
    assert(files@.take(i as int) =~= files@);
    recency
}

fn v2_item_of(pkg: &String, u: &V2Unit, tier: Tier) -> (item: ReclaimItem)
    ensures
        item@ == v2_item((pkg@, *u), tier),
{
    let first = vec![vec!["build".to_owned(), pkg.clone(), u.name.clone()]];
    let none: Vec<Vec<String>> = Vec::new();
    let none2: Vec<Vec<String>> = Vec::new();
    proof {
        assert(names(first@[0]@) =~= seq!["build"@, pkg@, u.name@]);
        assert(name_lists(first@) =~= seq![seq!["build"@, pkg@, u.name@]]);
        assert(name_lists(none@) =~= Seq::<Seq<Seq<char>>>::empty());
        assert(name_lists(none2@) =~= Seq::<Seq<Seq<char>>>::empty());
    }
    ReclaimItem { tier, delete_first: first, delete_then: none, session_locks: none2, bytes: u.bytes, entries: 1 }
}

/// Two unit directories of the same package with the same fingerprint state
/// files (as a set of names with multiplicity, whatever their order on disk).
pub open spec fn same_package_and_state_v2(a: (Seq<char>, V2Unit), b: (Seq<char>, V2Unit)) -> bool {
    &&& a.0 == b.0
    &&& spec_state_files(v2_file_names(a.1)).to_multiset() == spec_state_files(v2_file_names(b.1)).to_multiset()
}

/// Unit `q` has a unit kept out of `ps` with the same package, the same
/// state files and the same sorted output extensions, and at least as recent.
pub open spec fn v2_kept_twin(units: Seq<(Seq<char>, V2Unit)>, ps: Seq<usize>, q: int) -> bool {
    exists|j: int|
        0 <= j < units.len() && j != q && !ps.contains(j as usize) && #[trigger] same_package_and_state_v2(
            units[j],
            units[q],
        ) && listing(out_ext_pred(units[j].1)) == listing(out_ext_pred(units[q].1)) && stamps_recency(
            units[q].1.fingerprint_files@,
        ) <= stamps_recency(units[j].1.fingerprint_files@)
}

/// A unit directory planned as superseded always has a kept unit directory
/// of the same package with the same state files: a binary and its test
/// binary, or a build script's compile and run units, never supersede each
/// other.
pub proof fn law_v2_superseded_by_same_state(units: Seq<(Seq<char>, V2Unit)>, ps: Seq<usize>)
    requires
        units.len() <= usize::MAX,
        keeps_one_newest(v2_observations(units), ps),
    ensures
        forall|k: int| 0 <= k < ps.len() ==> #[trigger] v2_kept_twin(units, ps, ps[k] as int),
{
    let obs = v2_observations(units);
    assert forall|k: int| 0 <= k < ps.len() implies #[trigger] v2_kept_twin(units, ps, ps[k] as int) by {
        let q = ps[k] as int;
        assert(q < obs.len());
        assert(survivor_of(obs, ps, q));
        let j = choose|j: int|
            0 <= j < obs.len() && obs[j].0 == obs[q].0 && !ps.contains(j as usize) && (forall|m: int|
                0 <= m < obs.len() && obs[m].0 == obs[q].0 && m != j ==> #[trigger] ps.contains(m as usize)
                    && ident_before(obs, m, j));
        assert(ps.contains(ps[k]));
        assert((j as usize) as int == j);
        let kj = v2_key(units[j]);
        let kq = v2_key(units[q]);
        assert(kj == obs[j].0 && kq == obs[q].0);
        assert(kj[0][0] == units[j].0);
        assert(kq[0][0] == units[q].0);
        assert(kj[1] == kq[1]);
        lemma_sorted_names_injective(
            spec_state_files(v2_file_names(units[j].1)),
            spec_state_files(v2_file_names(units[q].1)),
        );
        assert(same_package_and_state_v2(units[j], units[q]));
        assert(kj[2] == kq[2]);
        assert(ps.contains(q as usize));
        assert(ident_before(obs, q, j));
        lemma_orders_strict_total();
        assert(!key_order()(obs[q].0, obs[j].0));
        assert(obs[q].1 == stamps_recency(units[q].1.fingerprint_files@) && obs[j].1 == stamps_recency(units[j].1.fingerprint_files@));
    }
}

/// Tiers 2–3 on layout v2. Returns the plan and the number of entries kept
/// because they match no grammar.
pub fn classify_v2(pkgs: &Vec<V2Package>) -> (res: (Vec<ReclaimItem>, u64))
    ensures
        item_models(res.0@) == v2_plan(pkgs@),
        res.1 == clamp_u64(v2_unparsed_count(pkgs@)),
        // Keep-newest per identity (package, state-file set, output
        // extensions): after the re-collected residue, the plan deletes, once
        // each, every unit directory but the newest of its identity.
        ({
            let flat = flat_units(pkgs@);
            let units = flat.filter(|pu: (Seq<char>, V2Unit)| is_v2_unit(pu));
            let nres = flat.filter(|pu: (Seq<char>, V2Unit)| is_v2_residue(pu)).len();
            exists|ps: Seq<usize>|
                #[trigger] keeps_one_newest(v2_observations(units), ps) && item_models(res.0@).skip(nres as int)
                    == ps.map_values(|q: usize| v2_item(units[q as int], v2_unit_tier(units[q as int])))
                    // ... and only for a kept unit directory of the same
                    // package with the same state files.
                    && forall|k: int| 0 <= k < ps.len() ==> #[trigger] v2_kept_twin(units, ps, ps[k] as int)
        }),
{
    let ghost nodir = |p: V2Package| !p.is_dir;
    let mut pkg_unparsed: u64 = 0;
    let mut i: usize = 0;
    assert(pkgs@.take(0) =~= Seq::<V2Package>::empty());
    while i < pkgs.len()
        invariant
            i <= pkgs@.len(),
            nodir == (|p: V2Package| !p.is_dir),
            pkg_unparsed == count_where(pkgs@.take(i as int), nodir),
            pkg_unparsed <= i,
        decreases pkgs.len() - i,
    {
        assert(pkgs@.take(i + 1).drop_last() =~= pkgs@.take(i as int));
        if !pkgs[i].is_dir {
            pkg_unparsed = pkg_unparsed + 1;
        }
        i = i + 1;
    }
    assert(pkgs@.take(i as int) =~= pkgs@);
    let flat_pos = flatten(pkgs);
    let ghost flat = flat_units(pkgs@);
    let ghost rpred = |pu: (Seq<char>, V2Unit)| is_v2_residue(pu);
    let ghost upred = |pu: (Seq<char>, V2Unit)| is_v2_unit(pu);
    let ghost unp = |pu: (Seq<char>, V2Unit)| v2_unparsed(pu);
    let ghost rmap = |pu: (Seq<char>, V2Unit)| v2_item(pu, Tier::Units);
    let mut residue: Vec<ReclaimItem> = Vec::new();
    let mut unit_of: Vec<usize> = Vec::new();
    let mut obs: Vec<Observation> = Vec::new();
    let mut unparsed: u64 = 0;
    let mut k: usize = 0;
    assert(flat.take(0) =~= Seq::<(Seq<char>, V2Unit)>::empty());
    assert(flat.take(0).filter(rpred) =~= Seq::<(Seq<char>, V2Unit)>::empty());
    assert(flat.take(0).filter(upred) =~= Seq::<(Seq<char>, V2Unit)>::empty());
    assert(item_models(residue@) =~= flat.take(0).filter(rpred).map_values(rmap));
    while k < flat_pos.len()
        invariant
            k <= flat_pos@.len(),
            flat == flat_units(pkgs@),
            flat_pos@.len() == flat.len(),
            forall|q: int| 0 <= q < flat_pos@.len() ==> {
                let (a, b) = #[trigger] flat_pos@[q];
                &&& a < pkgs@.len()
                &&& pkgs@[a as int].units is Some
                &&& b < pkgs@[a as int].units->0@.len()
                &&& flat[q] == (pkgs@[a as int].name@, pkgs@[a as int].units->0@[b as int])
            },
            rpred == (|pu: (Seq<char>, V2Unit)| is_v2_residue(pu)),
            upred == (|pu: (Seq<char>, V2Unit)| is_v2_unit(pu)),
            unp == (|pu: (Seq<char>, V2Unit)| v2_unparsed(pu)),
            rmap == (|pu: (Seq<char>, V2Unit)| v2_item(pu, Tier::Units)),
            item_models(residue@) == flat.take(k as int).filter(rpred).map_values(rmap),
            unit_of@.len() == obs@.len(),
            unit_of@.len() == flat.take(k as int).filter(upred).len(),
            forall|q: int| 0 <= q < unit_of@.len() ==> #[trigger] unit_of@[q] < flat.len(),
            forall|q: int| 0 <= q < unit_of@.len() ==> flat[#[trigger] unit_of@[q] as int] == flat.take(k as int).filter(upred)[q],
            observations(obs@) == v2_observations(flat.take(k as int).filter(upred)),
            unparsed == count_where(flat.take(k as int), unp),
            unparsed <= k,
        decreases flat_pos.len() - k,
    {
        let (a, b) = flat_pos[k];
        let pkg = &pkgs[a];
        let units = match &pkg.units {
            Some(us) => us,
            None => {
                assert(false);
                return (Vec::new(), 0);
            },
        };
        let u = &units[b];
        let ghost pu = flat[k as int];
        assert(pu == (pkg.name@, *u));
        let ghost rb = flat.take(k as int).filter(rpred);
        let ghost ub = flat.take(k as int).filter(upred);
        proof {
            assert(flat.take(k + 1) =~= flat.take(k as int).push(pu));
            flat.take(k as int).lemma_filter_push(pu, rpred);
            flat.take(k as int).lemma_filter_push(pu, upred);
            assert(flat.take(k + 1).drop_last() =~= flat.take(k as int));
        }
        if !is_unit_hash(u.name.as_str()) {
            unparsed = unparsed + 1;
            assert(flat.take(k + 1).filter(rpred) =~= rb);
            assert(flat.take(k + 1).filter(upred) =~= ub);
        } else if !u.has_fingerprint {
            let ghost before = residue@;
            residue.push(v2_item_of(&pkg.name, u, Tier::Units));
            proof {
                assert(flat.take(k + 1).filter(rpred) =~= rb.push(pu));
                assert(item_models(residue@) =~= item_models(before).push(rmap(pu)));
                assert(flat.take(k + 1).filter(upred) =~= ub);
            }
        } else {
            assert(flat.take(k + 1).filter(rpred) =~= rb);
            let fnames = v2_file_name_list(u);
            match unit_kind_from_files(fnames.as_slice()) {
                None => {
                    unparsed = unparsed + 1;
                    assert(flat.take(k + 1).filter(upred) =~= ub);
                },
                Some(_) => {
                    let state = unit_state_files(fnames.as_slice());
                    proof {
                        lemma_is_sorted_names(names(state@));
                    }
                    let exts = out_exts(u);
                    let key = vec![vec![pkg.name.clone()], state, exts];
                    let recency = recency_of(&u.fingerprint_files);
                    let ghost old_obs = obs@;
                    unit_of.push(k);
                    obs.push(Observation { key, recency });
                    proof {
                        let us = flat.take(k + 1).filter(upred);
                        assert(us =~= ub.push(pu));
                        let n = us.len() - 1;
                        let last = obs@[n];
                        assert(names(last.key@[0]@) =~= seq![pkg.name@]);
                        assert(name_lists(last.key@) =~= v2_key(pu));
                        assert forall|q: int| 0 <= q < n implies #[trigger] observations(obs@)[q] == v2_observations(us)[q] by {
                            assert(observations(obs@)[q] == observations(old_obs)[q]);
                            assert(v2_observations(us)[q] == v2_observations(ub)[q]);
                        }
                        assert(observations(obs@) =~= v2_observations(us));
                    }
                },
            }
        }
        k = k + 1;
    }
    assert(flat.take(k as int) =~= flat);
    let ghost units = flat.filter(upred);
    let order = supersede(&obs);
    let mut items: Vec<ReclaimItem> = Vec::new();
    let mut p: usize = 0;
    let ghost gmap = |q: usize| v2_item(units[q as int], v2_unit_tier(units[q as int]));
    while p < order.len()
        invariant
            p <= order@.len(),
            flat == flat_units(pkgs@),
            flat_pos@.len() == flat.len(),
            forall|q: int| 0 <= q < flat_pos@.len() ==> {
                let (a, b) = #[trigger] flat_pos@[q];
                &&& a < pkgs@.len()
                &&& pkgs@[a as int].units is Some
                &&& b < pkgs@[a as int].units->0@.len()
                &&& flat[q] == (pkgs@[a as int].name@, pkgs@[a as int].units->0@[b as int])
            },
            upred == (|pu: (Seq<char>, V2Unit)| is_v2_unit(pu)),
            units == flat.filter(upred),
            gmap == (|q: usize| v2_item(units[q as int], v2_unit_tier(units[q as int]))),
            order@ == superseded_order(v2_observations(units)),
            forall|q: int| 0 <= q < order@.len() ==> #[trigger] order@[q] < obs@.len(),
            unit_of@.len() == obs@.len(),
            unit_of@.len() == units.len(),
            forall|q: int| 0 <= q < unit_of@.len() ==> #[trigger] unit_of@[q] < flat.len(),
            forall|q: int| 0 <= q < unit_of@.len() ==> flat[#[trigger] unit_of@[q] as int] == units[q],
            item_models(items@) == order@.take(p as int).map_values(gmap),
        decreases order.len() - p,
    {
        let fk = unit_of[order[p]];
        let (a, b) = flat_pos[fk];
        let pkg = &pkgs[a];
        let units_v = match &pkg.units {
            Some(us) => us,
            None => {
                assert(false);
                return (Vec::new(), 0);
            },
        };
        let u = &units_v[b];
        let ghost pu = units[order@[p as int] as int];
        assert(pu == (pkg.name@, *u));
        proof {
            flat.lemma_filter_pred(upred, order@[p as int] as int);
        }
        let fnames = v2_file_name_list(u);
        let tier = match unit_kind_from_files(fnames.as_slice()) {
            Some(UnitKind::BuildScriptCompile) => Tier::BuildScripts,
            Some(UnitKind::BuildScriptRun) => Tier::BuildScripts,
            _ => Tier::Units,
        };
        assert(tier == v2_unit_tier(pu));
        let ghost before = items@;
        items.push(v2_item_of(&pkg.name, u, tier));
        proof {
            assert(order@.take(p + 1) =~= order@.take(p as int).push(order@[p as int]));
            assert(item_models(items@) =~= item_models(before).push(gmap(order@[p as int])));
        }
        p = p + 1;
    }
    assert(order@.take(p as int) =~= order@);
    let ghost r0 = residue@;
    let ghost g0 = items@;
    residue.append(&mut items);
    proof {
        assert(residue@ =~= r0 + g0);
        assert(item_models(residue@) =~= item_models(r0) + item_models(g0));
        let ra = flat.filter(|pu: (Seq<char>, V2Unit)| is_v2_residue(pu)).map_values(
            |pu: (Seq<char>, V2Unit)| v2_item(pu, Tier::Units),
        );
        let rb = superseded_order(v2_observations(units)).map_values(
            |q: usize| v2_item(units[q as int], v2_unit_tier(units[q as int])),
        );
        assert(v2_plan(pkgs@) == ra + rb);
        assert(item_models(residue@) == ra + rb);
        assert((ra + rb).skip(ra.len() as int) =~= rb);
        assert(v2_observations(units).len() == obs@.len());
        law_listing_keeps_newest(v2_observations(units), order@);
        law_v2_superseded_by_same_state(units, order@);
    }
    (residue, pkg_unparsed.saturating_add(unparsed))
}

} // verus!
