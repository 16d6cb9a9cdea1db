//! Profile-directory layout probing.
//!
//! Three layouts exist: legacy unified (or the build half of a split),
//! layout v2, and the artifact-only half of a split. Classification requires
//! a positive match; anything else is `Unknown` and is never swept.

use vstd::prelude::*;
use vstd::string::StringSliceAdditionalSpecFns;
use crate::unit::{is_unit_hash, spec_is_unit_hash};

verus! {

#[derive(Debug, Clone, Copy, PartialEq, Eq, Structural)]
pub enum ProfileLayout {
    /// `.fingerprint/` and `deps/` present.
    LegacyBuild,
    /// `build/<pkg>/<16hex>/fingerprint/` present, no `.fingerprint/` or `deps/`.
    V2,
    /// Uplifted artifacts and `.cargo-artifact-lock`, none of the build pools.
    ArtifactOnly,
    /// No grammar matched: sweep nothing, report.
    Unknown,
}

/// What probing a profile directory looks at.
pub struct ProfileProbe {
    /// `.fingerprint` is a directory.
    pub fingerprint_dir: bool,
    /// `deps` is a directory.
    pub deps_dir: bool,
    /// Every entry of every package directory under `build/`: its name, and
    /// whether it holds a `fingerprint` directory.
    pub build_units: Vec<(String, bool)>,
    /// `.cargo-artifact-lock` is a regular file.
    pub artifact_lock_file: bool,
    /// `.cargo-lock` is a regular file.
    pub cargo_lock_file: bool,
}

/// Some `build/<pkg>/<16hex>/fingerprint` chain exists.
pub open spec fn has_v2_chain(units: Seq<(String, bool)>) -> bool {
    exists|i: int| 0 <= i < units.len() && #[trigger] spec_is_unit_hash(units[i].0@) && units[i].1
}

/// The layout a probe shows.
pub open spec fn layout_of(p: ProfileProbe) -> ProfileLayout {
    if p.fingerprint_dir && p.deps_dir {
        ProfileLayout::LegacyBuild
    } else if !p.fingerprint_dir && !p.deps_dir && has_v2_chain(p.build_units@) {
        ProfileLayout::V2
    } else if p.artifact_lock_file || p.cargo_lock_file {
        ProfileLayout::ArtifactOnly
    } else {
        ProfileLayout::Unknown
    }
}

fn has_v2_unit(units: &Vec<(String, bool)>) -> (b: bool)
    ensures
        b == has_v2_chain(units@),
{
    let mut i: usize = 0;
    while i < units.len()
        invariant
            i <= units@.len(),
            forall|k: int| 0 <= k < i ==> !(#[trigger] spec_is_unit_hash(units@[k].0@) && units@[k].1),
        decreases units.len() - i,
    {
        if units[i].1 && is_unit_hash(units[i].0.as_str()) {
            return true;
        }
        i = i + 1;
    }
    false
}

/// Classify one profile directory from what was observed in it.
pub fn probe_profile(p: &ProfileProbe) -> (l: ProfileLayout)
    ensures
        l == layout_of(*p),
{
    if p.fingerprint_dir && p.deps_dir {
        return ProfileLayout::LegacyBuild;
    }
    if !p.fingerprint_dir && !p.deps_dir && has_v2_unit(&p.build_units) {
        return ProfileLayout::V2;
    }
    if p.artifact_lock_file || p.cargo_lock_file {
        return ProfileLayout::ArtifactOnly;
    }
    ProfileLayout::Unknown
}

/// The Cargo `CACHEDIR.TAG` signature line.
pub open spec fn cachedir_signature() -> Seq<u8> {
    "Signature: 8a477f597d28d172789f06886806bc55".spec_bytes()
}

/// The contents of a `CACHEDIR.TAG` file carry Cargo's signature: they start
/// with the signature line.
pub fn has_cachedir_signature(contents: &[u8]) -> (b: bool)
    ensures
        b == (cachedir_signature().len() <= contents@.len() && contents@.take(cachedir_signature().len() as int)
            == cachedir_signature()),
{
    let sig = "Signature: 8a477f597d28d172789f06886806bc55".as_bytes();
    if contents.len() < sig.len() {
        return false;
    }
    let mut i: usize = 0;
    while i < sig.len()
        invariant
            sig@ == cachedir_signature(),
            sig@.len() <= contents@.len(),
            i <= sig@.len(),
            forall|k: int| 0 <= k < i ==> contents@[k] == sig@[k],
        decreases sig.len() - i,
    {
        if contents[i] != sig[i] {
            assert(contents@.take(sig@.len() as int)[i as int] != sig@[i as int]);
            return false;
        }
        i = i + 1;
    }
    assert(contents@.take(sig@.len() as int) =~= sig@);
    true
}

} // verus!
