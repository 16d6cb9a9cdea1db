//! Target-directory discovery decisions.
//!
//! A directory is a target or build root when it carries a positive marker
//! (`.rustc_info.json`, a signed `CACHEDIR.TAG`) or the conventional name
//! `target`, and at least one child (directly, or nested one level under a
//! target-triple directory) probes as a known profile layout. The walk never
//! enters version-control, `node_modules` or toolchain directories, nor a
//! target root it has found.

use vstd::prelude::*;
use crate::budget::{ascii_lower, lower_chars};
use crate::layout::ProfileLayout;
use crate::text::{chars_eq, chars_of, str_eq};

verus! {

/// A discovered target (or split build) directory with its profile dirs.
pub struct TargetDir {
    pub root: String,
    /// Profile directories that probed to a known layout, including ones
    /// nested under a target-triple directory.
    pub profiles: Vec<(String, ProfileLayout)>,
}

/// A directory child of a candidate root, probed.
pub struct ChildProbe {
    pub path: String,
    /// The child's own layout.
    pub layout: ProfileLayout,
    /// When the child's layout is unknown: its own directory children, each
    /// with its layout (a target-triple directory holds profiles).
    pub nested: Vec<(String, ProfileLayout)>,
}

/// Directory names that never contain a target dir.
pub open spec fn is_pruned_name(n: Seq<char>) -> bool {
    n == ".git"@ || n == ".svn"@ || n == ".hg"@ || n == "node_modules"@ || n == ".rustup"@
}

pub fn is_pruned(name: &str) -> (b: bool)
    ensures
        b == is_pruned_name(name@),
{
    str_eq(name, ".git") || str_eq(name, ".svn") || str_eq(name, ".hg") || str_eq(name, "node_modules") || str_eq(
        name,
        ".rustup",
    )
}

/// A candidate root is marked: named `target` in any ASCII case, or holding
/// `.rustc_info.json`, or a signed `CACHEDIR.TAG`.
pub open spec fn is_marked(name: Option<Seq<char>>, rustc_info: bool, cachedir_tag: bool) -> bool {
    (name matches Some(n) && ascii_lower(n) == "target"@) || rustc_info || cachedir_tag
}

pub fn marked(name: Option<&str>, rustc_info: bool, cachedir_tag: bool) -> (b: bool)
    ensures
        b == is_marked(
            match name {
                Some(n) => Some(n@),
                None => None,
            },
            rustc_info,
            cachedir_tag,
        ),
{
    let named = match name {
        Some(n) => {
            let l = lower_chars(&chars_of(n));
            chars_eq(&l, &chars_of("target"))
        },
        None => false,
    };
    named || rustc_info || cachedir_tag
}

pub open spec fn pair_views(v: Seq<(String, ProfileLayout)>) -> Seq<(Seq<char>, ProfileLayout)> {
    Seq::new(v.len(), |i: int| (v[i].0@, v[i].1))
}

/// The profiles a child contributes: itself when its layout is known, else
/// its nested directories of known layout.
pub open spec fn child_profiles(c: ChildProbe) -> Seq<(Seq<char>, ProfileLayout)> {
    if c.layout != ProfileLayout::Unknown {
        seq![(c.path@, c.layout)]
    } else {
        pair_views(c.nested@).filter(|p: (Seq<char>, ProfileLayout)| p.1 != ProfileLayout::Unknown)
    }
}

/// The profiles of all children, in order.
pub open spec fn profiles_of(children: Seq<ChildProbe>) -> Seq<(Seq<char>, ProfileLayout)>
    decreases children.len(),
{
    if children.len() == 0 {
        Seq::empty()
    } else {
        profiles_of(children.drop_last()) + child_profiles(children.last())
    }
}

fn child_profiles_of(c: &ChildProbe, out: &mut Vec<(String, ProfileLayout)>)
    ensures
        pair_views(final(out)@) == pair_views(old(out)@) + child_profiles(*c),
{
    let ghost start = pair_views(out@);
    if c.layout != ProfileLayout::Unknown {
        out.push((c.path.clone(), c.layout));
        assert(pair_views(out@) =~= start + child_profiles(*c));
        return;
    }
    let ghost f = |p: (Seq<char>, ProfileLayout)| p.1 != ProfileLayout::Unknown;
    let ghost nv = pair_views(c.nested@);
    let mut i: usize = 0;
    while i < c.nested.len()
        invariant
            i <= c.nested@.len(),
            nv == pair_views(c.nested@),
            f == (|p: (Seq<char>, ProfileLayout)| p.1 != ProfileLayout::Unknown),
            pair_views(out@) == start + nv.take(i as int).filter(f),
        decreases c.nested.len() - i,
    {
        proof {
            assert(nv.take(i + 1) =~= nv.take(i as int).push(nv[i as int]));
            nv.take(i as int).lemma_filter_push(nv[i as int], f);
        }
        let (ref path, layout) = c.nested[i];
        if layout != ProfileLayout::Unknown {
            let ghost before = pair_views(out@);
            out.push((path.clone(), layout));
            assert(pair_views(out@) =~= before.push(nv[i as int]));
        }
        i = i + 1;
    }
    assert(nv.take(i as int) =~= nv);
}

/// The known profiles among the children of a root.
pub fn collect_profiles(children: &Vec<ChildProbe>) -> (r: Vec<(String, ProfileLayout)>)
    ensures
        pair_views(r@) == profiles_of(children@),
{
    let mut out: Vec<(String, ProfileLayout)> = Vec::new();
    let mut i: usize = 0;
    assert(pair_views(out@) =~= profiles_of(children@.take(0)));
    while i < children.len()
        invariant
            i <= children@.len(),
            pair_views(out@) == profiles_of(children@.take(i as int)),
        decreases children.len() - i,
    {
        assert(children@.take(i + 1).drop_last() =~= children@.take(i as int));
        child_profiles_of(&children[i], &mut out);
        i = i + 1;
    }
    assert(children@.take(i as int) =~= children@);
    out
}

/// A candidate root is a target dir when it is marked and some profile of a
/// known layout was found among its children.
pub fn try_target_dir(root: String, is_marked: bool, children: &Vec<ChildProbe>) -> (r: Option<TargetDir>)
    ensures
        match r {
            Some(td) => is_marked && profiles_of(children@).len() > 0 && td.root == root && pair_views(
                td.profiles@,
            ) == profiles_of(children@),
            None => !is_marked || profiles_of(children@).len() == 0,
        },
{
    if !is_marked {
        return None;
    }
    let profiles = collect_profiles(children);
    if profiles.len() == 0 {
        return None;
    }
    Some(TargetDir { root, profiles })
}

} // verus!
