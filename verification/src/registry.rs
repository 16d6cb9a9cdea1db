//! The machine-global project registry.
//!
//! The registry file is append-only: every announcement of a workspace adds
//! one sighting (its root and the time). Reading compacts the sightings into
//! one entry per workspace, with the root as first written and the earliest
//! and latest sighting, in increasing order of the root's path components.

use vstd::prelude::*;
use crate::text::{
    chars_of, string_of, is_strict_total, lemma_orders_strict_total, lemma_strictly_sorted_unique, name_lists, names,
    strictly_sorted_by, strings_eq, strings_lt, strs_order,
};

verus! {

/// Where the registry lives.
pub struct Registry {
    path: String,
}

impl View for Registry {
    type V = Seq<char>;

    closed spec fn view(&self) -> Seq<char> {
        self.path@
    }
}

impl Registry {
    pub fn open(path: String) -> (r: Registry)
        ensures
            r@ == path@,
    {
        Registry { path }
    }

    pub fn path(&self) -> (p: &str)
        ensures
            p@ == self@,
    {
        self.path.as_str()
    }
}

/// One announcement of a workspace, as read back from the registry.
pub struct Sighting {
    /// The workspace root as it was written.
    pub root: String,
    /// The root's path components: two sightings are of the same workspace
    /// exactly when their components are equal.
    pub key: Vec<String>,
    /// Seconds since the Unix epoch.
    pub ts: u64,
}

/// One component of a workspace root's path, as the platform parses it.
pub enum PathPart {
    /// A Windows prefix (`C:`, `\\server\share`), as text.
    Prefix(String),
    /// The root directory.
    Root,
    /// `.`
    Current,
    /// `..`
    Parent,
    /// A plain name.
    Normal(String),
}

/// The key text of a path component: a rank that orders the kinds as paths
/// order their components (prefix, root, `.`, `..`, plain name), then the
/// component's own text.
pub open spec fn part_key(p: PathPart) -> Seq<char> {
    match p {
        PathPart::Prefix(s) => seq!['0'] + s@,
        PathPart::Root => seq!['1'],
        PathPart::Current => seq!['2'],
        PathPart::Parent => seq!['3'],
        PathPart::Normal(s) => seq!['4'] + s@,
    }
}

fn ranked(rank: char, text: &str) -> (r: String)
    ensures
        r@ == seq![rank] + text@,
{
    let mut v: Vec<char> = vec![rank];
    let mut cs = chars_of(text);
    v.append(&mut cs);
    assert(v@ =~= seq![rank] + text@);
    string_of(&v)
}

/// The registry key of a workspace root from its path components: one key
/// text per component, so that keys order as the paths do.
pub fn path_key(parts: &Vec<PathPart>) -> (key: Vec<String>)
    ensures
        names(key@) == Seq::new(parts@.len(), |i: int| part_key(parts@[i])),
{
    let mut key: Vec<String> = Vec::new();
    let mut i: usize = 0;
    while i < parts.len()
        invariant
            i <= parts@.len(),
            names(key@) == Seq::new(i as nat, |j: int| part_key(parts@[j])),
        decreases parts.len() - i,
    {
        let k = match &parts[i] {
            PathPart::Prefix(s) => ranked('0', s.as_str()),
            PathPart::Root => ranked('1', ""),
            PathPart::Current => ranked('2', ""),
            PathPart::Parent => ranked('3', ""),
            PathPart::Normal(s) => ranked('4', s.as_str()),
        };
        proof {
            reveal_strlit("");
        }
        let ghost before = key@;
        key.push(k);
        assert(names(key@) =~= names(before).push(k@));
        assert(k@ =~= part_key(parts@[i as int]));
        assert(names(key@) =~= Seq::new((i + 1) as nat, |j: int| part_key(parts@[j])));
        i = i + 1;
    }
    key
}

/// One workspace as seen through the registry (compacted view).
pub struct RegistryEntry {
    pub root: String,
    pub first_seen: u64,
    pub last_seen: u64,
}

pub struct SightingView {
    pub key: Seq<Seq<char>>,
    pub root: Seq<char>,
    pub ts: int,
}

pub struct EntryView {
    pub root: Seq<char>,
    pub first_seen: int,
    pub last_seen: int,
}

pub open spec fn sighting_views(v: Seq<Sighting>) -> Seq<SightingView> {
    Seq::new(v.len(), |i: int| SightingView { key: names(v[i].key@), root: v[i].root@, ts: v[i].ts as int })
}

pub open spec fn entry_views(v: Seq<RegistryEntry>) -> Seq<EntryView> {
    Seq::new(
        v.len(),
        |i: int| EntryView { root: v[i].root@, first_seen: v[i].first_seen as int, last_seen: v[i].last_seen as int },
    )
}

/// Sighting `i` is of workspace `k`.
pub open spec fn sighted(s: Seq<SightingView>, k: Seq<Seq<char>>, i: int) -> bool {
    0 <= i < s.len() && s[i].key == k
}

/// `e` is the summary of the sightings of workspace `k`: the root of its
/// first sighting, and the earliest and latest of its sighting times.
pub open spec fn summarizes(s: Seq<SightingView>, k: Seq<Seq<char>>, e: EntryView) -> bool {
    &&& exists|i: int| #[trigger] sighted(s, k, i) && e.root == s[i].root && forall|j: int| 0 <= j < i ==> !sighted(s, k, j)
    &&& exists|i: int| #[trigger] sighted(s, k, i) && e.first_seen == s[i].ts
    &&& exists|i: int| #[trigger] sighted(s, k, i) && e.last_seen == s[i].ts
    &&& forall|i: int| #[trigger] sighted(s, k, i) ==> e.first_seen <= s[i].ts <= e.last_seen
}

/// `entries` compacts the sightings `s`: one entry per workspace, in strictly
/// increasing order of the workspaces' components `keys`.
pub open spec fn is_compaction(s: Seq<SightingView>, keys: Seq<Seq<Seq<char>>>, entries: Seq<EntryView>) -> bool {
    &&& keys.len() == entries.len()
    &&& strictly_sorted_by(keys, strs_order())
    &&& forall|q: int| 0 <= q < keys.len() ==> #[trigger] summarizes(s, keys[q], entries[q])
    &&& forall|i: int| 0 <= i < s.len() ==> keys.contains(#[trigger] s[i].key)
}

proof fn lemma_summary_unique(s: Seq<SightingView>, k: Seq<Seq<char>>, e1: EntryView, e2: EntryView)
    requires
        summarizes(s, k, e1),
        summarizes(s, k, e2),
    ensures
        e1 == e2,
{
    let a = choose|i: int| #[trigger] sighted(s, k, i) && e1.root == s[i].root && forall|j: int| 0 <= j < i ==> !sighted(s, k, j);
    let b = choose|i: int| #[trigger] sighted(s, k, i) && e2.root == s[i].root && forall|j: int| 0 <= j < i ==> !sighted(s, k, j);
    if a < b {
        assert(!sighted(s, k, a));
    }
    if b < a {
        assert(!sighted(s, k, b));
    }
    let f1 = choose|i: int| #[trigger] sighted(s, k, i) && e1.first_seen == s[i].ts;
    let f2 = choose|i: int| #[trigger] sighted(s, k, i) && e2.first_seen == s[i].ts;
    let l1 = choose|i: int| #[trigger] sighted(s, k, i) && e1.last_seen == s[i].ts;
    let l2 = choose|i: int| #[trigger] sighted(s, k, i) && e2.last_seen == s[i].ts;
    assert(e1.first_seen <= s[f2].ts && e2.first_seen <= s[f1].ts);
    assert(e1.last_seen >= s[l2].ts && e2.last_seen >= s[l1].ts);
}

/// The compacted view is determined by the sightings: two compactions of the
/// same sightings are the same list of entries.
pub proof fn law_compaction_unique(
    s: Seq<SightingView>,
    k1: Seq<Seq<Seq<char>>>,
    e1: Seq<EntryView>,
    k2: Seq<Seq<Seq<char>>>,
    e2: Seq<EntryView>,
)
    requires
        is_compaction(s, k1, e1),
        is_compaction(s, k2, e2),
    ensures
        k1 == k2,
        e1 == e2,
{
    lemma_orders_strict_total();
    assert forall|x: Seq<Seq<char>>| #[trigger] k1.contains(x) <==> k2.contains(x) by {
        if k1.contains(x) {
            let q = choose|q: int| 0 <= q < k1.len() && k1[q] == x;
            assert(summarizes(s, k1[q], e1[q]));
            let i = choose|i: int| #[trigger] sighted(s, x, i) && e1[q].first_seen == s[i].ts;
            assert(k2.contains(s[i].key));
        }
        if k2.contains(x) {
            let q = choose|q: int| 0 <= q < k2.len() && k2[q] == x;
            assert(summarizes(s, k2[q], e2[q]));
            let i = choose|i: int| #[trigger] sighted(s, x, i) && e2[q].first_seen == s[i].ts;
            assert(k1.contains(s[i].key));
        }
    }
    lemma_strictly_sorted_unique(k1, k2, strs_order());
    assert forall|q: int| 0 <= q < e1.len() implies e1[q] == e2[q] by {
        assert(summarizes(s, k1[q], e1[q]));
        assert(summarizes(s, k2[q], e2[q]));
        lemma_summary_unique(s, k1[q], e1[q], e2[q]);
    }
    assert(e1 =~= e2);
}

/// Every sighting counts: its workspace has exactly one entry, and that
/// entry's first and last sighting bracket it.
pub proof fn law_sighting_counted(
    s: Seq<SightingView>,
    keys: Seq<Seq<Seq<char>>>,
    entries: Seq<EntryView>,
    i: int,
)
    requires
        is_compaction(s, keys, entries),
        0 <= i < s.len(),
    ensures
        exists|q: int|
            0 <= q < keys.len() && keys[q] == s[i].key && #[trigger] entries[q].first_seen <= s[i].ts <= entries[q].last_seen,
        forall|a: int, b: int| 0 <= a < keys.len() && 0 <= b < keys.len() && keys[a] == keys[b] ==> a == b,
{
    lemma_orders_strict_total();
    assert(keys.contains(s[i].key));
    let q = choose|q: int| 0 <= q < keys.len() && keys[q] == s[i].key;
    assert(summarizes(s, keys[q], entries[q]));
    assert(sighted(s, keys[q], i));
    assert forall|a: int, b: int| 0 <= a < keys.len() && 0 <= b < keys.len() && keys[a] == keys[b] implies a == b by {
        if a < b {
            assert(strs_order()(keys[a], keys[b]));
        } else if b < a {
            assert(strs_order()(keys[b], keys[a]));
        }
    }
}

/// Adding a sighting of another workspace leaves a summary unchanged.
proof fn lemma_summary_other(s: Seq<SightingView>, x: SightingView, k: Seq<Seq<char>>, e: EntryView)
    requires
        summarizes(s, k, e),
        x.key != k,
    ensures
        summarizes(s.push(x), k, e),
{
    let t = s.push(x);
    assert forall|i: int| #[trigger] sighted(t, k, i) implies sighted(s, k, i) by {}
    let a = choose|i: int| #[trigger] sighted(s, k, i) && e.root == s[i].root && forall|j: int| 0 <= j < i ==> !sighted(s, k, j);
    assert(sighted(t, k, a));
    assert forall|j: int| 0 <= j < a implies !sighted(t, k, j) by {
        assert(!sighted(s, k, j));
    }
    let f = choose|i: int| #[trigger] sighted(s, k, i) && e.first_seen == s[i].ts;
    assert(sighted(t, k, f));
    let l = choose|i: int| #[trigger] sighted(s, k, i) && e.last_seen == s[i].ts;
    assert(sighted(t, k, l));
}

/// Adding a sighting of a summarized workspace widens its time range.
proof fn lemma_summary_again(s: Seq<SightingView>, x: SightingView, e: EntryView)
    requires
        summarizes(s, x.key, e),
    ensures
        summarizes(
            s.push(x),
            x.key,
            EntryView {
                root: e.root,
                first_seen: if x.ts < e.first_seen { x.ts } else { e.first_seen },
                last_seen: if x.ts > e.last_seen { x.ts } else { e.last_seen },
            },
        ),
{
    let k = x.key;
    let t = s.push(x);
    let n = s.len() as int;
    assert(sighted(t, k, n));
    assert forall|i: int| #[trigger] sighted(t, k, i) && i != n implies sighted(s, k, i) by {}
    let a = choose|i: int| #[trigger] sighted(s, k, i) && e.root == s[i].root && forall|j: int| 0 <= j < i ==> !sighted(s, k, j);
    assert(sighted(t, k, a));
    assert forall|j: int| 0 <= j < a implies !sighted(t, k, j) by {
        assert(!sighted(s, k, j));
    }
    let f = choose|i: int| #[trigger] sighted(s, k, i) && e.first_seen == s[i].ts;
    assert(sighted(t, k, f));
    let l = choose|i: int| #[trigger] sighted(s, k, i) && e.last_seen == s[i].ts;
    assert(sighted(t, k, l));
}

/// The first sighting of a workspace summarizes it.
proof fn lemma_summary_new(s: Seq<SightingView>, x: SightingView)
    requires
        forall|i: int| 0 <= i < s.len() ==> s[i].key != x.key,
    ensures
        summarizes(s.push(x), x.key, EntryView { root: x.root, first_seen: x.ts, last_seen: x.ts }),
{
    let k = x.key;
    let t = s.push(x);
    let n = s.len() as int;
    assert(sighted(t, k, n));
    assert forall|i: int| #[trigger] sighted(t, k, i) implies i == n by {
        if i < n {
            assert(s[i].key == k);
        }
    }
}

/// Compact the sightings: one entry per workspace (same components), with
/// the root as first written and the earliest and latest sighting times, in
/// increasing order of the components.
pub fn compact_sightings(lines: &Vec<Sighting>) -> (r: Vec<RegistryEntry>)
    ensures
        exists|keys: Seq<Seq<Seq<char>>>| is_compaction(sighting_views(lines@), keys, entry_views(r@)),
{
    proof {
        lemma_orders_strict_total();
    }
    let ghost all = sighting_views(lines@);
    let ghost o = strs_order();
    let mut keys: Vec<Vec<String>> = Vec::new();
    let mut out: Vec<RegistryEntry> = Vec::new();
    let mut i: usize = 0;
    while i < lines.len()
        invariant
            i <= lines@.len(),
            all == sighting_views(lines@),
            o == strs_order(),
            is_strict_total(o),
            is_compaction(all.take(i as int), name_lists(keys@), entry_views(out@)),
        decreases lines.len() - i,
    {
        let line = &lines[i];
        let ghost s = all.take(i as int);
        let ghost x = all[i as int];
        let ghost ks = name_lists(keys@);
        let ghost es = entry_views(out@);
        assert(all.take(i + 1) =~= s.push(x));
        assert(x.key == names(line.key@));
        let mut p: usize = 0;
        while p < keys.len() && strings_lt(&keys[p], &line.key)
            invariant
                p <= keys@.len(),
                ks == name_lists(keys@),
                o == strs_order(),
                x.key == names(line.key@),
                forall|q: int| 0 <= q < p ==> o(#[trigger] ks[q], x.key),
            decreases keys.len() - p,
        {
            p = p + 1;
        }
        if p < keys.len() && strings_eq(&keys[p], &line.key) {
            let e = &out[p];
            let first = if line.ts < e.first_seen { line.ts } else { e.first_seen };
            let last = if line.ts > e.last_seen { line.ts } else { e.last_seen };
            let ne = RegistryEntry { root: e.root.clone(), first_seen: first, last_seen: last };
            proof {
                assert(ks[p as int] == x.key);
                assert(summarizes(s, ks[p as int], es[p as int]));
                lemma_summary_again(s, x, es[p as int]);
            }
            out.set(p, ne);
            proof {
                let es2 = entry_views(out@);
                assert(es2 =~= es.update(p as int, es2[p as int]));
                assert forall|q: int| 0 <= q < ks.len() implies #[trigger] summarizes(s.push(x), ks[q], es2[q]) by {
                    if q != p {
                        assert(summarizes(s, ks[q], es[q]));
                        if ks[q] == x.key {
                            assert(o(ks[q], ks[p as int]) || o(ks[p as int], ks[q]));
                        }
                        lemma_summary_other(s, x, ks[q], es[q]);
                    }
                }
                assert forall|j: int| 0 <= j < s.push(x).len() implies ks.contains(#[trigger] s.push(x)[j].key) by {
                    if j < s.len() {
                        assert(s.push(x)[j] == s[j]);
                    } else {
                        assert(ks[p as int] == x.key);
                    }
                }
            }
        } else {
            proof {
                assert forall|q: int| 0 <= q < s.len() implies s[q].key != x.key by {
                    if s[q].key == x.key {
                        assert(ks.contains(s[q].key));
                        let m = choose|m: int| 0 <= m < ks.len() && ks[m] == x.key;
                        if m < p {
                            assert(o(ks[m], x.key));
                        } else if m > p {
                            assert(o(ks[p as int], ks[m]));
                            assert(!o(ks[p as int], x.key));
                            assert(ks[p as int] != x.key);
                            assert(o(x.key, ks[p as int]));
                        }
                    }
                }
                lemma_summary_new(s, x);
                if p < ks.len() {
                    assert(ks[p as int] != x.key);
                    assert(o(x.key, ks[p as int]));
                }
            }
            keys.insert(p, line.key.clone());
            out.insert(p, RegistryEntry { root: line.root.clone(), first_seen: line.ts, last_seen: line.ts });
            proof {
                let ks2 = name_lists(keys@);
                let es2 = entry_views(out@);
                let nx = EntryView { root: x.root, first_seen: x.ts, last_seen: x.ts };
                assert(ks2 =~= ks.insert(p as int, x.key));
                assert(es2 =~= es.insert(p as int, nx));
                assert forall|a: int, b: int| 0 <= a < b < ks2.len() implies o(#[trigger] ks2[a], #[trigger] ks2[b]) by {
                    if b == p {
                        assert(ks2[a] == ks[a]);
                    } else if a == p {
                        assert(ks2[b] == ks[b - 1]);
                        if b - 1 > p {
                            assert(o(ks[p as int], ks[b - 1]));
                        }
                    } else {
                        let oa = if a < p { a } else { a - 1 };
                        let ob = if b < p { b } else { b - 1 };
                        assert(ks2[a] == ks[oa]);
                        assert(ks2[b] == ks[ob]);
                    }
                }
                assert forall|q: int| 0 <= q < ks2.len() implies #[trigger] summarizes(s.push(x), ks2[q], es2[q]) by {
                    if q < p {
                        assert(summarizes(s, ks[q], es[q]));
                        assert(o(ks[q], x.key));
                        lemma_summary_other(s, x, ks[q], es[q]);
                    } else if q > p {
                        assert(ks2[q] == ks[q - 1] && es2[q] == es[q - 1]);
                        assert(summarizes(s, ks[q - 1], es[q - 1]));
                        assert(o(x.key, ks[q - 1])) by {
                            if q - 1 > p {
                                assert(o(ks[p as int], ks[q - 1]));
                            }
                        }
                        lemma_summary_other(s, x, ks[q - 1], es[q - 1]);
                    }
                }
                assert forall|j: int| 0 <= j < s.push(x).len() implies ks2.contains(#[trigger] s.push(x)[j].key) by {
                    if j < s.len() {
                        assert(s.push(x)[j] == s[j]);
                        assert(ks.contains(s[j].key));
                        let m = choose|m: int| 0 <= m < ks.len() && ks[m] == s[j].key;
                        if m < p {
                            assert(ks2[m] == ks[m]);
                        } else {
                            assert(ks2[m + 1] == ks[m]);
                        }
                    } else {
                        assert(ks2[p as int] == x.key);
                    }
                }
            }
        }
        i = i + 1;
    }
    assert(all.take(i as int) =~= all);
    assert(is_compaction(sighting_views(lines@), name_lists(keys@), entry_views(out@)));
    out
}

} // verus!
