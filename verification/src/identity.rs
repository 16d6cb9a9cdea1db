//! The identity-recency rule: keep the newest member of every identity group.
//!
//! An observation is an identity key (a list of name lists) and a recency
//! (a modification time in nanoseconds from the Unix epoch). Observations are
//! ordered by key, then by recency, then by position (the stable order of
//! their discovery); every observation with a later member of its own key is
//! superseded.

use vstd::prelude::*;
use crate::order::{
    Grouped, IndexOrder, is_superseded, lemma_ordered_unique, strictly_ordered,
    superseded_positions,
};
use crate::text::{key_order, keys_eq, keys_lt, lemma_orders_strict_total, name_lists};

verus! {

/// One unit seen in a build directory: its identity key and recency.
pub struct Observation {
    pub key: Vec<Vec<String>>,
    pub recency: i128,
}

/// The mathematical value of an observation list: (key, recency) pairs.
pub open spec fn observations(v: Seq<Observation>) -> Seq<(Seq<Seq<Seq<char>>>, int)> {
    Seq::new(v.len(), |i: int| (name_lists(v[i].key@), v[i].recency as int))
}

/// Observation `i` comes before observation `j`: smaller key, or the same key
/// and older, or equally old and discovered first.
pub open spec fn ident_before(obs: Seq<(Seq<Seq<Seq<char>>>, int)>, i: int, j: int) -> bool {
    key_order()(obs[i].0, obs[j].0) || (obs[i].0 == obs[j].0 && (obs[i].1 < obs[j].1 || (obs[i].1
        == obs[j].1 && i < j)))
}

/// Observation `i` has a newer observation with the same key.
pub open spec fn ident_superseded(obs: Seq<(Seq<Seq<Seq<char>>>, int)>, i: int) -> bool {
    exists|j: int| 0 <= j < obs.len() && obs[i].0 == obs[j].0 && #[trigger] ident_before(obs, i, j)
}

/// `s` lists exactly the superseded observations, in increasing order.
pub open spec fn lists_superseded(obs: Seq<(Seq<Seq<Seq<char>>>, int)>, s: Seq<usize>) -> bool {
    &&& forall|a: int, b: int| 0 <= a < b < s.len() ==> ident_before(obs, #[trigger] s[a] as int, #[trigger] s[b] as int)
    &&& forall|x: usize| #[trigger] s.contains(x) <==> (x < obs.len() && ident_superseded(obs, x as int))
}

/// The superseded observations, in order.
pub open spec fn superseded_order(obs: Seq<(Seq<Seq<Seq<char>>>, int)>) -> Seq<usize> {
    choose|s: Seq<usize>| #[trigger] lists_superseded(obs, s)
}

/// The identity order over an observation list.
pub struct Identities<'a> {
    pub obs: &'a Vec<Observation>,
}

impl<'a> IndexOrder for Identities<'a> {
    open spec fn size(&self) -> nat {
        self.obs@.len()
    }

    open spec fn before(&self, i: int, j: int) -> bool {
        ident_before(observations(self.obs@), i, j)
    }

    proof fn lemma_strict_total(&self) {
        lemma_orders_strict_total();
        let o = observations(self.obs@);
        let ko = key_order();
        assert forall|i: int, j: int, k: int|
            0 <= i < self.size() && 0 <= j < self.size() && 0 <= k < self.size() && #[trigger] self.before(i, j)
                && #[trigger] self.before(j, k) implies self.before(i, k) by {
            if ko(o[i].0, o[j].0) && ko(o[j].0, o[k].0) {
            } else if ko(o[i].0, o[j].0) {
            } else if ko(o[j].0, o[k].0) {
            } else {
            }
        }
        assert forall|i: int, j: int|
            0 <= i < self.size() && 0 <= j < self.size() && i != j implies #[trigger] self.before(i, j)
                || self.before(j, i) by {
            if o[i].0 != o[j].0 {
                assert(ko(o[i].0, o[j].0) || ko(o[j].0, o[i].0));
            }
        }
    }

    fn len(&self) -> (n: usize) {
        self.obs.len()
    }

    fn lt(&self, i: usize, j: usize) -> (r: bool) {
        let a = &self.obs[i];
        let b = &self.obs[j];
        if keys_lt(&a.key, &b.key) {
            true
        } else if keys_eq(&a.key, &b.key) {
            a.recency < b.recency || (a.recency == b.recency && i < j)
        } else {
            false
        }
    }
}

impl<'a> Grouped for Identities<'a> {
    open spec fn same_group(&self, i: int, j: int) -> bool {
        observations(self.obs@)[i].0 == observations(self.obs@)[j].0
    }

    proof fn lemma_groups_convex(&self) {
        lemma_orders_strict_total();
        let o = observations(self.obs@);
        let ko = key_order();
        assert forall|i: int, j: int, k: int|
            0 <= i < self.size() && 0 <= j < self.size() && 0 <= k < self.size() && #[trigger] self.same_group(i, k)
                && #[trigger] self.before(i, j) && #[trigger] self.before(j, k) implies self.same_group(i, j) by {
            if o[i].0 != o[j].0 {
                assert(ko(o[i].0, o[j].0));
                if o[j].0 != o[k].0 {
                    assert(ko(o[j].0, o[k].0));
                    assert(ko(o[i].0, o[i].0));
                } else {
                    assert(ko(o[i].0, o[k].0));
                    assert(ko(o[i].0, o[i].0));
                }
            }
        }
    }

    fn same(&self, i: usize, j: usize) -> (r: bool) {
        keys_eq(&self.obs[i].key, &self.obs[j].key)
    }
}

/// The superseded observations in identity order: within every key all but
/// the newest, keys in ascending order, older first.
pub fn supersede(obs: &Vec<Observation>) -> (r: Vec<usize>)
    ensures
        r@ == superseded_order(observations(obs@)),
        lists_superseded(observations(obs@), r@),
        forall|k: int| 0 <= k < r@.len() ==> #[trigger] r@[k] < obs@.len(),
{
    let g = Identities { obs };
    let r = superseded_positions(&g);
    proof {
        let o = observations(obs@);
        let s = superseded_order(o);
        assert forall|x: usize| x < g.size() implies (is_superseded(&g, x as int) <==> ident_superseded(o, x as int)) by {
            if is_superseded(&g, x as int) {
                let j = choose|j: int| 0 <= j < g.size() && #[trigger] g.same_group(x as int, j) && g.before(x as int, j);
                assert(ident_before(o, x as int, j));
            }
            if ident_superseded(o, x as int) {
                let j = choose|j: int| 0 <= j < o.len() && o[x as int].0 == o[j].0 && #[trigger] ident_before(o, x as int, j);
                assert(g.same_group(x as int, j));
            }
        }
        assert(lists_superseded(o, r@)) by {
            assert forall|x: usize| #[trigger] r@.contains(x) <==> (x < o.len() && ident_superseded(o, x as int)) by {
                if r@.contains(x) {
                    let k = choose|k: int| 0 <= k < r@.len() && r@[k] == x;
                    assert(r@[k] < g.size());
                }
            }
        }
        assert(lists_superseded(o, s));
        assert(strictly_ordered(&g, s));
        assert forall|x: usize| #[trigger] r@.contains(x) <==> s.contains(x) by {}
        assert forall|x: usize| #[trigger] r@.contains(x) implies x < g.size() by {}
        lemma_ordered_unique(&g, r@, s);
    }
    r
}

/// Observation `q`'s identity keeps exactly one member out of `ps`: one
/// that every other member of the identity comes before (the newest), while
/// every other member is in `ps`.
pub open spec fn survivor_of(obs: Seq<(Seq<Seq<Seq<char>>>, int)>, ps: Seq<usize>, q: int) -> bool {
    exists|j: int|
        0 <= j < obs.len() && obs[j].0 == obs[q].0 && !ps.contains(j as usize) && (forall|m: int|
            0 <= m < obs.len() && obs[m].0 == obs[q].0 && m != j ==> #[trigger] ps.contains(m as usize)
                && ident_before(obs, m, j))
}

/// `ps` plans every observation but the newest of each identity, each once.
pub open spec fn keeps_one_newest(obs: Seq<(Seq<Seq<Seq<char>>>, int)>, ps: Seq<usize>) -> bool {
    &&& forall|a: int, b: int| 0 <= a < b < ps.len() ==> ps[a] != ps[b]
    &&& forall|k: int| 0 <= k < ps.len() ==> #[trigger] ps[k] < obs.len()
    &&& forall|q: int| 0 <= q < obs.len() ==> #[trigger] survivor_of(obs, ps, q)
}

/// Keep-newest, for the listing of superseded observations: it names each
/// observation at most once, and of every identity it leaves out exactly
/// one member, the newest, and lists all the others.
pub proof fn law_listing_keeps_newest(obs: Seq<(Seq<Seq<Seq<char>>>, int)>, s: Seq<usize>)
    requires
        obs.len() <= usize::MAX,
        lists_superseded(obs, s),
    ensures
        keeps_one_newest(obs, s),
{
    lemma_orders_strict_total();
    assert forall|a: int, b: int| 0 <= a < b < s.len() implies s[a] != s[b] by {
        if s[a] == s[b] {
            assert(ident_before(obs, s[a] as int, s[b] as int));
            assert(!key_order()(obs[s[a] as int].0, obs[s[a] as int].0));
        }
    }
    assert forall|k: int| 0 <= k < s.len() implies #[trigger] s[k] < obs.len() by {
        assert(s.contains(s[k]));
    }
    assert forall|q: int| 0 <= q < obs.len() implies #[trigger] survivor_of(obs, s, q) by {
        law_newest_survives(obs, q);
        let j = choose|j: int|
            0 <= j < obs.len() && obs[j].0 == obs[q].0 && !ident_superseded(obs, j) && (forall|m: int|
                0 <= m < obs.len() && obs[m].0 == obs[q].0 && m != j ==> #[trigger] ident_before(obs, m, j));
        assert((j as usize) as int == j);
        assert(!s.contains(j as usize));
        assert forall|m: int| 0 <= m < obs.len() && obs[m].0 == obs[q].0 && m != j implies #[trigger] s.contains(
            m as usize,
        ) && ident_before(obs, m, j) by {
            assert((m as usize) as int == m);
            assert(ident_before(obs, m, j));
            assert(ident_superseded(obs, m));
        }
    }
}

/// Among the first `p` observations with key `k`, the newest: latest
/// recency, then latest position.
pub open spec fn newest_upto(obs: Seq<(Seq<Seq<Seq<char>>>, int)>, k: Seq<Seq<Seq<char>>>, p: int) -> Option<int>
    decreases p,
{
    if p <= 0 {
        None
    } else {
        let prev = newest_upto(obs, k, p - 1);
        if obs[p - 1].0 == k && (prev matches Some(j) ==> ident_before(obs, j, p - 1)) {
            Some(p - 1)
        } else {
            prev
        }
    }
}

proof fn lemma_newest_upto(obs: Seq<(Seq<Seq<Seq<char>>>, int)>, k: Seq<Seq<Seq<char>>>, p: int)
    requires
        0 <= p <= obs.len(),
    ensures
        newest_upto(obs, k, p) matches Some(j) ==> 0 <= j < p && obs[j].0 == k && forall|m: int|
            0 <= m < p && obs[m].0 == k && m != j ==> #[trigger] ident_before(obs, m, j),
        newest_upto(obs, k, p) is None ==> forall|m: int| 0 <= m < p ==> obs[m].0 != k,
    decreases p,
{
    lemma_orders_strict_total();
    assert(!key_order()(k, k));
    if p > 0 {
        lemma_newest_upto(obs, k, p - 1);
        let prev = newest_upto(obs, k, p - 1);
        if obs[p - 1].0 == k {
            if let Some(j) = prev {
                if ident_before(obs, j, p - 1) {
                    assert forall|m: int| 0 <= m < p && obs[m].0 == k && m != p - 1 implies #[trigger] ident_before(
                        obs,
                        m,
                        p - 1,
                    ) by {
                        if m != j {
                            assert(ident_before(obs, m, j));
                        }
                    }
                } else {
                    assert(ident_before(obs, p - 1, j));
                }
            } else {
                assert forall|m: int| 0 <= m < p && obs[m].0 == k && m != p - 1 implies #[trigger] ident_before(
                    obs,
                    m,
                    p - 1,
                ) by {
                    assert(obs[m].0 != k);
                }
            }
        }
    }
}

/// Keep-newest: every identity keeps exactly one observation, its newest
/// (latest recency, then latest discovered); every other observation of
/// the identity is superseded.
pub proof fn law_newest_survives(obs: Seq<(Seq<Seq<Seq<char>>>, int)>, i: int)
    requires
        0 <= i < obs.len(),
    ensures
        exists|j: int|
            0 <= j < obs.len() && obs[j].0 == obs[i].0 && !ident_superseded(obs, j) && (forall|m: int|
                0 <= m < obs.len() && obs[m].0 == obs[i].0 && m != j ==> #[trigger] ident_before(obs, m, j)),
        forall|a: int, b: int|
            0 <= a < obs.len() && 0 <= b < obs.len() && obs[a].0 == obs[b].0 && !ident_superseded(obs, a)
                && !ident_superseded(obs, b) ==> a == b,
{
    let k = obs[i].0;
    let n = obs.len() as int;
    lemma_orders_strict_total();
    assert(!key_order()(k, k));
    lemma_newest_upto(obs, k, n);
    let j = newest_upto(obs, k, n)->0;
    assert forall|m: int| 0 <= m < n && obs[j].0 == obs[m].0 implies !#[trigger] ident_before(obs, j, m) by {
        if m != j {
            assert(ident_before(obs, m, j));
        }
    }
    assert(!ident_superseded(obs, j));
    assert forall|a: int, b: int|
        0 <= a < n && 0 <= b < n && obs[a].0 == obs[b].0 && !ident_superseded(obs, a) && !ident_superseded(obs, b)
            implies a == b by {
        if a != b {
            if !ident_before(obs, a, b) {
                assert(ident_before(obs, b, a));
            }
        }
    }
}

} // verus!
