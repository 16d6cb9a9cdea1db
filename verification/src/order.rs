//! Orders over positions: sorting positions by a strict total order, and the
//! identity-recency rule that keeps the newest member of every group.

use vstd::prelude::*;

verus! {

/// A strict total order on the positions `0..size()`.
pub trait IndexOrder {
    spec fn size(&self) -> nat;

    spec fn before(&self, i: int, j: int) -> bool;

    proof fn lemma_strict_total(&self)
        ensures
            forall|i: int| 0 <= i < self.size() ==> !#[trigger] self.before(i, i),
            forall|i: int, j: int, k: int|
                0 <= i < self.size() && 0 <= j < self.size() && 0 <= k < self.size()
                    && #[trigger] self.before(i, j) && #[trigger] self.before(j, k) ==> self.before(i, k),
            forall|i: int, j: int|
                0 <= i < self.size() && 0 <= j < self.size() && i != j ==> #[trigger] self.before(i, j)
                    || self.before(j, i),
    ;

    fn len(&self) -> (n: usize)
        ensures
            n == self.size(),
    ;

    fn lt(&self, i: usize, j: usize) -> (r: bool)
        requires
            i < self.size(),
            j < self.size(),
        ensures
            r == self.before(i as int, j as int),
    ;
}

/// Positions partitioned into groups that are contiguous in the order.
pub trait Grouped: IndexOrder {
    spec fn same_group(&self, i: int, j: int) -> bool;

    proof fn lemma_groups_convex(&self)
        ensures
            forall|i: int, j: int, k: int|
                0 <= i < self.size() && 0 <= j < self.size() && 0 <= k < self.size()
                    && #[trigger] self.same_group(i, k) && #[trigger] self.before(i, j)
                    && #[trigger] self.before(j, k) ==> self.same_group(i, j),
    ;

    fn same(&self, i: usize, j: usize) -> (r: bool)
        requires
            i < self.size(),
            j < self.size(),
        ensures
            r == self.same_group(i as int, j as int),
    ;
}

/// `s` lists positions in strictly increasing order.
pub open spec fn strictly_ordered<O: IndexOrder>(o: &O, s: Seq<usize>) -> bool {
    forall|a: int, b: int| 0 <= a < b < s.len() ==> o.before(#[trigger] s[a] as int, #[trigger] s[b] as int)
}


/// `s` lists exactly the positions `0..o.size()`.
pub open spec fn covers<O: IndexOrder>(o: &O, s: Seq<usize>) -> bool {
    forall|x: usize| #[trigger] s.contains(x) <==> x < o.size()
}

/// The positions `0..o.size()` in increasing order.
pub open spec fn ordered_positions<O: IndexOrder>(o: &O) -> Seq<usize> {
    choose|s: Seq<usize>| strictly_ordered(o, s) && covers(o, s)
}

pub proof fn lemma_ordered_unique<O: IndexOrder>(o: &O, s: Seq<usize>, t: Seq<usize>)
    requires
        strictly_ordered(o, s),
        strictly_ordered(o, t),
        forall|x: usize| #[trigger] s.contains(x) <==> t.contains(x),
        forall|x: usize| #[trigger] s.contains(x) ==> x < o.size(),
    ensures
        s == t,
    decreases s.len(),
{
    o.lemma_strict_total();
    if s.len() == 0 {
        if t.len() > 0 {
            assert(t.contains(t[0]));
            assert(s.contains(t[0]));
            let a = choose|a: int| 0 <= a < s.len() && s[a] == t[0];
        }
        assert(s =~= t);
    } else {
        assert(s.contains(s[0]));
        assert(t.contains(s[0]));
        assert(t.len() > 0);
        assert(t.contains(t[0]));
        assert(s.contains(t[0]));
        if s[0] != t[0] {
            let a = choose|a: int| 0 <= a < s.len() && s[a] == t[0];
            let b = choose|b: int| 0 <= b < t.len() && t[b] == s[0];
            assert(a > 0);
            assert(b > 0);
            assert(o.before(s[0] as int, s[a] as int));
            assert(o.before(t[0] as int, t[b] as int));
            assert(o.before(s[0] as int, s[0] as int));
        }
        let s2 = s.drop_first();
        let t2 = t.drop_first();
        assert forall|x: usize| #[trigger] s2.contains(x) <==> t2.contains(x) by {
            if s2.contains(x) {
                let a = choose|a: int| 0 <= a < s2.len() && s2[a] == x;
                assert(s[a + 1] == x);
                assert(o.before(s[0] as int, x as int));
                assert(s.contains(x));
                assert(t.contains(x));
                let b = choose|b: int| 0 <= b < t.len() && t[b] == x;
                if b == 0 {
                    assert(o.before(x as int, x as int));
                }
                assert(t2[b - 1] == x);
            }
            if t2.contains(x) {
                let b = choose|b: int| 0 <= b < t2.len() && t2[b] == x;
                assert(t[b + 1] == x);
                assert(o.before(t[0] as int, x as int));
                assert(t.contains(x));
                assert(s.contains(x));
                let a = choose|a: int| 0 <= a < s.len() && s[a] == x;
                if a == 0 {
                    assert(o.before(x as int, x as int));
                }
                assert(s2[a - 1] == x);
            }
        }
        assert forall|x: usize| #[trigger] s2.contains(x) implies x < o.size() by {
            let a = choose|a: int| 0 <= a < s2.len() && s2[a] == x;
            assert(s[a + 1] == x);
            assert(s.contains(x));
        }
        assert(strictly_ordered(o, s2)) by {
            assert forall|a: int, b: int| 0 <= a < b < s2.len() implies o.before(#[trigger] s2[a] as int, #[trigger] s2[b] as int) by {
                assert(s2[a] == s[a + 1] && s2[b] == s[b + 1]);
            }
        }
        assert(strictly_ordered(o, t2)) by {
            assert forall|a: int, b: int| 0 <= a < b < t2.len() implies o.before(#[trigger] t2[a] as int, #[trigger] t2[b] as int) by {
                assert(t2[a] == t[a + 1] && t2[b] == t[b + 1]);
            }
        }
        lemma_ordered_unique(o, s2, t2);
        assert(s =~= seq![s[0]] + s2);
        assert(t =~= seq![t[0]] + t2);
    }
}

/// A strictly increasing listing of exactly `0..o.size()` is the one
/// `ordered_positions` names.
pub proof fn lemma_is_ordered_positions<O: IndexOrder>(o: &O, s: Seq<usize>)
    requires
        strictly_ordered(o, s),
        covers(o, s),
    ensures
        s == ordered_positions(o),
{
    let t = ordered_positions(o);
    assert(strictly_ordered(o, t) && covers(o, t));
    lemma_ordered_unique(o, s, t);
}

/// Every position of `0..o.size()`, in increasing order.
pub fn sort_indices<O: IndexOrder>(o: &O) -> (r: Vec<usize>)
    ensures
        r@.len() == o.size(),
        forall|k: int| 0 <= k < r@.len() ==> #[trigger] r@[k] < o.size(),
        forall|x: usize| #[trigger] r@.contains(x) <==> x < o.size(),
        strictly_ordered(o, r@),
        r@ == ordered_positions(o),
{
    proof {
        o.lemma_strict_total();
    }
    let n = o.len();
    let mut r: Vec<usize> = Vec::new();
    let mut i: usize = 0;
    while i < n
        invariant
            n == o.size(),
            i <= n,
            r@.len() == i,
            forall|k: int| 0 <= k < r@.len() ==> #[trigger] r@[k] < i,
            forall|x: usize| #[trigger] r@.contains(x) <==> x < i,
            strictly_ordered(o, r@),
        decreases n - i,
    {
        proof {
            o.lemma_strict_total();
        }
        let mut lo: usize = 0;
        let mut hi: usize = r.len();
        while lo < hi
            invariant
                n == o.size(),
                i < n,
                lo <= hi <= r@.len(),
                r@.len() == i,
                forall|k: int| 0 <= k < r@.len() ==> #[trigger] r@[k] < i,
                strictly_ordered(o, r@),
                forall|q: int| 0 <= q < lo ==> o.before(#[trigger] r@[q] as int, i as int),
                forall|q: int| hi <= q < r@.len() ==> o.before(i as int, #[trigger] r@[q] as int),
            decreases hi - lo,
        {
            proof {
                o.lemma_strict_total();
            }
            let mid = lo + (hi - lo) / 2;
            if o.lt(i, r[mid]) {
                assert forall|q: int| mid <= q < r@.len() implies o.before(i as int, #[trigger] r@[q] as int) by {
                    if q > mid {
                        assert(o.before(r@[mid as int] as int, r@[q] as int));
                    }
                }
                hi = mid;
            } else {
                assert(r@[mid as int] != i);
                assert(o.before(r@[mid as int] as int, i as int));
                assert forall|q: int| 0 <= q < mid + 1 implies o.before(#[trigger] r@[q] as int, i as int) by {
                    if q < mid {
                        assert(o.before(r@[q] as int, r@[mid as int] as int));
                    }
                }
                lo = mid + 1;
            }
        }
        let ghost old_r = r@;
        r.insert(lo, i);
        proof {
            assert(r@ =~= old_r.insert(lo as int, i));
            assert forall|a: int, b: int| 0 <= a < b < r@.len() implies o.before(#[trigger] r@[a] as int, #[trigger] r@[b] as int) by {
                if a == lo {
                    assert(r@[b] == old_r[b - 1]);
                } else if b == lo {
                    assert(r@[a] == old_r[a]);
                } else {
                    let oa = if a < lo { a } else { a - 1 };
                    let ob = if b < lo { b } else { b - 1 };
                    assert(r@[a] == old_r[oa]);
                    assert(r@[b] == old_r[ob]);
                }
            }
            assert forall|k: int| 0 <= k < r@.len() implies #[trigger] r@[k] < i + 1 by {
                if k < lo {
                    assert(r@[k] == old_r[k]);
                } else if k > lo {
                    assert(r@[k] == old_r[k - 1]);
                }
            }
            assert forall|x: usize| #[trigger] r@.contains(x) <==> x < i + 1 by {
                if x < i + 1 {
                    if x == i {
                        assert(r@[lo as int] == i);
                    } else {
                        assert(old_r.contains(x));
                        let q = choose|q: int| 0 <= q < old_r.len() && old_r[q] == x;
                        if q < lo {
                            assert(r@[q] == x);
                        } else {
                            assert(r@[q + 1] == x);
                        }
                    }
                }
            }
        }
        i = i + 1;
    }
    proof {
        lemma_is_ordered_positions(o, r@);
    }
    r
}

/// Position `i` has a later member of its own group.
pub open spec fn is_superseded<G: Grouped>(g: &G, i: int) -> bool {
    exists|j: int| 0 <= j < g.size() && #[trigger] g.same_group(i, j) && g.before(i, j)
}

/// Keep the newest of each group: every position that has a later member of
/// its own group, in increasing order.
pub fn superseded_positions<G: Grouped>(g: &G) -> (r: Vec<usize>)
    ensures
        strictly_ordered(g, r@),
        forall|k: int| 0 <= k < r@.len() ==> #[trigger] r@[k] < g.size(),
        forall|x: usize| x < g.size() ==> (#[trigger] r@.contains(x) <==> is_superseded(g, x as int)),
{
    proof {
        g.lemma_strict_total();
        g.lemma_groups_convex();
    }
    let sorted = sort_indices(g);
    let n = sorted.len();
    let mut r: Vec<usize> = Vec::new();
    let mut p: usize = 0;
    while p < n
        invariant
            n == sorted@.len(),
            n == g.size(),
            p <= n,
            forall|k: int| 0 <= k < sorted@.len() ==> #[trigger] sorted@[k] < g.size(),
            forall|x: usize| #[trigger] sorted@.contains(x) <==> x < g.size(),
            strictly_ordered(g, sorted@),
            forall|k: int| 0 <= k < r@.len() ==> #[trigger] r@[k] < g.size(),
            strictly_ordered(g, r@),
            r@.len() > 0 ==> exists|q: int| 0 <= q < p && sorted@[q] == r@.last(),
            forall|x: usize|
                #[trigger] r@.contains(x) <==> exists|q: int|
                    0 <= q < p && sorted@[q] == x && is_superseded(g, x as int),
        decreases n - p,
    {
        proof {
            g.lemma_strict_total();
            g.lemma_groups_convex();
        }
        let cur = sorted[p];
        let keep_out = p + 1 < n && g.same(cur, sorted[p + 1]);
        proof {
            if p + 1 < n && !keep_out {
                if is_superseded(g, cur as int) {
                    let j = choose|j: int| 0 <= j < g.size() && #[trigger] g.same_group(cur as int, j) && g.before(cur as int, j);
                    assert(sorted@.contains(j as usize));
                    let qj = choose|qj: int| 0 <= qj < sorted@.len() && sorted@[qj] == j as usize;
                    if qj <= p {
                        if qj < p {
                            assert(g.before(j, cur as int));
                        }
                        assert(g.before(j, j));
                    }
                    if qj > p + 1 {
                        assert(g.before(cur as int, sorted@[p + 1] as int));
                        assert(g.before(sorted@[p + 1] as int, j));
                    }
                }
            }
            if p + 1 == n && is_superseded(g, cur as int) {
                let j = choose|j: int| 0 <= j < g.size() && #[trigger] g.same_group(cur as int, j) && g.before(cur as int, j);
                assert(sorted@.contains(j as usize));
                let qj = choose|qj: int| 0 <= qj < sorted@.len() && sorted@[qj] == j as usize;
                if qj < p {
                    assert(g.before(j, cur as int));
                }
                assert(g.before(j, j));
            }
        }
        assert(is_superseded(g, cur as int) ==> keep_out);
        let ghost old_r = r@;
        if keep_out {
            proof {
                assert(g.same_group(cur as int, sorted@[p + 1] as int));
                assert(g.before(cur as int, sorted@[p + 1] as int));
                if old_r.len() > 0 {
                    let q = choose|q: int| 0 <= q < p && sorted@[q] == old_r.last();
                    assert(g.before(old_r.last() as int, cur as int));
                }
            }
            r.push(cur);
            proof {
                assert forall|a: int, b: int| 0 <= a < b < r@.len() implies g.before(#[trigger] r@[a] as int, #[trigger] r@[b] as int) by {
                    if b == r@.len() - 1 && a < b {
                        assert(r@[a] == old_r[a]);
                        if a < old_r.len() - 1 {
                            assert(g.before(old_r[a] as int, old_r.last() as int));
                        }
                    } else {
                        assert(r@[a] == old_r[a]);
                        assert(r@[b] == old_r[b]);
                    }
                }
            }
        }
        proof {
            assert forall|x: usize| #[trigger] r@.contains(x) <==> exists|q: int|
                0 <= q < p + 1 && sorted@[q] == x && is_superseded(g, x as int) by {
                if r@.contains(x) {
                    if keep_out && x == cur {
                        assert(sorted@[p as int] == x);
                    } else {
                        let i = choose|i: int| 0 <= i < r@.len() && r@[i] == x;
                        if keep_out {
                            assert(i < old_r.len());
                        }
                        assert(old_r[i] == x);
                        assert(old_r.contains(x));
                    }
                }
                if exists|q: int| 0 <= q < p + 1 && sorted@[q] == x && is_superseded(g, x as int) {
                    let q = choose|q: int| 0 <= q < p + 1 && sorted@[q] == x && is_superseded(g, x as int);
                    if q == p {
                        assert(r@[r@.len() - 1] == x);
                    } else {
                        assert(old_r.contains(x));
                        let i = choose|i: int| 0 <= i < old_r.len() && old_r[i] == x;
                        assert(r@[i] == x);
                    }
                }
            }
        }
        p = p + 1;
    }
    proof {
        assert forall|x: usize| x < g.size() implies (#[trigger] r@.contains(x) <==> is_superseded(g, x as int)) by {
            assert(sorted@.contains(x));
            let q = choose|q: int| 0 <= q < sorted@.len() && sorted@[q] == x;
            if is_superseded(g, x as int) {
                assert(exists|q2: int| 0 <= q2 < p && sorted@[q2] == x && is_superseded(g, x as int));
            }
        }
    }
    r
}

} // verus!
