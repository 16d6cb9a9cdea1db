//! Budget selection: which target directories to sweep so the machine fits
//! under a global byte budget, and the human byte sizes that budgets are
//! written in.
//!
//! The budget is an ordering and stopping rule over reclaimable bytes: the
//! directories with the most to reclaim go first, and selection stops once the
//! bytes already planned cover what must go.

use vstd::prelude::*;
use crate::order::{IndexOrder, ordered_positions, sort_indices, strictly_ordered};
use crate::text::{chars_eq, chars_of, find_first, first_index, string_of, sub_chars, trim, trim_chars};

verus! {

/// The outcome of a budget selection.
#[derive(Debug, Clone, Copy)]
pub struct BudgetPlan {
    /// Total bytes currently held by all managed dirs.
    pub total_bytes: u64,
    /// Bytes that must go to reach the budget.
    pub need_bytes: u64,
    /// Bytes the selected sweeps are expected to free.
    pub planned_bytes: u64,
    /// True when even sweeping everything selected cannot reach the budget.
    pub insufficient: bool,
}

/// `x` clamped to the range of `u64` (sums saturate rather than wrap).
pub open spec fn clamp_u64(x: int) -> int {
    if x > u64::MAX {
        u64::MAX as int
    } else {
        x
    }
}

/// Sum of the total sizes of `dirs`.
pub open spec fn sum_totals(dirs: Seq<(u64, u64)>) -> int
    decreases dirs.len(),
{
    if dirs.len() == 0 {
        0
    } else {
        sum_totals(dirs.drop_last()) + dirs.last().0
    }
}

/// Sum of the reclaimable bytes of the dirs at positions `sel`.
pub open spec fn sum_selected(dirs: Seq<(u64, u64)>, sel: Seq<usize>) -> int
    decreases sel.len(),
{
    if sel.len() == 0 {
        0
    } else {
        sum_selected(dirs, sel.drop_last()) + dirs[sel.last() as int].1
    }
}

/// Sweep order: more reclaimable bytes first, ties in input order.
pub open spec fn reclaim_before(dirs: Seq<(u64, u64)>, i: int, j: int) -> bool {
    dirs[i].1 > dirs[j].1 || (dirs[i].1 == dirs[j].1 && i < j)
}

/// The sweep order over a list of `(total, reclaimable)` pairs.
pub struct ByReclaimable<'a> {
    pub dirs: &'a [(u64, u64)],
}

impl<'a> IndexOrder for ByReclaimable<'a> {
    open spec fn size(&self) -> nat {
        self.dirs@.len()
    }

    open spec fn before(&self, i: int, j: int) -> bool {
        reclaim_before(self.dirs@, i, j)
    }

    proof fn lemma_strict_total(&self) {
    }

    fn len(&self) -> (n: usize) {
        self.dirs.len()
    }

    fn lt(&self, i: usize, j: usize) -> (r: bool) {
        self.dirs[i].1 > self.dirs[j].1 || (self.dirs[i].1 == self.dirs[j].1 && i < j)
    }
}

/// Reclaimable bytes of the dirs at the first `p` positions of `order`.
pub open spec fn prefix_reclaimable(dirs: Seq<(u64, u64)>, order: Seq<usize>, p: int) -> int
    decreases p,
{
    if p <= 0 {
        0
    } else {
        prefix_reclaimable(dirs, order, p - 1) + dirs[order[p - 1] as int].1
    }
}

/// The dir at position `p` of the sweep order is selected: it has bytes to
/// reclaim and, under a budget, the dirs ranked before it do not already
/// cover the need.
pub open spec fn chosen_at(dirs: Seq<(u64, u64)>, order: Seq<usize>, need: Option<int>, p: int) -> bool {
    dirs[order[p] as int].1 > 0 && match need {
        None => true,
        Some(n) => prefix_reclaimable(dirs, order, p) < n,
    }
}

/// The selected dirs among the first `p` positions of the sweep order.
pub open spec fn chosen_upto(dirs: Seq<(u64, u64)>, order: Seq<usize>, need: Option<int>, p: int) -> Seq<usize>
    decreases p,
{
    if p <= 0 {
        Seq::empty()
    } else if chosen_at(dirs, order, need, p - 1) {
        chosen_upto(dirs, order, need, p - 1).push(order[p - 1])
    } else {
        chosen_upto(dirs, order, need, p - 1)
    }
}

/// The bytes that must go: the (saturated) total above the budget, or no
/// limit when there is no budget.
pub open spec fn need_of(dirs: Seq<(u64, u64)>, budget: Option<u64>) -> Option<int> {
    match budget {
        None => None,
        Some(b) => Some(
            if clamp_u64(sum_totals(dirs)) > b {
                clamp_u64(sum_totals(dirs)) - b
            } else {
                0
            },
        ),
    }
}

/// Sum of the reclaimable bytes of all of `dirs`.
pub open spec fn sum_reclaimable(dirs: Seq<(u64, u64)>) -> int
    decreases dirs.len(),
{
    if dirs.len() == 0 {
        0
    } else {
        sum_reclaimable(dirs.drop_last()) + dirs.last().1
    }
}

proof fn lemma_sum_selected_update(dirs: Seq<(u64, u64)>, s: Seq<usize>, l: usize, v: (u64, u64))
    requires
        l < dirs.len(),
        !s.contains(l),
        forall|k: int| 0 <= k < s.len() ==> #[trigger] s[k] < dirs.len(),
    ensures
        sum_selected(dirs.update(l as int, v), s) == sum_selected(dirs, s),
    decreases s.len(),
{
    if s.len() > 0 {
        let s2 = s.drop_last();
        assert forall|k: int| 0 <= k < s2.len() implies #[trigger] s2[k] < dirs.len() by {
            assert(s2[k] == s[k]);
        }
        if s2.contains(l) {
            let k = choose|k: int| 0 <= k < s2.len() && s2[k] == l;
            assert(s[k] == l);
        }
        lemma_sum_selected_update(dirs, s2, l, v);
        assert(s.contains(s.last()));
    }
}

proof fn lemma_sum_reclaimable_update(dirs: Seq<(u64, u64)>, l: int, v: (u64, u64))
    requires
        0 <= l < dirs.len(),
    ensures
        sum_reclaimable(dirs.update(l, v)) == sum_reclaimable(dirs) - dirs[l].1 + v.1,
    decreases dirs.len(),
{
    let d2 = dirs.update(l, v);
    if l == dirs.len() - 1 {
        assert(d2.drop_last() =~= dirs.drop_last());
    } else {
        assert(d2.drop_last() =~= dirs.drop_last().update(l, v));
        lemma_sum_reclaimable_update(dirs.drop_last(), l, v);
    }
}

proof fn lemma_sum_reclaimable_zero(dirs: Seq<(u64, u64)>)
    requires
        forall|i: int| 0 <= i < dirs.len() ==> #[trigger] dirs[i].1 == 0,
    ensures
        sum_reclaimable(dirs) == 0,
    decreases dirs.len(),
{
    if dirs.len() > 0 {
        lemma_sum_reclaimable_zero(dirs.drop_last());
    }
}

/// A selection that lists every dir with bytes to reclaim exactly once, and
/// nothing else, plans the sum of all reclaimable bytes, whatever its order.
pub proof fn law_full_selection_plans_all(dirs: Seq<(u64, u64)>, sel: Seq<usize>)
    requires
        dirs.len() <= usize::MAX,
        sel.no_duplicates(),
        forall|x: usize| #[trigger] sel.contains(x) <==> (x < dirs.len() && dirs[x as int].1 > 0),
    ensures
        sum_selected(dirs, sel) == sum_reclaimable(dirs),
    decreases sel.len(),
{
    if sel.len() == 0 {
        assert forall|i: int| 0 <= i < dirs.len() implies #[trigger] dirs[i].1 == 0 by {
            assert(!sel.contains(i as usize));
        }
        lemma_sum_reclaimable_zero(dirs);
    } else {
        let l = sel.last();
        assert(sel.contains(l));
        let d2 = dirs.update(l as int, (dirs[l as int].0, 0u64));
        let s2 = sel.drop_last();
        assert(!s2.contains(l)) by {
            if s2.contains(l) {
                let k = choose|k: int| 0 <= k < s2.len() && s2[k] == l;
                assert(sel[k] == sel[sel.len() - 1]);
            }
        }
        assert forall|k: int| 0 <= k < s2.len() implies #[trigger] s2[k] < dirs.len() by {
            assert(sel.contains(sel[k]));
        }
        assert forall|x: usize| #[trigger] s2.contains(x) <==> (x < d2.len() && d2[x as int].1 > 0) by {
            if s2.contains(x) {
                let k = choose|k: int| 0 <= k < s2.len() && s2[k] == x;
                assert(sel[k] == x);
                assert(sel.contains(x));
            }
            if x < d2.len() && d2[x as int].1 > 0 {
                assert(x != l);
                assert(sel.contains(x));
                let k = choose|k: int| 0 <= k < sel.len() && sel[k] == x;
                assert(k != sel.len() - 1);
                assert(s2[k] == x);
            }
        }
        law_full_selection_plans_all(d2, s2);
        lemma_sum_selected_update(dirs, s2, l, (dirs[l as int].0, 0u64));
        lemma_sum_reclaimable_update(dirs, l as int, (dirs[l as int].0, 0u64));
    }
}

proof fn lemma_prefix_reclaimable_monotone(dirs: Seq<(u64, u64)>, order: Seq<usize>, a: int, b: int)
    requires
        0 <= a <= b,
    ensures
        prefix_reclaimable(dirs, order, a) <= prefix_reclaimable(dirs, order, b),
    decreases b - a,
{
    if a < b {
        lemma_prefix_reclaimable_monotone(dirs, order, a, b - 1);
    }
}

/// Select which dirs to sweep, given `(total, reclaimable)` per dir.
/// Returns the indices to sweep (descending reclaimable order) plus the plan
/// summary. An unset budget selects every dir with anything to reclaim.
pub fn select_for_budget(dirs: &[(u64, u64)], budget: Option<u64>) -> (res: (Vec<usize>, BudgetPlan))
    ensures
        ({
            let order = ordered_positions(&ByReclaimable { dirs });
            let need = need_of(dirs@, budget);
            let sel = res.0@;
            let plan = res.1;
            &&& sel == chosen_upto(dirs@, order, need, dirs@.len() as int)
            &&& plan.total_bytes == clamp_u64(sum_totals(dirs@))
            &&& plan.planned_bytes == clamp_u64(sum_selected(dirs@, sel))
            &&& plan.need_bytes == match need {
                None => plan.planned_bytes as int,
                Some(n) => n,
            }
            &&& plan.insufficient == (plan.planned_bytes < plan.need_bytes)
        }),
        // The selection follows the sweep order: more reclaimable bytes first.
        strictly_ordered(&ByReclaimable { dirs }, res.0@),
        // Without a budget, every dir with bytes to reclaim is selected, and
        // the plan is never short.
        budget is None ==> !res.1.insufficient && forall|x: usize|
            x < dirs@.len() ==> (#[trigger] res.0@.contains(x) <==> dirs@[x as int].1 > 0),
        // Under a budget, a dir is selected only while what was selected
        // before it does not yet cover the need ...
        need_of(dirs@, budget) matches Some(nb) ==> forall|k: int|
            0 <= k < res.0@.len() ==> sum_selected(dirs@, #[trigger] res.0@.take(k)) < nb,
        // ... a short plan has selected every dir with bytes to reclaim ...
        budget is Some && res.1.insufficient ==> forall|x: usize|
            x < dirs@.len() && dirs@[x as int].1 > 0 ==> #[trigger] res.0@.contains(x),
        // ... and a plan that is not short brings the total within the budget.
        budget matches Some(b) ==> (!res.1.insufficient ==> res.1.total_bytes <= res.1.planned_bytes + b),
        // Every selected dir has bytes to reclaim, and the selection is a
        // prefix of the sweep order over those dirs.
        forall|x: usize| #[trigger] res.0@.contains(x) ==> x < dirs@.len() && dirs@[x as int].1 > 0,
        forall|x: usize, y: usize|
            #[trigger] res.0@.contains(x) && y < dirs@.len() && dirs@[y as int].1 > 0 && #[trigger] reclaim_before(
                dirs@,
                y as int,
                x as int,
            ) ==> res.0@.contains(y),
        // Without a budget, the plan is all reclaimable bytes.
        budget is None ==> res.1.planned_bytes == clamp_u64(sum_reclaimable(dirs@)),
{
    let mut total_bytes: u64 = 0;
    let mut k: usize = 0;
    while k < dirs.len()
        invariant
            k <= dirs@.len(),
            total_bytes == clamp_u64(sum_totals(dirs@.take(k as int))),
        decreases dirs.len() - k,
    {
        assert(dirs@.take(k + 1).drop_last() =~= dirs@.take(k as int));
        total_bytes = total_bytes.saturating_add(dirs[k].0);
        k = k + 1;
    }
    assert(dirs@.take(k as int) =~= dirs@);
    let ord = ByReclaimable { dirs };
    let order = sort_indices(&ord);
    let ghost need = need_of(dirs@, budget);
    let need_bytes = match budget {
        None => u64::MAX,
        Some(b) => total_bytes.saturating_sub(b),
    };
    let mut selected: Vec<usize> = Vec::new();
    let mut planned_bytes: u64 = 0;
    let mut p: usize = 0;
    let n = order.len();
    while p < n
        invariant
            n == order@.len(),
            n == dirs@.len(),
            order@ == ordered_positions(&ByReclaimable { dirs }),
            forall|q: int| 0 <= q < order@.len() ==> #[trigger] order@[q] < dirs@.len(),
            p <= n,
            need == need_of(dirs@, budget),
            need matches Some(nb) ==> need_bytes == nb,
            selected@ == chosen_upto(dirs@, order@, need, p as int),
            forall|q: int| 0 <= q < selected@.len() ==> #[trigger] selected@[q] < dirs@.len(),
            planned_bytes == clamp_u64(sum_selected(dirs@, selected@)),
            sum_selected(dirs@, selected@) <= prefix_reclaimable(dirs@, order@, p as int),
            need matches Some(nb) ==> (sum_selected(dirs@, selected@) == prefix_reclaimable(
                dirs@,
                order@,
                p as int,
            ) || sum_selected(dirs@, selected@) >= nb),
            strictly_ordered(&ByReclaimable { dirs }, order@),
            strictly_ordered(&ByReclaimable { dirs }, selected@),
            forall|x: usize| #[trigger] order@.contains(x) <==> x < dirs@.len(),
            forall|q: int| 0 <= q < selected@.len() ==> exists|t: int| 0 <= t < p && #[trigger] order@[t] == #[trigger] selected@[q],
            forall|x: usize| #[trigger] selected@.contains(x) <==> exists|t: int|
                0 <= t < p && order@[t] == x && #[trigger] chosen_at(dirs@, order@, need, t),
            need matches Some(nb) ==> forall|t: int|
                0 <= t < p && dirs@[order@[t] as int].1 > 0 && !#[trigger] chosen_at(dirs@, order@, need, t)
                    ==> sum_selected(dirs@, selected@) >= nb,
            need matches Some(nb) ==> forall|k: int|
                0 <= k < selected@.len() ==> sum_selected(dirs@, #[trigger] selected@.take(k)) < nb,
        decreases n - p,
    {
        let i = order[p];
        let r = dirs[i].1;
        let ghost sel_before = selected@;
        if r == 0 || (budget.is_some() && planned_bytes >= need_bytes) {
            assert(!chosen_at(dirs@, order@, need, p as int));
            assert forall|x: usize| #[trigger] selected@.contains(x) <==> exists|t: int|
                0 <= t < p + 1 && order@[t] == x && #[trigger] chosen_at(dirs@, order@, need, t) by {
                if exists|t: int| 0 <= t < p + 1 && order@[t] == x && #[trigger] chosen_at(dirs@, order@, need, t) {
                    let t = choose|t: int| 0 <= t < p + 1 && order@[t] == x && #[trigger] chosen_at(dirs@, order@, need, t);
                    assert(t != p);
                }
            }
        } else {
            assert(chosen_at(dirs@, order@, need, p as int));
            planned_bytes = planned_bytes.saturating_add(r);
            selected.push(i);
            assert(selected@.drop_last() =~= sel_before);
            proof {
                let by = ByReclaimable { dirs };
                assert forall|a: int, b: int| 0 <= a < b < selected@.len() implies by.before(
                    #[trigger] selected@[a] as int,
                    #[trigger] selected@[b] as int,
                ) by {
                    if b == selected@.len() - 1 {
                        assert(selected@[a] == sel_before[a]);
                        assert(exists|t: int| 0 <= t < p && #[trigger] order@[t] == sel_before[a]);
                        let t = choose|t: int| 0 <= t < p && #[trigger] order@[t] == sel_before[a];
                        assert(by.before(order@[t] as int, order@[p as int] as int));
                    } else {
                        assert(selected@[a] == sel_before[a] && selected@[b] == sel_before[b]);
                    }
                }
                assert forall|q: int| 0 <= q < selected@.len() implies exists|t: int|
                    0 <= t < p + 1 && #[trigger] order@[t] == #[trigger] selected@[q] by {
                    if q == selected@.len() - 1 {
                        assert(order@[p as int] == selected@[q]);
                    } else {
                        assert(selected@[q] == sel_before[q]);
                        let t = choose|t: int| 0 <= t < p && #[trigger] order@[t] == sel_before[q];
                        assert(order@[t] == selected@[q]);
                    }
                }
                assert forall|x: usize| #[trigger] selected@.contains(x) <==> exists|t: int|
                    0 <= t < p + 1 && order@[t] == x && #[trigger] chosen_at(dirs@, order@, need, t) by {
                    if selected@.contains(x) {
                        let q = choose|q: int| 0 <= q < selected@.len() && selected@[q] == x;
                        if q < sel_before.len() {
                            assert(sel_before[q] == x);
                            assert(sel_before.contains(x));
                        } else {
                            assert(chosen_at(dirs@, order@, need, p as int));
                        }
                    }
                    if exists|t: int| 0 <= t < p + 1 && order@[t] == x && #[trigger] chosen_at(dirs@, order@, need, t) {
                        let t = choose|t: int| 0 <= t < p + 1 && order@[t] == x && #[trigger] chosen_at(dirs@, order@, need, t);
                        if t < p {
                            assert(sel_before.contains(x));
                            let q = choose|q: int| 0 <= q < sel_before.len() && sel_before[q] == x;
                            assert(selected@[q] == x);
                        } else {
                            assert(selected@[selected@.len() - 1] == x);
                        }
                    }
                }
                if let Some(nb) = need {
                    assert forall|k: int| 0 <= k < selected@.len() implies sum_selected(
                        dirs@,
                        #[trigger] selected@.take(k),
                    ) < nb by {
                        if k < sel_before.len() {
                            assert(selected@.take(k) =~= sel_before.take(k));
                        } else {
                            assert(selected@.take(k) =~= sel_before);
                        }
                    }
                }
            }
        }
        p = p + 1;
    }
    let need_bytes = if budget.is_none() {
        planned_bytes
    } else {
        need_bytes
    };
    proof {
        assert forall|x: usize| x < dirs@.len() && dirs@[x as int].1 > 0 && (budget is None || planned_bytes
            < need_bytes) implies #[trigger] selected@.contains(x) by {
            assert(order@.contains(x));
            let t = choose|t: int| 0 <= t < order@.len() && order@[t] == x;
            if !chosen_at(dirs@, order@, need, t) {
                assert(budget is Some);
            }
        }
        assert forall|x: usize| #[trigger] selected@.contains(x) implies x < dirs@.len() && dirs@[x as int].1 > 0 by {
            let t = choose|t: int| 0 <= t < p && order@[t] == x && #[trigger] chosen_at(dirs@, order@, need, t);
        }
        assert forall|x: usize, y: usize|
            #[trigger] selected@.contains(x) && y < dirs@.len() && dirs@[y as int].1 > 0 && #[trigger] reclaim_before(
                dirs@,
                y as int,
                x as int,
            ) implies selected@.contains(y) by {
            let t = choose|t: int| 0 <= t < p && order@[t] == x && #[trigger] chosen_at(dirs@, order@, need, t);
            assert(order@.contains(y));
            let u = choose|u: int| 0 <= u < order@.len() && order@[u] == y;
            if u >= t {
                if u > t {
                    assert(ByReclaimable { dirs }.before(order@[t] as int, order@[u] as int));
                }
                assert(false);
            }
            lemma_prefix_reclaimable_monotone(dirs@, order@, u, t);
            assert(chosen_at(dirs@, order@, need, u));
        }
        if budget is None {
            assert(selected@.no_duplicates()) by {
                assert forall|i: int, j: int| 0 <= i < selected@.len() && 0 <= j < selected@.len() && i != j
                    implies selected@[i] != selected@[j] by {
                    if i < j {
                        assert(ByReclaimable { dirs }.before(selected@[i] as int, selected@[j] as int));
                    } else {
                        assert(ByReclaimable { dirs }.before(selected@[j] as int, selected@[i] as int));
                    }
                }
            }
            law_full_selection_plans_all(dirs@, selected@);
        }
    }
    (
        selected,
        BudgetPlan {
            total_bytes,
            need_bytes,
            planned_bytes,
            insufficient: planned_bytes < need_bytes,
        },
    )
}


// ---------------------------------------------------------------------------
// Human byte sizes
// ---------------------------------------------------------------------------

pub open spec fn is_ascii_alpha(c: char) -> bool {
    ('a' <= c && c <= 'z') || ('A' <= c && c <= 'Z')
}

pub open spec fn is_digit(c: char) -> bool {
    '0' <= c && c <= '9'
}

pub open spec fn all_digits(s: Seq<char>) -> bool {
    forall|k: int| 0 <= k < s.len() ==> is_digit(#[trigger] s[k])
}

/// Position of the first ASCII letter of `s` (its length when there is none).
pub open spec fn first_alpha(s: Seq<char>) -> int
    decreases s.len(),
{
    if s.len() == 0 {
        0
    } else if is_ascii_alpha(s[0]) {
        0
    } else {
        1 + first_alpha(s.drop_first())
    }
}

/// A decimal number without exponent, as `f64` parsing accepts it here: an
/// optional sign, then integer digits and an optional `.` with fraction
/// digits, at least one digit in all.
pub open spec fn is_decimal(num: Seq<char>) -> bool {
    let signed = num.len() > 0 && (num[0] == '+' || num[0] == '-');
    let body = if signed {
        num.drop_first()
    } else {
        num
    };
    let int_part = match first_index(body, '.') {
        Some(k) => body.take(k),
        None => body,
    };
    let frac_part = match first_index(body, '.') {
        Some(k) => body.skip(k + 1),
        None => Seq::empty(),
    };
    all_digits(int_part) && all_digits(frac_part) && int_part.len() + frac_part.len() > 0
}

/// ASCII uppercase letters mapped to lowercase.
pub open spec fn ascii_lower(s: Seq<char>) -> Seq<char> {
    s.map_values(|c: char| if 'A' <= c && c <= 'Z' { ((c as int) + 32) as char } else { c })
}

/// Bytes per unit: decimal suffixes are powers of 1000, binary ones powers of
/// 1024, case-insensitively; no suffix or `b` means bytes.
pub open spec fn unit_multiplier(unit: Seq<char>) -> Option<int> {
    let l = ascii_lower(unit);
    if l == ""@ || l == "b"@ {
        Some(1)
    } else if l == "kb"@ {
        Some(1000)
    } else if l == "mb"@ {
        Some(1_000_000)
    } else if l == "gb"@ {
        Some(1_000_000_000)
    } else if l == "tb"@ {
        Some(1_000_000_000_000)
    } else if l == "kib"@ {
        Some(1024)
    } else if l == "mib"@ {
        Some(1_048_576)
    } else if l == "gib"@ {
        Some(1_073_741_824)
    } else if l == "tib"@ {
        Some(1_099_511_627_776)
    } else {
        None
    }
}

/// The parts of a human size: the number text (the part before the first
/// ASCII letter, trimmed) and the unit's multiplier, when the number is a
/// decimal and the unit is known. The byte count is the number times the
/// multiplier, evaluated in floating point by the caller.
pub open spec fn spec_size_parts(s: Seq<char>) -> Option<(Seq<char>, int)> {
    let t = trim(s);
    let split = first_alpha(t);
    let num = trim(t.take(split));
    let unit = trim(t.skip(split));
    match unit_multiplier(unit) {
        Some(m) => if is_decimal(num) {
            Some((num, m))
        } else {
            None
        },
        None => None,
    }
}

proof fn lemma_first_alpha(s: Seq<char>, k: int)
    requires
        0 <= k <= s.len(),
        forall|j: int| 0 <= j < k ==> !is_ascii_alpha(#[trigger] s[j]),
        k == s.len() || is_ascii_alpha(s[k]),
    ensures
        first_alpha(s) == k,
    decreases s.len(),
{
    if s.len() > 0 && k > 0 {
        assert forall|j: int| 0 <= j < k - 1 implies !is_ascii_alpha(#[trigger] s.drop_first()[j]) by {
            assert(s.drop_first()[j] == s[j + 1]);
        }
        lemma_first_alpha(s.drop_first(), k - 1);
    }
}

fn find_alpha(c: &Vec<char>) -> (k: usize)
    ensures
        k == first_alpha(c@),
        k <= c@.len(),
{
    let mut i: usize = 0;
    while i < c.len() && !(('a' <= c[i] && c[i] <= 'z') || ('A' <= c[i] && c[i] <= 'Z'))
        invariant
            i <= c@.len(),
            forall|j: int| 0 <= j < i ==> !is_ascii_alpha(#[trigger] c@[j]),
        decreases c.len() - i,
    {
        i = i + 1;
    }
    proof {
        lemma_first_alpha(c@, i as int);
    }
    i
}

fn check_digits(c: &Vec<char>) -> (b: bool)
    ensures
        b == all_digits(c@),
{
    let mut i: usize = 0;
    while i < c.len()
        invariant
            i <= c@.len(),
            forall|k: int| 0 <= k < i ==> is_digit(#[trigger] c@[k]),
        decreases c.len() - i,
    {
        if !('0' <= c[i] && c[i] <= '9') {
            return false;
        }
        i = i + 1;
    }
    true
}

pub fn lower_chars(c: &Vec<char>) -> (r: Vec<char>)
    ensures
        r@ == ascii_lower(c@),
{
    let mut r: Vec<char> = Vec::new();
    let mut i: usize = 0;
    while i < c.len()
        invariant
            i <= c@.len(),
            r@ == ascii_lower(c@.take(i as int)),
        decreases c.len() - i,
    {
        let ch = c[i];
        let lo = if 'A' <= ch && ch <= 'Z' {
            ((ch as u8) + 32) as char
        } else {
            ch
        };
        proof {
            assert(ascii_lower(c@.take(i + 1)) =~= ascii_lower(c@.take(i as int)).push(lo));
        }
        r.push(lo);
        i = i + 1;
    }
    assert(c@.take(i as int) =~= c@);
    r
}

fn multiplier_of(unit: &Vec<char>) -> (m: Option<u64>)
    ensures
        match m {
            Some(v) => unit_multiplier(unit@) == Some(v as int),
            None => unit_multiplier(unit@) is None,
        },
{
    let l = lower_chars(unit);
    if chars_eq(&l, &chars_of("")) || chars_eq(&l, &chars_of("b")) {
        Some(1)
    } else if chars_eq(&l, &chars_of("kb")) {
        Some(1000)
    } else if chars_eq(&l, &chars_of("mb")) {
        Some(1_000_000)
    } else if chars_eq(&l, &chars_of("gb")) {
        Some(1_000_000_000)
    } else if chars_eq(&l, &chars_of("tb")) {
        Some(1_000_000_000_000)
    } else if chars_eq(&l, &chars_of("kib")) {
        Some(1024)
    } else if chars_eq(&l, &chars_of("mib")) {
        Some(1_048_576)
    } else if chars_eq(&l, &chars_of("gib")) {
        Some(1_073_741_824)
    } else if chars_eq(&l, &chars_of("tib")) {
        Some(1_099_511_627_776)
    } else {
        None
    }
}

/// Split a human byte size (`"20GB"`, `"1.5 TiB"`, `"500 MB"`, bare bytes)
/// into its number text and its unit's multiplier: decimal suffixes (KB/MB/
/// GB/TB) are powers of 1000, binary ones (KiB/MiB/GiB/TiB) powers of 1024.
pub fn parse_size_parts(s: &str) -> (r: Option<(String, u64)>)
    ensures
        match r {
            Some((n, m)) => spec_size_parts(s@) == Some((n@, m as int)),
            None => spec_size_parts(s@) is None,
        },
{
    let t = trim_chars(&chars_of(s));
    let split = find_alpha(&t);
    let num = trim_chars(&sub_chars(&t, 0, split));
    let unit = trim_chars(&sub_chars(&t, split, t.len()));
    assert(t@.take(split as int) =~= t@.subrange(0, split as int));
    assert(t@.skip(split as int) =~= t@.subrange(split as int, t@.len() as int));
    let m = match multiplier_of(&unit) {
        Some(m) => m,
        None => return None,
    };
    let signed = num.len() > 0 && (num[0] == '+' || num[0] == '-');
    let body = if signed {
        sub_chars(&num, 1, num.len())
    } else {
        sub_chars(&num, 0, num.len())
    };
    assert(signed ==> body@ =~= num@.drop_first());
    assert(!signed ==> body@ =~= num@);
    let (int_part, frac_part) = match find_first(&body, '.') {
        Some(k) => (sub_chars(&body, 0, k), sub_chars(&body, k + 1, body.len())),
        None => (sub_chars(&body, 0, body.len()), sub_chars(&body, body.len(), body.len())),
    };
    proof {
        match first_index(body@, '.') {
            Some(k) => {
                assert(int_part@ =~= body@.take(k));
                assert(frac_part@ =~= body@.skip(k + 1));
            },
            None => {
                assert(int_part@ =~= body@);
                assert(frac_part@ =~= Seq::<char>::empty());
            },
        }
    }
    if !(check_digits(&int_part) && check_digits(&frac_part) && int_part.len() + frac_part.len() > 0) {
        return None;
    }
    Some((string_of(&num), m))
}

} // verus!
