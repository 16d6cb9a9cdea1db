//! The decisions of the sweep executor.
//!
//! A sweep applies a scanned profile's [`ReclaimItem`]s under Cargo's lock
//! protocol. The deleting itself is done by the caller; this module decides:
//!
//! - a profile on a network filesystem is refused (Cargo skips locking there,
//!   so there is no protocol to join), and so is one whose filesystem kind
//!   cannot be told;
//! - a profile whose locks are held by a build is skipped, untouched;
//! - the layout is re-validated under the held lock, and a profile whose
//!   layout changed since the scan is refused;
//! - an item whose rustc session locks are not all free is skipped whole;
//! - an item whose deletions all succeeded frees its bytes; deletion failures
//!   are residue, counted and tolerated, never a failed run;
//! - a failed deletion is retried with backoff while the failure is
//!   transient, and a path that is already gone counts as deleted.

use vstd::prelude::*;
use crate::layout::ProfileLayout;
use crate::scan::{ItemModel, ReclaimItem};
use crate::text::names;

verus! {

/// What a sweep of one profile did.
pub struct SweepOutcome {
    pub freed_bytes: u64,
    pub freed_entries: u64,
    pub items_swept: u64,
    pub items_skipped: u64,
    /// Paths that survived all retries (open handles, scanners): counted, not fatal.
    pub residue_paths: u64,
    /// A build held the profile locks; nothing was touched.
    pub skipped_locked: bool,
    /// The profile was refused outright (network filesystem, layout drift).
    pub refused: Option<String>,
}

/// The counters of an outcome.
pub struct Tally {
    pub freed_bytes: int,
    pub freed_entries: int,
    pub items_swept: int,
    pub items_skipped: int,
    pub residue_paths: int,
}

pub open spec fn tally_of(o: SweepOutcome) -> Tally {
    Tally {
        freed_bytes: o.freed_bytes as int,
        freed_entries: o.freed_entries as int,
        items_swept: o.items_swept as int,
        items_skipped: o.items_skipped as int,
        residue_paths: o.residue_paths as int,
    }
}

pub open spec fn zero_tally() -> Tally {
    Tally { freed_bytes: 0, freed_entries: 0, items_swept: 0, items_skipped: 0, residue_paths: 0 }
}

/// An outcome in which nothing was done yet, nor refused.
pub open spec fn is_fresh(o: SweepOutcome) -> bool {
    tally_of(o) == zero_tally() && !o.skipped_locked && o.refused is None
}

impl Default for SweepOutcome {
    fn default() -> (o: SweepOutcome)
        ensures
            is_fresh(o),
    {
        SweepOutcome {
            freed_bytes: 0,
            freed_entries: 0,
            items_swept: 0,
            items_skipped: 0,
            residue_paths: 0,
            skipped_locked: false,
            refused: None,
        }
    }
}

/// The answer for a profile refused with reason `why`.
pub open spec fn refused_with(o: SweepOutcome, why: Seq<char>) -> bool {
    &&& tally_of(o) == zero_tally()
    &&& !o.skipped_locked
    &&& o.refused matches Some(m) && m@ == why
}

/// The checks that precede any deletion, in protocol order: the
/// filesystem (`on_network`: whether it is a network one, `None` when that
/// cannot be told), then the profile locks (`locks_taken`: both were
/// acquired), then, under the held locks, the layout as probed now against
/// the layout the scan saw. `Some` stops the sweep with that outcome; `None`
/// lets it proceed to the items. Observations after the first one that
/// stops the sweep do not matter.
pub fn sweep_precheck(
    on_network: Option<bool>,
    locks_taken: bool,
    layout_now: ProfileLayout,
    scanned: ProfileLayout,
) -> (r: Option<SweepOutcome>)
    ensures
        on_network == Some(true) ==> (r matches Some(o) && refused_with(o, "network filesystem"@)),
        on_network is None ==> (r matches Some(o) && refused_with(o, "filesystem kind unknown"@)),
        on_network == Some(false) && !locks_taken ==> (r matches Some(o) && tally_of(o) == zero_tally()
            && o.skipped_locked && o.refused is None),
        on_network == Some(false) && locks_taken && layout_now != scanned ==> (r matches Some(o) && refused_with(
            o,
            "layout changed since scan"@,
        )),
        on_network == Some(false) && locks_taken && layout_now == scanned ==> r is None,
{
    let mut o = SweepOutcome::default();
    match on_network {
        Some(true) => {
            o.refused = Some("network filesystem".to_owned());
            return Some(o);
        },
        None => {
            o.refused = Some("filesystem kind unknown".to_owned());
            return Some(o);
        },
        Some(false) => {},
    }
    if !locks_taken {
        o.skipped_locked = true;
        return Some(o);
    }
    if layout_now != scanned {
        o.refused = Some("layout changed since scan".to_owned());
        return Some(o);
    }
    None
}

/// One deletion of an item: a path relative to the profile, and whether it
/// is removed as a whole directory tree (`delete_first`) or as a single
/// entry (`delete_then`).
pub struct Deletion {
    pub path: Vec<String>,
    pub whole_dir: bool,
}

pub open spec fn deletion_view(d: Deletion) -> (Seq<Seq<char>>, bool) {
    (names(d.path@), d.whole_dir)
}

pub open spec fn deletion_views(v: Seq<Deletion>) -> Seq<(Seq<Seq<char>>, bool)> {
    Seq::new(v.len(), |i: int| deletion_view(v[i]))
}

/// The deletions of an item, in order: nothing while one of its session
/// locks is held, else every `delete_first` path as a whole directory, then
/// every `delete_then` path.
pub open spec fn planned_deletions(item: ItemModel, locks_free: bool) -> Seq<(Seq<Seq<char>>, bool)> {
    if !locks_free {
        Seq::empty()
    } else {
        item.delete_first.map_values(|p: Seq<Seq<char>>| (p, true)) + item.delete_then.map_values(
            |p: Seq<Seq<char>>| (p, false),
        )
    }
}

/// What to delete of an item: nothing while a rustc session lock is held
/// (`locks_free` false), else the fingerprint-side directories before the
/// artifacts.
pub fn item_deletions(item: &ReclaimItem, locks_free: bool) -> (r: Vec<Deletion>)
    ensures
        deletion_views(r@) == planned_deletions(item@, locks_free),
{
    let mut r: Vec<Deletion> = Vec::new();
    if !locks_free {
        assert(deletion_views(r@) =~= planned_deletions(item@, locks_free));
        return r;
    }
    let ghost firsts = item@.delete_first.map_values(|p: Seq<Seq<char>>| (p, true));
    let ghost thens = item@.delete_then.map_values(|p: Seq<Seq<char>>| (p, false));
    let mut i: usize = 0;
    while i < item.delete_first.len()
        invariant
            i <= item.delete_first@.len(),
            firsts == item@.delete_first.map_values(|p: Seq<Seq<char>>| (p, true)),
            deletion_views(r@) == firsts.take(i as int),
        decreases item.delete_first.len() - i,
    {
        let ghost before = r@;
        r.push(Deletion { path: item.delete_first[i].clone(), whole_dir: true });
        assert(deletion_views(r@) =~= deletion_views(before).push(firsts[i as int]));
        assert(firsts.take(i + 1) =~= firsts.take(i as int).push(firsts[i as int]));
        i = i + 1;
    }
    assert(firsts.take(i as int) =~= firsts);
    let mut j: usize = 0;
    while j < item.delete_then.len()
        invariant
            j <= item.delete_then@.len(),
            firsts == item@.delete_first.map_values(|p: Seq<Seq<char>>| (p, true)),
            thens == item@.delete_then.map_values(|p: Seq<Seq<char>>| (p, false)),
            deletion_views(r@) == firsts + thens.take(j as int),
        decreases item.delete_then.len() - j,
    {
        let ghost before = r@;
        r.push(Deletion { path: item.delete_then[j].clone(), whole_dir: false });
        assert(deletion_views(r@) =~= deletion_views(before).push(thens[j as int]));
        assert(thens.take(j + 1) =~= thens.take(j as int).push(thens[j as int]));
        j = j + 1;
    }
    assert(thens.take(j as int) =~= thens);
    r
}

/// How one item ended.
#[derive(Debug, Clone, Copy, PartialEq, Eq, Structural)]
pub enum ItemStatus {
    /// Every deletion succeeded.
    Swept,
    /// Deleted, but some paths survived every retry.
    SweptWithResidue,
    /// A rustc session lock was held: nothing of the item was touched.
    SkippedSessionLock,
}

impl ItemStatus {
    /// The status as the audit log writes it.
    pub fn label(&self) -> (s: &'static str)
        ensures
            s@ == match *self {
                ItemStatus::Swept => "swept"@,
                ItemStatus::SweptWithResidue => "swept-with-residue"@,
                ItemStatus::SkippedSessionLock => "skipped-session-lock"@,
            },
    {
        proof {
            reveal_strlit("swept");
            reveal_strlit("swept-with-residue");
            reveal_strlit("skipped-session-lock");
        }
        match self {
            ItemStatus::Swept => "swept",
            ItemStatus::SweptWithResidue => "swept-with-residue",
            ItemStatus::SkippedSessionLock => "skipped-session-lock",
        }
    }
}

/// The status of an item whose session locks were `locks_free` and whose
/// deletions left `residue` paths behind.
pub open spec fn status_of(locks_free: bool, residue: int) -> ItemStatus {
    if !locks_free {
        ItemStatus::SkippedSessionLock
    } else if residue == 0 {
        ItemStatus::Swept
    } else {
        ItemStatus::SweptWithResidue
    }
}

/// The counters after one more item.
pub open spec fn after_item(t: Tally, item: ItemModel, locks_free: bool, residue: int) -> Tally {
    match status_of(locks_free, residue) {
        ItemStatus::SkippedSessionLock => Tally { items_skipped: t.items_skipped + 1, ..t },
        ItemStatus::Swept => Tally {
            items_swept: t.items_swept + 1,
            freed_bytes: t.freed_bytes + item.bytes,
            freed_entries: t.freed_entries + item.entries,
            ..t
        },
        ItemStatus::SweptWithResidue => Tally {
            items_swept: t.items_swept + 1,
            residue_paths: t.residue_paths + residue,
            ..t
        },
    }
}

/// Account for one item: `locks_free` says whether all its session locks
/// could be held (when not, nothing of it was deleted); `residue` is the
/// number of its paths that survived every retry. Counts do not overflow on
/// the inputs admitted here.
pub fn record_item(outcome: &mut SweepOutcome, item: &ReclaimItem, locks_free: bool, residue: u64) -> (status:
    ItemStatus)
    requires
        tally_of(*old(outcome)).freed_bytes + item.bytes <= u64::MAX,
        tally_of(*old(outcome)).freed_entries + item.entries <= u64::MAX,
        tally_of(*old(outcome)).items_swept + 1 <= u64::MAX,
        tally_of(*old(outcome)).items_skipped + 1 <= u64::MAX,
        tally_of(*old(outcome)).residue_paths + residue <= u64::MAX,
    ensures
        status == status_of(locks_free, residue as int),
        tally_of(*final(outcome)) == after_item(tally_of(*old(outcome)), item@, locks_free, residue as int),
        final(outcome).skipped_locked == old(outcome).skipped_locked,
        final(outcome).refused == old(outcome).refused,
{
    if !locks_free {
        outcome.items_skipped = outcome.items_skipped + 1;
        ItemStatus::SkippedSessionLock
    } else if residue == 0 {
        outcome.items_swept = outcome.items_swept + 1;
        outcome.freed_bytes = outcome.freed_bytes + item.bytes;
        outcome.freed_entries = outcome.freed_entries + item.entries;
        ItemStatus::Swept
    } else {
        outcome.residue_paths = outcome.residue_paths + residue;
        outcome.items_swept = outcome.items_swept + 1;
        ItemStatus::SweptWithResidue
    }
}

/// The counters after a run of items, from a fresh outcome.
pub open spec fn tally_items(items: Seq<ItemModel>, locks_free: Seq<bool>, residue: Seq<int>) -> Tally
    decreases items.len(),
{
    if items.len() == 0 {
        zero_tally()
    } else {
        after_item(
            tally_items(items.drop_last(), locks_free.drop_last(), residue.drop_last()),
            items.last(),
            locks_free.last(),
            residue.last(),
        )
    }
}

/// Bytes of the items that were swept without residue.
pub open spec fn clean_bytes(items: Seq<ItemModel>, locks_free: Seq<bool>, residue: Seq<int>) -> int
    decreases items.len(),
{
    if items.len() == 0 {
        0
    } else {
        clean_bytes(items.drop_last(), locks_free.drop_last(), residue.drop_last()) + if locks_free.last()
            && residue.last() == 0 {
            items.last().bytes
        } else {
            0
        }
    }
}

/// Every planned item ends swept or skipped, exactly once; only items swept
/// without residue free their bytes; skipped items never count as swept.
pub proof fn law_every_item_accounted(items: Seq<ItemModel>, locks_free: Seq<bool>, residue: Seq<int>)
    requires
        locks_free.len() == items.len(),
        residue.len() == items.len(),
    ensures
        tally_items(items, locks_free, residue).items_swept + tally_items(items, locks_free, residue).items_skipped
            == items.len(),
        tally_items(items, locks_free, residue).freed_bytes == clean_bytes(items, locks_free, residue),
        tally_items(items, locks_free, residue).items_skipped == locks_free.filter(|b: bool| !b).len(),
    decreases items.len(),
{
    if items.len() > 0 {
        law_every_item_accounted(items.drop_last(), locks_free.drop_last(), residue.drop_last());
        let f = |b: bool| !b;
        locks_free.drop_last().lemma_filter_push(locks_free.last(), f);
        assert(locks_free.drop_last().push(locks_free.last()) =~= locks_free);
    } else {
        assert(locks_free.filter(|b: bool| !b) =~= Seq::<bool>::empty());
    }
}

// ---------------------------------------------------------------------------
// Retrying deletions
// ---------------------------------------------------------------------------

/// A failed filesystem operation, as far as the retry rule reads it.
pub struct IoFailure {
    /// The path does not exist.
    pub not_found: bool,
    /// Access was denied.
    pub permission_denied: bool,
    /// The operating system's error code, when there is one.
    pub raw_os_error: Option<i32>,
    /// The error as it reads.
    pub message: String,
}

/// Failures worth retrying: access denied (scanners, delete-pending handles)
/// and the Windows sharing violation (32) and access-denied (5) codes.
pub open spec fn is_retryable(e: IoFailure) -> bool {
    e.permission_denied || e.raw_os_error == Some(5i32) || e.raw_os_error == Some(32i32)
}

pub fn retryable(e: &IoFailure) -> (b: bool)
    ensures
        b == is_retryable(*e),
{
    e.permission_denied || match e.raw_os_error {
        Some(c) => c == 5 || c == 32,
        None => false,
    }
}

/// A path that is already gone is a success, not an error.
pub fn ignore_missing(r: Result<(), IoFailure>) -> (out: Result<(), IoFailure>)
    ensures
        match r {
            Err(e) => if e.not_found {
                out is Ok
            } else {
                out == Err::<(), IoFailure>(e)
            },
            Ok(_) => out is Ok,
        },
{
    match r {
        Err(e) => if e.not_found {
            Ok(())
        } else {
            Err(e)
        },
        Ok(()) => Ok(()),
    }
}

/// Number of retried attempts before the final one.
pub const RETRY_ATTEMPTS: u32 = 4;

/// What to do after an attempt.
pub enum RetryStep {
    /// Stop with this result.
    Finish(Result<(), IoFailure>),
    /// Wait this many milliseconds, then attempt again.
    Wait(u64),
}

pub open spec fn pow3(n: nat) -> nat
    decreases n,
{
    if n == 0 {
        1
    } else {
        3 * pow3((n - 1) as nat)
    }
}

/// After attempt number `attempt` (from 0) produced `r`: the retried
/// attempts stop on success (a missing path included) and on a failure that
/// is not transient, and otherwise wait 50 ms, then three times longer before
/// each further attempt; the final attempt's result, a missing path again
/// counting as success, is what remains.
pub fn retry_step(attempt: u32, r: Result<(), IoFailure>) -> (step: RetryStep)
    requires
        attempt <= RETRY_ATTEMPTS,
    ensures
        attempt == RETRY_ATTEMPTS ==> match r {
            Err(e) => if e.not_found {
                step matches RetryStep::Finish(Ok(_))
            } else {
                step == RetryStep::Finish(Err(e))
            },
            Ok(_) => step matches RetryStep::Finish(Ok(_)),
        },
        attempt < RETRY_ATTEMPTS ==> match r {
            Ok(_) => step matches RetryStep::Finish(Ok(_)),
            Err(e) => if e.not_found {
                step matches RetryStep::Finish(Ok(_))
            } else if is_retryable(e) {
                step == RetryStep::Wait((50 * pow3(attempt as nat)) as u64)
            } else {
                step == RetryStep::Finish(Err(e))
            },
        },
{
    let settled = ignore_missing(r);
    if attempt == RETRY_ATTEMPTS {
        return RetryStep::Finish(settled);
    }
    match settled {
        Ok(()) => RetryStep::Finish(Ok(())),
        Err(e) => if retryable(&e) {
            let mut delay: u64 = 50;
            let mut k: u32 = 0;
            while k < attempt
                invariant
                    k <= attempt < RETRY_ATTEMPTS,
                    delay == 50 * pow3(k as nat),
                decreases attempt - k,
            {
                assert(pow3((k + 1) as nat) == 3 * pow3(k as nat));
                assert(pow3(k as nat) <= 27) by {
                    if k == 0 {
                    } else if k == 1 {
                        assert(pow3(1) == 3 * pow3(0));
                    } else {
                        assert(pow3(1) == 3 * pow3(0));
                        assert(pow3(2) == 3 * pow3(1));
                    }
                }
                delay = delay * 3;
                k = k + 1;
            }
            RetryStep::Wait(delay)
        } else {
            RetryStep::Finish(Err(e))
        },
    }
}

} // verus!
