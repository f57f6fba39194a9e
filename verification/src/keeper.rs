//! The keeper: the background process that holds the distributed bin
//! storage together.
//!
//! Its clock duty is [`clock_pass`]: read every live back-end's clock,
//! take the maximum, and push that maximum back to every live back-end as
//! a floor.  [`lemma_clock_floor`] states what the pass buys: any clock
//! value returned anywhere before a completed pass is a lower bound for
//! any clock value returned anywhere after it.  The membership and
//! lock-lease decisions a keeper makes between its I/O steps are the pure
//! functions at the bottom.
use crate::bins::BinStore;
use crate::storage::{clock_next, clock_read};
use vstd::prelude::*;

verus! {

/// How many consecutive failed probes mark a back-end as down.
pub const FAULT_THRESHOLD: u32 = 3;

/// One full clock-synchronization pass: reads the clock of every live
/// back-end, computes the maximum `m`, and bumps every live back-end to
/// at least `m`.  Dead back-ends are skipped and keep their clocks.
pub fn clock_pass(store: &mut BinStore) -> (m: u64)
    requires
        old(store).wf(),
    ensures
        final(store).wf(),
        final(store).same_config(*old(store)),
        forall|i: int, k: Seq<char>|
            0 <= i < old(store).nback() ==> #[trigger] final(store).back_at(i).kv_of(k) == old(store).back_at(i).kv_of(k),
        forall|i: int, k: Seq<char>|
            0 <= i < old(store).nback() ==> #[trigger] final(store).back_at(i).list_of(k)
                == old(store).back_at(i).list_of(k),
        forall|i: int|
            0 <= i < old(store).nback() && old(store).live_at(i) ==> m >= old(store).back_at(
                i,
            ).clock_of(),
        forall|i: int|
            0 <= i < old(store).nback() && old(store).live_at(i) ==> #[trigger] final(store).back_at(i).clock_of() >= m,
        forall|i: int|
            0 <= i < old(store).nback() && !old(store).live_at(i) ==> #[trigger] final(store).back_at(i).clock_of() == old(store).back_at(i).clock_of(),
    {
        let n = store.back_count();
        let mut m: u64 = 0;
        let mut i: usize = 0;
        while i < n
            invariant
                store.wf(),
                store.same_config(*old(store)),
                store.nback() == old(store).nback(),
                n == store.nback(),
                i <= n,
                forall|i2: int, k: Seq<char>|
                    0 <= i2 < n ==> #[trigger] store.back_at(i2).kv_of(k) == old(store).back_at(
                        i2,
                    ).kv_of(k),
                forall|i2: int, k: Seq<char>|
                    0 <= i2 < n ==> #[trigger] store.back_at(i2).list_of(k) == old(store).back_at(i2).list_of(k),
                forall|i2: int|
                    0 <= i2 < n && !old(store).live_at(i2) ==> #[trigger] store.back_at(
                        i2,
                    ).clock_of() == old(store).back_at(i2).clock_of(),
                forall|i2: int|
                    i <= i2 < n ==> #[trigger] store.back_at(i2).clock_of() == old(
                        store,
                    ).back_at(i2).clock_of(),
                forall|j: int|
                    0 <= j < i && old(store).live_at(j) ==> m >= old(store).back_at(
                        j,
                    ).clock_of(),
            decreases n - i,
        {
            if store.is_live(i) {
                let c = store.probe_clock(i);
                if c > m {
                    m = c;
                }
            }
            i = i + 1;
        }
        let ghost mid = *store;
        let mut j: usize = 0;
        while j < n
            invariant
                store.wf(),
                store.same_config(*old(store)),
                store.nback() == old(store).nback(),
                n == store.nback(),
                j <= n,
                forall|i2: int, k: Seq<char>|
                    0 <= i2 < n ==> #[trigger] store.back_at(i2).kv_of(k) == old(store).back_at(
                        i2,
                    ).kv_of(k),
                forall|i2: int, k: Seq<char>|
                    0 <= i2 < n ==> #[trigger] store.back_at(i2).list_of(k) == old(store).back_at(i2).list_of(k),
                forall|i2: int|
                    0 <= i2 < n && j <= i2 ==> #[trigger] store.back_at(i2).clock_of()
                        == mid.back_at(i2).clock_of(),
                forall|i2: int|
                    0 <= i2 < j && old(store).live_at(i2) ==> #[trigger] store.back_at(
                        i2,
                    ).clock_of() >= m,
                forall|i2: int|
                    0 <= i2 < n && !old(store).live_at(i2) ==> #[trigger] store.back_at(
                        i2,
                    ).clock_of() == old(store).back_at(i2).clock_of(),
            decreases n - j,
        {
            if store.is_live(j) {
                let _ = store.floor_clock(j, m);
            }
            j = j + 1;
        }
        m
    }

/// The clock floor delivered by a completed pass: a value `r1` returned
/// by some back-end before the pass is a lower bound for any value a
/// `clock` call returns on any back-end after it.
///
/// `c_i` is the clock state of the back-end that returned `r1` when the
/// pass read it, `m` the maximum the pass computed, and `c_j` the clock
/// state of any back-end the pass floored.
pub proof fn lemma_clock_floor(r1: u64, c_i: u64, m: u64, c_j: u64, at_least: u64)
    requires
        r1 <= c_i,
        c_i <= m,
        m <= c_j,
    ensures
        clock_read(c_j, at_least) >= r1,
{
}

/// A clock that returned `r1` never falls below `r1` afterwards, so the
/// hypothesis `r1 <= c_i` of [`lemma_clock_floor`] is maintained by every
/// later call.
pub proof fn lemma_clock_state_keeps_returned(c: u64, at_least: u64)
    ensures
        clock_next(c, at_least) >= clock_read(c, at_least),
        clock_next(c, at_least) >= c,
{
}

/// A keeper's claim on the per-range coordination lock.
pub struct KeeperLock {
    /// the claiming keeper's incarnation id; non-zero
    pub id: u128,
    /// when the lease runs out, in the storage clock's units
    pub lease_deadline: u64,
}

/// Whether a keeper may claim the range lock: the record is missing, its
/// lease has expired, or it already belongs to this keeper.
pub fn may_claim_lock(existing: Option<&KeeperLock>, now: u64, my_id: u128) -> (r: bool)
    ensures
        r == match existing {
            None => true,
            Some(l) => l.lease_deadline < now || l.id == my_id,
        },
{
    match existing {
        None => true,
        Some(l) => l.lease_deadline < now || l.id == my_id,
    }
}

/// When two claims race, the later-started keeper, which carries the
/// strictly larger incarnation id, wins the next refresh.
pub fn lock_winner(a: u128, b: u128) -> (w: u128)
    ensures
        w == if a >= b {
            a
        } else {
            b
        },
        w == a || w == b,
        w >= a && w >= b,
{
    if a >= b {
        a
    } else {
        b
    }
}

/// The liveness bookkeeping of one heartbeat: a back-end is declared
/// down after [`FAULT_THRESHOLD`] consecutive failed probes and comes
/// back on the first successful one.
pub fn liveness_step(down: bool, failures: u32, probe_ok: bool) -> (r: (bool, u32))
    requires
        failures <= FAULT_THRESHOLD,
    ensures
        probe_ok ==> r == (false, 0u32),
        !probe_ok ==> ({
            let f = if failures < FAULT_THRESHOLD {
                (failures + 1) as u32
            } else {
                failures
            };
            r == (((f == FAULT_THRESHOLD) || down), f)
        }),
{
    if probe_ok {
        (false, 0)
    } else {
        let f = if failures < FAULT_THRESHOLD {
            failures + 1
        } else {
            failures
        };
        (f == FAULT_THRESHOLD || down, f)
    }
}

/// The largest of the clock values a keeper collected; zero when none
/// answered.
pub fn max_clock(values: &Vec<u64>) -> (m: u64)
    ensures
        forall|i: int| 0 <= i < values@.len() ==> m >= values@[i],
        values@.len() == 0 ==> m == 0,
        values@.len() > 0 ==> (m == 0 || values@.contains(m)),
{
    let mut m: u64 = 0;
    let mut i: usize = 0;
    while i < values.len()
        invariant
            i <= values@.len(),
            forall|j: int| 0 <= j < i ==> m >= values@[j],
            m == 0 || values@.contains(m),
        decreases values@.len() - i,
    {
        if values[i] > m {
            m = values[i];
            proof {
                assert(values@[i as int] == m);
            }
        }
        i = i + 1;
    }
    m
}

} // verus!
