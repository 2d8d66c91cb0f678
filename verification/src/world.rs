//! World-tick scheduling helpers: the fixed partition of the creature range
//! into chunks processed independently by the forward pass, and the
//! end-of-tick bookkeeping (tick counter, peaks, population milestones, the
//! end of the world).

use vstd::prelude::*;
use crate::constants::N_CHUNKS;
use crate::events::{Event, EventKind};

verus! {

/// Chunk size for `n` creatures: `ceil(n / N_CHUNKS)`.
pub open spec fn chunk_base(n: int) -> int {
    (n + N_CHUNKS - 1) / (N_CHUNKS as int)
}

/// The `k`-th chunk of `0..n`: `[min(k·base, n), min((k+1)·base, n))`.
pub open spec fn chunk_range(n: int, k: int) -> (usize, usize) {
    let base = chunk_base(n);
    let lo = if k * base < n { k * base } else { n };
    let hi = if (k + 1) * base < n { (k + 1) * base } else { n };
    (lo as usize, hi as usize)
}

/// Total length of the first `k` ranges.
pub open spec fn ranges_total(r: Seq<(usize, usize)>, k: int) -> int
    decreases k,
{
    if k <= 0 {
        0
    } else {
        ranges_total(r, k - 1) + (r[k - 1].1 - r[k - 1].0)
    }
}

proof fn lemma_ranges_total(r: Seq<(usize, usize)>, k: int)
    requires
        1 <= k <= r.len(),
        forall|j: int| 0 <= j < k - 1 ==> #[trigger] r[j].1 == r[j + 1].0,
    ensures
        ranges_total(r, k) == r[k - 1].1 - r[0].0,
    decreases k,
{
    if k > 1 {
        lemma_ranges_total(r, k - 1);
        assert(r[k - 2].1 == r[k - 1].0);
    } else {
        assert(ranges_total(r, 0) == 0);
    }
}

/// Split `0..n` into `N_CHUNKS` contiguous ranges of `ceil(n / N_CHUNKS)`
/// elements each; the last ones may be shorter or empty (`lo == hi`).
/// Together they partition `0..n`: the first starts at 0, each starts where
/// the previous ended, the last ends at `n`, and none is reversed.
/// `N_CHUNKS · ceil(n / N_CHUNKS)` must fit in a `usize`.
#[verifier::spinoff_prover]
pub fn chunk_ranges(n: usize) -> (r: [(usize, usize); N_CHUNKS])
    requires
        chunk_base(n as int) * N_CHUNKS <= usize::MAX,
    ensures
        forall|k: int| 0 <= k < N_CHUNKS ==> #[trigger] r@[k] == chunk_range(n as int, k),
        r@[0].0 == 0,
        r@[N_CHUNKS - 1].1 == n,
        forall|k: int| 0 <= k < N_CHUNKS ==> #[trigger] r@[k].0 <= r@[k].1,
        forall|k: int| 0 <= k < N_CHUNKS - 1 ==> #[trigger] r@[k].1 == r@[k + 1].0,
        ranges_total(r@, N_CHUNKS as int) == n,
{
    let base = n / N_CHUNKS + if n % N_CHUNKS != 0 { 1 } else { 0 };
    assert(base == (n + 7) / 8) by (nonlinear_arith)
        requires
            base == n / 8 + if n % 8 != 0 { 1int } else { 0int },
            n >= 0,
    ;
    assert(base * 8 <= n + 7) by (nonlinear_arith)
        requires
            base == (n + 7) / 8,
    ;
    assert(base * 8 >= n) by (nonlinear_arith)
        requires
            base == (n + 7) / 8,
    ;
    let mut out: [(usize, usize); N_CHUNKS] = [(0, 0), (0, 0), (0, 0), (0, 0), (0, 0), (0, 0), (0, 0), (0, 0)];
    let mut k: usize = 0;
    while k < N_CHUNKS
        invariant
            k <= N_CHUNKS,
            base == chunk_base(n as int),
            base * 8 <= n + 7,
            base * 8 >= n,
            base * 8 <= usize::MAX,
            forall|j: int| 0 <= j < k ==> #[trigger] out@[j] == chunk_range(n as int, j),
        decreases N_CHUNKS - k,
    {
        assert((k + 1) * base <= 8 * base) by (nonlinear_arith)
            requires
                k < 8,
        ;
        assert(k * base <= (k + 1) * base) by (nonlinear_arith);
        let a = k * base;
        let b = (k + 1) * base;
        let lo = if a < n { a } else { n };
        let hi = if b < n { b } else { n };
        out[k] = (lo, hi);
        k = k + 1;
    }
    proof {
        assert(out@[0] == chunk_range(n as int, 0));
        assert(out@[7] == chunk_range(n as int, 7));
        assert forall|j: int| 0 <= j < N_CHUNKS implies #[trigger] out@[j].0 <= out@[j].1 by {
            assert(out@[j] == chunk_range(n as int, j));
            assert(j * base <= (j + 1) * base) by (nonlinear_arith)
                requires
                    j >= 0,
                    base >= 0,
            ;
        }
        assert forall|j: int| 0 <= j < N_CHUNKS - 1 implies #[trigger] out@[j].1 == out@[j + 1].0 by {
            assert(out@[j] == chunk_range(n as int, j));
            assert(out@[j + 1] == chunk_range(n as int, j + 1));
        }
        assert((7 + 1) * base >= n) by (nonlinear_arith)
            requires
                base * 8 >= n,
        ;
        assert(out@[7].1 == n);
        lemma_ranges_total(out@, N_CHUNKS as int);
    }
    out
}

/// The counters the end of a tick updates.
#[derive(Clone, Copy, Debug, PartialEq, Eq, Structural)]
pub struct TickState {
    pub tick: u32,
    pub peak_population: u32,
    pub peak_species_count: u32,
    pub live_species_count: u32,
    /// Bit `k` set once milestone `k` has been reached.
    pub milestones_fired: u32,
    pub world_ended: bool,
}

/// Bit `k` of `m`.
pub open spec fn mask_bit(m: u32, k: int) -> bool {
    (m >> (k as u32)) & 1u32 == 1u32
}

/// Whether milestone `k` (of `thresholds`) fires this tick: the population
/// has reached it and it has never fired before.
pub open spec fn milestone_fires(thresholds: Seq<u32>, fired: u32, population: u32, k: int) -> bool {
    population >= thresholds[k] && !mask_bit(fired, k)
}

/// The milestone events among the first `k` thresholds, in order.
pub open spec fn milestone_events(thresholds: Seq<u32>, fired: u32, population: u32, tick: u32, k: int) -> Seq<Event>
    decreases k,
{
    if k <= 0 {
        Seq::empty()
    } else if milestone_fires(thresholds, fired, population, k - 1) {
        milestone_events(thresholds, fired, population, tick, k - 1).push(
            Event { tick, kind: EventKind::PopulationMilestone { population: thresholds[k - 1] } },
        )
    } else {
        milestone_events(thresholds, fired, population, tick, k - 1)
    }
}

proof fn lemma_bit_set(m: u32, k: u32, j: u32)
    requires
        k < 32,
        j < 32,
    ensures
        ((m | (1u32 << k)) >> j) & 1u32 == (if j == k { 1u32 } else { (m >> j) & 1u32 }),
        (m & (1u32 << k) == 0u32) == ((m >> k) & 1u32 != 1u32),
{
    assert(((m | (1u32 << k)) >> j) & 1u32 == (if j == k { 1u32 } else { (m >> j) & 1u32 })) by (bit_vector)
        requires
            k < 32,
            j < 32,
    ;
    assert((m & (1u32 << k) == 0u32) == ((m >> k) & 1u32 != 1u32)) by (bit_vector)
        requires
            k < 32,
    ;
}

/// The end of a tick with `population` creatures alive and milestone
/// thresholds `thresholds` (at most 32, one bit each): the tick counter
/// advances (saturating), the peaks become maxima, each milestone the
/// population has reached is marked, and the world ends when nobody is
/// alive. Returns the new counters and the events of the tick, in order:
/// each milestone reached for the first time, then the end of the world.
/// A world that has already ended is left as it is.
pub fn tick_bookkeeping(s: TickState, population: u32, thresholds: &[u32]) -> (r: (TickState, Vec<Event>))
    requires
        thresholds@.len() <= 32,
    ensures
        s.world_ended ==> r.0 == s && r.1@.len() == 0,
        !s.world_ended ==> {
            let tick = if s.tick == u32::MAX { u32::MAX } else { (s.tick + 1) as u32 };
            let peak = if population > s.peak_population { population } else { s.peak_population };
            let peak_species = if s.live_species_count > s.peak_species_count {
                s.live_species_count
            } else {
                s.peak_species_count
            };
            let ms = milestone_events(thresholds@, s.milestones_fired, population, tick, thresholds@.len() as int);
            &&& r.0.tick == tick
            &&& r.0.peak_population == peak
            &&& r.0.peak_species_count == peak_species
            &&& r.0.live_species_count == s.live_species_count
            &&& r.0.world_ended == (population == 0)
            &&& forall|j: int| 0 <= j < 32 ==> mask_bit(r.0.milestones_fired, j) == (mask_bit(s.milestones_fired, j)
                || (j < thresholds@.len() && population >= thresholds@[j]))
            &&& r.1@ == (if population == 0 {
                ms.push(Event { tick, kind: EventKind::WorldEnded { ticks_lived: tick, peak_population: peak, peak_species } })
            } else {
                ms
            })
        },
{
    if s.world_ended {
        return (s, Vec::new());
    }
    let tick = s.tick.saturating_add(1);
    let peak = if population > s.peak_population { population } else { s.peak_population };
    let peak_species = if s.live_species_count > s.peak_species_count {
        s.live_species_count
    } else {
        s.peak_species_count
    };
    let mut fired = s.milestones_fired;
    let mut events: Vec<Event> = Vec::new();
    let mut k: usize = 0;
    while k < thresholds.len()
        invariant
            k <= thresholds@.len(),
            thresholds@.len() <= 32,
            forall|j: int| 0 <= j < 32 ==> mask_bit(fired, j) == (mask_bit(s.milestones_fired, j)
                || (j < k && population >= thresholds@[j])),
            events@ == milestone_events(thresholds@, s.milestones_fired, population, tick, k as int),
        decreases thresholds@.len() - k,
    {
        let bit: u32 = 1u32 << (k as u32);
        proof {
            lemma_bit_set(fired, k as u32, k as u32);
            assert(mask_bit(fired, k as int) == mask_bit(s.milestones_fired, k as int));
        }
        if population >= thresholds[k] && fired & bit == 0 {
            proof {
                assert forall|j: int| 0 <= j < 32 implies mask_bit(fired | bit, j) == (mask_bit(s.milestones_fired, j)
                    || (j < k + 1 && population >= thresholds@[j])) by {
                    lemma_bit_set(fired, k as u32, j as u32);
                    if j != k {
                        assert(mask_bit(fired | bit, j) == mask_bit(fired, j));
                    }
                }
            }
            fired = fired | bit;
            events.push(Event { tick, kind: EventKind::PopulationMilestone { population: thresholds[k] } });
        } else {
            proof {
                assert forall|j: int| 0 <= j < 32 implies mask_bit(fired, j) == (mask_bit(s.milestones_fired, j)
                    || (j < k + 1 && population >= thresholds@[j])) by {
                    assert(mask_bit(fired, j) == (mask_bit(s.milestones_fired, j) || (j < k && population >= thresholds@[j])));
                    if j == k {
                        assert(!(population >= thresholds@[k as int]) || fired & bit != 0);
                        assert(fired & bit != 0 ==> mask_bit(fired, j));
                    }
                }
            }
        }
        assert(forall|j: int| 0 <= j < 32 ==> mask_bit(fired, j) == (mask_bit(s.milestones_fired, j)
            || (j < k + 1 && population >= thresholds@[j])));
        k = k + 1;
    }
    let ended = population == 0;
    if ended {
        events.push(Event {
            tick,
            kind: EventKind::WorldEnded { ticks_lived: tick, peak_population: peak, peak_species },
        });
    }
    let r = TickState {
        tick,
        peak_population: peak,
        peak_species_count: peak_species,
        live_species_count: s.live_species_count,
        milestones_fired: fired,
        world_ended: ended,
    };
    (r, events)
}

/// A milestone fires at most once: after a tick's bookkeeping every reached
/// milestone is marked, so no later tick fires it again, and marks are never
/// cleared.
pub proof fn lemma_milestone_once(thresholds: Seq<u32>, fired: u32, population: u32, later: u32, k: int)
    requires
        0 <= k < thresholds.len() <= 32,
        population >= thresholds[k] || mask_bit(fired, k),
        mask_bit(later, k) == (mask_bit(fired, k) || (k < thresholds.len() && population >= thresholds[k])),
    ensures
        forall|p: u32| !milestone_fires(thresholds, later, p, k),
{
}

} // verus!
