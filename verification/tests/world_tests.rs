use evosim::constants::N_CHUNKS;
use evosim::events::EventKind;
use evosim::world::{tick_bookkeeping, TickState};
use evosim::world::chunk_ranges;

#[test]
fn chunk_ranges_partition() {
    let ranges = chunk_ranges(1000);
    assert_eq!(ranges.len(), N_CHUNKS);
    assert_eq!(ranges[0].0, 0);
    assert_eq!(ranges[N_CHUNKS - 1].1, 1000);
    let mut total = 0usize;
    for k in 0..N_CHUNKS {
        let (lo, hi) = ranges[k];
        assert!(lo <= hi, "range {k}: lo={lo} > hi={hi}");
        total += hi - lo;
        if k + 1 < N_CHUNKS {
            assert_eq!(hi, ranges[k + 1].0, "gap between chunks {k} and {}", k + 1);
        }
    }
    assert_eq!(total, 1000, "total elements across chunks must equal n");
}

#[test]
fn chunk_ranges_small_population() {
    for n in [0, 1, 3, 7] {
        let ranges = chunk_ranges(n);
        let total: usize = ranges.iter().map(|(lo, hi)| hi - lo).sum();
        assert_eq!(total, n, "n={n}: total {total}");
        for &(lo, hi) in &ranges {
            assert!(lo <= hi, "invalid range lo={lo} hi={hi} for n={n}");
        }
        assert_eq!(ranges[0].0, 0);
        assert_eq!(ranges[N_CHUNKS - 1].1, n);
    }
}

#[test]
fn chunk_ranges_exact_bounds() {
    let r = chunk_ranges(10);
    assert_eq!(r, [(0, 2), (2, 4), (4, 6), (6, 8), (8, 10), (10, 10), (10, 10), (10, 10)]);
}

fn state() -> TickState {
    TickState {
        tick: 9,
        peak_population: 5,
        peak_species_count: 2,
        live_species_count: 3,
        milestones_fired: 0,
        world_ended: false,
    }
}

#[test]
fn tick_bookkeeping_fires_each_milestone_once() {
    let th = [10u32, 100, 1000];
    let (s1, ev1) = tick_bookkeeping(state(), 150, &th);
    assert_eq!(s1.tick, 10);
    assert_eq!(s1.peak_population, 150);
    assert_eq!(s1.peak_species_count, 3);
    assert!(!s1.world_ended);
    assert_eq!(s1.milestones_fired, 0b011);
    let pops: Vec<u32> = ev1
        .iter()
        .map(|e| match e.kind {
            EventKind::PopulationMilestone { population } => population,
            _ => panic!("unexpected event"),
        })
        .collect();
    assert_eq!(pops, vec![10, 100]);
    assert!(ev1.iter().all(|e| e.tick == 10));
    let (s2, ev2) = tick_bookkeeping(s1, 120, &th);
    assert!(ev2.is_empty());
    assert_eq!(s2.peak_population, 150);
    assert_eq!(s2.milestones_fired, 0b011);
}

#[test]
fn tick_bookkeeping_ends_the_world_once() {
    let (s1, ev) = tick_bookkeeping(state(), 0, &[10]);
    assert!(s1.world_ended);
    assert_eq!(ev.len(), 1);
    match ev[0].kind {
        EventKind::WorldEnded { ticks_lived, peak_population, peak_species } => {
            assert_eq!((ticks_lived, peak_population, peak_species), (10, 5, 3));
        }
        _ => panic!("expected the end of the world"),
    }
    let (s2, ev2) = tick_bookkeeping(s1, 0, &[10]);
    assert_eq!(s2, s1);
    assert!(ev2.is_empty());
    let mut top = state();
    top.tick = u32::MAX;
    assert_eq!(tick_bookkeeping(top, 1, &[]).0.tick, u32::MAX);
}

#[test]
fn chunk_ranges_largest_length() {
    let n = usize::MAX - 7;
    let r = chunk_ranges(n);
    assert_eq!(r[0], (0, n / 8));
    assert_eq!(r[7].1, n);
    for k in 0..7 {
        assert_eq!(r[k].1, r[k + 1].0);
    }
}
