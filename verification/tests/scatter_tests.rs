use evosim::bitset::{bitset_fill, bitset_get, bitset_set};
use evosim::grass::GrassGrid;
use evosim::scatter::ScatterRoll;

const DIM: usize = 64;
const QUIET: ScatterRoll = ScatterRoll { decay: false, spread: None };

/// A grid with the given cells seeded, only the given tiles active, and no
/// tile dirty.
fn grid(wrap: bool, caps: &[u8], picks: &[usize], active: &[usize]) -> GrassGrid {
    let mut g = GrassGrid::from_seed_picks(DIM, wrap, caps, caps, picks);
    bitset_fill(&mut g.tile_active, false);
    for &t in active {
        bitset_set(&mut g.tile_active, t);
    }
    bitset_fill(&mut g.tile_dirty[0], false);
    bitset_fill(&mut g.tile_dirty[1], false);
    g
}

/// Quiet rolls for every active tile, with `set` overriding cell rolls.
fn rolls(g: &GrassGrid, set: &[(usize, ScatterRoll)]) -> Vec<Vec<ScatterRoll>> {
    g.active_tiles()
        .iter()
        .map(|&t| {
            let (x0, y0, w, h) = g.tile_extent(t);
            (0..w * h)
                .map(|k| {
                    let c = (y0 + k / w) * DIM + x0 + k % w;
                    set.iter().find(|(cell, _)| *cell == c).map(|(_, r)| *r).unwrap_or(QUIET)
                })
                .collect()
        })
        .collect()
}

fn active(g: &GrassGrid) -> Vec<usize> {
    (0..4).filter(|&t| bitset_get(&g.tile_active, t)).collect()
}

#[test]
fn decay_and_spread_inside_one_tile() {
    let caps = vec![200u8; DIM * DIM];
    let src = 10 * DIM + 10;
    let mut g = grid(false, &caps, &[src], &[0]);
    let r = rolls(&g, &[(src, ScatterRoll { decay: true, spread: Some((1, 0)) })]);
    g.scatter_pass(&r, &caps, 20, 51);
    assert_eq!(g.dget_u8(src), 180);
    // (51 · 200 + 127) / 255 = 40.
    assert_eq!(g.dget_u8(src + 1), 40);
    // Tile 0 had grass: it and all its neighbours are active next.
    assert_eq!(active(&g), vec![0, 1, 2, 3]);
    assert!(bitset_get(&g.tile_dirty[0], 0) && !bitset_get(&g.tile_dirty[0], 1));
}

#[test]
fn spread_into_a_neighbour_tile_marks_it() {
    let caps = vec![255u8; DIM * DIM];
    let src = 5 * DIM + 31;
    let mut g = grid(false, &caps, &[src], &[0, 3]);
    let r = rolls(&g, &[(src, ScatterRoll { decay: false, spread: Some((1, 0)) })]);
    g.scatter_pass(&r, &caps, 20, 255);
    assert_eq!(g.dget_u8(src + 1), 255);
    assert!(bitset_get(&g.tile_dirty[0], 1) && bitset_get(&g.tile_dirty[1], 1));
    // Tile 3 was active but empty and untouched: it drops out unless a
    // neighbour with grass keeps it.
    assert!(!bitset_get(&g.tile_dirty[0], 3));
    assert!(bitset_get(&g.tile_active, 3));
}

#[test]
fn spread_wraps_on_a_torus_and_stops_at_walls() {
    let caps = vec![255u8; DIM * DIM];
    let roll = ScatterRoll { decay: false, spread: Some((-1, -1)) };
    let mut torus = grid(true, &caps, &[0], &[0]);
    let r = rolls(&torus, &[(0, roll)]);
    torus.scatter_pass(&r, &caps, 0, 100);
    assert_eq!(torus.dget_u8(DIM * DIM - 1), 100);
    assert!(bitset_get(&torus.tile_dirty[0], 3));
    let mut walled = grid(false, &caps, &[0], &[0]);
    let r = rolls(&walled, &[(0, roll)]);
    walled.scatter_pass(&r, &caps, 0, 100);
    assert_eq!(walled.dget_u8(DIM * DIM - 1), 0);
    assert_eq!(active(&walled), vec![0, 1, 2, 3]);
}

#[test]
fn spread_is_capped_and_zero_caps_take_nothing() {
    let mut caps = vec![255u8; DIM * DIM];
    caps[2] = 30;
    caps[DIM] = 0;
    let mut g = grid(false, &caps, &[1], &[0]);
    let r = rolls(&g, &[(1, ScatterRoll { decay: false, spread: Some((1, 0)) })]);
    g.scatter_pass(&r, &caps, 0, 255);
    assert_eq!(g.dget_u8(2), 30);
    let mut g = grid(false, &caps, &[0], &[0]);
    let r = rolls(&g, &[(0, ScatterRoll { decay: false, spread: Some((0, 1)) })]);
    g.scatter_pass(&r, &caps, 0, 255);
    assert_eq!(g.dget_u8(DIM), 0);
}

#[test]
fn sources_read_the_frozen_tile() {
    // Cell 1 receives from cell 0 and itself spreads; its share is computed
    // from its byte when the tile began (0), so it pushes nothing.
    let caps = vec![255u8; DIM * DIM];
    let mut g = grid(false, &caps, &[0], &[0]);
    let spread_right = ScatterRoll { decay: false, spread: Some((1, 0)) };
    let r = rolls(&g, &[(0, spread_right), (1, spread_right)]);
    g.scatter_pass(&r, &caps, 0, 255);
    assert_eq!(g.dget_u8(1), 255);
    assert_eq!(g.dget_u8(2), 0);
}

#[test]
fn empty_inactive_tiles_stay_asleep() {
    let caps = vec![255u8; DIM * DIM];
    let mut g = grid(false, &caps, &[], &[2]);
    let r = rolls(&g, &[]);
    g.scatter_pass(&r, &caps, 10, 10);
    assert!(active(&g).is_empty());
    assert!(g.density_u8_snapshot().iter().all(|&b| b == 0));
}

#[test]
fn tiles_with_grass_stay_active_over_many_passes() {
    let caps: Vec<u8> = (0..DIM * DIM).map(|c| if c % 5 == 0 { 0 } else { 200 }).collect();
    let mut g = grid(true, &caps, &[33, 34, 35, 2000, 4000], &[0, 1, 3]);
    // Make the start state consistent: every tile with grass is active.
    for c in 0..DIM * DIM {
        if g.dget_u8(c) > 0 {
            let t = g.tile_of_cell(c);
            bitset_set(&mut g.tile_active, t);
        }
    }
    let offsets = [(1, 0), (-1, 2), (0, -3), (2, 2), (-2, -1)];
    for pass in 0..12u64 {
        let active_now = g.active_tiles();
        let rolls: Vec<Vec<ScatterRoll>> = active_now
            .iter()
            .map(|&t| {
                let (_, _, w, h) = g.tile_extent(t);
                (0..w * h)
                    .map(|k| {
                        let z = (k as u64 * 2654435761 + pass * 97 + t as u64 * 13) % 11;
                        ScatterRoll { decay: z == 0, spread: if z < 6 { Some(offsets[z as usize % 5]) } else { None } }
                    })
                    .collect()
            })
            .collect();
        g.scatter_pass(&rolls, &caps, 3, 60);
        for c in 0..DIM * DIM {
            assert!(g.dget_u8(c) <= caps[c], "cell {c} above its cap");
            if g.dget_u8(c) > 0 {
                assert!(bitset_get(&g.tile_active, g.tile_of_cell(c)), "tile of cell {c} asleep");
            }
        }
    }
    assert!(g.density_u8_snapshot().iter().any(|&b| b > 0));
}
