use evosim::bitset::{bitset_fill, bitset_get};
use evosim::classify::GRASS_FULL_FROM_BYTE;
use evosim::grass::{disc_offsets, GrassGrid, GrassPropagation, GRASS_FULL_BYTE, GRASS_TILE_SIZE, TILE_EMPTY, TILE_MIXED, TILE_SATURATED};
use evosim::pyramid::GrassPyramid;
use evosim::rng::SimRng;

const GRASS_GRID_DIM: usize = 240;
const GRASS_CELL_COUNT: usize = 240 * 240;

fn fresh_grid() -> GrassGrid {
    let mut rng = SimRng::from_u64(0);
    GrassGrid::new(&mut rng, 0, GRASS_GRID_DIM, false)
}

#[test]
fn row_bitset_tracks_density() {
    let mut g = fresh_grid();
    g.rebuild_row_bitset();
    for iy in 0..GRASS_GRID_DIM {
        assert!(!g.row_nonempty(iy), "row {iy} must be empty initially");
    }
    g.dset_u8(7 * GRASS_GRID_DIM + 5, 102);
    g.rebuild_row_bitset();
    assert!(g.row_nonempty(7), "row 7 must be flagged after seeding (5,7)");
    for iy in 0..GRASS_GRID_DIM {
        if iy != 7 {
            assert!(!g.row_nonempty(iy), "row {iy} must remain empty");
        }
    }
}

#[test]
fn density_length_invariant() {
    let mut rng = SimRng::from_u64(0);
    let g = GrassGrid::new(&mut rng, 8, GRASS_GRID_DIM, false);
    assert_eq!(g.density.len(), GRASS_CELL_COUNT, "density.len() must equal GRASS_CELL_COUNT");
}

#[test]
fn initial_seed_is_deterministic() {
    let mut rng1 = SimRng::from_u64(42);
    let g1 = GrassGrid::new(&mut rng1, 16, GRASS_GRID_DIM, false);
    let mut rng2 = SimRng::from_u64(42);
    let g2 = GrassGrid::new(&mut rng2, 16, GRASS_GRID_DIM, false);
    assert_eq!(g1.density_u8_snapshot(), g2.density_u8_snapshot());
    let max_count = (0..GRASS_CELL_COUNT).filter(|&c| g1.dget_u8(c) == GRASS_FULL_BYTE).count();
    assert!(max_count <= 16, "seeded cell count must be ≤ initial_seed_count; got {max_count}");
    assert!(max_count >= 1, "at least one cell must be seeded; got {max_count}");
}

#[test]
fn seed_bytes_follow_capacity() {
    let mut rng = SimRng::from_u64(9);
    let caps: Vec<u8> = (0..64 * 64).map(|c| if c % 2 == 0 { 77 } else { 10 }).collect();
    let full_from: Vec<u8> = caps.iter().map(|&b| if b == 77 { 76 } else { 10 }).collect();
    let g = GrassGrid::new_with_capacity(&mut rng, 50, 64, true, &caps, &full_from);
    for c in 0..64 * 64 {
        let b = g.dget_u8(c);
        assert!(b == 0 || b == caps[c]);
    }
    assert_eq!(g.propagation, GrassPropagation::Blur);
    assert_eq!(g.tiles_per_axis, 2);
}

#[test]
fn tile_of_cell_row_major_over_tiles() {
    let g = fresh_grid();
    assert_eq!(g.tiles_per_axis, GRASS_GRID_DIM.div_ceil(GRASS_TILE_SIZE));
    assert_eq!(g.tile_of_cell(0), 0);
    assert_eq!(g.tile_of_cell(31), 0);
    assert_eq!(g.tile_of_cell(32), 1);
    assert_eq!(g.tile_of_cell(32 * GRASS_GRID_DIM), g.tiles_per_axis);
    assert_eq!(g.tile_of_cell(GRASS_CELL_COUNT - 1), g.tiles_per_axis * g.tiles_per_axis - 1);
}

fn active(g: &GrassGrid, t: usize) -> bool {
    bitset_get(&g.tile_active, t)
}

fn dirty(g: &GrassGrid, slot: usize, t: usize) -> bool {
    bitset_get(&g.tile_dirty[slot], t)
}

#[test]
fn consume_marks_tile_and_fringe() {
    let mut g = fresh_grid();
    for t in 0..g.tiles_per_axis * g.tiles_per_axis {
        g.set_tile_class(t, TILE_EMPTY);
    }
    g.rebuild_active_from_class();
    let tpa = g.tiles_per_axis;
    let cell = 40 * GRASS_GRID_DIM + 40;
    let t = g.tile_of_cell(cell);
    assert_eq!(t, tpa + 1);
    g.mark_tile_active(cell);
    for ty in 0..tpa {
        for tx in 0..tpa {
            let j = ty * tpa + tx;
            let near = ty <= 2 && tx <= 2;
            assert_eq!(active(&g, j), near, "tile ({tx},{ty})");
            assert_eq!(dirty(&g, 0, j), near);
            assert_eq!(dirty(&g, 1, j), near);
        }
    }
}

#[test]
fn corner_fringe_wraps_on_torus() {
    let mut rng = SimRng::from_u64(0);
    let mut g = GrassGrid::new(&mut rng, 0, 128, true);
    let tpa = g.tiles_per_axis;
    assert_eq!(tpa, 4);
    g.rebuild_active_from_class();
    g.mark_tile_active(0);
    let expect = [0, 1, 3, 4, 5, 7, 12, 13, 15];
    for j in 0..tpa * tpa {
        assert_eq!(active(&g, j), expect.contains(&j), "tile {j}");
    }
}

#[test]
fn active_set_follows_classes() {
    let mut rng = SimRng::from_u64(0);
    let mut g = GrassGrid::new(&mut rng, 0, 128, false);
    let tpa = g.tiles_per_axis;
    for t in 0..tpa * tpa {
        g.set_tile_class(t, TILE_SATURATED);
    }
    g.set_tile_class(0, TILE_MIXED);
    g.rebuild_active_from_class();
    for j in 0..tpa * tpa {
        let expected = j == 0 || j == 1 || j == tpa || j == tpa + 1;
        assert_eq!(active(&g, j), expected, "tile {j}");
    }
    assert!(g.borders_different_class(1));
    assert!(!g.borders_different_class(tpa * tpa - 1));
}

#[test]
fn dirty_tile_quantize_matches_full() {
    let mut rng = SimRng::from_u64(11);
    let mut g = GrassGrid::new(&mut rng, 150, 96, false);
    let mut slot0 = vec![0u8; 96 * 96];
    g.quantize_dirty_tiles_into(&mut slot0, 0);
    assert_eq!(slot0, g.density_u8_snapshot(), "initial slot0 must be full+correct");
    for t in 0..g.tiles_per_axis * g.tiles_per_axis {
        assert!(!dirty(&g, 0, t));
        assert!(dirty(&g, 1, t));
    }
    for step in 0..30usize {
        let c = (step * 997) % (96 * 96);
        g.dset_u8(c, (step as u8).wrapping_mul(13));
        g.mark_tile_active(c);
        g.quantize_dirty_tiles_into(&mut slot0, 2);
        assert_eq!(slot0, g.density_u8_snapshot(), "dirty-tile slot0 diverged at step {step}");
    }
    let mut slot1 = vec![0u8; 96 * 96];
    g.quantize_dirty_tiles_into(&mut slot1, 1);
    assert_eq!(slot1, g.density_u8_snapshot());
}

#[test]
fn scatter_add_and_sub_clamp() {
    let mut g = fresh_grid();
    assert!(g.scatter_add(3, 200, 255));
    assert_eq!(g.dget_u8(3), 200);
    assert!(g.scatter_add(3, 200, 230));
    assert_eq!(g.dget_u8(3), 230);
    assert!(!g.scatter_add(3, 10, 230));
    assert!(g.scatter_add(3, 100, 255));
    assert_eq!(g.dget_u8(3), 255);
    assert!(g.scatter_sub(3, 55));
    assert_eq!(g.dget_u8(3), 200);
    assert!(g.scatter_sub(3, 250));
    assert_eq!(g.dget_u8(3), 0);
    assert!(!g.scatter_sub(3, 1));
}

#[test]
fn fill_density_sets_every_cell() {
    let mut g = fresh_grid();
    g.fill_density_u8(42);
    assert!(g.density_u8_snapshot().iter().all(|&b| b == 42));
    g.rebuild_row_bitset();
    assert!((0..GRASS_GRID_DIM).all(|iy| g.row_nonempty(iy)));
    assert!(!g.row_nonempty(GRASS_GRID_DIM + 100));
}

#[test]
fn pyramid_levels_halve_to_one() {
    let p = GrassPyramid::new(240);
    let dims: Vec<(usize, usize)> = (0..p.num_levels()).map(|k| p.level_dim(k)).collect();
    assert_eq!(
        dims,
        vec![(240, 240), (120, 120), (60, 60), (30, 30), (15, 15), (8, 8), (4, 4), (2, 2), (1, 1)]
    );
    let r = GrassPyramid::new_rect(5, 1);
    let dims: Vec<(usize, usize)> = (0..r.num_levels()).map(|k| r.level_dim(k)).collect();
    assert_eq!(dims, vec![(5, 1), (3, 1), (2, 1), (1, 1)]);
}

#[test]
fn pyramid_refresh_averages_parents() {
    let mut p = GrassPyramid::new_rect(3, 3);
    let base: Vec<u8> = vec![10, 20, 30, 40, 50, 60, 70, 80, 90];
    p.refresh(&base, &[], 0);
    // (10+20+40+50+2)/4 = 30; (30+60+1)/2 = 45; (70+80+1)/2 = 75; 90.
    assert_eq!(p.levels[0], vec![30, 45, 75, 90]);
    // (30+45+75+90+2)/4 = 60.
    assert_eq!(p.levels[1], vec![60]);
    assert_eq!(p.sample_clamped(&base, 0, 9, 9), 90);
    assert_eq!(p.sample_clamped(&base, 1, 1, 0), 45);
    assert_eq!(p.sample_clamped(&base, 2, 5, 5), 60);
    let mut win = vec![7u8; 10];
    p.viewport_window(&base, 1, 1, 0, 3, 3, &mut win);
    assert_eq!(win, vec![45, 45, 45, 90, 90, 90, 90, 90, 90, 7]);
}

#[test]
fn refresh_pyramid_from_grid() {
    let mut rng = SimRng::from_u64(5);
    let mut g = GrassGrid::new(&mut rng, 40, 16, false);
    g.refresh_pyramid();
    let top = g.pyramid.num_levels() - 1;
    assert_eq!(g.pyramid.level_dim(top), (1, 1));
    let d = g.density_u8_snapshot();
    let l1 = &g.pyramid.levels[0];
    for oy in 0..8 {
        for ox in 0..8 {
            let s: u32 = [(0, 0), (1, 0), (0, 1), (1, 1)]
                .iter()
                .map(|&(dx, dy)| d[(2 * oy + dy) * 16 + 2 * ox + dx] as u32)
                .sum();
            assert_eq!(l1[oy * 8 + ox] as u32, (s + 2) / 4);
        }
    }
}

#[test]
fn disc_offsets_radius_three() {
    let d = disc_offsets(3);
    // Ring 1: the 8 neighbours (d² ≤ 2).
    assert_eq!(d.band_end[0], 8);
    // Ring 2: d² in 3..=6 → (±2,0),(0,±2),(±2,±1),(±1,±2) = 12.
    assert_eq!(d.band_end[1] - d.band_end[0], 12);
    // Ring 3: d² in 7..=9 → (±2,±2),(±3,0),(0,±3) = 8.
    assert_eq!(d.band_end[2] - d.band_end[1], 8);
    assert_eq!(d.band_end[2], d.offsets.len());
    assert_eq!(d.offsets[0], (-1, -1));
    assert!(!d.offsets.contains(&(0, 0)));
    assert!(!d.offsets.contains(&(3, 1)));
    for &(dx, dy) in &d.offsets[..d.band_end[0]] {
        assert!(dx * dx + dy * dy <= 2);
    }
}

#[test]
fn disc_offsets_radius_clamped_to_one() {
    // Radius 1: only the four orthogonal neighbours lie within distance 1.
    let d = disc_offsets(0);
    assert_eq!(d.offsets, vec![(0, -1), (-1, 0), (1, 0), (0, 1)]);
    assert_eq!(d.band_end, [4, 4, 4]);
}

#[test]
fn seed_picks_fill_exactly_the_picked_cells() {
    let caps: Vec<u8> = (0..8 * 8).map(|c| (c % 7) as u8 + 1).collect();
    let g = GrassGrid::from_seed_picks(8, false, &caps, &caps, &[3, 3, 20, 63]);
    for c in 0..64 {
        let want = if c == 3 || c == 20 || c == 63 { caps[c] } else { 0 };
        assert_eq!(g.dget_u8(c), want, "cell {c}");
    }
    assert!(g.row_nonempty(0) && g.row_nonempty(2) && g.row_nonempty(7));
    assert!(!g.row_nonempty(1));
}

#[test]
fn bite_takes_at_most_what_is_there() {
    let caps = vec![255u8; 64 * 64];
    let mut g = GrassGrid::from_seed_picks(64, false, &caps, &caps, &[70]);
    bitset_fill(&mut g.tile_active, false);
    assert_eq!(g.consume_bytes(70, 100), 100);
    assert_eq!(g.dget_u8(70), 155);
    assert_eq!(g.tile_class[0], TILE_MIXED);
    assert!(bitset_get(&g.tile_active, 0) && bitset_get(&g.tile_active, 3));
    assert_eq!(g.consume_bytes(70, 200), 155);
    assert_eq!(g.dget_u8(70), 0);
    assert_eq!(g.consume_bytes(70, 5), 0);
    // A zero chunk still takes one byte.
    g.dset_u8(5, 3);
    assert_eq!(g.consume_bytes(5, 0), 1);
    assert_eq!(g.dget_u8(5), 2);
}

#[test]
fn class_pass_marks_processed_tiles_and_rebuilds_the_frontier() {
    let caps = vec![255u8; 64 * 64];
    let mut g = GrassGrid::from_seed_picks(64, false, &caps, &caps, &[]);
    bitset_fill(&mut g.tile_dirty[0], false);
    bitset_fill(&mut g.tile_dirty[1], false);
    bitset_fill(&mut g.tile_active, false);
    evosim::bitset::bitset_set(&mut g.tile_active, 3);
    g.finish_class_pass(&[0, 2], &[TILE_MIXED, TILE_SATURATED]);
    assert_eq!(g.tile_class, vec![TILE_MIXED, TILE_EMPTY, TILE_SATURATED, TILE_EMPTY]);
    assert!(bitset_get(&g.tile_dirty[0], 0) && bitset_get(&g.tile_dirty[1], 2));
    assert!(!bitset_get(&g.tile_dirty[0], 1) && !bitset_get(&g.tile_dirty[0], 3));
    // Every tile borders the frontier tile 0 or another class.
    for t in 0..4 {
        assert!(bitset_get(&g.tile_active, t));
    }
    assert!(bitset_get(&g.tile_active_next, 3) && !bitset_get(&g.tile_active_next, 0));
}

/// The cells of tile 0 of a grid `dim` cells wide.
fn tile0_cells(dim: usize) -> Vec<usize> {
    (0..32).flat_map(|y| (0..32).map(move |x| y * dim + x)).collect()
}

#[test]
fn seeded_tiles_start_active() {
    let mut rng = SimRng::from_u64(11);
    let g = GrassGrid::new(&mut rng, 150, 96, false);
    let tpa = g.tiles_per_axis;
    for t in 0..tpa * tpa {
        let seeded = (0..96 * 96).any(|c| g.tile_of_cell(c) == t && g.dget_u8(c) > 0);
        if seeded {
            // A few full cells among empty ones: a moving frontier.
            assert_eq!(g.tile_class[t], TILE_MIXED, "tile {t}");
            assert!(active(&g, t), "tile {t}");
        }
        assert!(dirty(&g, 0, t) && dirty(&g, 1, t));
        assert!(!bitset_get(&g.tile_active_next, t));
    }
}

#[test]
fn uniform_tiles_stay_inactive_unless_they_border_another_class() {
    let caps = vec![GRASS_FULL_BYTE; 64 * 64];
    let full_from = vec![GRASS_FULL_FROM_BYTE; 64 * 64];
    let g = GrassGrid::from_seed_picks(64, false, &caps, &full_from, &tile0_cells(64));
    assert_eq!(g.tile_class, vec![TILE_SATURATED, TILE_EMPTY, TILE_EMPTY, TILE_EMPTY]);
    // Every tile touches tile 0, whose class differs.
    for t in 0..4 {
        assert!(active(&g, t), "tile {t}");
    }
    let all: Vec<usize> = (0..64 * 64).collect();
    let full = GrassGrid::from_seed_picks(64, false, &caps, &full_from, &all);
    assert_eq!(full.tile_class, vec![TILE_SATURATED; 4]);
    assert!((0..4).all(|t| !active(&full, t)));
    let none = GrassGrid::from_seed_picks(64, false, &caps, &full_from, &[]);
    assert_eq!(none.tile_class, vec![TILE_EMPTY; 4]);
    assert!((0..4).all(|t| !active(&none, t)));
}

#[test]
fn one_quantum_counts_as_empty_and_full_follows_the_threshold() {
    // A single tile whose every cell holds one byte: still empty.
    let ones = vec![1u8; 32 * 32];
    let g = GrassGrid::from_seed_picks(32, false, &ones, &ones, &tile0_cells(32));
    assert_eq!(g.tile_class, vec![TILE_EMPTY]);
    assert!(!active(&g, 0));
    // Every cell at 9 with a full-from byte of 10 (a water cell): a frontier.
    let nines = vec![9u8; 32 * 32];
    let tens = vec![10u8; 32 * 32];
    let water = GrassGrid::from_seed_picks(32, false, &nines, &tens, &tile0_cells(32));
    assert_eq!(water.tile_class, vec![TILE_MIXED]);
    assert!(active(&water, 0));
    let sat = GrassGrid::from_seed_picks(32, false, &nines, &nines, &tile0_cells(32));
    assert_eq!(sat.tile_class, vec![TILE_SATURATED]);
    assert!(!active(&sat, 0));
}

#[test]
fn resync_reclassifies_after_a_wholesale_write() {
    let caps = vec![GRASS_FULL_BYTE; 64 * 64];
    let full_from = vec![GRASS_FULL_FROM_BYTE; 64 * 64];
    let mut g = GrassGrid::from_seed_picks(64, true, &caps, &full_from, &[]);
    g.fill_density_u8(GRASS_FULL_BYTE);
    g.dset_u8(40 * 64 + 40, 100);
    assert_eq!(g.classify_tile(3, &full_from), TILE_MIXED);
    assert_eq!(g.classify_tile(0, &full_from), TILE_SATURATED);
    g.resync_active_from_density(&full_from);
    assert_eq!(g.tile_class, vec![TILE_SATURATED, TILE_SATURATED, TILE_SATURATED, TILE_MIXED]);
    // On a torus of two tiles per axis every tile neighbours tile 3.
    for t in 0..4 {
        assert!(active(&g, t) && dirty(&g, 0, t) && dirty(&g, 1, t), "tile {t}");
    }
}
