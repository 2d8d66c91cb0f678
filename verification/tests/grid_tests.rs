use evosim::grid::{SpatialGrid, HASH_CELLS, HASH_DIM};

const HASH_CELL: f32 = 5.0;
const WORLD_SIZE: f32 = 600.0;

fn cell_of(x: f32, y: f32) -> usize {
    let ix = (x / HASH_CELL).floor() as i32;
    let iy = (y / HASH_CELL).floor() as i32;
    let ix = ix.clamp(0, HASH_DIM as i32 - 1) as usize;
    let iy = iy.clamp(0, HASH_DIM as i32 - 1) as usize;
    iy * HASH_DIM + ix
}

fn rebuild(g: &mut SpatialGrid, xs: &[f32], ys: &[f32]) {
    let cells: Vec<u32> = xs.iter().zip(ys).map(|(&x, &y)| cell_of(x, y) as u32).collect();
    g.rebuild(&cells);
}

fn in_radius(g: &SpatialGrid, x: f32, y: f32, radius: f32) -> Vec<usize> {
    let lo_x = ((x - radius) / HASH_CELL).floor() as i64;
    let hi_x = ((x + radius) / HASH_CELL).floor() as i64;
    let lo_y = ((y - radius) / HASH_CELL).floor() as i64;
    let hi_y = ((y + radius) / HASH_CELL).floor() as i64;
    g.members_in_box(lo_x, hi_x, lo_y, hi_y).into_iter().map(|i| i as usize).collect()
}

#[test]
fn cell_of_cache_matches_recompute() {
    let xs = vec![0.0, 4.9, 5.1, 100.0, 299.9, 595.0];
    let ys = vec![0.0, 4.9, 5.1, 200.0, 300.0, 595.0];
    let mut g = SpatialGrid::new();
    rebuild(&mut g, &xs, &ys);
    assert_eq!(g.cells().len(), xs.len(), "cells length must equal creature count");
    for k in 0..xs.len() {
        let expected = cell_of(xs[k], ys[k]);
        assert_eq!(g.cells()[k] as usize, expected);
    }
}

#[test]
fn rebuild_indexes_correctly() {
    let xs = vec![0.0, 4.9, 5.1, 595.0];
    let ys = vec![0.0, 4.9, 5.1, 595.0];
    let mut g = SpatialGrid::new();
    rebuild(&mut g, &xs, &ys);
    let found_idx0 = in_radius(&g, 0.0, 0.0, 1.0).iter().any(|&i| i == 0 || i == 1);
    assert!(found_idx0);
    let found_corner = in_radius(&g, 595.0, 595.0, 1.0).contains(&3);
    assert!(found_corner);
}

#[test]
fn radius_query_includes_all_within_box() {
    let xs = vec![100.0, 110.0, 120.0, 200.0];
    let ys = vec![100.0, 100.0, 100.0, 100.0];
    let mut g = SpatialGrid::new();
    rebuild(&mut g, &xs, &ys);
    let mut hits = in_radius(&g, 110.0, 100.0, 15.0);
    hits.sort();
    assert_eq!(hits, vec![0, 1, 2]);
}

#[test]
fn rebuild_twice_with_different_positions_is_correct() {
    let xs = vec![1.0, 2.0, 3.0];
    let ys = vec![1.0, 2.0, 3.0];
    let mut g = SpatialGrid::new();
    rebuild(&mut g, &xs, &ys);
    let xs2 = vec![590.0, 591.0, 592.0];
    let ys2 = vec![590.0, 591.0, 592.0];
    rebuild(&mut g, &xs2, &ys2);
    let near = in_radius(&g, 0.0, 0.0, 1.0);
    assert!(near.is_empty(), "near-origin cell should be empty after rebuild; got {near:?}");
    let mut far = in_radius(&g, 595.0, 595.0, 10.0);
    far.sort();
    assert_eq!(far, vec![0, 1, 2]);
}

#[test]
fn for_each_in_radius_no_seam_wrap() {
    let xs = vec![5.0, 595.0];
    let ys = vec![300.0, 300.0];
    let mut g = SpatialGrid::new();
    rebuild(&mut g, &xs, &ys);
    let found_b = in_radius(&g, 5.0, 300.0, 15.0).contains(&1);
    assert!(!found_b, "walled world: creature at x=595 must NOT be found by query at x=5 r=15");
}

#[test]
fn for_each_in_radius_edge_query_no_panic() {
    let xs = vec![1.0, 599.0];
    let ys = vec![300.0, 300.0];
    let mut g = SpatialGrid::new();
    rebuild(&mut g, &xs, &ys);
    let hits = in_radius(&g, 1.0, 300.0, 8.0);
    assert!(hits.contains(&0), "creature at x=1 must be found near left edge");
    let hits2 = in_radius(&g, 599.0, 300.0, 8.0);
    assert!(hits2.contains(&1), "creature at x=599 must be found near right edge");
}

#[test]
fn cell_of_clamps_to_grid() {
    assert_eq!(cell_of(-1.0, 0.0), 0);
    assert_eq!(cell_of(WORLD_SIZE, 0.0), HASH_DIM - 1);
    assert_eq!(cell_of(0.0, WORLD_SIZE), (HASH_DIM - 1) * HASH_DIM);
}

#[test]
fn cell_members_are_ascending_and_exact() {
    let mut g = SpatialGrid::new();
    let cells: Vec<u32> = vec![7, 3, 7, 0, 7, 3];
    g.rebuild(&cells);
    assert_eq!(g.cell_members(7), &[0u32, 2, 4][..]);
    assert_eq!(g.cell_members(3), &[1u32, 5][..]);
    assert_eq!(g.cell_members(0), &[3u32][..]);
    assert!(g.cell_members(1).is_empty());
    assert!(g.cell_members(HASH_CELLS - 1).is_empty());
    assert_eq!(g.members_in_box(0, 7, 0, 0), vec![3, 1, 5, 0, 2, 4]);
    assert!(g.members_in_box(-5, -1, 0, 10).is_empty());
    assert!(g.members_in_box(200, 300, 0, 10).is_empty());
}

#[test]
fn default_grid_is_empty() {
    let g = SpatialGrid::default();
    assert!(g.cells().is_empty());
    assert!(g.members_in_box(0, 119, 0, 119).is_empty());
}
