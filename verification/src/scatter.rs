//! One pass of the byte scatter kernel over the active tiles: every cell
//! holding grass may lose `decay_byte` and may push a share of its grass to
//! one target cell, capped at the target's carrying byte. Tiles that hold
//! grass or were written stay active with their neighbours; tiles written
//! from outside become active; every written tile is dirty for both
//! snapshot slots.
//!
//! The dice are rolled outside (they are float comparisons of hashed draws):
//! the pass takes, for each active tile, one [`ScatterRoll`] per cell.

use vstd::prelude::*;
use crate::bitset::{bit_of, bitset_fill, bitset_get, bitset_set};
use crate::grass::{
    fringe_tile, in_fringe, lemma_cell_tile_bounds, lemma_div_ceil_bounds, step_coord, step_coord_exec,
    tile_of, GrassGrid, GRASS_TILE_SIZE,
};

verus! {

/// What the dice decided for one cell: whether it decays, and the offset of
/// the cell it spreads to (when the spread roll fired and the offset table
/// gave a target).
#[derive(Clone, Copy, Debug, PartialEq, Eq)]
pub struct ScatterRoll {
    pub decay: bool,
    pub spread: Option<(i32, i32)>,
}

/// The fixed inputs of a pass.
pub struct ScatterCfg {
    pub dim: int,
    pub tpa: int,
    pub wrap: bool,
    pub decay_byte: u8,
    pub spread_byte: u8,
    /// Carrying byte of each cell.
    pub cap: Seq<u8>,
}

/// State while a tile is processed: the field, the tiles marked active and
/// dirty so far, whether the tile itself was written, whether it had grass.
pub struct TileRun {
    pub density: Seq<u8>,
    pub marked: Set<int>,
    pub touched: bool,
    pub grass: bool,
}

/// State between tiles: the field, the tiles marked active and dirty, and
/// the tiles marked active only (the neighbours of tiles with grass).
pub struct ScatterState {
    pub density: Seq<u8>,
    pub marked: Set<int>,
    pub fringe: Set<int>,
}

/// First column of tile `t`.
pub open spec fn tile_x0(tpa: int, t: int) -> int {
    (t % tpa) * GRASS_TILE_SIZE as int
}

/// First row of tile `t`.
pub open spec fn tile_y0(tpa: int, t: int) -> int {
    (t / tpa) * GRASS_TILE_SIZE as int
}

/// Width of tile `t` (edge tiles are cut at the grid's edge).
pub open spec fn tile_w(dim: int, tpa: int, t: int) -> int {
    if tile_x0(tpa, t) + GRASS_TILE_SIZE as int <= dim {
        GRASS_TILE_SIZE as int
    } else {
        dim - tile_x0(tpa, t)
    }
}

/// Height of tile `t`.
pub open spec fn tile_h(dim: int, tpa: int, t: int) -> int {
    if tile_y0(tpa, t) + GRASS_TILE_SIZE as int <= dim {
        GRASS_TILE_SIZE as int
    } else {
        dim - tile_y0(tpa, t)
    }
}

/// `cur - b`, floored at 0.
pub open spec fn byte_sub(cur: u8, b: u8) -> u8 {
    if cur > b {
        (cur - b) as u8
    } else {
        0
    }
}

/// `cur + add`, saturating at 255, then capped at `cap`.
pub open spec fn byte_add_capped(cur: u8, add: u8, cap: u8) -> u8 {
    let sum = if cur + add > 255 { 255 } else { cur + add };
    if sum < cap {
        sum as u8
    } else {
        cap
    }
}

/// The byte a source holding `s` pushes: `spread_byte · s / 255`, rounded,
/// at least 1.
pub open spec fn spread_amount(spread_byte: u8, s: u8) -> u8 {
    let a = (spread_byte * s + 127) / 255;
    if a < 1 {
        1
    } else {
        a as u8
    }
}

/// The decay roll of cell `c`: it loses `decay_byte` (floored at 0).
pub open spec fn decay_step(cfg: ScatterCfg, run: TileRun, c: int, roll: ScatterRoll) -> TileRun {
    if cfg.decay_byte > 0 && roll.decay {
        let nb = byte_sub(run.density[c], cfg.decay_byte);
        TileRun { density: run.density.update(c, nb), touched: run.touched || nb != run.density[c], ..run }
    } else {
        run
    }
}

/// The spread roll of source cell `(ix, iy)` holding `s`: its target, if it
/// lies on the grid and can carry grass, gains the source's share (capped);
/// a change marks the target's tile (or records that tile `t` was written).
pub open spec fn spread_step(cfg: ScatterCfg, t: int, run: TileRun, s: u8, ix: int, iy: int, roll: ScatterRoll) -> TileRun {
    if cfg.spread_byte > 0 && roll.spread is Some {
        let (dx, dy) = roll.spread.unwrap();
        match (step_coord(ix, dx as int, cfg.dim, cfg.wrap), step_coord(iy, dy as int, cfg.dim, cfg.wrap)) {
            (Some(gx), Some(gy)) => {
                let tc = gy * cfg.dim + gx;
                let cap = cfg.cap[tc];
                let cur = run.density[tc];
                let nb = byte_add_capped(cur, spread_amount(cfg.spread_byte, s), cap);
                if cap > 0 && nb != cur {
                    let tt = tile_of(cfg.dim, cfg.tpa, tc);
                    if tt == t {
                        TileRun { density: run.density.update(tc, nb), touched: true, ..run }
                    } else {
                        TileRun { density: run.density.update(tc, nb), marked: run.marked.insert(tt), ..run }
                    }
                } else {
                    run
                }
            },
            _ => run,
        }
    } else {
        run
    }
}

/// The effect of the source cell `(ix, iy)`, holding `s` when the tile was
/// frozen, with its roll: nothing for an empty source; otherwise the tile
/// has grass, then the decay roll, then the spread roll.
pub open spec fn cell_step(cfg: ScatterCfg, t: int, run: TileRun, s: u8, ix: int, iy: int, roll: ScatterRoll) -> TileRun {
    if s == 0 {
        run
    } else {
        let r1 = TileRun { grass: true, ..run };
        spread_step(cfg, t, decay_step(cfg, r1, iy * cfg.dim + ix, roll), s, ix, iy, roll)
    }
}

/// The first `k` cells of tile `t` processed in row-major order, each
/// reading its source byte from the field `d0` frozen at the tile's start.
pub open spec fn tile_run(cfg: ScatterCfg, t: int, d0: Seq<u8>, start: TileRun, rolls: Seq<ScatterRoll>, k: int) -> TileRun
    decreases k,
{
    if k <= 0 {
        start
    } else {
        let prev = tile_run(cfg, t, d0, start, rolls, k - 1);
        let w = tile_w(cfg.dim, cfg.tpa, t);
        let ix = tile_x0(cfg.tpa, t) + (k - 1) % w;
        let iy = tile_y0(cfg.tpa, t) + (k - 1) / w;
        cell_step(cfg, t, prev, d0[iy * cfg.dim + ix], ix, iy, rolls[k - 1])
    }
}

/// The effect of processing tile `t` with its rolls: every cell in turn,
/// then the tile marked if it had grass or was written, and its neighbours
/// (itself included) marked active if it had grass.
pub open spec fn tile_effect(cfg: ScatterCfg, st: ScatterState, t: int, rolls: Seq<ScatterRoll>) -> ScatterState {
    let n = tile_w(cfg.dim, cfg.tpa, t) * tile_h(cfg.dim, cfg.tpa, t);
    let start = TileRun { density: st.density, marked: st.marked, touched: false, grass: false };
    let r = tile_run(cfg, t, st.density, start, rolls, n);
    ScatterState {
        density: r.density,
        marked: if r.touched || r.grass { r.marked.insert(t) } else { r.marked },
        fringe: if r.grass { st.fringe.union(Set::new(|j: int| in_fringe(cfg.tpa, cfg.wrap, t, j))) } else { st.fringe },
    }
}

/// The active tiles among the first `n`, ascending.
pub open spec fn active_upto(bits: Seq<u64>, n: int) -> Seq<usize>
    decreases n,
{
    if n <= 0 {
        Seq::empty()
    } else if bit_of(bits, n - 1) {
        active_upto(bits, n - 1).push((n - 1) as usize)
    } else {
        active_upto(bits, n - 1)
    }
}

/// The listed tiles are exactly the set bits below `n`, strictly ascending.
pub proof fn lemma_active_upto(bits: Seq<u64>, n: int)
    requires
        0 <= n <= usize::MAX,
    ensures
        forall|i: int| 0 <= i < active_upto(bits, n).len() ==> #[trigger] active_upto(bits, n)[i] < n,
        forall|i: int, j: int| 0 <= i < j < active_upto(bits, n).len() ==> active_upto(bits, n)[i] < active_upto(bits, n)[j],
        forall|t: int| 0 <= t < n ==> (active_upto(bits, n).contains(t as usize) <==> bit_of(bits, t)),
        active_upto(bits, n).len() <= n,
    decreases n,
{
    if n > 0 {
        lemma_active_upto(bits, n - 1);
        let prev = active_upto(bits, n - 1);
        let cur = active_upto(bits, n);
        assert forall|t: int| 0 <= t < n implies (cur.contains(t as usize) <==> bit_of(bits, t)) by {
            if t < n - 1 {
                if bit_of(bits, n - 1) {
                    if cur.contains(t as usize) {
                        let w = choose|w: int| 0 <= w < cur.len() && cur[w] == t as usize;
                        if w < prev.len() {
                            assert(prev[w] == t as usize);
                        }
                    }
                    if prev.contains(t as usize) {
                        let w = choose|w: int| 0 <= w < prev.len() && prev[w] == t as usize;
                        assert(cur[w] == t as usize);
                    }
                }
            } else {
                if bit_of(bits, n - 1) {
                    assert(cur[cur.len() - 1] == t as usize);
                } else if cur.contains(t as usize) {
                    let w = choose|w: int| 0 <= w < cur.len() && cur[w] == t as usize;
                    assert(prev[w] < n - 1);
                }
            }
        }
    }
}

/// The first `i` listed tiles processed in order.
pub open spec fn pass_upto(cfg: ScatterCfg, st: ScatterState, tiles: Seq<usize>, rolls: Seq<Seq<ScatterRoll>>, i: int) -> ScatterState
    decreases i,
{
    if i <= 0 {
        st
    } else {
        tile_effect(cfg, pass_upto(cfg, st, tiles, rolls, i - 1), tiles[i - 1] as int, rolls[i - 1])
    }
}

/// Every cell holds at most its carrying byte.
pub open spec fn within_caps(density: Seq<u8>, cap: Seq<u8>) -> bool {
    &&& density.len() == cap.len()
    &&& forall|c: int| 0 <= c < density.len() ==> #[trigger] density[c] <= cap[c]
}

/// The inputs describe a `dim × dim` grid with its tile grid.
pub open spec fn cfg_ok(cfg: ScatterCfg) -> bool {
    &&& cfg.dim > 0
    &&& cfg.tpa == (cfg.dim + GRASS_TILE_SIZE as int - 1) / GRASS_TILE_SIZE as int
    &&& cfg.cap.len() == cfg.dim * cfg.dim
}

proof fn lemma_step_coord_range(v: int, off: int, n: int, wrap: bool)
    requires
        n > 0,
    ensures
        step_coord(v, off, n, wrap) matches Some(u) ==> 0 <= u < n,
{
    if wrap {
        vstd::arithmetic::div_mod::lemma_mod_bound(v + off, n);
    }
}

proof fn lemma_tile_extent(dim: int, tpa: int, t: int)
    requires
        dim > 0,
        tpa == (dim + GRASS_TILE_SIZE as int - 1) / GRASS_TILE_SIZE as int,
        0 <= t < tpa * tpa,
    ensures
        0 < tile_w(dim, tpa, t) <= GRASS_TILE_SIZE,
        0 < tile_h(dim, tpa, t) <= GRASS_TILE_SIZE,
        tile_x0(tpa, t) >= 0,
        tile_y0(tpa, t) >= 0,
        tile_x0(tpa, t) + tile_w(dim, tpa, t) <= dim,
        tile_y0(tpa, t) + tile_h(dim, tpa, t) <= dim,
{
    assert(tpa * 32 <= dim + 31) by (nonlinear_arith)
        requires
            tpa == (dim + 31) / 32,
            dim > 0,
    ;
    assert(tpa > 0) by (nonlinear_arith)
        requires
            tpa == (dim + 31) / 32,
            dim > 0,
    ;
    let tx = t % tpa;
    let ty = t / tpa;
    assert(0 <= ty < tpa) by (nonlinear_arith)
        requires
            0 <= t < tpa * tpa,
            ty == t / tpa,
            tpa > 0,
    ;
    assert(0 <= tx < tpa) by (nonlinear_arith)
        requires
            tx == t % tpa,
            tpa > 0,
    ;
    assert(tx * 32 < dim && ty * 32 < dim) by (nonlinear_arith)
        requires
            0 <= tx < tpa,
            0 <= ty < tpa,
            tpa * 32 <= dim + 31,
    ;
    assert(tx * 32 >= 0 && ty * 32 >= 0) by (nonlinear_arith)
        requires
            tx >= 0,
            ty >= 0,
    ;
}

proof fn lemma_cell_step_within_caps(cfg: ScatterCfg, t: int, run: TileRun, s: u8, ix: int, iy: int, roll: ScatterRoll)
    requires
        cfg_ok(cfg),
        within_caps(run.density, cfg.cap),
        0 <= ix < cfg.dim,
        0 <= iy < cfg.dim,
    ensures
        within_caps(cell_step(cfg, t, run, s, ix, iy, roll).density, cfg.cap),
{
    if s != 0 {
        let dim = cfg.dim;
        let c = iy * dim + ix;
        assert(0 <= c < dim * dim) by (nonlinear_arith)
            requires
                0 <= ix < dim,
                0 <= iy < dim,
                c == iy * dim + ix,
        ;
        let r1 = TileRun { grass: true, ..run };
        let r2 = decay_step(cfg, r1, c, roll);
        assert(within_caps(r2.density, cfg.cap));
        if cfg.spread_byte > 0 && roll.spread is Some {
            let (dx, dy) = roll.spread.unwrap();
            lemma_step_coord_range(ix, dx as int, dim, cfg.wrap);
            lemma_step_coord_range(iy, dy as int, dim, cfg.wrap);
            match (step_coord(ix, dx as int, dim, cfg.wrap), step_coord(iy, dy as int, dim, cfg.wrap)) {
                (Some(gx), Some(gy)) => {
                    assert(0 <= gy * dim + gx < dim * dim) by (nonlinear_arith)
                        requires
                            0 <= gx < dim,
                            0 <= gy < dim,
                    ;
                },
                _ => {},
            }
        }
    }
}

proof fn lemma_tile_run_within_caps(cfg: ScatterCfg, t: int, d0: Seq<u8>, start: TileRun, rolls: Seq<ScatterRoll>, k: int)
    requires
        cfg_ok(cfg),
        0 <= t < cfg.tpa * cfg.tpa,
        within_caps(start.density, cfg.cap),
        0 <= k <= tile_w(cfg.dim, cfg.tpa, t) * tile_h(cfg.dim, cfg.tpa, t),
    ensures
        within_caps(tile_run(cfg, t, d0, start, rolls, k).density, cfg.cap),
    decreases k,
{
    if k > 0 {
        lemma_tile_run_within_caps(cfg, t, d0, start, rolls, k - 1);
        lemma_tile_extent(cfg.dim, cfg.tpa, t);
        let w = tile_w(cfg.dim, cfg.tpa, t);
        let h = tile_h(cfg.dim, cfg.tpa, t);
        assert(0 <= (k - 1) / w < h && 0 <= (k - 1) % w < w) by (nonlinear_arith)
            requires
                0 <= k - 1 < w * h,
                w > 0,
        ;
        let ix = tile_x0(cfg.tpa, t) + (k - 1) % w;
        let iy = tile_y0(cfg.tpa, t) + (k - 1) / w;
        lemma_cell_step_within_caps(cfg, t, tile_run(cfg, t, d0, start, rolls, k - 1), d0[iy * cfg.dim + ix], ix, iy, rolls[k - 1]);
    }
}

/// A scatter pass keeps every cell within its carrying byte: decay only
/// lowers a cell, and a spread target is capped at its own carrying byte.
pub proof fn lemma_pass_within_caps(cfg: ScatterCfg, st: ScatterState, tiles: Seq<usize>, rolls: Seq<Seq<ScatterRoll>>, i: int)
    requires
        cfg_ok(cfg),
        within_caps(st.density, cfg.cap),
        0 <= i <= tiles.len(),
        forall|m: int| 0 <= m < tiles.len() ==> #[trigger] tiles[m] < cfg.tpa * cfg.tpa,
    ensures
        within_caps(pass_upto(cfg, st, tiles, rolls, i).density, cfg.cap),
    decreases i,
{
    if i > 0 {
        lemma_pass_within_caps(cfg, st, tiles, rolls, i - 1);
        let prev = pass_upto(cfg, st, tiles, rolls, i - 1);
        let t = tiles[i - 1] as int;
        lemma_tile_extent(cfg.dim, cfg.tpa, t);
        let w = tile_w(cfg.dim, cfg.tpa, t);
        let h = tile_h(cfg.dim, cfg.tpa, t);
        assert(w * h >= 0) by (nonlinear_arith)
            requires
                w > 0,
                h > 0,
        ;
        let start = TileRun { density: prev.density, marked: prev.marked, touched: false, grass: false };
        lemma_tile_run_within_caps(cfg, t, prev.density, start, rolls[i - 1], w * h);
    }
}

/// Every cell with grass lies in a marked tile, or in tile `t` after `t`
/// was written, or had grass when tile `t` began (in `d0`).
pub open spec fn grass_covered(cfg: ScatterCfg, t: int, d0: Seq<u8>, run: TileRun) -> bool {
    forall|c: int| 0 <= c < cfg.dim * cfg.dim && #[trigger] run.density[c] > 0 ==> {
        ||| run.marked.contains(tile_of(cfg.dim, cfg.tpa, c))
        ||| (tile_of(cfg.dim, cfg.tpa, c) == t && run.touched)
        ||| d0[c] > 0
    }
}

/// Every tile holding grass has its bit set in `active`.
pub open spec fn grass_tiles_active(dim: int, tpa: int, density: Seq<u8>, active: Seq<u64>) -> bool {
    forall|c: int| 0 <= c < dim * dim && #[trigger] density[c] > 0 ==> bit_of(active, tile_of(dim, tpa, c))
}

/// The cell at position `k` (row-major) of tile `t`.
pub open spec fn tile_cell(cfg: ScatterCfg, t: int, k: int) -> int {
    let w = tile_w(cfg.dim, cfg.tpa, t);
    (tile_y0(cfg.tpa, t) + k / w) * cfg.dim + tile_x0(cfg.tpa, t) + k % w
}

proof fn lemma_cell_step_covered(cfg: ScatterCfg, t: int, d0: Seq<u8>, run: TileRun, s: u8, ix: int, iy: int, roll: ScatterRoll)
    requires
        cfg_ok(cfg),
        run.density.len() == cfg.dim * cfg.dim,
        grass_covered(cfg, t, d0, run),
        0 <= ix < cfg.dim,
        0 <= iy < cfg.dim,
        tile_of(cfg.dim, cfg.tpa, iy * cfg.dim + ix) == t,
    ensures
        ({
            let r = cell_step(cfg, t, run, s, ix, iy, roll);
            &&& r.density.len() == cfg.dim * cfg.dim
            &&& grass_covered(cfg, t, d0, r)
            &&& run.marked.subset_of(r.marked)
            &&& (run.grass || s > 0) ==> r.grass
        }),
{
    if s != 0 {
        let dim = cfg.dim;
        let c0 = iy * dim + ix;
        assert(0 <= c0 < dim * dim) by (nonlinear_arith)
            requires
                0 <= ix < dim,
                0 <= iy < dim,
                c0 == iy * dim + ix,
        ;
        let r1 = TileRun { grass: true, ..run };
        let r2 = decay_step(cfg, r1, c0, roll);
        assert(grass_covered(cfg, t, d0, r2)) by {
            assert forall|c: int| 0 <= c < dim * dim && #[trigger] r2.density[c] > 0 implies {
                ||| r2.marked.contains(tile_of(dim, cfg.tpa, c))
                ||| (tile_of(dim, cfg.tpa, c) == t && r2.touched)
                ||| d0[c] > 0
            } by {
                if c != c0 || !(cfg.decay_byte > 0 && roll.decay) {
                    assert(r2.density[c] == run.density[c]);
                } else if r2.density[c] == run.density[c] {
                } else {
                    assert(r2.touched);
                }
            }
        }
        if cfg.spread_byte > 0 && roll.spread is Some {
            let (dx, dy) = roll.spread.unwrap();
            lemma_step_coord_range(ix, dx as int, dim, cfg.wrap);
            lemma_step_coord_range(iy, dy as int, dim, cfg.wrap);
            match (step_coord(ix, dx as int, dim, cfg.wrap), step_coord(iy, dy as int, dim, cfg.wrap)) {
                (Some(gx), Some(gy)) => {
                    assert(0 <= gy * dim + gx < dim * dim) by (nonlinear_arith)
                        requires
                            0 <= gx < dim,
                            0 <= gy < dim,
                    ;
                    let r = cell_step(cfg, t, run, s, ix, iy, roll);
                    let tc = gy * dim + gx;
                    assert forall|c: int| 0 <= c < dim * dim && #[trigger] r.density[c] > 0 implies {
                        ||| r.marked.contains(tile_of(dim, cfg.tpa, c))
                        ||| (tile_of(dim, cfg.tpa, c) == t && r.touched)
                        ||| d0[c] > 0
                    } by {
                        if r.density[c] == r2.density[c] {
                            assert(r2.density[c] > 0);
                        }
                    }
                },
                _ => {},
            }
        }
    }
}

proof fn lemma_tile_cell_in_tile(cfg: ScatterCfg, t: int, k: int)
    requires
        cfg_ok(cfg),
        0 <= t < cfg.tpa * cfg.tpa,
        0 <= k < tile_w(cfg.dim, cfg.tpa, t) * tile_h(cfg.dim, cfg.tpa, t),
    ensures
        0 <= tile_cell(cfg, t, k) < cfg.dim * cfg.dim,
        tile_of(cfg.dim, cfg.tpa, tile_cell(cfg, t, k)) == t,
        tile_cell(cfg, t, k) / cfg.dim == tile_y0(cfg.tpa, t) + k / tile_w(cfg.dim, cfg.tpa, t),
        tile_cell(cfg, t, k) % cfg.dim == tile_x0(cfg.tpa, t) + k % tile_w(cfg.dim, cfg.tpa, t),
{
    lemma_tile_extent(cfg.dim, cfg.tpa, t);
    let dim = cfg.dim;
    let w = tile_w(dim, cfg.tpa, t);
    let h = tile_h(dim, cfg.tpa, t);
    let x0 = tile_x0(cfg.tpa, t);
    let y0 = tile_y0(cfg.tpa, t);
    assert(0 <= k / w < h && 0 <= k % w < w) by (nonlinear_arith)
        requires
            0 <= k < w * h,
            w > 0,
    ;
    let ix = x0 + k % w;
    let iy = y0 + k / w;
    let c = iy * dim + ix;
    assert(0 <= c < dim * dim) by (nonlinear_arith)
        requires
            0 <= ix < dim,
            0 <= iy < dim,
            c == iy * dim + ix,
    ;
    vstd::arithmetic::div_mod::lemma_fundamental_div_mod_converse(c, dim, iy, ix);
    assert(cfg.tpa * 32 >= dim) by (nonlinear_arith)
        requires
            cfg.tpa == (dim + 31) / 32,
            dim > 0,
    ;
    assert(cfg.tpa > 0);
    crate::grass::lemma_tile_cells(dim, cfg.tpa, t, c);
}

proof fn lemma_tile_visits(cfg: ScatterCfg, t: int, c: int) -> (k: int)
    requires
        cfg_ok(cfg),
        0 <= t < cfg.tpa * cfg.tpa,
        0 <= c < cfg.dim * cfg.dim,
        tile_of(cfg.dim, cfg.tpa, c) == t,
    ensures
        0 <= k < tile_w(cfg.dim, cfg.tpa, t) * tile_h(cfg.dim, cfg.tpa, t),
        tile_cell(cfg, t, k) == c,
{
    lemma_tile_extent(cfg.dim, cfg.tpa, t);
    let dim = cfg.dim;
    let w = tile_w(dim, cfg.tpa, t);
    let h = tile_h(dim, cfg.tpa, t);
    let x0 = tile_x0(cfg.tpa, t);
    let y0 = tile_y0(cfg.tpa, t);
    assert(cfg.tpa * 32 >= dim) by (nonlinear_arith)
        requires
            cfg.tpa == (dim + 31) / 32,
            dim > 0,
    ;
    crate::grass::lemma_tile_cells(dim, cfg.tpa, t, c);
    lemma_cell_tile_bounds(dim, cfg.tpa, c);
    let iy = c / dim;
    let ix = c % dim;
    assert(0 <= ix < dim) by (nonlinear_arith)
        requires
            ix == c % dim,
            dim > 0,
    ;
    assert(0 <= iy) by (nonlinear_arith)
        requires
            iy == c / dim,
            dim > 0,
            c >= 0,
    ;
    assert(y0 == (t / cfg.tpa) * 32 && x0 == (t % cfg.tpa) * 32);
    assert(iy - y0 < h && ix - x0 < w);
    let k = (iy - y0) * w + (ix - x0);
    assert(0 <= k < w * h) by (nonlinear_arith)
        requires
            0 <= iy - y0 < h,
            0 <= ix - x0 < w,
            k == (iy - y0) * w + (ix - x0),
    ;
    vstd::arithmetic::div_mod::lemma_fundamental_div_mod_converse(k, w, iy - y0, ix - x0);
    vstd::arithmetic::div_mod::lemma_fundamental_div_mod(c, dim);
    assert(k / w == iy - y0 && k % w == ix - x0);
    assert(c == iy * dim + ix) by (nonlinear_arith)
        requires
            c == dim * (c / dim) + c % dim,
            iy == c / dim,
            ix == c % dim,
    ;
    k
}

proof fn lemma_tile_run_covered(cfg: ScatterCfg, t: int, d0: Seq<u8>, start: TileRun, rolls: Seq<ScatterRoll>, k: int)
    requires
        cfg_ok(cfg),
        0 <= t < cfg.tpa * cfg.tpa,
        start.density == d0,
        d0.len() == cfg.dim * cfg.dim,
        !start.touched,
        !start.grass,
        0 <= k <= tile_w(cfg.dim, cfg.tpa, t) * tile_h(cfg.dim, cfg.tpa, t),
    ensures
        ({
            let r = tile_run(cfg, t, d0, start, rolls, k);
            &&& r.density.len() == cfg.dim * cfg.dim
            &&& grass_covered(cfg, t, d0, r)
            &&& start.marked.subset_of(r.marked)
            &&& forall|k2: int| 0 <= k2 < k && d0[#[trigger] tile_cell(cfg, t, k2)] > 0 ==> r.grass
        }),
    decreases k,
{
    if k == 0 {
        assert(grass_covered(cfg, t, d0, start));
    } else {
        lemma_tile_run_covered(cfg, t, d0, start, rolls, k - 1);
        lemma_tile_cell_in_tile(cfg, t, k - 1);
        let prev = tile_run(cfg, t, d0, start, rolls, k - 1);
        let w = tile_w(cfg.dim, cfg.tpa, t);
        let ix = tile_x0(cfg.tpa, t) + (k - 1) % w;
        let iy = tile_y0(cfg.tpa, t) + (k - 1) / w;
        lemma_tile_extent(cfg.dim, cfg.tpa, t);
        let h = tile_h(cfg.dim, cfg.tpa, t);
        assert(0 <= (k - 1) / w < h && 0 <= (k - 1) % w < w) by (nonlinear_arith)
            requires
                0 <= k - 1 < w * h,
                w > 0,
        ;
        assert(iy * cfg.dim + ix == tile_cell(cfg, t, k - 1));
        lemma_cell_step_covered(cfg, t, d0, prev, d0[iy * cfg.dim + ix], ix, iy, rolls[k - 1]);
    }
}

proof fn lemma_tile_effect_covered(cfg: ScatterCfg, st: ScatterState, t: int, rolls: Seq<ScatterRoll>)
    requires
        cfg_ok(cfg),
        0 <= t < cfg.tpa * cfg.tpa,
        st.density.len() == cfg.dim * cfg.dim,
    ensures
        ({
            let e = tile_effect(cfg, st, t, rolls);
            &&& e.density.len() == cfg.dim * cfg.dim
            &&& st.marked.subset_of(e.marked)
            &&& forall|c: int| 0 <= c < cfg.dim * cfg.dim && #[trigger] e.density[c] > 0 ==> {
                ||| e.marked.contains(tile_of(cfg.dim, cfg.tpa, c))
                ||| (tile_of(cfg.dim, cfg.tpa, c) != t && st.density[c] > 0)
            }
        }),
{
    let n = tile_w(cfg.dim, cfg.tpa, t) * tile_h(cfg.dim, cfg.tpa, t);
    lemma_tile_extent(cfg.dim, cfg.tpa, t);
    assert(n >= 0) by (nonlinear_arith)
        requires
            n == tile_w(cfg.dim, cfg.tpa, t) * tile_h(cfg.dim, cfg.tpa, t),
            tile_w(cfg.dim, cfg.tpa, t) > 0,
            tile_h(cfg.dim, cfg.tpa, t) > 0,
    ;
    let start = TileRun { density: st.density, marked: st.marked, touched: false, grass: false };
    lemma_tile_run_covered(cfg, t, st.density, start, rolls, n);
    let r = tile_run(cfg, t, st.density, start, rolls, n);
    let e = tile_effect(cfg, st, t, rolls);
    assert forall|c: int| 0 <= c < cfg.dim * cfg.dim && #[trigger] e.density[c] > 0 implies {
        ||| e.marked.contains(tile_of(cfg.dim, cfg.tpa, c))
        ||| (tile_of(cfg.dim, cfg.tpa, c) != t && st.density[c] > 0)
    } by {
        assert(r.density[c] > 0);
        if tile_of(cfg.dim, cfg.tpa, c) == t && !r.marked.contains(t) && !r.touched {
            assert(st.density[c] > 0);
            let k2 = lemma_tile_visits(cfg, t, c);
            assert(st.density[tile_cell(cfg, t, k2)] > 0);
            assert(r.grass);
        }
    }
}

/// Over the first `i` listed tiles, every cell with grass lies in a marked
/// tile or in a listed tile not yet processed, given that this held before.
proof fn lemma_pass_covered(cfg: ScatterCfg, st0: ScatterState, tiles: Seq<usize>, rolls: Seq<Seq<ScatterRoll>>, i: int)
    requires
        cfg_ok(cfg),
        st0.density.len() == cfg.dim * cfg.dim,
        0 <= i <= tiles.len(),
        forall|m: int| 0 <= m < tiles.len() ==> #[trigger] tiles[m] < cfg.tpa * cfg.tpa,
        forall|c: int| 0 <= c < cfg.dim * cfg.dim && #[trigger] st0.density[c] > 0 ==> {
            ||| st0.marked.contains(tile_of(cfg.dim, cfg.tpa, c))
            ||| exists|m: int| 0 <= m < tiles.len() && tiles[m] as int == tile_of(cfg.dim, cfg.tpa, c)
        },
    ensures
        ({
            let st = pass_upto(cfg, st0, tiles, rolls, i);
            &&& st.density.len() == cfg.dim * cfg.dim
            &&& st0.marked.subset_of(st.marked)
            &&& forall|c: int| 0 <= c < cfg.dim * cfg.dim && #[trigger] st.density[c] > 0 ==> {
                ||| st.marked.contains(tile_of(cfg.dim, cfg.tpa, c))
                ||| exists|m: int| i <= m < tiles.len() && tiles[m] as int == tile_of(cfg.dim, cfg.tpa, c)
            }
        }),
    decreases i,
{
    if i > 0 {
        lemma_pass_covered(cfg, st0, tiles, rolls, i - 1);
        let prev = pass_upto(cfg, st0, tiles, rolls, i - 1);
        let t = tiles[i - 1] as int;
        lemma_tile_effect_covered(cfg, prev, t, rolls[i - 1]);
        let st = pass_upto(cfg, st0, tiles, rolls, i);
        assert forall|c: int| 0 <= c < cfg.dim * cfg.dim && #[trigger] st.density[c] > 0 implies {
            ||| st.marked.contains(tile_of(cfg.dim, cfg.tpa, c))
            ||| exists|m: int| i <= m < tiles.len() && tiles[m] as int == tile_of(cfg.dim, cfg.tpa, c)
        } by {
            let tc = tile_of(cfg.dim, cfg.tpa, c);
            if !st.marked.contains(tc) {
                assert(tc != t && prev.density[c] > 0);
                if !prev.marked.contains(tc) {
                    let m = choose|m: int| i - 1 <= m < tiles.len() && tiles[m] as int == tc;
                    assert(m != i - 1);
                }
            }
        }
    }
}

/// `v + off` on an axis of `n` positions: wrapped on a torus, dropped past
/// a wall.
fn shift_coord(v: usize, off: i32, n: usize, wrap: bool) -> (r: Option<usize>)
    requires
        v < n,
        n <= u32::MAX,
    ensures
        match (r, step_coord(v as int, off as int, n as int, wrap)) {
            (Some(a), Some(b)) => a == b,
            (None, None) => true,
            _ => false,
        },
        r matches Some(a) ==> a < n,
{
    let u: i64 = v as i64 + off as i64;
    if wrap {
        if u >= 0 {
            let m = (u as u64) % (n as u64);
            proof {
                vstd::arithmetic::div_mod::lemma_fundamental_div_mod(u as int, n as int);
                vstd::arithmetic::div_mod::lemma_fundamental_div_mod(u as u64 as int, n as int);
            }
            Some(m as usize)
        } else {
            let a: u64 = (-u) as u64;
            let m = a % (n as u64);
            let q = a / (n as u64);
            proof {
                vstd::arithmetic::div_mod::lemma_fundamental_div_mod(a as int, n as int);
            }
            if m == 0 {
                proof {
                    assert((-(q as int)) * (n as int) == -((q as int) * (n as int))) by (nonlinear_arith);
                    vstd::arithmetic::div_mod::lemma_fundamental_div_mod_converse(u as int, n as int, -(q as int), 0);
                }
                Some(0)
            } else {
                proof {
                    assert((-(q as int) - 1) * (n as int) == -((q as int) * (n as int)) - n) by (nonlinear_arith);
                    vstd::arithmetic::div_mod::lemma_fundamental_div_mod_converse(
                        u as int,
                        n as int,
                        -(q as int) - 1,
                        n - m,
                    );
                }
                Some(n - m as usize)
            }
        }
    } else if 0 <= u && u < n as i64 {
        Some(u as usize)
    } else {
        None
    }
}

impl GrassGrid {
    /// The scatter inputs of this grid.
    pub open spec fn scatter_cfg(&self, cap: Seq<u8>, decay_byte: u8, spread_byte: u8) -> ScatterCfg {
        ScatterCfg {
            dim: self.grass_dim as int,
            tpa: self.tiles_per_axis as int,
            wrap: self.wrap_world,
            decay_byte,
            spread_byte,
            cap,
        }
    }

    /// The grid holds `density`, and its active-next and dirty bits are those
    /// of `base` plus the marks; everything else is as in `base`.
    pub open spec fn scatter_mirrors(&self, base: GrassGrid, density: Seq<u8>, marked: Set<int>, fringe: Set<int>) -> bool {
        &&& self.wf()
        &&& self.grass_dim == base.grass_dim
        &&& self.wrap_world == base.wrap_world
        &&& self.tiles_per_axis == base.tiles_per_axis
        &&& self.row_has_density@ == base.row_has_density@
        &&& self.tile_active@ == base.tile_active@
        &&& self.tile_class@ == base.tile_class@
        &&& self.propagation == base.propagation
        &&& self.world_seed == base.world_seed
        &&& self.scatter_tick == base.scatter_tick
        &&& self.pyramid == base.pyramid
        &&& self.profile_scatter == base.profile_scatter
        &&& self.density@ == density
        &&& forall|j: int| #[trigger] bit_of(self.tile_active_next@, j)
            == (bit_of(base.tile_active_next@, j) || marked.contains(j) || fringe.contains(j))
        &&& forall|j: int| #[trigger] bit_of(self.tile_dirty[0]@, j) == (bit_of(base.tile_dirty[0]@, j) || marked.contains(j))
        &&& forall|j: int| #[trigger] bit_of(self.tile_dirty[1]@, j) == (bit_of(base.tile_dirty[1]@, j) || marked.contains(j))
    }
}

impl GrassGrid {
    /// Origin and size of tile `t`: first column, first row, width, height.
    pub fn tile_extent(&self, t: usize) -> (e: (usize, usize, usize, usize))
        requires
            self.wf(),
            t < self.tile_count(),
        ensures
            e.0 == tile_x0(self.tiles_per_axis as int, t as int),
            e.1 == tile_y0(self.tiles_per_axis as int, t as int),
            e.2 == tile_w(self.grass_dim as int, self.tiles_per_axis as int, t as int),
            e.3 == tile_h(self.grass_dim as int, self.tiles_per_axis as int, t as int),
            0 < e.2 <= GRASS_TILE_SIZE,
            0 < e.3 <= GRASS_TILE_SIZE,
            e.0 + e.2 <= self.grass_dim,
            e.1 + e.3 <= self.grass_dim,
    {
        proof {
            self.lemma_sizes();
        }
        let tpa = self.tiles_per_axis;
        let dim = self.grass_dim;
        assert(tpa > 0) by (nonlinear_arith)
            requires
                t < tpa * tpa,
        ;
        let tx = t % tpa;
        let ty = t / tpa;
        assert(ty < tpa) by (nonlinear_arith)
            requires
                t < tpa * tpa,
                ty == t / tpa,
                tpa > 0,
        ;
        assert(tx * 32 < dim && ty * 32 < dim) by (nonlinear_arith)
            requires
                tx < tpa,
                ty < tpa,
                tpa * 32 <= dim + 31,
        ;
        let x0 = tx * GRASS_TILE_SIZE;
        let y0 = ty * GRASS_TILE_SIZE;
        let w = if x0 + GRASS_TILE_SIZE <= dim { GRASS_TILE_SIZE } else { dim - x0 };
        let h = if y0 + GRASS_TILE_SIZE <= dim { GRASS_TILE_SIZE } else { dim - y0 };
        (x0, y0, w, h)
    }

    /// Set the active-next bit of the tile at offset `(dx, dy)` from tile
    /// `t`, if there is one.
    fn mark_neighbour_next(&mut self, t: usize, dy: i8, dx: i8)
        requires
            old(self).wf(),
            t < old(self).tile_count(),
            -1 <= dy <= 1,
            -1 <= dx <= 1,
        ensures
            final(self).wf(),
            final(self).same_field(old(self)),
            final(self).tile_class@ == old(self).tile_class@,
            final(self).tile_active@ == old(self).tile_active@,
            final(self).tile_dirty[0]@ == old(self).tile_dirty[0]@,
            final(self).tile_dirty[1]@ == old(self).tile_dirty[1]@,
            forall|j: int| #[trigger] bit_of(final(self).tile_active_next@, j) == (bit_of(old(self).tile_active_next@, j)
                || fringe_tile(old(self).tiles_per_axis as int, old(self).wrap_world, t as int, dy as int, dx as int) == Some(j)),
    {
        let tpa = self.tiles_per_axis;
        proof {
            self.lemma_sizes();
            assert(tpa > 0) by (nonlinear_arith)
                requires
                    t < tpa * tpa,
            ;
        }
        let ty = t / tpa;
        let tx = t % tpa;
        assert(ty < tpa) by (nonlinear_arith)
            requires
                t < tpa * tpa,
                ty == t / tpa,
                tpa > 0,
        ;
        let oy = step_coord_exec(ty, dy, tpa, self.wrap_world);
        let ox = step_coord_exec(tx, dx, tpa, self.wrap_world);
        match (oy, ox) {
            (Some(ny), Some(nx)) => {
                assert(ny * tpa + nx < tpa * tpa) by (nonlinear_arith)
                    requires
                        ny < tpa,
                        nx < tpa,
                ;
                let nt = ny * tpa + nx;
                bitset_set(&mut self.tile_active_next, nt);
            },
            _ => {},
        }
    }

    /// Set the active-next bits of tile `t` and its (up to) eight neighbours.
    fn mark_fringe_next(&mut self, t: usize)
        requires
            old(self).wf(),
            t < old(self).tile_count(),
        ensures
            final(self).wf(),
            final(self).same_field(old(self)),
            final(self).tile_class@ == old(self).tile_class@,
            final(self).tile_active@ == old(self).tile_active@,
            final(self).tile_dirty[0]@ == old(self).tile_dirty[0]@,
            final(self).tile_dirty[1]@ == old(self).tile_dirty[1]@,
            forall|j: int| #[trigger] bit_of(final(self).tile_active_next@, j) == (bit_of(old(self).tile_active_next@, j)
                || in_fringe(old(self).tiles_per_axis as int, old(self).wrap_world, t as int, j)),
    {
        self.mark_neighbour_next(t, -1, -1);
        self.mark_neighbour_next(t, -1, 0);
        self.mark_neighbour_next(t, -1, 1);
        self.mark_neighbour_next(t, 0, -1);
        self.mark_neighbour_next(t, 0, 0);
        self.mark_neighbour_next(t, 0, 1);
        self.mark_neighbour_next(t, 1, -1);
        self.mark_neighbour_next(t, 1, 0);
        self.mark_neighbour_next(t, 1, 1);
    }

    /// Apply the decay roll of cell `c`; returns whether tile `t` has now
    /// been written.
    fn scatter_decay(
        &mut self,
        c: usize,
        roll: ScatterRoll,
        decay_byte: u8,
        touched: bool,
        Ghost(cap): Ghost<Seq<u8>>,
        Ghost(spread_byte): Ghost<u8>,
        Ghost(base): Ghost<GrassGrid>,
        Ghost(run): Ghost<TileRun>,
        Ghost(fringe): Ghost<Set<int>>,
    ) -> (now_touched: bool)
        requires
            old(self).scatter_mirrors(base, run.density, run.marked, fringe),
            c < old(self).cell_count(),
            touched == run.touched,
        ensures
            ({
                let r = decay_step(old(self).scatter_cfg(cap, decay_byte, spread_byte), run, c as int, roll);
                &&& final(self).scatter_mirrors(base, r.density, r.marked, fringe)
                &&& now_touched == r.touched
                &&& r.grass == run.grass
            }),
    {
        if decay_byte > 0 && roll.decay {
            let changed = self.scatter_sub(c, decay_byte);
            if changed {
                return true;
            }
        }
        touched
    }

    /// Apply the spread roll of source cell `(ix, iy)` holding `s`; returns
    /// whether tile `t` has now been written.
    fn scatter_spread(
        &mut self,
        t: usize,
        ix: usize,
        iy: usize,
        s: u8,
        roll: ScatterRoll,
        cap_bytes: &[u8],
        spread_byte: u8,
        touched: bool,
        Ghost(decay_byte): Ghost<u8>,
        Ghost(base): Ghost<GrassGrid>,
        Ghost(run): Ghost<TileRun>,
        Ghost(fringe): Ghost<Set<int>>,
    ) -> (now_touched: bool)
        requires
            old(self).scatter_mirrors(base, run.density, run.marked, fringe),
            t < old(self).tile_count(),
            ix < old(self).grass_dim,
            iy < old(self).grass_dim,
            cap_bytes@.len() == old(self).cell_count(),
            touched == run.touched,
        ensures
            ({
                let r = spread_step(old(self).scatter_cfg(cap_bytes@, decay_byte, spread_byte), t as int, run, s, ix as int, iy as int, roll);
                &&& final(self).scatter_mirrors(base, r.density, r.marked, fringe)
                &&& now_touched == r.touched
                &&& r.grass == run.grass
            }),
    {
        let ghost cfg = self.scatter_cfg(cap_bytes@, decay_byte, spread_byte);
        let dim = self.grass_dim;
        proof {
            self.lemma_sizes();
            assert(dim <= u32::MAX) by (nonlinear_arith)
                requires
                    dim * dim <= usize::MAX,
                    ix < dim,
            ;
        }
        if spread_byte == 0 {
            return touched;
        }
        let (dx, dy) = match roll.spread {
            Some(off) => off,
            None => {
                return touched;
            },
        };
        let ox = shift_coord(ix, dx, dim, self.wrap_world);
        let oy = shift_coord(iy, dy, dim, self.wrap_world);
        let (gx, gy) = match (ox, oy) {
            (Some(gx), Some(gy)) => (gx, gy),
            _ => {
                return touched;
            },
        };
        assert(gy * dim + gx < dim * dim) by (nonlinear_arith)
            requires
                gx < dim,
                gy < dim,
        ;
        let tc = gy * dim + gx;
        let cap = cap_bytes[tc];
        assert(spread_byte * s <= 65025) by (nonlinear_arith)
            requires
                spread_byte <= 255,
                s <= 255,
        ;
        let wide: u32 = (spread_byte as u32 * s as u32 + 127) / 255;
        let add: u8 = if wide < 1 { 1 } else { wide as u8 };
        assert(add == spread_amount(spread_byte, s));
        if cap == 0 {
            return touched;
        }
        let ghost nb = byte_add_capped(run.density[tc as int], add, cap);
        let changed = self.scatter_add(tc, add, cap);
        if !changed {
            assert(self.density@ =~= run.density);
            return touched;
        }
        let tt = self.tile_of_cell(tc);
        if tt == t {
            return true;
        }
        proof {
            self.lemma_sizes();
        }
        bitset_set(&mut self.tile_active_next, tt);
        bitset_set(&mut self.tile_dirty[0], tt);
        bitset_set(&mut self.tile_dirty[1], tt);
        assert(self.scatter_mirrors(base, run.density.update(tc as int, nb), run.marked.insert(tt as int), fringe));
        touched
    }

    /// Process tile `t` with one roll per cell (row-major over the tile),
    /// every source byte read from the field as it was when the tile began.
    fn scatter_tile(
        &mut self,
        t: usize,
        rolls: &[ScatterRoll],
        cap_bytes: &[u8],
        decay_byte: u8,
        spread_byte: u8,
        Ghost(base): Ghost<GrassGrid>,
        Ghost(st): Ghost<ScatterState>,
    )
        requires
            old(self).scatter_mirrors(base, st.density, st.marked, st.fringe),
            t < old(self).tile_count(),
            rolls@.len() == tile_w(old(self).grass_dim as int, old(self).tiles_per_axis as int, t as int)
                * tile_h(old(self).grass_dim as int, old(self).tiles_per_axis as int, t as int),
            cap_bytes@.len() == old(self).cell_count(),
        ensures
            ({
                let e = tile_effect(old(self).scatter_cfg(cap_bytes@, decay_byte, spread_byte), st, t as int, rolls@);
                final(self).scatter_mirrors(base, e.density, e.marked, e.fringe)
            }),
    {
        let ghost cfg = self.scatter_cfg(cap_bytes@, decay_byte, spread_byte);
        let (x0, y0, w, h) = self.tile_extent(t);
        let dim = self.grass_dim;
        let ghost d0 = self.density@;
        assert(w * h <= 1024) by (nonlinear_arith)
            requires
                w <= 32,
                h <= 32,
        ;
        let n = w * h;
        let mut src: Vec<u8> = Vec::new();
        let mut k: usize = 0;
        while k < n
            invariant
                n == w * h,
                0 < w <= 32,
                0 < h <= 32,
                x0 + w <= dim,
                y0 + h <= dim,
                dim == self.grass_dim,
                self.wf(),
                self.density@ == d0,
                k <= n,
                src@.len() == k,
                forall|j: int| 0 <= j < k ==> #[trigger] src@[j] == d0[(y0 + j / (w as int)) * dim + x0 + j % (w as int)],
            decreases n - k,
        {
            let ly = k / w;
            let lx = k % w;
            assert(ly < h) by (nonlinear_arith)
                requires
                    k < w * h,
                    ly == k / w,
                    w > 0,
            ;
            assert((y0 + ly) * dim + x0 + lx < dim * dim) by (nonlinear_arith)
                requires
                    y0 + ly < dim,
                    x0 + lx < dim,
            ;
            src.push(self.density[(y0 + ly) * dim + x0 + lx]);
            k = k + 1;
        }
        let ghost start = TileRun { density: d0, marked: st.marked, touched: false, grass: false };
        let ghost mut run = start;
        let mut touched = false;
        let mut has_grass = false;
        k = 0;
        while k < n
            invariant
                n == w * h,
                n == rolls@.len(),
                0 < w <= 32,
                0 < h <= 32,
                x0 + w <= dim,
                y0 + h <= dim,
                dim == self.grass_dim,
                x0 == tile_x0(cfg.tpa, t as int),
                y0 == tile_y0(cfg.tpa, t as int),
                w == tile_w(cfg.dim, cfg.tpa, t as int),
                cfg == old(self).scatter_cfg(cap_bytes@, decay_byte, spread_byte),
                cfg.dim == self.grass_dim,
                cfg.tpa == self.tiles_per_axis,
                cfg.wrap == self.wrap_world,
                t < self.tile_count(),
                cap_bytes@.len() == self.cell_count(),
                src@.len() == n,
                forall|j: int| 0 <= j < n ==> #[trigger] src@[j] == d0[(y0 + j / (w as int)) * dim + x0 + j % (w as int)],
                k <= n,
                run == tile_run(cfg, t as int, d0, start, rolls@, k as int),
                self.scatter_mirrors(base, run.density, run.marked, st.fringe),
                touched == run.touched,
                has_grass == run.grass,
            decreases n - k,
        {
            let ly = k / w;
            let lx = k % w;
            assert(ly < h) by (nonlinear_arith)
                requires
                    k < w * h,
                    ly == k / w,
                    w > 0,
            ;
            let ix = x0 + lx;
            let iy = y0 + ly;
            let s = src[k];
            let roll = rolls[k];
            if s != 0 {
                let ghost r1 = TileRun { grass: true, ..run };
                has_grass = true;
                assert(iy * dim + ix < dim * dim) by (nonlinear_arith)
                    requires
                        iy < dim,
                        ix < dim,
                ;
                let c = iy * dim + ix;
                touched = self.scatter_decay(c, roll, decay_byte, touched, Ghost(cap_bytes@), Ghost(spread_byte), Ghost(base), Ghost(r1), Ghost(st.fringe));
                let ghost r2 = decay_step(cfg, r1, c as int, roll);
                touched = self.scatter_spread(t, ix, iy, s, roll, cap_bytes, spread_byte, touched, Ghost(decay_byte), Ghost(base), Ghost(r2), Ghost(st.fringe));
                proof {
                    run = spread_step(cfg, t as int, r2, s, ix as int, iy as int, roll);
                }
            }
            k = k + 1;
        }
        if touched || has_grass {
            proof {
                self.lemma_sizes();
            }
            bitset_set(&mut self.tile_active_next, t);
            bitset_set(&mut self.tile_dirty[0], t);
            bitset_set(&mut self.tile_dirty[1], t);
        }
        if has_grass {
            self.mark_fringe_next(t);
        }
    }

    /// The active tiles, ascending.
    pub fn active_tiles(&self) -> (v: Vec<usize>)
        requires
            self.wf(),
        ensures
            v@ == active_upto(self.tile_active@, self.tile_count()),
    {
        proof {
            self.lemma_sizes();
        }
        let n = self.tiles_per_axis * self.tiles_per_axis;
        let mut v: Vec<usize> = Vec::new();
        let mut t: usize = 0;
        while t < n
            invariant
                n == self.tile_count(),
                self.tile_active@.len() * 64 >= n,
                t <= n,
                v@ == active_upto(self.tile_active@, t as int),
            decreases n - t,
        {
            if bitset_get(self.tile_active.as_slice(), t) {
                v.push(t);
            }
            t = t + 1;
        }
        v
    }

    /// One scatter pass over the active tiles, in ascending order, with
    /// `rolls[i]` the per-cell rolls of the `i`-th active tile and
    /// `cap_bytes` the carrying byte of every cell. The tiles marked during
    /// the pass become the active set; the previous active set is left in
    /// the active-next buffer.
    pub fn scatter_pass(&mut self, rolls: &[Vec<ScatterRoll>], cap_bytes: &[u8], decay_byte: u8, spread_byte: u8)
        requires
            old(self).wf(),
            cap_bytes@.len() == old(self).cell_count(),
            rolls@.len() == active_upto(old(self).tile_active@, old(self).tile_count()).len(),
            forall|i: int| 0 <= i < rolls@.len() ==> {
                let t = active_upto(old(self).tile_active@, old(self).tile_count())[i] as int;
                #[trigger] rolls@[i]@.len() == tile_w(old(self).grass_dim as int, old(self).tiles_per_axis as int, t)
                    * tile_h(old(self).grass_dim as int, old(self).tiles_per_axis as int, t)
            },
        ensures
            ({
                let cfg = old(self).scatter_cfg(cap_bytes@, decay_byte, spread_byte);
                let tiles = active_upto(old(self).tile_active@, old(self).tile_count());
                let st0 = ScatterState { density: old(self).density@, marked: Set::empty(), fringe: Set::empty() };
                let e = pass_upto(cfg, st0, tiles, rolls@.map_values(|r: Vec<ScatterRoll>| r@), tiles.len() as int);
                &&& final(self).wf()
                &&& final(self).density@ == e.density
                &&& forall|j: int| #[trigger] bit_of(final(self).tile_active@, j)
                    == (e.marked.contains(j) || e.fringe.contains(j))
                &&& final(self).tile_active_next@ == old(self).tile_active@
                &&& forall|j: int| #[trigger] bit_of(final(self).tile_dirty[0]@, j)
                    == (bit_of(old(self).tile_dirty[0]@, j) || e.marked.contains(j))
                &&& forall|j: int| #[trigger] bit_of(final(self).tile_dirty[1]@, j)
                    == (bit_of(old(self).tile_dirty[1]@, j) || e.marked.contains(j))
            }),
            within_caps(old(self).density@, cap_bytes@) ==> within_caps(final(self).density@, cap_bytes@),
            grass_tiles_active(old(self).grass_dim as int, old(self).tiles_per_axis as int, old(self).density@, old(self).tile_active@)
                ==> grass_tiles_active(old(self).grass_dim as int, old(self).tiles_per_axis as int, final(self).density@, final(self).tile_active@),
            final(self).grass_dim == old(self).grass_dim,
            final(self).wrap_world == old(self).wrap_world,
            final(self).tiles_per_axis == old(self).tiles_per_axis,
            final(self).row_has_density@ == old(self).row_has_density@,
            final(self).tile_class@ == old(self).tile_class@,
            final(self).propagation == old(self).propagation,
            final(self).world_seed == old(self).world_seed,
            final(self).scatter_tick == old(self).scatter_tick,
            final(self).pyramid == old(self).pyramid,
            final(self).profile_scatter == old(self).profile_scatter,
    {
        let ghost cfg = self.scatter_cfg(cap_bytes@, decay_byte, spread_byte);
        let ghost rs = rolls@.map_values(|r: Vec<ScatterRoll>| r@);
        let tiles = self.active_tiles();
        proof {
            self.lemma_sizes();
            lemma_active_upto(self.tile_active@, self.tile_count());
        }
        bitset_fill(&mut self.tile_active_next, false);
        let ghost base = *self;
        let ghost st0 = ScatterState { density: self.density@, marked: Set::empty(), fringe: Set::empty() };
        let mut i: usize = 0;
        while i < tiles.len()
            invariant
                tiles@ == active_upto(old(self).tile_active@, old(self).tile_count()),
                rolls@.len() == tiles@.len(),
                rs == rolls@.map_values(|r: Vec<ScatterRoll>| r@),
                forall|m: int| 0 <= m < rolls@.len() ==> {
                    let t = tiles@[m] as int;
                    #[trigger] rolls@[m]@.len() == tile_w(base.grass_dim as int, base.tiles_per_axis as int, t)
                        * tile_h(base.grass_dim as int, base.tiles_per_axis as int, t)
                },
                forall|m: int| 0 <= m < tiles@.len() ==> #[trigger] tiles@[m] < base.tile_count(),
                cap_bytes@.len() == base.cell_count(),
                cfg == base.scatter_cfg(cap_bytes@, decay_byte, spread_byte),
                i <= tiles@.len(),
                self.scatter_mirrors(base, pass_upto(cfg, st0, tiles@, rs, i as int).density,
                    pass_upto(cfg, st0, tiles@, rs, i as int).marked, pass_upto(cfg, st0, tiles@, rs, i as int).fringe),
            decreases tiles@.len() - i,
        {
            let t = tiles[i];
            let ghost st = pass_upto(cfg, st0, tiles@, rs, i as int);
            assert(rs[i as int] == rolls@[i as int]@);
            self.scatter_tile(t, rolls[i].as_slice(), cap_bytes, decay_byte, spread_byte, Ghost(base), Ghost(st));
            i = i + 1;
        }
        proof {
            if within_caps(st0.density, cap_bytes@) {
                if base.grass_dim > 0 {
                    lemma_pass_within_caps(cfg, st0, tiles@, rs, tiles@.len() as int);
                } else {
                    assert(tiles@.len() == 0) by {
                        assert(base.tiles_per_axis == 0);
                        assert(base.tile_count() == 0) by (nonlinear_arith)
                            requires
                                base.tiles_per_axis == 0,
                                base.tile_count() == base.tiles_per_axis * base.tiles_per_axis,
                        ;
                    }
                }
            }
        }
        std::mem::swap(&mut self.tile_active, &mut self.tile_active_next);
        proof {
            let dim = base.grass_dim as int;
            let tpa = base.tiles_per_axis as int;
            let e = pass_upto(cfg, st0, tiles@, rs, tiles@.len() as int);
            if grass_tiles_active(dim, tpa, st0.density, old(self).tile_active@) && dim > 0 {
                assert(tpa * 32 >= dim) by (nonlinear_arith)
                    requires
                        tpa == (dim + 31) / 32,
                        dim > 0,
                ;
                assert forall|c: int| 0 <= c < dim * dim && #[trigger] st0.density[c] > 0 implies {
                    ||| st0.marked.contains(tile_of(dim, tpa, c))
                    ||| exists|m: int| 0 <= m < tiles@.len() && tiles@[m] as int == tile_of(dim, tpa, c)
                } by {
                    lemma_cell_tile_bounds(dim, tpa, c);
                    let tc = tile_of(dim, tpa, c);
                    assert(tiles@.contains(tc as usize));
                    let m = choose|m: int| 0 <= m < tiles@.len() && tiles@[m] == tc as usize;
                    assert(tiles@[m] as int == tc);
                }
                lemma_pass_covered(cfg, st0, tiles@, rs, tiles@.len() as int);
                assert forall|c: int| 0 <= c < dim * dim && #[trigger] self.density@[c] > 0 implies bit_of(
                    self.tile_active@,
                    tile_of(dim, tpa, c),
                ) by {
                    assert(e.density[c] > 0);
                    assert(e.marked.contains(tile_of(dim, tpa, c)));
                }
            } else if dim == 0 {
                assert(dim * dim == 0) by (nonlinear_arith)
                    requires
                        dim == 0,
                ;
            }
        }
    }
}

} // verus!
