//! The byte grass field and its bookkeeping: one density byte per cell
//! (`255` is full), the per-row "has grass" bitset, the tile grid with its
//! active set, per-snapshot-slot dirty sets and equilibrium classes, and the
//! mip pyramid over the field.
//!
//! Cell `(ix, iy)` is at `iy * grass_dim + ix`. Tiles are
//! `GRASS_TILE_SIZE`-cell squares, row-major over a
//! `tiles_per_axis × tiles_per_axis` grid; edge tiles may be partial.

use vstd::prelude::*;
use crate::bitset::{bit_of, bitset_get, bitset_set, bitset_clear, bitset_fill, bitset_new};
use crate::pyramid::GrassPyramid;
use crate::rng::{index_draw, stream_after, SimRng};
use crate::classify::{classes_from, uniform, GRASS_FULL_FROM_BYTE};

verus! {

/// Side of a tile, in cells.
pub const GRASS_TILE_SIZE: usize = 32;

/// Tile class: every cell empty.
pub const TILE_EMPTY: u8 = 0;
/// Tile class: every cell at its cap.
pub const TILE_SATURATED: u8 = 1;
/// Tile class: a moving frontier.
pub const TILE_MIXED: u8 = 2;

/// `ceil(a / b)`.
pub open spec fn div_ceil(a: int, b: int) -> int {
    (a + b - 1) / b
}

/// The density byte of cell `(ix, iy)`.
pub open spec fn cell_at(density: Seq<u8>, dim: int, ix: int, iy: int) -> u8 {
    density[iy * dim + ix]
}

/// Whether row `iy` holds any cell with grass.
pub open spec fn row_has_grass(density: Seq<u8>, dim: int, iy: int) -> bool {
    exists|ix: int| 0 <= ix < dim && #[trigger] cell_at(density, dim, ix, iy) > 0
}

/// The tile holding cell `c`.
pub open spec fn tile_of(dim: int, tpa: int, c: int) -> int {
    ((c / dim) / GRASS_TILE_SIZE as int) * tpa + (c % dim) / GRASS_TILE_SIZE as int
}

/// Coordinate `v + off` on an axis of `n` positions: wrapped on a torus,
/// dropped past a wall.
pub open spec fn step_coord(v: int, off: int, n: int, wrap: bool) -> Option<int> {
    let u = v + off;
    if wrap {
        Some(u % n)
    } else if 0 <= u < n {
        Some(u)
    } else {
        None
    }
}

/// The tile at offset `(dx, dy)` from tile `t`, if there is one.
pub open spec fn fringe_tile(tpa: int, wrap: bool, t: int, dy: int, dx: int) -> Option<int> {
    match (step_coord(t / tpa, dy, tpa, wrap), step_coord(t % tpa, dx, tpa, wrap)) {
        (Some(y), Some(x)) => Some(y * tpa + x),
        _ => None,
    }
}

/// Whether tile `j` is tile `t` or one of its (up to) eight neighbours.
pub open spec fn in_fringe(tpa: int, wrap: bool, t: int, j: int) -> bool {
    ||| fringe_tile(tpa, wrap, t, -1, -1) == Some(j)
    ||| fringe_tile(tpa, wrap, t, -1, 0) == Some(j)
    ||| fringe_tile(tpa, wrap, t, -1, 1) == Some(j)
    ||| fringe_tile(tpa, wrap, t, 0, -1) == Some(j)
    ||| fringe_tile(tpa, wrap, t, 0, 0) == Some(j)
    ||| fringe_tile(tpa, wrap, t, 0, 1) == Some(j)
    ||| fringe_tile(tpa, wrap, t, 1, -1) == Some(j)
    ||| fringe_tile(tpa, wrap, t, 1, 0) == Some(j)
    ||| fringe_tile(tpa, wrap, t, 1, 1) == Some(j)
}

/// Whether the neighbour `n` of tile `t` (if any) has another class.
pub open spec fn differs(class: Seq<u8>, t: int, n: Option<int>) -> bool {
    n matches Some(k) && class[k] != class[t]
}

/// Whether some neighbour of tile `t` has a class other than `t`'s.
pub open spec fn borders_other_class(class: Seq<u8>, tpa: int, wrap: bool, t: int) -> bool {
    ||| differs(class, t, fringe_tile(tpa, wrap, t, -1, -1))
    ||| differs(class, t, fringe_tile(tpa, wrap, t, -1, 0))
    ||| differs(class, t, fringe_tile(tpa, wrap, t, -1, 1))
    ||| differs(class, t, fringe_tile(tpa, wrap, t, 0, -1))
    ||| differs(class, t, fringe_tile(tpa, wrap, t, 0, 1))
    ||| differs(class, t, fringe_tile(tpa, wrap, t, 1, -1))
    ||| differs(class, t, fringe_tile(tpa, wrap, t, 1, 0))
    ||| differs(class, t, fringe_tile(tpa, wrap, t, 1, 1))
}

/// Whether a tile takes part in the next pass: a frontier tile, or one
/// bordering a tile of another class.
pub open spec fn tile_should_be_active(class: Seq<u8>, tpa: int, wrap: bool, t: int) -> bool {
    class[t] == TILE_MIXED || borders_other_class(class, tpa, wrap, t)
}

pub(crate) fn step_coord_exec(v: usize, off: i8, n: usize, wrap: bool) -> (r: Option<usize>)
    requires
        v < n,
        -1 <= off <= 1,
    ensures
        match (r, step_coord(v as int, off as int, n as int, wrap)) {
            (Some(a), Some(b)) => a == b,
            (None, None) => true,
            _ => false,
        },
        r matches Some(a) ==> a < n,
{
    proof {
        if 0 <= v + off < n {
            vstd::arithmetic::div_mod::lemma_small_mod((v + off) as nat, n as nat);
        }
    }
    if off == 0 {
        Some(v)
    } else if off < 0 {
        if v > 0 {
            Some(v - 1)
        } else if wrap {
            assert((-1int) % (n as int) == n - 1) by {
                vstd::arithmetic::div_mod::lemma_fundamental_div_mod_converse(-1, n as int, -1, n - 1);
            }
            Some(n - 1)
        } else {
            None
        }
    } else {
        if v + 1 < n {
            Some(v + 1)
        } else if wrap {
            assert((n as int) % (n as int) == 0) by {
                vstd::arithmetic::div_mod::lemma_fundamental_div_mod_converse(n as int, n as int, 1, 0);
            }
            Some(0)
        } else {
            None
        }
    }
}

/// Radial band of a spread offset: ring 1 (distance up to 1.5 cells), ring 2
/// (up to 2.5) or ring 3 (beyond).
pub open spec fn disc_band(dx: int, dy: int) -> int {
    let d2 = dx * dx + dy * dy;
    if d2 <= 2 { 0 } else if d2 <= 6 { 1 } else { 2 }
}

/// Whether `(dx, dy)` is a spread offset of a disc of radius `r`: not the
/// centre, and within distance `r`.
pub open spec fn in_disc(r: int, dx: int, dy: int) -> bool {
    !(dx == 0 && dy == 0) && dx * dx + dy * dy <= r * r
}

/// The offset at position `i` of the row-major scan of `[-r, r]²` (rows by
/// `dy`, columns by `dx`).
pub open spec fn scan_point(r: int, i: int) -> (int, int) {
    (i % (2 * r + 1) - r, i / (2 * r + 1) - r)
}

/// The disc offsets of band `b` among the first `k` scan positions, in
/// scan order.
pub open spec fn band_offsets(r: int, b: int, k: int) -> Seq<(i32, i32)>
    decreases k,
{
    if k <= 0 {
        Seq::empty()
    } else {
        let prev = band_offsets(r, b, k - 1);
        let p = scan_point(r, k - 1);
        if in_disc(r, p.0, p.1) && disc_band(p.0, p.1) == b {
            prev.push((p.0 as i32, p.1 as i32))
        } else {
            prev
        }
    }
}

/// The three bands together hold at most one offset per scan position.
pub proof fn lemma_band_lens(r: int, k: int)
    ensures
        band_offsets(r, 0, k).len() + band_offsets(r, 1, k).len() + band_offsets(r, 2, k).len()
            <= if k < 0 { 0 } else { k },
    decreases k,
{
    if k > 0 {
        lemma_band_lens(r, k - 1);
    }
}

/// The spread offsets of a disc of radius `r` grouped by band (band 0, then
/// 1, then 2), each band in scan order, and the end of each band.
pub struct DiscOffsets {
    pub offsets: Vec<(i32, i32)>,
    pub band_end: [usize; 3],
}

/// The disc offset table for radius `radius` (taken as at least 1): every
/// `(dx, dy)` other than the centre within that distance, band by band.
/// Distances compare exactly as squared integers: ring 1 holds `dx² + dy² ≤ 2`,
/// ring 2 holds `≤ 6`, and the disc `≤ radius²`. Radii up to 255 are taken;
/// there the squared comparison agrees with comparing Euclidean distances
/// against `radius + 0.001` in `f32`.
pub fn disc_offsets(radius: i32) -> (d: DiscOffsets)
    requires
        radius <= 255,
    ensures
        ({
            let r = if radius < 1 { 1int } else { radius as int };
            let n = (2 * r + 1) * (2 * r + 1);
            let b0 = band_offsets(r, 0, n);
            let b1 = band_offsets(r, 1, n);
            let b2 = band_offsets(r, 2, n);
            &&& d.offsets@ == b0 + b1 + b2
            &&& d.band_end@[0] == b0.len()
            &&& d.band_end@[1] == b0.len() + b1.len()
            &&& d.band_end@[2] == b0.len() + b1.len() + b2.len()
        }),
{
    let r: i32 = if radius < 1 { 1 } else { radius };
    let ghost gr = r as int;
    let ghost w = 2 * gr + 1;
    let mut band0: Vec<(i32, i32)> = Vec::new();
    let mut band1: Vec<(i32, i32)> = Vec::new();
    let mut band2: Vec<(i32, i32)> = Vec::new();
    let mut dy: i32 = -r;
    assert(w * w <= 511 * 511) by (nonlinear_arith)
        requires
            0 < w <= 511,
    ;
    assert((dy + r) * w == 0) by (nonlinear_arith)
        requires
            dy + r == 0,
    ;
    while dy <= r
        invariant
            1 <= r <= 255,
            w * w <= 511 * 511,
            gr == r,
            w == 2 * gr + 1,
            -r <= dy <= r + 1,
            band0@ == band_offsets(gr, 0, (dy + r) * w),
            band1@ == band_offsets(gr, 1, (dy + r) * w),
            band2@ == band_offsets(gr, 2, (dy + r) * w),
        decreases r + 1 - dy,
    {
        let mut dx: i32 = -r;
        while dx <= r
            invariant
                1 <= r <= 255,
                gr == r,
                w == 2 * gr + 1,
                -r <= dy <= r,
                -r <= dx <= r + 1,
                band0@ == band_offsets(gr, 0, (dy + r) * w + (dx + r)),
                band1@ == band_offsets(gr, 1, (dy + r) * w + (dx + r)),
                band2@ == band_offsets(gr, 2, (dy + r) * w + (dx + r)),
            decreases r + 1 - dx,
        {
            let ghost i = (dy + r) * w + (dx + r);
            proof {
                assert(0 <= dx + r < w);
                assert(0 <= dy + r);
                vstd::arithmetic::div_mod::lemma_fundamental_div_mod_converse(i, w, dy + gr, dx + gr);
                assert(scan_point(gr, i) == (dx as int, dy as int));
                assert(i >= 0) by (nonlinear_arith)
                    requires
                        i == (dy + r) * w + (dx + r),
                        0 <= dy + r,
                        0 <= dx + r,
                        w > 0,
                ;
            }
            assert(0 <= dx * dx <= 65025 && 0 <= dy * dy <= 65025) by (nonlinear_arith)
                requires
                    -255 <= dx <= 255,
                    -255 <= dy <= 255,
            ;
            assert(r * r <= 65025) by (nonlinear_arith)
                requires
                    1 <= r <= 255,
            ;
            let d2 = dx * dx + dy * dy;
            if !(dx == 0 && dy == 0) && d2 <= r * r {
                if d2 <= 2 {
                    band0.push((dx, dy));
                } else if d2 <= 6 {
                    band1.push((dx, dy));
                } else {
                    band2.push((dx, dy));
                }
            }
            dx = dx + 1;
        }
        assert((dy + r) * w + w == (dy + 1 + r) * w) by (nonlinear_arith);
        dy = dy + 1;
    }
    proof {
        lemma_band_lens(gr, w * w);
    }
    let n0 = band0.len();
    let n1 = band1.len();
    let n2 = band2.len();
    assert((2 * r + 1) * w == w * w);
    let mut offsets = band0;
    let mut b1 = band1;
    let mut b2 = band2;
    offsets.append(&mut b1);
    offsets.append(&mut b2);
    DiscOffsets { offsets, band_end: [n0, n0 + n1, n0 + n1 + n2] }
}

/// Which propagation kernel runs: the stochastic byte scatter (the live
/// path) or the retained deterministic blur.
#[derive(Debug, Clone, Copy, PartialEq, Eq)]
pub enum GrassPropagation {
    Scatter,
    Blur,
}

impl Default for GrassPropagation {
    fn default() -> (r: Self)
        ensures
            r == GrassPropagation::Blur,
    {
        GrassPropagation::Blur
    }
}

/// The grass field: density bytes, row bitset, tile bookkeeping and the mip
/// pyramid. Bitsets hold one bit per row or tile in `u64` words.
#[derive(Debug)]
pub struct GrassGrid {
    /// Cells per axis.
    pub grass_dim: usize,
    /// Toroidal world (neighbours wrap) or walled.
    pub wrap_world: bool,
    /// One byte per cell, row-major.
    pub density: Vec<u8>,
    /// Bit `iy` set when row `iy` holds a cell with grass (as of the last rebuild).
    pub row_has_density: Vec<u64>,
    /// Tiles per axis: `ceil(grass_dim / GRASS_TILE_SIZE)`.
    pub tiles_per_axis: usize,
    /// Tiles the next propagation pass processes.
    pub tile_active: Vec<u64>,
    /// The active set being built during a pass, for the pass after.
    pub tile_active_next: Vec<u64>,
    /// Per snapshot slot: tiles changed since that slot was last written.
    pub tile_dirty: [Vec<u64>; 2],
    /// Equilibrium class of each tile.
    pub tile_class: Vec<u8>,
    /// Kernel selector.
    pub propagation: GrassPropagation,
    /// World seed for the scatter hash draws.
    pub world_seed: u32,
    /// Tick for the scatter hash draws.
    pub scatter_tick: u32,
    /// Mip pyramid over `density`.
    pub pyramid: GrassPyramid,
    /// Whether the scatter kernel times itself.
    pub profile_scatter: bool,
}

impl GrassGrid {
    /// Cells in all.
    pub open spec fn cell_count(&self) -> int {
        self.grass_dim * self.grass_dim
    }

    /// Tiles in all.
    pub open spec fn tile_count(&self) -> int {
        self.tiles_per_axis * self.tiles_per_axis
    }

    /// Buffer sizes agree with the dimensions.
    pub open spec fn wf(&self) -> bool {
        &&& self.grass_dim * self.grass_dim <= usize::MAX
        &&& self.density@.len() == self.cell_count()
        &&& self.row_has_density@.len() == div_ceil(self.grass_dim as int, 64)
        &&& self.tiles_per_axis == div_ceil(self.grass_dim as int, GRASS_TILE_SIZE as int)
        &&& self.tile_active@.len() == div_ceil(self.tile_count(), 64)
        &&& self.tile_active_next@.len() == div_ceil(self.tile_count(), 64)
        &&& self.tile_dirty[0]@.len() == div_ceil(self.tile_count(), 64)
        &&& self.tile_dirty[1]@.len() == div_ceil(self.tile_count(), 64)
        &&& self.tile_class@.len() == self.tile_count()
        &&& self.pyramid.wf()
        &&& self.pyramid.level_dims@[0] == (self.grass_dim, self.grass_dim)
    }

    /// The row bitset matches the field: bit `iy` is set exactly for the rows
    /// of the grid that hold grass.
    pub open spec fn rows_current(&self) -> bool {
        forall|j: int| #[trigger] bit_of(self.row_has_density@, j)
            == (0 <= j < self.grass_dim && row_has_grass(self.density@, self.grass_dim as int, j))
    }

    /// Size facts that follow from `wf`.
    pub proof fn lemma_sizes(&self)
        requires
            self.wf(),
        ensures
            self.tiles_per_axis <= self.grass_dim,
            self.tiles_per_axis * GRASS_TILE_SIZE >= self.grass_dim,
            self.tile_count() <= self.cell_count(),
            self.tile_count() <= usize::MAX,
            self.tile_active@.len() * 64 >= self.tile_count(),
            self.row_has_density@.len() * 64 >= self.grass_dim,
            self.tile_count() >= 0,
            self.tiles_per_axis * GRASS_TILE_SIZE <= self.grass_dim + 31,
            self.grass_dim + 64 <= usize::MAX,
    {
        let d = self.grass_dim as int;
        assert(d + 64 <= usize::MAX) by (nonlinear_arith)
            requires
                d * d <= usize::MAX,
                d >= 0,
        ;
        assert(self.tiles_per_axis * 32 <= d + 31) by (nonlinear_arith)
            requires
                self.tiles_per_axis == (d + 31) / 32,
                d >= 0,
        ;
        lemma_div_ceil_bounds(self.grass_dim as int, GRASS_TILE_SIZE as int);
        lemma_div_ceil_bounds(self.grass_dim as int, 64);
        let tpa = self.tiles_per_axis as int;
        let dim = self.grass_dim as int;
        assert(tpa * tpa <= dim * dim) by (nonlinear_arith)
            requires
                0 <= tpa <= dim,
        ;
        assert(tpa * tpa >= 0) by (nonlinear_arith);
        lemma_div_ceil_bounds(self.tile_count(), 64);
    }

    /// Everything but the tile bookkeeping is as in `other`.
    pub open spec fn same_field(&self, other: &GrassGrid) -> bool {
        &&& self.grass_dim == other.grass_dim
        &&& self.wrap_world == other.wrap_world
        &&& self.density@ == other.density@
        &&& self.row_has_density@ == other.row_has_density@
        &&& self.tiles_per_axis == other.tiles_per_axis
        &&& self.propagation == other.propagation
        &&& self.world_seed == other.world_seed
        &&& self.scatter_tick == other.scatter_tick
        &&& self.pyramid == other.pyramid
        &&& self.profile_scatter == other.profile_scatter
    }
}

/// The cells holding grass.
pub open spec fn grassy_cells(density: Seq<u8>) -> Set<int> {
    Set::new(|c: int| 0 <= c < density.len() && density[c] != 0)
}

/// Whether `j` is one of `tiles`.
pub open spec fn listed(tiles: Seq<usize>, j: int) -> bool {
    exists|m: int| 0 <= m < tiles.len() && tiles[m] as int == j
}

/// Tile classes after assigning `classes[i]` to tile `tiles[i]` for the
/// first `k` pairs, in order.
pub open spec fn classes_after(class: Seq<u8>, tiles: Seq<usize>, classes: Seq<u8>, k: int) -> Seq<u8>
    decreases k,
{
    if k <= 0 {
        class
    } else {
        classes_after(class, tiles, classes, k - 1).update(tiles[k - 1] as int, classes[k - 1])
    }
}

/// The byte of a full cell.
pub const GRASS_FULL_BYTE: u8 = 255;

/// The cells `count` seeding draws pick: one `index(cells)` draw each, in
/// order, from stream `s0`.
pub open spec fn seed_picks(s0: SimRng, count: nat, cells: int) -> Seq<usize> {
    Seq::new(count, |k: int| index_draw(s0, k as nat, cells) as usize)
}

impl GrassGrid {
    /// A walled or toroidal grid of `grass_dim × grass_dim` cells in which
    /// exactly the cells listed in `picks` hold their seed byte
    /// `seed_bytes[c]` and every other cell is empty. Every tile is classed
    /// from the field (`full_from[c]` the least byte at which cell `c` counts
    /// as full), the active set holds the frontier tiles and the tiles
    /// bordering another class, and every tile starts dirty for both
    /// snapshot slots.
    pub fn from_seed_picks(
        grass_dim: usize,
        wrap_world: bool,
        seed_bytes: &[u8],
        full_from: &[u8],
        picks: &[usize],
    ) -> (g: GrassGrid)
        requires
            grass_dim * grass_dim <= usize::MAX,
            seed_bytes@.len() == grass_dim * grass_dim,
            full_from@.len() == grass_dim * grass_dim,
            forall|k: int| 0 <= k < picks@.len() ==> #[trigger] picks@[k] < grass_dim * grass_dim,
        ensures
            g.wf(),
            g.grass_dim == grass_dim,
            g.wrap_world == wrap_world,
            forall|c: int| 0 <= c < g.cell_count() ==>
                #[trigger] g.density@[c] == (if picks@.contains(c as usize) { seed_bytes@[c] } else { 0u8 }),
            grassy_cells(g.density@).finite(),
            grassy_cells(g.density@).len() <= picks@.len(),
            g.rows_current(),
            g.tile_class@ == classes_from(g.density@, full_from@, grass_dim as int, g.tiles_per_axis as int),
            forall|j: int| #[trigger] bit_of(g.tile_active@, j) == (0 <= j < g.tile_count()
                && tile_should_be_active(g.tile_class@, g.tiles_per_axis as int, wrap_world, j)),
            forall|j: int| !#[trigger] bit_of(g.tile_active_next@, j),
            forall|j: int| 0 <= j < g.tile_count() ==> #[trigger] bit_of(g.tile_dirty[0]@, j),
            forall|j: int| 0 <= j < g.tile_count() ==> #[trigger] bit_of(g.tile_dirty[1]@, j),
            g.propagation == GrassPropagation::Blur,
            g.world_seed == 0,
            g.scatter_tick == 0,
            !g.profile_scatter,
    {
        let cells = grass_dim * grass_dim;
        let mut density: Vec<u8> = Vec::new();
        let mut c: usize = 0;
        while c < cells
            invariant
                c <= cells,
                density@.len() == c,
                forall|i: int| 0 <= i < c ==> #[trigger] density@[i] == 0,
            decreases cells - c,
        {
            density.push(0);
            c = c + 1;
        }
        let ghost mut chosen: Set<int> = Set::empty();
        let mut k: usize = 0;
        while k < picks.len()
            invariant
                cells == grass_dim * grass_dim,
                seed_bytes@.len() == cells,
                density@.len() == cells,
                k <= picks@.len(),
                forall|j: int| 0 <= j < picks@.len() ==> #[trigger] picks@[j] < cells,
                forall|i: int| 0 <= i < cells ==> #[trigger] density@[i]
                    == (if picks@.subrange(0, k as int).contains(i as usize) { seed_bytes@[i] } else { 0u8 }),
                chosen.finite(),
                chosen.len() <= k,
                grassy_cells(density@).subset_of(chosen),
            decreases picks@.len() - k,
        {
            let idx = picks[k];
            density.set(idx, seed_bytes[idx]);
            proof {
                chosen = chosen.insert(idx as int);
                let before = picks@.subrange(0, k as int);
                let after = picks@.subrange(0, k + 1);
                assert(after =~= before.push(idx));
                assert forall|i: int| 0 <= i < cells implies #[trigger] density@[i]
                    == (if after.contains(i as usize) { seed_bytes@[i] } else { 0u8 }) by {
                    if i == idx as int {
                        assert(after[k as int] == idx);
                    } else if before.contains(i as usize) {
                        let w = choose|w: int| 0 <= w < before.len() && before[w] == i as usize;
                        assert(after[w] == i as usize);
                    } else if after.contains(i as usize) {
                        let w = choose|w: int| 0 <= w < after.len() && after[w] == i as usize;
                        assert(w < k);
                        assert(before[w] == i as usize);
                    }
                }
            }
            k = k + 1;
        }
        proof {
            vstd::set_lib::lemma_len_subset(grassy_cells(density@), chosen);
            assert(picks@.subrange(0, picks@.len() as int) =~= picks@);
        }
        let tpa = grass_dim / GRASS_TILE_SIZE + if grass_dim % GRASS_TILE_SIZE == 0 { 0 } else { 1 };
        proof {
            lemma_div_ceil_bounds(grass_dim as int, GRASS_TILE_SIZE as int);
            lemma_div_ceil_bounds(grass_dim as int, 64);
        }
        assert(tpa <= grass_dim);
        assert(tpa * tpa <= grass_dim * grass_dim) by (nonlinear_arith)
            requires
                tpa <= grass_dim,
        ;
        let ntiles = tpa * tpa;
        let tile_words = ntiles / 64 + if ntiles % 64 == 0 { 0 } else { 1 };
        let row_words = grass_dim / 64 + if grass_dim % 64 == 0 { 0 } else { 1 };
        let mut tile_class: Vec<u8> = Vec::new();
        let mut t: usize = 0;
        while t < ntiles
            invariant
                t <= ntiles,
                tile_class@.len() == t,
                forall|i: int| 0 <= i < t ==> #[trigger] tile_class@[i] == TILE_EMPTY,
            decreases ntiles - t,
        {
            tile_class.push(TILE_EMPTY);
            t = t + 1;
        }
        let mut g = GrassGrid {
            grass_dim,
            wrap_world,
            density,
            row_has_density: bitset_new(row_words),
            tiles_per_axis: tpa,
            tile_active: bitset_new(tile_words),
            tile_active_next: bitset_new(tile_words),
            tile_dirty: [bitset_new(tile_words), bitset_new(tile_words)],
            tile_class,
            propagation: GrassPropagation::Blur,
            world_seed: 0,
            scatter_tick: 0,
            pyramid: GrassPyramid::new(grass_dim),
            profile_scatter: false,
        };
        g.rebuild_row_bitset();
        g.resync_active_from_density(full_from);
        g.mark_all_tiles_dirty();
        g
    }

    /// A walled or toroidal grid of `grass_dim × grass_dim` cells seeded by
    /// `initial_seed_count` draws of `rng` (one `index` draw over all cells
    /// each): exactly the drawn cells hold their seed byte `seed_bytes[c]`
    /// (the byte of the cell's carrying capacity), every other cell is
    /// empty. Every tile is then classed from the field (`full_from[c]` the
    /// least byte at which cell `c` counts as full), the active set holds the
    /// frontier tiles and the tiles bordering another class, and every tile
    /// starts dirty for both snapshot slots.
    pub fn new_with_capacity(
        rng: &mut SimRng,
        initial_seed_count: u32,
        grass_dim: usize,
        wrap_world: bool,
        seed_bytes: &[u8],
        full_from: &[u8],
    ) -> (g: GrassGrid)
        requires
            grass_dim * grass_dim <= usize::MAX,
            seed_bytes@.len() == grass_dim * grass_dim,
            full_from@.len() == grass_dim * grass_dim,
            initial_seed_count > 0 ==> grass_dim > 0,
        ensures
            g.wf(),
            g.grass_dim == grass_dim,
            g.wrap_world == wrap_world,
            ({
                let picks = seed_picks(*old(rng), initial_seed_count as nat, grass_dim * grass_dim);
                forall|c: int| 0 <= c < g.cell_count() ==>
                    #[trigger] g.density@[c] == (if picks.contains(c as usize) { seed_bytes@[c] } else { 0u8 })
            }),
            *final(rng) == stream_after(*old(rng), initial_seed_count as nat),
            grassy_cells(g.density@).finite(),
            grassy_cells(g.density@).len() <= initial_seed_count,
            g.rows_current(),
            g.tile_class@ == classes_from(g.density@, full_from@, grass_dim as int, g.tiles_per_axis as int),
            forall|j: int| #[trigger] bit_of(g.tile_active@, j) == (0 <= j < g.tile_count()
                && tile_should_be_active(g.tile_class@, g.tiles_per_axis as int, wrap_world, j)),
            forall|j: int| !#[trigger] bit_of(g.tile_active_next@, j),
            forall|j: int| 0 <= j < g.tile_count() ==> #[trigger] bit_of(g.tile_dirty[0]@, j),
            forall|j: int| 0 <= j < g.tile_count() ==> #[trigger] bit_of(g.tile_dirty[1]@, j),
            g.propagation == GrassPropagation::Blur,
            g.world_seed == 0,
            g.scatter_tick == 0,
            !g.profile_scatter,
    {
        let cells = grass_dim * grass_dim;
        assert(initial_seed_count > 0 ==> cells > 0) by (nonlinear_arith)
            requires
                cells == grass_dim * grass_dim,
                initial_seed_count > 0 ==> grass_dim > 0,
        ;
        let mut picks: Vec<usize> = Vec::new();
        let mut k: u32 = 0;
        while k < initial_seed_count
            invariant
                cells == grass_dim * grass_dim,
                initial_seed_count > 0 ==> cells > 0,
                k <= initial_seed_count,
                picks@ == seed_picks(*old(rng), k as nat, cells as int),
                *rng == stream_after(*old(rng), k as nat),
                forall|j: int| 0 <= j < picks@.len() ==> #[trigger] picks@[j] < cells,
            decreases initial_seed_count - k,
        {
            assert(cells > 0) by {
                assert(0 < initial_seed_count);
            }
            let idx = rng.index(cells);
            proof {
                assert(idx as int == index_draw(*old(rng), k as nat, cells as int));
                assert(picks@.push(idx) =~= seed_picks(*old(rng), (k + 1) as nat, cells as int));
            }
            picks.push(idx);
            k = k + 1;
        }
        let g = GrassGrid::from_seed_picks(grass_dim, wrap_world, seed_bytes, full_from, picks.as_slice());
        assert(picks@.len() == initial_seed_count);
        g
    }

    /// [`GrassGrid::new_with_capacity`] with every cell's capacity a whole
    /// cell: exactly the drawn cells are full, and a cell counts as full from
    /// [`GRASS_FULL_FROM_BYTE`] on.
    pub fn new(rng: &mut SimRng, initial_seed_count: u32, grass_dim: usize, wrap_world: bool) -> (g: GrassGrid)
        requires
            grass_dim * grass_dim <= usize::MAX,
            initial_seed_count > 0 ==> grass_dim > 0,
        ensures
            g.wf(),
            g.grass_dim == grass_dim,
            g.wrap_world == wrap_world,
            ({
                let picks = seed_picks(*old(rng), initial_seed_count as nat, grass_dim * grass_dim);
                forall|c: int| 0 <= c < g.cell_count() ==>
                    #[trigger] g.density@[c] == (if picks.contains(c as usize) { GRASS_FULL_BYTE } else { 0u8 })
            }),
            *final(rng) == stream_after(*old(rng), initial_seed_count as nat),
            grassy_cells(g.density@).finite(),
            grassy_cells(g.density@).len() <= initial_seed_count,
            g.rows_current(),
            g.tile_class@ == classes_from(g.density@, uniform(g.cell_count(), GRASS_FULL_FROM_BYTE),
                grass_dim as int, g.tiles_per_axis as int),
            forall|j: int| #[trigger] bit_of(g.tile_active@, j) == (0 <= j < g.tile_count()
                && tile_should_be_active(g.tile_class@, g.tiles_per_axis as int, wrap_world, j)),
            forall|j: int| !#[trigger] bit_of(g.tile_active_next@, j),
            forall|j: int| 0 <= j < g.tile_count() ==> #[trigger] bit_of(g.tile_dirty[0]@, j),
            forall|j: int| 0 <= j < g.tile_count() ==> #[trigger] bit_of(g.tile_dirty[1]@, j),
    {
        let cells = grass_dim * grass_dim;
        let mut full: Vec<u8> = Vec::new();
        let mut full_from: Vec<u8> = Vec::new();
        let mut c: usize = 0;
        while c < cells
            invariant
                c <= cells,
                full@.len() == c,
                full_from@.len() == c,
                forall|i: int| 0 <= i < c ==> #[trigger] full@[i] == GRASS_FULL_BYTE,
                forall|i: int| 0 <= i < c ==> #[trigger] full_from@[i] == GRASS_FULL_FROM_BYTE,
            decreases cells - c,
        {
            full.push(GRASS_FULL_BYTE);
            full_from.push(GRASS_FULL_FROM_BYTE);
            c = c + 1;
        }
        proof {
            assert(full_from@ =~= uniform(cells as int, GRASS_FULL_FROM_BYTE));
        }
        GrassGrid::new_with_capacity(rng, initial_seed_count, grass_dim, wrap_world, full.as_slice(), full_from.as_slice())
    }

    /// Recompute the row bitset from the field: bit `iy` is set exactly when
    /// row `iy` holds a cell with grass.
    pub fn rebuild_row_bitset(&mut self)
        requires
            old(self).grass_dim * old(self).grass_dim <= usize::MAX,
            old(self).density@.len() == old(self).grass_dim * old(self).grass_dim,
        ensures
            final(self).rows_current(),
            final(self).row_has_density@.len() == div_ceil(old(self).grass_dim as int, 64),
            final(self).grass_dim == old(self).grass_dim,
            final(self).wrap_world == old(self).wrap_world,
            final(self).density@ == old(self).density@,
            final(self).tiles_per_axis == old(self).tiles_per_axis,
            final(self).tile_active@ == old(self).tile_active@,
            final(self).tile_active_next@ == old(self).tile_active_next@,
            final(self).tile_dirty[0]@ == old(self).tile_dirty[0]@,
            final(self).tile_dirty[1]@ == old(self).tile_dirty[1]@,
            final(self).tile_class@ == old(self).tile_class@,
            final(self).propagation == old(self).propagation,
            final(self).world_seed == old(self).world_seed,
            final(self).scatter_tick == old(self).scatter_tick,
            final(self).pyramid == old(self).pyramid,
            final(self).profile_scatter == old(self).profile_scatter,
    {
        let dim = self.grass_dim;
        let words = dim / 64 + if dim % 64 == 0 { 0 } else { 1 };
        self.row_has_density = bitset_new(words);
        proof {
            lemma_div_ceil_bounds(dim as int, 64);
        }
        let mut iy: usize = 0;
        while iy < dim
            invariant
                dim == self.grass_dim,
                dim * dim <= usize::MAX,
                self.density@.len() == dim * dim,
                self.density@ == old(self).density@,
                self.row_has_density@.len() == words,
                words == div_ceil(dim as int, 64),
                words * 64 >= dim,
                iy <= dim,
                forall|j: int| #[trigger] bit_of(self.row_has_density@, j)
                    == (0 <= j < iy && row_has_grass(self.density@, dim as int, j)),
                self.wrap_world == old(self).wrap_world,
                self.tiles_per_axis == old(self).tiles_per_axis,
                self.tile_active@ == old(self).tile_active@,
                self.tile_active_next@ == old(self).tile_active_next@,
                self.tile_dirty[0]@ == old(self).tile_dirty[0]@,
                self.tile_dirty[1]@ == old(self).tile_dirty[1]@,
                self.tile_class@ == old(self).tile_class@,
                self.propagation == old(self).propagation,
                self.world_seed == old(self).world_seed,
                self.scatter_tick == old(self).scatter_tick,
                self.pyramid == old(self).pyramid,
                self.profile_scatter == old(self).profile_scatter,
            decreases dim - iy,
        {
            assert(iy * dim + dim <= dim * dim) by (nonlinear_arith)
                requires
                    iy < dim,
            ;
            let row_off = iy * dim;
            let mut any = false;
            let mut ix: usize = 0;
            while ix < dim
                invariant
                    dim * dim <= usize::MAX,
                    self.density@.len() == dim * dim,
                    iy < dim,
                    row_off == iy * dim,
                    row_off + dim <= dim * dim,
                    ix <= dim,
                    any == exists|x: int| 0 <= x < ix && #[trigger] cell_at(self.density@, dim as int, x, iy as int) > 0,
                decreases dim - ix,
            {
                if self.density[row_off + ix] > 0 {
                    assert(cell_at(self.density@, dim as int, ix as int, iy as int) > 0);
                    any = true;
                }
                ix = ix + 1;
            }
            if any {
                assert(iy / 64 < words) by (nonlinear_arith)
                    requires
                        iy < dim,
                        words * 64 >= dim,
                ;
                bitset_set(&mut self.row_has_density, iy);
            }
            iy = iy + 1;
        }
    }

    /// Mark every tile dirty for both snapshot slots, so the next quantize of
    /// either slot rewrites the whole grass region.
    pub fn mark_all_tiles_dirty(&mut self)
        ensures
            final(self).tile_dirty[0]@.len() == old(self).tile_dirty[0]@.len(),
            final(self).tile_dirty[1]@.len() == old(self).tile_dirty[1]@.len(),
            forall|j: int| #[trigger] bit_of(final(self).tile_dirty[0]@, j)
                == (0 <= j && j / 64 < old(self).tile_dirty[0]@.len()),
            forall|j: int| #[trigger] bit_of(final(self).tile_dirty[1]@, j)
                == (0 <= j && j / 64 < old(self).tile_dirty[1]@.len()),
            final(self).same_field(old(self)),
            final(self).tile_active@ == old(self).tile_active@,
            final(self).tile_active_next@ == old(self).tile_active_next@,
            final(self).tile_class@ == old(self).tile_class@,
    {
        bitset_fill(&mut self.tile_dirty[0], true);
        bitset_fill(&mut self.tile_dirty[1], true);
    }

    /// The density byte of cell `idx`.
    pub fn dget_u8(&self, idx: usize) -> (b: u8)
        requires
            idx < self.density@.len(),
        ensures
            b == self.density@[idx as int],
    {
        self.density[idx]
    }

    /// Store byte `b` into cell `idx`; nothing else changes (the row bitset
    /// and tile sets are refreshed by their own passes).
    pub fn dset_u8(&mut self, idx: usize, b: u8)
        requires
            idx < old(self).density@.len(),
        ensures
            final(self).density@ == old(self).density@.update(idx as int, b),
            final(self).grass_dim == old(self).grass_dim,
            final(self).row_has_density@ == old(self).row_has_density@,
            final(self).tiles_per_axis == old(self).tiles_per_axis,
            final(self).tile_active@ == old(self).tile_active@,
            final(self).tile_active_next@ == old(self).tile_active_next@,
            final(self).tile_dirty[0]@ == old(self).tile_dirty[0]@,
            final(self).tile_dirty[1]@ == old(self).tile_dirty[1]@,
            final(self).tile_class@ == old(self).tile_class@,
            final(self).pyramid == old(self).pyramid,
            final(self).wrap_world == old(self).wrap_world,
    {
        self.density.set(idx, b);
    }

    /// Store byte `b` into every cell.
    pub fn fill_density_u8(&mut self, b: u8)
        ensures
            final(self).density@.len() == old(self).density@.len(),
            forall|c: int| 0 <= c < old(self).density@.len() ==> #[trigger] final(self).density@[c] == b,
            final(self).grass_dim == old(self).grass_dim,
            final(self).row_has_density@ == old(self).row_has_density@,
            final(self).tiles_per_axis == old(self).tiles_per_axis,
            final(self).tile_active@ == old(self).tile_active@,
            final(self).tile_active_next@ == old(self).tile_active_next@,
            final(self).tile_dirty[0]@ == old(self).tile_dirty[0]@,
            final(self).tile_dirty[1]@ == old(self).tile_dirty[1]@,
            final(self).tile_class@ == old(self).tile_class@,
            final(self).pyramid == old(self).pyramid,
            final(self).wrap_world == old(self).wrap_world,
    {
        let mut c: usize = 0;
        while c < self.density.len()
            invariant
                self.density@.len() == old(self).density@.len(),
                c <= self.density@.len(),
                forall|i: int| 0 <= i < c ==> #[trigger] self.density@[i] == b,
                self.grass_dim == old(self).grass_dim,
                self.row_has_density@ == old(self).row_has_density@,
                self.tiles_per_axis == old(self).tiles_per_axis,
                self.tile_active@ == old(self).tile_active@,
                self.tile_active_next@ == old(self).tile_active_next@,
                self.tile_dirty[0]@ == old(self).tile_dirty[0]@,
                self.tile_dirty[1]@ == old(self).tile_dirty[1]@,
                self.tile_class@ == old(self).tile_class@,
                self.pyramid == old(self).pyramid,
                self.wrap_world == old(self).wrap_world,
            decreases self.density@.len() - c,
        {
            self.density.set(c, b);
            c = c + 1;
        }
    }

    /// A copy of the whole field's bytes.
    pub fn density_u8_snapshot(&self) -> (v: Vec<u8>)
        ensures
            v@ == self.density@,
    {
        let mut v: Vec<u8> = Vec::new();
        let mut c: usize = 0;
        while c < self.density.len()
            invariant
                c <= self.density@.len(),
                v@ == self.density@.subrange(0, c as int),
            decreases self.density@.len() - c,
        {
            v.push(self.density[c]);
            c = c + 1;
            assert(v@ =~= self.density@.subrange(0, c as int));
        }
        assert(v@ =~= self.density@);
        v
    }

    /// The tile holding cell `cell_idx`.
    pub fn tile_of_cell(&self, cell_idx: usize) -> (t: usize)
        requires
            self.wf(),
            cell_idx < self.cell_count(),
        ensures
            t == tile_of(self.grass_dim as int, self.tiles_per_axis as int, cell_idx as int),
            t < self.tile_count(),
    {
        let dim = self.grass_dim;
        let tpa = self.tiles_per_axis;
        proof {
            lemma_div_ceil_bounds(dim as int, GRASS_TILE_SIZE as int);
            assert(dim > 0) by (nonlinear_arith)
                requires
                    cell_idx < dim * dim,
            ;
            assert(tpa * tpa <= dim * dim) by (nonlinear_arith)
                requires
                    tpa <= dim,
            ;
            lemma_cell_tile_bounds(dim as int, tpa as int, cell_idx as int);
        }
        let ix = cell_idx % dim;
        let iy = cell_idx / dim;
        let tx = ix / GRASS_TILE_SIZE;
        let ty = iy / GRASS_TILE_SIZE;
        ty * tpa + tx
    }

    /// Set the active bit and both dirty bits of the tile at offset
    /// `(dx, dy)` from tile `t`, if there is one.
    fn activate_neighbour(&mut self, t: usize, dy: i8, dx: i8)
        requires
            old(self).wf(),
            t < old(self).tile_count(),
            -1 <= dy <= 1,
            -1 <= dx <= 1,
        ensures
            final(self).wf(),
            final(self).same_field(old(self)),
            final(self).tile_class@ == old(self).tile_class@,
            final(self).tile_active_next@ == old(self).tile_active_next@,
            forall|j: int| #[trigger] bit_of(final(self).tile_active@, j) == (bit_of(old(self).tile_active@, j)
                || fringe_tile(old(self).tiles_per_axis as int, old(self).wrap_world, t as int, dy as int, dx as int) == Some(j)),
            forall|j: int| #[trigger] bit_of(final(self).tile_dirty[0]@, j) == (bit_of(old(self).tile_dirty[0]@, j)
                || fringe_tile(old(self).tiles_per_axis as int, old(self).wrap_world, t as int, dy as int, dx as int) == Some(j)),
            forall|j: int| #[trigger] bit_of(final(self).tile_dirty[1]@, j) == (bit_of(old(self).tile_dirty[1]@, j)
                || fringe_tile(old(self).tiles_per_axis as int, old(self).wrap_world, t as int, dy as int, dx as int) == Some(j)),
    {
        let tpa = self.tiles_per_axis;
        proof {
            self.lemma_sizes();
            assert(tpa > 0) by (nonlinear_arith)
                requires
                    t < tpa * tpa,
            ;
        }
        let ty = t / tpa;
        let tx = t % tpa;
        assert(ty < tpa) by (nonlinear_arith)
            requires
                t < tpa * tpa,
                ty == t / tpa,
                tpa > 0,
        ;
        let oy = step_coord_exec(ty, dy, tpa, self.wrap_world);
        let ox = step_coord_exec(tx, dx, tpa, self.wrap_world);
        match (oy, ox) {
            (Some(ny), Some(nx)) => {
                assert(ny * tpa + nx < tpa * tpa) by (nonlinear_arith)
                    requires
                        ny < tpa,
                        nx < tpa,
                ;
                let nt = ny * tpa + nx;
                assert(nt / 64 < self.tile_active@.len());
                bitset_set(&mut self.tile_active, nt);
                bitset_set(&mut self.tile_dirty[0], nt);
                bitset_set(&mut self.tile_dirty[1], nt);
            },
            _ => {},
        }
    }

    /// Mark tile `t` and its (up to) eight neighbours active and dirty for
    /// both snapshot slots; neighbours wrap on a torus and stop at walls.
    fn activate_tile_and_fringe(&mut self, t: usize)
        requires
            old(self).wf(),
            t < old(self).tile_count(),
        ensures
            final(self).wf(),
            final(self).same_field(old(self)),
            final(self).tile_class@ == old(self).tile_class@,
            final(self).tile_active_next@ == old(self).tile_active_next@,
            forall|j: int| #[trigger] bit_of(final(self).tile_active@, j) == (bit_of(old(self).tile_active@, j)
                || in_fringe(old(self).tiles_per_axis as int, old(self).wrap_world, t as int, j)),
            forall|j: int| #[trigger] bit_of(final(self).tile_dirty[0]@, j) == (bit_of(old(self).tile_dirty[0]@, j)
                || in_fringe(old(self).tiles_per_axis as int, old(self).wrap_world, t as int, j)),
            forall|j: int| #[trigger] bit_of(final(self).tile_dirty[1]@, j) == (bit_of(old(self).tile_dirty[1]@, j)
                || in_fringe(old(self).tiles_per_axis as int, old(self).wrap_world, t as int, j)),
    {
        self.activate_neighbour(t, -1, -1);
        self.activate_neighbour(t, -1, 0);
        self.activate_neighbour(t, -1, 1);
        self.activate_neighbour(t, 0, -1);
        self.activate_neighbour(t, 0, 0);
        self.activate_neighbour(t, 0, 1);
        self.activate_neighbour(t, 1, -1);
        self.activate_neighbour(t, 1, 0);
        self.activate_neighbour(t, 1, 1);
    }

    /// Mark the tile holding cell `cell_idx` as a moving frontier and
    /// activate it with its neighbours (dirty for both slots), so a grazed
    /// cell regrows in the next pass and is re-sent with the next snapshots.
    pub fn mark_tile_active(&mut self, cell_idx: usize)
        requires
            old(self).wf(),
            cell_idx < old(self).cell_count(),
        ensures
            final(self).wf(),
            final(self).same_field(old(self)),
            ({
                let t = tile_of(old(self).grass_dim as int, old(self).tiles_per_axis as int, cell_idx as int);
                let tpa = old(self).tiles_per_axis as int;
                let wrap = old(self).wrap_world;
                &&& final(self).tile_class@ == old(self).tile_class@.update(t, TILE_MIXED)
                &&& forall|j: int| #[trigger] bit_of(final(self).tile_active@, j)
                    == (bit_of(old(self).tile_active@, j) || in_fringe(tpa, wrap, t, j))
                &&& forall|j: int| #[trigger] bit_of(final(self).tile_dirty[0]@, j)
                    == (bit_of(old(self).tile_dirty[0]@, j) || in_fringe(tpa, wrap, t, j))
                &&& forall|j: int| #[trigger] bit_of(final(self).tile_dirty[1]@, j)
                    == (bit_of(old(self).tile_dirty[1]@, j) || in_fringe(tpa, wrap, t, j))
            }),
            final(self).tile_active_next@ == old(self).tile_active_next@,
    {
        let t = self.tile_of_cell(cell_idx);
        self.tile_class.set(t, TILE_MIXED);
        self.activate_tile_and_fringe(t);
    }

    /// Take a bite of up to `chunk_bytes` (at least 1) from cell `cell_idx`;
    /// returns the bytes taken. An empty cell gives nothing and nothing
    /// changes; otherwise the cell loses what was taken and its tile becomes a
    /// moving frontier, active with its neighbours and dirty for both slots.
    pub fn consume_bytes(&mut self, cell_idx: usize, chunk_bytes: u8) -> (taken: u8)
        requires
            old(self).wf(),
            cell_idx < old(self).cell_count(),
        ensures
            final(self).wf(),
            ({
                let cur = old(self).density@[cell_idx as int];
                let chunk = if chunk_bytes < 1 { 1u8 } else { chunk_bytes };
                let t = tile_of(old(self).grass_dim as int, old(self).tiles_per_axis as int, cell_idx as int);
                let tpa = old(self).tiles_per_axis as int;
                let wrap = old(self).wrap_world;
                if cur == 0 {
                    &&& taken == 0
                    &&& *final(self) == *old(self)
                } else {
                    &&& taken == (if cur < chunk { cur } else { chunk })
                    &&& final(self).density@ == old(self).density@.update(cell_idx as int, (cur - taken) as u8)
                    &&& final(self).tile_class@ == old(self).tile_class@.update(t, TILE_MIXED)
                    &&& forall|j: int| #[trigger] bit_of(final(self).tile_active@, j)
                        == (bit_of(old(self).tile_active@, j) || in_fringe(tpa, wrap, t, j))
                    &&& forall|j: int| #[trigger] bit_of(final(self).tile_dirty[0]@, j)
                        == (bit_of(old(self).tile_dirty[0]@, j) || in_fringe(tpa, wrap, t, j))
                    &&& forall|j: int| #[trigger] bit_of(final(self).tile_dirty[1]@, j)
                        == (bit_of(old(self).tile_dirty[1]@, j) || in_fringe(tpa, wrap, t, j))
                    &&& final(self).tile_active_next@ == old(self).tile_active_next@
                    &&& final(self).row_has_density@ == old(self).row_has_density@
                    &&& final(self).grass_dim == old(self).grass_dim
                    &&& final(self).wrap_world == old(self).wrap_world
                    &&& final(self).tiles_per_axis == old(self).tiles_per_axis
                    &&& final(self).pyramid == old(self).pyramid
                }
            }),
    {
        let cur = self.density[cell_idx];
        if cur == 0 {
            return 0;
        }
        let chunk: u8 = if chunk_bytes < 1 { 1 } else { chunk_bytes };
        let taken: u8 = if cur < chunk { cur } else { chunk };
        self.density.set(cell_idx, cur - taken);
        self.mark_tile_active(cell_idx);
        taken
    }

    /// Record the equilibrium class of tile `t` (as classified from the field).
    pub fn set_tile_class(&mut self, t: usize, class: u8)
        requires
            old(self).wf(),
            t < old(self).tile_count(),
        ensures
            final(self).wf(),
            final(self).same_field(old(self)),
            final(self).tile_class@ == old(self).tile_class@.update(t as int, class),
            final(self).tile_active@ == old(self).tile_active@,
            final(self).tile_active_next@ == old(self).tile_active_next@,
            final(self).tile_dirty[0]@ == old(self).tile_dirty[0]@,
            final(self).tile_dirty[1]@ == old(self).tile_dirty[1]@,
    {
        self.tile_class.set(t, class);
    }

    fn neighbour_differs(&self, t: usize, dy: i8, dx: i8) -> (r: bool)
        requires
            self.wf(),
            t < self.tile_count(),
            -1 <= dy <= 1,
            -1 <= dx <= 1,
        ensures
            r == differs(
                self.tile_class@,
                t as int,
                fringe_tile(self.tiles_per_axis as int, self.wrap_world, t as int, dy as int, dx as int),
            ),
    {
        let tpa = self.tiles_per_axis;
        proof {
            self.lemma_sizes();
            assert(tpa > 0) by (nonlinear_arith)
                requires
                    t < tpa * tpa,
            ;
        }
        let ty = t / tpa;
        let tx = t % tpa;
        assert(ty < tpa) by (nonlinear_arith)
            requires
                t < tpa * tpa,
                ty == t / tpa,
                tpa > 0,
        ;
        let oy = step_coord_exec(ty, dy, tpa, self.wrap_world);
        let ox = step_coord_exec(tx, dx, tpa, self.wrap_world);
        match (oy, ox) {
            (Some(ny), Some(nx)) => {
                assert(ny * tpa + nx < tpa * tpa) by (nonlinear_arith)
                    requires
                        ny < tpa,
                        nx < tpa,
                ;
                self.tile_class[ny * tpa + nx] != self.tile_class[t]
            },
            _ => false,
        }
    }

    /// Whether some neighbour of tile `t` (wrapping on a torus) has a class
    /// other than `t`'s.
    pub fn borders_different_class(&self, t: usize) -> (r: bool)
        requires
            self.wf(),
            t < self.tile_count(),
        ensures
            r == borders_other_class(self.tile_class@, self.tiles_per_axis as int, self.wrap_world, t as int),
    {
        self.neighbour_differs(t, -1, -1) || self.neighbour_differs(t, -1, 0)
            || self.neighbour_differs(t, -1, 1) || self.neighbour_differs(t, 0, -1)
            || self.neighbour_differs(t, 0, 1) || self.neighbour_differs(t, 1, -1)
            || self.neighbour_differs(t, 1, 0) || self.neighbour_differs(t, 1, 1)
    }

    /// Rebuild the active set from the tile classes: a tile is active (and
    /// dirty for both slots) exactly when it is a frontier tile or borders a
    /// tile of another class; every other bit of the three sets is cleared.
    pub fn rebuild_active_from_class(&mut self)
        requires
            old(self).wf(),
        ensures
            final(self).wf(),
            final(self).same_field(old(self)),
            final(self).tile_class@ == old(self).tile_class@,
            final(self).tile_active_next@ == old(self).tile_active_next@,
            forall|j: int| #[trigger] bit_of(final(self).tile_active@, j) == (0 <= j < old(self).tile_count()
                && tile_should_be_active(old(self).tile_class@, old(self).tiles_per_axis as int, old(self).wrap_world, j)),
            forall|j: int| #[trigger] bit_of(final(self).tile_dirty[0]@, j) == (0 <= j < old(self).tile_count()
                && tile_should_be_active(old(self).tile_class@, old(self).tiles_per_axis as int, old(self).wrap_world, j)),
            forall|j: int| #[trigger] bit_of(final(self).tile_dirty[1]@, j) == (0 <= j < old(self).tile_count()
                && tile_should_be_active(old(self).tile_class@, old(self).tiles_per_axis as int, old(self).wrap_world, j)),
    {
        bitset_fill(&mut self.tile_active, false);
        bitset_fill(&mut self.tile_dirty[0], false);
        bitset_fill(&mut self.tile_dirty[1], false);
        proof {
            self.lemma_sizes();
        }
        let ntiles = self.tiles_per_axis * self.tiles_per_axis;
        let ghost class = self.tile_class@;
        let ghost tpa = self.tiles_per_axis as int;
        let ghost wrap = self.wrap_world;
        let mut t: usize = 0;
        while t < ntiles
            invariant
                self.wf(),
                self.same_field(old(self)),
                self.tile_class@ == class,
                class == old(self).tile_class@,
                tpa == self.tiles_per_axis,
                wrap == self.wrap_world,
                self.tile_active_next@ == old(self).tile_active_next@,
                ntiles == self.tile_count(),
                self.tile_active@.len() * 64 >= ntiles,
                t <= ntiles,
                forall|j: int| #[trigger] bit_of(self.tile_active@, j)
                    == (0 <= j < t && tile_should_be_active(class, tpa, wrap, j)),
                forall|j: int| #[trigger] bit_of(self.tile_dirty[0]@, j)
                    == (0 <= j < t && tile_should_be_active(class, tpa, wrap, j)),
                forall|j: int| #[trigger] bit_of(self.tile_dirty[1]@, j)
                    == (0 <= j < t && tile_should_be_active(class, tpa, wrap, j)),
            decreases ntiles - t,
        {
            let active = self.tile_class[t] == TILE_MIXED || self.borders_different_class(t);
            if active {
                bitset_set(&mut self.tile_active, t);
                bitset_set(&mut self.tile_dirty[0], t);
                bitset_set(&mut self.tile_dirty[1], t);
            }
            t = t + 1;
        }
    }

    /// Close a pass that recomputed the cells of `tiles` (the blur kernel):
    /// tile `tiles[i]` takes class `classes[i]` (in order), every processed
    /// tile becomes dirty for both slots, and the next active set is every
    /// frontier tile and every tile bordering a tile of another class; the
    /// previous active set is left in the active-next buffer.
    pub fn finish_class_pass(&mut self, tiles: &[usize], classes: &[u8])
        requires
            old(self).wf(),
            tiles@.len() == classes@.len(),
            forall|i: int| 0 <= i < tiles@.len() ==> #[trigger] tiles@[i] < old(self).tile_count(),
        ensures
            final(self).wf(),
            final(self).same_field(old(self)),
            final(self).tile_class@ == classes_after(old(self).tile_class@, tiles@, classes@, tiles@.len() as int),
            forall|j: int| #[trigger] bit_of(final(self).tile_dirty[0]@, j)
                == (bit_of(old(self).tile_dirty[0]@, j) || listed(tiles@, j)),
            forall|j: int| #[trigger] bit_of(final(self).tile_dirty[1]@, j)
                == (bit_of(old(self).tile_dirty[1]@, j) || listed(tiles@, j)),
            forall|j: int| #[trigger] bit_of(final(self).tile_active@, j) == (0 <= j < old(self).tile_count()
                && tile_should_be_active(final(self).tile_class@, old(self).tiles_per_axis as int, old(self).wrap_world, j)),
            final(self).tile_active_next@ == old(self).tile_active@,
    {
        proof {
            self.lemma_sizes();
        }
        let mut i: usize = 0;
        while i < tiles.len()
            invariant
                self.wf(),
                self.same_field(old(self)),
                tiles@.len() == classes@.len(),
                forall|m: int| 0 <= m < tiles@.len() ==> #[trigger] tiles@[m] < old(self).tile_count(),
                i <= tiles@.len(),
                self.tile_class@ == classes_after(old(self).tile_class@, tiles@, classes@, i as int),
                self.tile_active@ == old(self).tile_active@,
                self.tile_active_next@ == old(self).tile_active_next@,
                forall|j: int| #[trigger] bit_of(self.tile_dirty[0]@, j)
                    == (bit_of(old(self).tile_dirty[0]@, j) || listed(tiles@.subrange(0, i as int), j)),
                forall|j: int| #[trigger] bit_of(self.tile_dirty[1]@, j)
                    == (bit_of(old(self).tile_dirty[1]@, j) || listed(tiles@.subrange(0, i as int), j)),
            decreases tiles@.len() - i,
        {
            let t = tiles[i];
            proof {
                self.lemma_sizes();
            }
            self.set_tile_class(t, classes[i]);
            bitset_set(&mut self.tile_dirty[0], t);
            bitset_set(&mut self.tile_dirty[1], t);
            proof {
                let before = tiles@.subrange(0, i as int);
                let after = tiles@.subrange(0, i + 1);
                assert(after =~= before.push(t));
                assert forall|j: int| #[trigger] listed(after, j) == (listed(before, j) || j == t as int) by {
                    if listed(before, j) {
                        let w = choose|w: int| 0 <= w < before.len() && before[w] as int == j;
                        assert(after[w] as int == j);
                    }
                    if j == t as int {
                        assert(after[i as int] as int == j);
                    }
                    if listed(after, j) && j != t as int {
                        let w = choose|w: int| 0 <= w < after.len() && after[w] as int == j;
                        assert(after[i as int] == t);
                        assert(w < i);
                        assert(before[w] as int == j);
                    }
                }
            }
            i = i + 1;
        }
        assert(tiles@.subrange(0, tiles@.len() as int) =~= tiles@);
        let ghost cls = self.tile_class@;
        let ghost d0 = self.tile_dirty[0]@;
        let ghost d1 = self.tile_dirty[1]@;
        bitset_fill(&mut self.tile_active_next, false);
        let ntiles = self.tiles_per_axis * self.tiles_per_axis;
        let ghost tpa = self.tiles_per_axis as int;
        let ghost wrap = self.wrap_world;
        let mut t: usize = 0;
        while t < ntiles
            invariant
                self.wf(),
                self.same_field(old(self)),
                self.tile_class@ == cls,
                tpa == self.tiles_per_axis,
                wrap == self.wrap_world,
                self.tile_active@ == old(self).tile_active@,
                self.tile_dirty[0]@ == d0,
                self.tile_dirty[1]@ == d1,
                ntiles == self.tile_count(),
                self.tile_active_next@.len() * 64 >= ntiles,
                t <= ntiles,
                forall|j: int| #[trigger] bit_of(self.tile_active_next@, j)
                    == (0 <= j < t && tile_should_be_active(cls, tpa, wrap, j)),
            decreases ntiles - t,
        {
            let active = self.tile_class[t] == TILE_MIXED || self.borders_different_class(t);
            if active {
                bitset_set(&mut self.tile_active_next, t);
            }
            t = t + 1;
        }
        std::mem::swap(&mut self.tile_active, &mut self.tile_active_next);
    }

    /// Copy the field into the grass region `dst` of snapshot slot
    /// `slot & 1`, tile by tile, for the tiles dirty for that slot, and clear
    /// their dirty bits; clean tiles keep the bytes `dst` already holds.
    pub fn quantize_dirty_tiles_into(&mut self, dst: &mut [u8], slot: usize)
        requires
            old(self).wf(),
            old(dst)@.len() == old(self).cell_count(),
        ensures
            final(self).wf(),
            final(self).same_field(old(self)),
            final(self).tile_class@ == old(self).tile_class@,
            final(self).tile_active@ == old(self).tile_active@,
            final(self).tile_active_next@ == old(self).tile_active_next@,
            final(dst)@.len() == old(dst)@.len(),
            forall|c: int| 0 <= c < old(self).cell_count() ==> #[trigger] final(dst)@[c] == (if bit_of(
                old(self).tile_dirty[(slot % 2) as int]@,
                tile_of(old(self).grass_dim as int, old(self).tiles_per_axis as int, c),
            ) {
                old(self).density@[c]
            } else {
                old(dst)@[c]
            }),
            forall|j: int| #[trigger] bit_of(final(self).tile_dirty[(slot % 2) as int]@, j)
                == (bit_of(old(self).tile_dirty[(slot % 2) as int]@, j) && !(0 <= j < old(self).tile_count())),
            final(self).tile_dirty[1 - (slot % 2) as int]@ == old(self).tile_dirty[1 - (slot % 2) as int]@,
    {
        let s = slot & 1;
        assert(s == slot % 2) by (bit_vector)
            requires
                s == slot & 1,
        ;
        let dim = self.grass_dim;
        let tpa = self.tiles_per_axis;
        proof {
            self.lemma_sizes();
        }
        let ntiles = tpa * tpa;
        let ghost d0 = self.tile_dirty[s as int]@;
        let ghost dst0 = dst@;
        let ghost dens = self.density@;
        let mut t: usize = 0;
        while t < ntiles
            invariant
                self.wf(),
                self.same_field(old(self)),
                self.tile_class@ == old(self).tile_class@,
                self.tile_active@ == old(self).tile_active@,
                self.tile_active_next@ == old(self).tile_active_next@,
                self.tile_dirty[1 - s as int]@ == old(self).tile_dirty[1 - s as int]@,
                s == slot % 2,
                d0 == old(self).tile_dirty[s as int]@,
                dst0 == old(dst)@,
                dens == self.density@,
                dim == self.grass_dim,
                tpa == self.tiles_per_axis,
                ntiles == tpa * tpa,
                tpa <= dim,
                tpa * GRASS_TILE_SIZE >= dim,
                tpa * GRASS_TILE_SIZE <= dim + 31,
                dim + 64 <= usize::MAX,
                dim * dim <= usize::MAX,
                self.tile_dirty[s as int]@.len() * 64 >= ntiles,
                dst@.len() == dim * dim,
                t <= ntiles,
                forall|c: int| 0 <= c < dim * dim ==> #[trigger] dst@[c] == (if tile_of(dim as int, tpa as int, c) < t
                    && bit_of(d0, tile_of(dim as int, tpa as int, c)) {
                    dens[c]
                } else {
                    dst0[c]
                }),
                forall|j: int| #[trigger] bit_of(self.tile_dirty[s as int]@, j) == (bit_of(d0, j) && !(0 <= j < t)),
            decreases ntiles - t,
        {
            if bitset_get(self.tile_dirty[s].as_slice(), t) {
                assert(tpa > 0) by (nonlinear_arith)
                    requires
                        t < tpa * tpa,
                ;
                let tx = t % tpa;
                let ty = t / tpa;
                assert(ty < tpa) by (nonlinear_arith)
                    requires
                        t < tpa * tpa,
                        ty == t / tpa,
                        tpa > 0,
                ;
                assert(tx * 32 < dim && ty * 32 < dim) by (nonlinear_arith)
                    requires
                        tx < tpa,
                        ty < tpa,
                        tpa * 32 <= dim + 31,
                ;
                let ix0 = tx * GRASS_TILE_SIZE;
                let iy0 = ty * GRASS_TILE_SIZE;
                let ix1 = if ix0 + GRASS_TILE_SIZE < dim { ix0 + GRASS_TILE_SIZE } else { dim };
                let iy1 = if iy0 + GRASS_TILE_SIZE < dim { iy0 + GRASS_TILE_SIZE } else { dim };
                proof {
                    assert forall|c: int| 0 <= c < dim * dim implies #[trigger] dst@[c] == (if (tile_of(dim as int, tpa as int, c) < t
                        && bit_of(d0, tile_of(dim as int, tpa as int, c)))
                        || (tile_of(dim as int, tpa as int, c) == t && c / (dim as int) < iy0) {
                        dens[c]
                    } else {
                        dst0[c]
                    }) by {
                        lemma_tile_cells(dim as int, tpa as int, t as int, c);
                    }
                }
                let mut iy = iy0;
                while iy < iy1
                    invariant
                        self.wf(),
                        dens == self.density@,
                        dim == self.grass_dim,
                        tpa == self.tiles_per_axis,
                        dim * dim <= usize::MAX,
                        tpa > 0,
                        tpa * GRASS_TILE_SIZE >= dim,
                        t < tpa * tpa,
                        tx == t % tpa,
                        ty == t / tpa,
                        ix0 == tx * 32,
                        iy0 == ty * 32,
                        ix1 == (if ix0 + 32 < dim { ix0 + 32 } else { dim as int }),
                        iy1 == (if iy0 + 32 < dim { iy0 + 32 } else { dim as int }),
                        bit_of(d0, t as int),
                        dst@.len() == dim * dim,
                        iy0 <= iy <= iy1,
                        forall|c: int| 0 <= c < dim * dim ==> #[trigger] dst@[c] == (if (tile_of(dim as int, tpa as int, c) < t
                            && bit_of(d0, tile_of(dim as int, tpa as int, c)))
                            || (tile_of(dim as int, tpa as int, c) == t && c / (dim as int) < iy) {
                            dens[c]
                        } else {
                            dst0[c]
                        }),
                    decreases iy1 - iy,
                {
                    assert(iy * dim + dim <= dim * dim) by (nonlinear_arith)
                        requires
                            iy < dim,
                    ;
                    let row = iy * dim;
                    let mut ix = ix0;
                    while ix < ix1
                        invariant
                            self.wf(),
                            dens == self.density@,
                            dim == self.grass_dim,
                            tpa == self.tiles_per_axis,
                            dim * dim <= usize::MAX,
                            tpa > 0,
                            tpa * GRASS_TILE_SIZE >= dim,
                            t < tpa * tpa,
                            tx == t % tpa,
                            ty == t / tpa,
                            ix0 == tx * 32,
                            iy0 == ty * 32,
                            ix1 == (if ix0 + 32 < dim { ix0 + 32 } else { dim as int }),
                            iy1 == (if iy0 + 32 < dim { iy0 + 32 } else { dim as int }),
                            bit_of(d0, t as int),
                            dst@.len() == dim * dim,
                            iy0 <= iy < iy1,
                            row == iy * dim,
                            row + dim <= dim * dim,
                            ix0 <= ix <= ix1,
                            forall|c: int| 0 <= c < dim * dim ==> #[trigger] dst@[c] == (if (tile_of(dim as int, tpa as int, c) < t
                                && bit_of(d0, tile_of(dim as int, tpa as int, c)))
                                || (tile_of(dim as int, tpa as int, c) == t && c / (dim as int) < iy)
                                || (c / (dim as int) == iy && ix0 <= c % (dim as int) < ix) {
                                dens[c]
                            } else {
                                dst0[c]
                            }),
                        decreases ix1 - ix,
                    {
                        let c = row + ix;
                        let ghost before = dst@;
                        dst[c] = self.density[c];
                        proof {
                            lemma_row_major_pos(ix as int, iy as int, dim as int);
                            lemma_tile_cells(dim as int, tpa as int, t as int, c as int);
                            assert forall|e: int| 0 <= e < dim * dim implies #[trigger] dst@[e] == (if (tile_of(dim as int, tpa as int, e) < t
                                && bit_of(d0, tile_of(dim as int, tpa as int, e)))
                                || (tile_of(dim as int, tpa as int, e) == t && e / (dim as int) < iy)
                                || (e / (dim as int) == iy && ix0 <= e % (dim as int) < ix + 1) {
                                dens[e]
                            } else {
                                dst0[e]
                            }) by {
                                if e != c {
                                    assert(dst@[e] == before[e]);
                                    if e / (dim as int) == iy && e % (dim as int) == ix {
                                        lemma_row_major_unique(e, c as int, dim as int);
                                    }
                                } else {
                                    assert(tile_of(dim as int, tpa as int, c as int) == t);
                                }
                            }
                        }
                        ix = ix + 1;
                    }
                    proof {
                        assert forall|e: int| 0 <= e < dim * dim implies #[trigger] dst@[e] == (if (tile_of(dim as int, tpa as int, e) < t
                            && bit_of(d0, tile_of(dim as int, tpa as int, e)))
                            || (tile_of(dim as int, tpa as int, e) == t && e / (dim as int) < iy + 1) {
                            dens[e]
                        } else {
                            dst0[e]
                        }) by {
                            lemma_tile_cells(dim as int, tpa as int, t as int, e);
                            assert(0 <= e % (dim as int) < dim) by (nonlinear_arith)
                                requires
                                    dim > 0,
                            ;
                        }
                    }
                    iy = iy + 1;
                }
                proof {
                    assert forall|e: int| 0 <= e < dim * dim implies #[trigger] dst@[e] == (if tile_of(dim as int, tpa as int, e) < t + 1
                        && bit_of(d0, tile_of(dim as int, tpa as int, e)) {
                        dens[e]
                    } else {
                        dst0[e]
                    }) by {
                        lemma_tile_cells(dim as int, tpa as int, t as int, e);
                        lemma_cell_tile_bounds(dim as int, tpa as int, e);
                    }
                }
                bitset_clear(&mut self.tile_dirty[s], t);
            }
            t = t + 1;
        }
        proof {
            assert forall|c: int| 0 <= c < dim * dim implies tile_of(dim as int, tpa as int, c) < ntiles by {
                lemma_cell_tile_bounds(dim as int, tpa as int, c);
            }
        }
    }

    /// Add `add_byte` to cell `c`, saturating, then cap it at `cap_byte`;
    /// returns whether the stored byte changed.
    pub fn scatter_add(&mut self, c: usize, add_byte: u8, cap_byte: u8) -> (changed: bool)
        requires
            c < old(self).density@.len(),
        ensures
            ({
                let cur = old(self).density@[c as int] as int;
                let sum = if cur + add_byte > 255 { 255 } else { cur + add_byte };
                let next = if sum < cap_byte { sum } else { cap_byte as int };
                &&& changed == (next != cur)
                &&& final(self).density@ == old(self).density@.update(c as int, next as u8)
            }),
            final(self).grass_dim == old(self).grass_dim,
            final(self).wrap_world == old(self).wrap_world,
            final(self).row_has_density@ == old(self).row_has_density@,
            final(self).tiles_per_axis == old(self).tiles_per_axis,
            final(self).tile_active@ == old(self).tile_active@,
            final(self).tile_active_next@ == old(self).tile_active_next@,
            final(self).tile_dirty[0]@ == old(self).tile_dirty[0]@,
            final(self).tile_dirty[1]@ == old(self).tile_dirty[1]@,
            final(self).tile_class@ == old(self).tile_class@,
            final(self).pyramid == old(self).pyramid,
            final(self).propagation == old(self).propagation,
            final(self).world_seed == old(self).world_seed,
            final(self).scatter_tick == old(self).scatter_tick,
            final(self).profile_scatter == old(self).profile_scatter,
            old(self).wf() ==> final(self).wf(),
    {
        let cur = self.density[c];
        let sum = cur.saturating_add(add_byte);
        let next = if sum < cap_byte { sum } else { cap_byte };
        if next != cur {
            self.density.set(c, next);
            true
        } else {
            assert(self.density@ =~= old(self).density@.update(c as int, next));
            false
        }
    }

    /// Subtract `sub_byte` from cell `c`, floored at 0; returns whether the
    /// stored byte changed.
    pub fn scatter_sub(&mut self, c: usize, sub_byte: u8) -> (changed: bool)
        requires
            c < old(self).density@.len(),
        ensures
            ({
                let cur = old(self).density@[c as int] as int;
                let next = if cur > sub_byte { cur - sub_byte } else { 0 };
                &&& changed == (next != cur)
                &&& final(self).density@ == old(self).density@.update(c as int, next as u8)
            }),
            final(self).grass_dim == old(self).grass_dim,
            final(self).wrap_world == old(self).wrap_world,
            final(self).row_has_density@ == old(self).row_has_density@,
            final(self).tiles_per_axis == old(self).tiles_per_axis,
            final(self).tile_active@ == old(self).tile_active@,
            final(self).tile_active_next@ == old(self).tile_active_next@,
            final(self).tile_dirty[0]@ == old(self).tile_dirty[0]@,
            final(self).tile_dirty[1]@ == old(self).tile_dirty[1]@,
            final(self).tile_class@ == old(self).tile_class@,
            final(self).pyramid == old(self).pyramid,
            final(self).propagation == old(self).propagation,
            final(self).world_seed == old(self).world_seed,
            final(self).scatter_tick == old(self).scatter_tick,
            final(self).profile_scatter == old(self).profile_scatter,
            old(self).wf() ==> final(self).wf(),
    {
        let cur = self.density[c];
        let next = cur.saturating_sub(sub_byte);
        if next != cur {
            self.density.set(c, next);
            true
        } else {
            assert(self.density@ =~= old(self).density@.update(c as int, next));
            false
        }
    }

    /// Select the propagation kernel.
    pub fn set_propagation(&mut self, mode: GrassPropagation)
        ensures
            final(self).propagation == mode,
            final(self).grass_dim == old(self).grass_dim,
            final(self).wrap_world == old(self).wrap_world,
            final(self).density@ == old(self).density@,
            final(self).row_has_density@ == old(self).row_has_density@,
            final(self).tiles_per_axis == old(self).tiles_per_axis,
            final(self).tile_active@ == old(self).tile_active@,
            final(self).tile_active_next@ == old(self).tile_active_next@,
            final(self).tile_dirty[0]@ == old(self).tile_dirty[0]@,
            final(self).tile_dirty[1]@ == old(self).tile_dirty[1]@,
            final(self).tile_class@ == old(self).tile_class@,
            final(self).pyramid == old(self).pyramid,
            final(self).world_seed == old(self).world_seed,
            final(self).scatter_tick == old(self).scatter_tick,
            final(self).profile_scatter == old(self).profile_scatter,
    {
        self.propagation = mode;
    }

    /// Turn the scatter kernel's self-timing on or off.
    pub fn set_profile_scatter(&mut self, on: bool)
        ensures
            final(self).profile_scatter == on,
            final(self).grass_dim == old(self).grass_dim,
            final(self).wrap_world == old(self).wrap_world,
            final(self).density@ == old(self).density@,
            final(self).row_has_density@ == old(self).row_has_density@,
            final(self).tiles_per_axis == old(self).tiles_per_axis,
            final(self).tile_active@ == old(self).tile_active@,
            final(self).tile_active_next@ == old(self).tile_active_next@,
            final(self).tile_dirty[0]@ == old(self).tile_dirty[0]@,
            final(self).tile_dirty[1]@ == old(self).tile_dirty[1]@,
            final(self).tile_class@ == old(self).tile_class@,
            final(self).pyramid == old(self).pyramid,
            final(self).world_seed == old(self).world_seed,
            final(self).scatter_tick == old(self).scatter_tick,
            final(self).propagation == old(self).propagation,
    {
        self.profile_scatter = on;
    }

    /// Refresh the mip pyramid from the current field.
    pub fn refresh_pyramid(&mut self)
        requires
            old(self).wf(),
        ensures
            final(self).wf(),
            final(self).pyramid.levels_current(old(self).density@),
            final(self).pyramid.level_dims@ == old(self).pyramid.level_dims@,
            final(self).grass_dim == old(self).grass_dim,
            final(self).wrap_world == old(self).wrap_world,
            final(self).density@ == old(self).density@,
            final(self).row_has_density@ == old(self).row_has_density@,
            final(self).tiles_per_axis == old(self).tiles_per_axis,
            final(self).tile_active@ == old(self).tile_active@,
            final(self).tile_active_next@ == old(self).tile_active_next@,
            final(self).tile_dirty[0]@ == old(self).tile_dirty[0]@,
            final(self).tile_dirty[1]@ == old(self).tile_dirty[1]@,
            final(self).tile_class@ == old(self).tile_class@,
            final(self).propagation == old(self).propagation,
    {
        let tpa = self.tiles_per_axis;
        self.pyramid.refresh(self.density.as_slice(), self.tile_active.as_slice(), tpa);
    }

    /// Whether row `iy` may hold grass: its bit in the row bitset (false
    /// past the bitset). After a rebuild this is exactly whether the row
    /// holds a cell with grass.
    pub fn row_nonempty(&self, iy: usize) -> (r: bool)
        ensures
            r == bit_of(self.row_has_density@, iy as int),
            self.rows_current() ==> r == (iy < self.grass_dim
                && row_has_grass(self.density@, self.grass_dim as int, iy as int)),
    {
        let w = iy / 64;
        if w >= self.row_has_density.len() {
            return false;
        }
        bitset_get(self.row_has_density.as_slice(), iy)
    }
}

pub(crate) proof fn lemma_cell_tile_bounds(dim: int, tpa: int, c: int)
    requires
        0 <= c < dim * dim,
        tpa * (GRASS_TILE_SIZE as int) >= dim,
        dim > 0,
        tpa >= 0,
    ensures
        c / dim < dim,
        (c / dim) / (GRASS_TILE_SIZE as int) < tpa,
        (c % dim) / (GRASS_TILE_SIZE as int) < tpa,
        0 <= tile_of(dim, tpa, c) < tpa * tpa,
{
    let iy = c / dim;
    let ix = c % dim;
    assert(iy < dim) by (nonlinear_arith)
        requires
            0 <= c < dim * dim,
            dim > 0,
            iy == c / dim,
    ;
    assert(0 <= ix < dim) by (nonlinear_arith)
        requires
            dim > 0,
            ix == c % dim,
    ;
    assert(0 <= iy) by (nonlinear_arith)
        requires
            0 <= c,
            dim > 0,
            iy == c / dim,
    ;
    let ty = iy / 32;
    let tx = ix / 32;
    assert(ty * tpa + tx < tpa * tpa) by (nonlinear_arith)
        requires
            0 <= ty < tpa,
            0 <= tx < tpa,
    ;
    assert(0 <= ty * tpa) by (nonlinear_arith)
        requires
            0 <= ty,
            0 <= tpa,
    ;
}

/// A cell lies in tile `t` exactly when its row and column fall in the
/// tile's `GRASS_TILE_SIZE`-wide bands.
pub(crate) proof fn lemma_tile_cells(dim: int, tpa: int, t: int, c: int)
    requires
        dim > 0,
        tpa > 0,
        0 <= t < tpa * tpa,
        0 <= c < dim * dim,
        tpa * (GRASS_TILE_SIZE as int) >= dim,
    ensures
        (tile_of(dim, tpa, c) == t) <==> (
            (t / tpa) * 32 <= c / dim < (t / tpa) * 32 + 32
            && (t % tpa) * 32 <= c % dim < (t % tpa) * 32 + 32),
{
    lemma_cell_tile_bounds(dim, tpa, c);
    let iy = c / dim;
    let ix = c % dim;
    let ty = t / tpa;
    let tx = t % tpa;
    assert(0 <= ix < dim) by (nonlinear_arith)
        requires
            dim > 0,
            ix == c % dim,
    ;
    assert(0 <= iy) by (nonlinear_arith)
        requires
            0 <= c,
            dim > 0,
            iy == c / dim,
    ;
    assert(0 <= tx < tpa) by (nonlinear_arith)
        requires
            tpa > 0,
            tx == t % tpa,
    ;
    assert(0 <= ty) by (nonlinear_arith)
        requires
            0 <= t,
            tpa > 0,
            ty == t / tpa,
    ;
    assert(t == ty * tpa + tx) by (nonlinear_arith)
        requires
            tpa > 0,
            ty == t / tpa,
            tx == t % tpa,
    ;
    let a = iy / 32;
    let b = ix / 32;
    if a * tpa + b == t {
        vstd::arithmetic::div_mod::lemma_fundamental_div_mod_converse(t, tpa, a, b);
    }
    if a == ty && b == tx {
        assert(a * tpa + b == t);
    }
}

/// A snapshot slot `dst` is valid for the field when every cell of every
/// tile that is not dirty for the slot already holds the field's byte.
pub open spec fn slot_valid(density: Seq<u8>, dirty: Seq<u64>, dim: int, tpa: int, dst: Seq<u8>) -> bool {
    &&& dst.len() == density.len()
    &&& forall|c: int| 0 <= c < density.len() && !bit_of(dirty, tile_of(dim, tpa, c)) ==>
        #[trigger] dst[c] == density[c]
}

/// The slot after a dirty-tile quantize: dirty tiles take the field's bytes,
/// clean tiles keep the slot's.
pub open spec fn quantized_slot(density: Seq<u8>, dirty: Seq<u64>, dim: int, tpa: int, dst: Seq<u8>) -> Seq<u8> {
    Seq::new(dst.len(), |c: int| if bit_of(dirty, tile_of(dim, tpa, c)) { density[c] } else { dst[c] })
}

/// Quantizing a valid slot makes it byte-for-byte equal to the field: the
/// dirty-tile copy gives the same picture as a full copy.
pub proof fn lemma_quantize_valid_slot_is_field(density: Seq<u8>, dirty: Seq<u64>, dim: int, tpa: int, dst: Seq<u8>)
    requires
        slot_valid(density, dirty, dim, tpa, dst),
    ensures
        quantized_slot(density, dirty, dim, tpa, dst) == density,
{
    assert(quantized_slot(density, dirty, dim, tpa, dst) =~= density);
}

/// Writing a cell keeps a slot valid as long as the cell's tile is then
/// marked dirty for it (the dirty set only grows).
pub proof fn lemma_write_then_mark_keeps_slot_valid(
    density: Seq<u8>,
    dirty: Seq<u64>,
    dirty_after: Seq<u64>,
    dim: int,
    tpa: int,
    dst: Seq<u8>,
    c: int,
    b: u8,
)
    requires
        slot_valid(density, dirty, dim, tpa, dst),
        0 <= c < density.len(),
        bit_of(dirty_after, tile_of(dim, tpa, c)),
        forall|j: int| bit_of(dirty, j) ==> #[trigger] bit_of(dirty_after, j),
    ensures
        slot_valid(density.update(c, b), dirty_after, dim, tpa, dst),
{
}

proof fn lemma_row_major_pos(x: int, y: int, w: int)
    requires
        0 <= x < w,
        0 <= y,
    ensures
        (y * w + x) % w == x,
        (y * w + x) / w == y,
{
    vstd::arithmetic::div_mod::lemma_fundamental_div_mod_converse(y * w + x, w, y, x);
}

proof fn lemma_row_major_unique(a: int, b: int, w: int)
    requires
        w > 0,
        a / w == b / w,
        a % w == b % w,
    ensures
        a == b,
{
    vstd::arithmetic::div_mod::lemma_fundamental_div_mod(a, w);
    vstd::arithmetic::div_mod::lemma_fundamental_div_mod(b, w);
}

pub(crate) proof fn lemma_div_ceil_bounds(a: int, b: int)
    requires
        a >= 0,
        b > 0,
    ensures
        div_ceil(a, b) * b >= a,
        div_ceil(a, b) <= a || a == 0,
        div_ceil(a, b) >= 0,
{
    let q = div_ceil(a, b);
    assert(q * b >= a) by (nonlinear_arith)
        requires
            q == (a + b - 1) / b,
            b > 0,
            a >= 0,
    ;
    assert(q <= a || a == 0) by (nonlinear_arith)
        requires
            q == (a + b - 1) / b,
            b > 0,
            a >= 0,
    ;
    assert(q >= 0) by (nonlinear_arith)
        requires
            q == (a + b - 1) / b,
            b > 0,
            a >= 0,
    ;
}

} // verus!
