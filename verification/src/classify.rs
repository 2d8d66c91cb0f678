//! Equilibrium classes of tiles, read off the density bytes: a tile is empty
//! when every cell is within one quantum of nothing, saturated when every
//! cell is at or above the byte from which it counts as full, and a moving
//! frontier otherwise. Resyncing classifies every tile and rebuilds the
//! active set from the classes.
//!
//! A cell's "full from" byte is the least byte within one quantum of its
//! carrying capacity; it is given per cell, since capacities are not whole
//! bytes.

use vstd::prelude::*;
use crate::bitset::bit_of;
use crate::grass::{tile_should_be_active, GrassGrid, TILE_EMPTY, TILE_MIXED, TILE_SATURATED};
use crate::scatter::{tile_h, tile_w, tile_x0, tile_y0};

verus! {

/// The largest byte that still counts as empty: the class tolerance is one
/// quantum.
pub const GRASS_TRACE_BYTE: u8 = 1;

/// The least byte that counts as full in a cell whose capacity is a whole
/// cell (one quantum below the full byte).
pub const GRASS_FULL_FROM_BYTE: u8 = 254;

/// The index of the cell at offset `(dx, dy)` inside tile `t`.
pub open spec fn tile_cell_at(dim: int, tpa: int, t: int, dx: int, dy: int) -> int {
    (tile_y0(tpa, t) + dy) * dim + tile_x0(tpa, t) + dx
}

/// Whether `(dx, dy)` is an offset inside tile `t`.
pub open spec fn in_tile_box(dim: int, tpa: int, t: int, dx: int, dy: int) -> bool {
    0 <= dx < tile_w(dim, tpa, t) && 0 <= dy < tile_h(dim, tpa, t)
}

/// Whether offset `(a, b)` comes before `(dx, dy)` in row-major order.
pub open spec fn before(a: int, b: int, dx: int, dy: int) -> bool {
    b < dy || (b == dy && a < dx)
}

/// Every cell of tile `t` before `(dx, dy)` is empty.
pub open spec fn empty_before(density: Seq<u8>, dim: int, tpa: int, t: int, dx: int, dy: int) -> bool {
    forall|a: int, b: int| in_tile_box(dim, tpa, t, a, b) && before(a, b, dx, dy)
        ==> density[#[trigger] tile_cell_at(dim, tpa, t, a, b)] <= GRASS_TRACE_BYTE
}

/// Every cell of tile `t` before `(dx, dy)` is full.
pub open spec fn full_before(density: Seq<u8>, full_from: Seq<u8>, dim: int, tpa: int, t: int, dx: int, dy: int) -> bool {
    forall|a: int, b: int| in_tile_box(dim, tpa, t, a, b) && before(a, b, dx, dy)
        ==> density[#[trigger] tile_cell_at(dim, tpa, t, a, b)] >= full_from[tile_cell_at(dim, tpa, t, a, b)]
}

/// Every cell of tile `t` is empty.
pub open spec fn tile_empty(density: Seq<u8>, dim: int, tpa: int, t: int) -> bool {
    forall|a: int, b: int| in_tile_box(dim, tpa, t, a, b)
        ==> density[#[trigger] tile_cell_at(dim, tpa, t, a, b)] <= GRASS_TRACE_BYTE
}

/// Every cell of tile `t` is full.
pub open spec fn tile_full(density: Seq<u8>, full_from: Seq<u8>, dim: int, tpa: int, t: int) -> bool {
    forall|a: int, b: int| in_tile_box(dim, tpa, t, a, b)
        ==> density[#[trigger] tile_cell_at(dim, tpa, t, a, b)] >= full_from[tile_cell_at(dim, tpa, t, a, b)]
}

/// The class of tile `t`: empty, else saturated, else a frontier.
pub open spec fn tile_class_from(density: Seq<u8>, full_from: Seq<u8>, dim: int, tpa: int, t: int) -> u8 {
    if tile_empty(density, dim, tpa, t) {
        TILE_EMPTY
    } else if tile_full(density, full_from, dim, tpa, t) {
        TILE_SATURATED
    } else {
        TILE_MIXED
    }
}

/// The class of every tile of a `tpa × tpa` tile grid.
pub open spec fn classes_from(density: Seq<u8>, full_from: Seq<u8>, dim: int, tpa: int) -> Seq<u8> {
    Seq::new((tpa * tpa) as nat, |t: int| tile_class_from(density, full_from, dim, tpa, t))
}

/// `n` copies of `b`.
pub open spec fn uniform(n: int, b: u8) -> Seq<u8> {
    Seq::new(n as nat, |i: int| b)
}

/// Finishing a row of a tile is starting the next; finishing the last row
/// covers the whole tile.
proof fn lemma_row_end(density: Seq<u8>, full_from: Seq<u8>, dim: int, tpa: int, t: int, dy: int)
    ensures
        empty_before(density, dim, tpa, t, tile_w(dim, tpa, t), dy)
            == empty_before(density, dim, tpa, t, 0, dy + 1),
        full_before(density, full_from, dim, tpa, t, tile_w(dim, tpa, t), dy)
            == full_before(density, full_from, dim, tpa, t, 0, dy + 1),
        empty_before(density, dim, tpa, t, 0, tile_h(dim, tpa, t)) == tile_empty(density, dim, tpa, t),
        full_before(density, full_from, dim, tpa, t, 0, tile_h(dim, tpa, t))
            == tile_full(density, full_from, dim, tpa, t),
{
}

impl GrassGrid {
    /// The class of tile `t` as the field stands, with `full_from[c]` the
    /// least byte at which cell `c` counts as full.
    pub fn classify_tile(&self, t: usize, full_from: &[u8]) -> (class: u8)
        requires
            self.wf(),
            t < self.tile_count(),
            full_from@.len() == self.cell_count(),
        ensures
            class == tile_class_from(self.density@, full_from@, self.grass_dim as int, self.tiles_per_axis as int, t as int),
    {
        let (x0, y0, w, h) = self.tile_extent(t);
        let dim = self.grass_dim;
        let ghost d = self.density@;
        let ghost f = full_from@;
        let ghost gd = dim as int;
        let ghost tpa = self.tiles_per_axis as int;
        let mut all_empty = true;
        let mut all_full = true;
        let mut dy: usize = 0;
        while dy < h
            invariant
                self.wf(),
                d == self.density@,
                f == full_from@,
                gd == self.grass_dim,
                tpa == self.tiles_per_axis,
                dim == self.grass_dim,
                f.len() == self.cell_count(),
                x0 == tile_x0(tpa, t as int),
                y0 == tile_y0(tpa, t as int),
                w == tile_w(gd, tpa, t as int),
                h == tile_h(gd, tpa, t as int),
                x0 + w <= dim,
                y0 + h <= dim,
                dy <= h,
                all_empty == empty_before(d, gd, tpa, t as int, 0, dy as int),
                all_full == full_before(d, f, gd, tpa, t as int, 0, dy as int),
            decreases h - dy,
        {
            let mut dx: usize = 0;
            while dx < w
                invariant
                    self.wf(),
                    d == self.density@,
                    f == full_from@,
                    gd == self.grass_dim,
                    tpa == self.tiles_per_axis,
                    dim == self.grass_dim,
                    f.len() == self.cell_count(),
                    x0 == tile_x0(tpa, t as int),
                    y0 == tile_y0(tpa, t as int),
                    w == tile_w(gd, tpa, t as int),
                    h == tile_h(gd, tpa, t as int),
                    x0 + w <= dim,
                    y0 + h <= dim,
                    dy < h,
                    dx <= w,
                    all_empty == empty_before(d, gd, tpa, t as int, dx as int, dy as int),
                    all_full == full_before(d, f, gd, tpa, t as int, dx as int, dy as int),
                decreases w - dx,
            {
                let ghost gx = dx as int;
                let ghost gy = dy as int;
                assert((y0 + dy) * dim + x0 + dx < dim * dim) by (nonlinear_arith)
                    requires
                        y0 + dy < dim,
                        x0 + dx < dim,
                ;
                let c = (y0 + dy) * dim + x0 + dx;
                assert(c as int == tile_cell_at(gd, tpa, t as int, gx, gy));
                let v = self.density[c];
                if v > GRASS_TRACE_BYTE {
                    all_empty = false;
                }
                if v < full_from[c] {
                    all_full = false;
                }
                proof {
                    assert(in_tile_box(gd, tpa, t as int, gx, gy));
                    assert(empty_before(d, gd, tpa, t as int, gx + 1, gy)
                        == (empty_before(d, gd, tpa, t as int, gx, gy) && d[c as int] <= GRASS_TRACE_BYTE));
                    assert(full_before(d, f, gd, tpa, t as int, gx + 1, gy)
                        == (full_before(d, f, gd, tpa, t as int, gx, gy) && d[c as int] >= f[c as int]));
                }
                dx = dx + 1;
            }
            proof {
                lemma_row_end(d, f, gd, tpa, t as int, dy as int);
            }
            dy = dy + 1;
        }
        proof {
            lemma_row_end(d, f, gd, tpa, t as int, h as int);
        }
        if all_empty {
            TILE_EMPTY
        } else if all_full {
            TILE_SATURATED
        } else {
            TILE_MIXED
        }
    }

    /// Classify every tile from the field (`full_from[c]` the least byte at
    /// which cell `c` counts as full), then rebuild the active set from the
    /// classes: a tile is active, and dirty for both slots, exactly when it
    /// is a frontier tile or borders a tile of another class.
    pub fn resync_active_from_density(&mut self, full_from: &[u8])
        requires
            old(self).wf(),
            full_from@.len() == old(self).cell_count(),
        ensures
            final(self).wf(),
            final(self).same_field(old(self)),
            final(self).tile_class@ == classes_from(old(self).density@, full_from@,
                old(self).grass_dim as int, old(self).tiles_per_axis as int),
            final(self).tile_active_next@ == old(self).tile_active_next@,
            forall|j: int| #[trigger] bit_of(final(self).tile_active@, j) == (0 <= j < old(self).tile_count()
                && tile_should_be_active(final(self).tile_class@, old(self).tiles_per_axis as int, old(self).wrap_world, j)),
            forall|j: int| #[trigger] bit_of(final(self).tile_dirty[0]@, j) == (0 <= j < old(self).tile_count()
                && tile_should_be_active(final(self).tile_class@, old(self).tiles_per_axis as int, old(self).wrap_world, j)),
            forall|j: int| #[trigger] bit_of(final(self).tile_dirty[1]@, j) == (0 <= j < old(self).tile_count()
                && tile_should_be_active(final(self).tile_class@, old(self).tiles_per_axis as int, old(self).wrap_world, j)),
    {
        proof {
            self.lemma_sizes();
        }
        let ntiles = self.tiles_per_axis * self.tiles_per_axis;
        let ghost classes = classes_from(self.density@, full_from@, self.grass_dim as int, self.tiles_per_axis as int);
        let mut t: usize = 0;
        while t < ntiles
            invariant
                self.wf(),
                self.same_field(old(self)),
                self.tile_active_next@ == old(self).tile_active_next@,
                full_from@.len() == self.cell_count(),
                ntiles == self.tile_count(),
                classes == classes_from(self.density@, full_from@, self.grass_dim as int, self.tiles_per_axis as int),
                t <= ntiles,
                self.tile_class@.len() == ntiles,
                forall|j: int| 0 <= j < t ==> #[trigger] self.tile_class@[j] == classes[j],
            decreases ntiles - t,
        {
            let class = self.classify_tile(t, full_from);
            self.set_tile_class(t, class);
            t = t + 1;
        }
        proof {
            assert(self.tile_class@ =~= classes);
        }
        self.rebuild_active_from_class();
    }
}

} // verus!
