//! Spatial hash grid for neighbour queries: a counting sort of creature
//! indices by cell, shared by raycasts and repulsion.
//!
//! The grid is rebuilt from each creature's cell (its clamped position
//! divided by the cell size); `starts[c]..starts[c + 1]` is then the run of
//! `indices` holding, in ascending order, the creatures whose cell is `c`.

use vstd::prelude::*;

verus! {

/// Spatial-hash cells per axis.
pub const HASH_DIM: usize = 120;

/// Spatial-hash cells in all.
pub const HASH_CELLS: usize = HASH_DIM * HASH_DIM;

/// The creatures among the first `k` whose cell is `c`, in ascending order.
pub open spec fn members_upto(cells: Seq<u32>, c: int, k: int) -> Seq<u32>
    decreases k,
{
    if k <= 0 {
        Seq::empty()
    } else if cells[k - 1] == c {
        members_upto(cells, c, k - 1).push((k - 1) as u32)
    } else {
        members_upto(cells, c, k - 1)
    }
}

/// All creatures whose cell is `c`, in ascending order.
pub open spec fn members(cells: Seq<u32>, c: int) -> Seq<u32> {
    members_upto(cells, c, cells.len() as int)
}

/// How many of the first `k` creatures lie in a cell below `j`.
pub open spec fn below_upto(cells: Seq<u32>, j: int, k: int) -> int
    decreases j,
{
    if j <= 0 {
        0
    } else {
        below_upto(cells, j - 1, k) + members_upto(cells, j - 1, k).len()
    }
}

/// Where the run of cell `j` starts: how many creatures lie in a cell below `j`.
pub open spec fn cell_start(cells: Seq<u32>, j: int) -> int {
    below_upto(cells, j, cells.len() as int)
}

/// Every creature's cell is a cell of the grid.
pub open spec fn cells_in_range(cells: Seq<u32>) -> bool {
    forall|k: int| 0 <= k < cells.len() ==> #[trigger] cells[k] < HASH_CELLS
}

proof fn lemma_members_len(cells: Seq<u32>, c: int, k: int)
    requires
        0 <= k <= cells.len(),
    ensures
        members_upto(cells, c, k).len() <= k,
    decreases k,
{
    if k > 0 {
        lemma_members_len(cells, c, k - 1);
    }
}

proof fn lemma_members_len_mono(cells: Seq<u32>, c: int, k1: int, k2: int)
    requires
        0 <= k1 <= k2 <= cells.len(),
    ensures
        members_upto(cells, c, k1).len() <= members_upto(cells, c, k2).len(),
    decreases k2 - k1,
{
    if k1 < k2 {
        lemma_members_len_mono(cells, c, k1, k2 - 1);
    }
}

proof fn lemma_below_step(cells: Seq<u32>, j: int, k: int)
    requires
        0 <= k < cells.len(),
    ensures
        below_upto(cells, j, k + 1) == below_upto(cells, j, k) + (if cells[k] < j { 1int } else { 0 }),
    decreases j,
{
    if j > 0 {
        lemma_below_step(cells, j - 1, k);
    }
}

proof fn lemma_below_none(cells: Seq<u32>, j: int)
    ensures
        below_upto(cells, j, 0) == 0,
    decreases j,
{
    if j > 0 {
        lemma_below_none(cells, j - 1);
    }
}

proof fn lemma_below_all(cells: Seq<u32>, k: int)
    requires
        0 <= k <= cells.len(),
        cells_in_range(cells),
    ensures
        below_upto(cells, HASH_CELLS as int, k) == k,
    decreases k,
{
    if k > 0 {
        lemma_below_all(cells, k - 1);
        lemma_below_step(cells, HASH_CELLS as int, k - 1);
        assert(cells[k - 1] < HASH_CELLS);
    } else {
        lemma_below_none(cells, HASH_CELLS as int);
    }
}

proof fn lemma_below_mono(cells: Seq<u32>, a: int, b: int, k: int)
    requires
        a <= b,
    ensures
        below_upto(cells, a, k) <= below_upto(cells, b, k),
    decreases b - a,
{
    if a < b {
        lemma_below_mono(cells, a, b - 1, k);
        assert(below_upto(cells, b - 1, k) <= below_upto(cells, b, k));
    }
}

/// The run starts never decrease, the first is 0 and the last is the
/// creature count.
pub proof fn lemma_cell_start_bounds(cells: Seq<u32>, a: int, b: int)
    requires
        cells_in_range(cells),
        0 <= a <= b <= HASH_CELLS,
    ensures
        0 <= cell_start(cells, a) <= cell_start(cells, b) <= cells.len(),
        cell_start(cells, 0) == 0,
        cell_start(cells, HASH_CELLS as int) == cells.len(),
{
    lemma_below_mono(cells, 0, a, cells.len() as int);
    lemma_below_mono(cells, a, b, cells.len() as int);
    lemma_below_mono(cells, b, HASH_CELLS as int, cells.len() as int);
    lemma_below_all(cells, cells.len() as int);
}

proof fn lemma_members_upto_exact(cells: Seq<u32>, c: int, k: int, m: int)
    requires
        cells.len() <= u32::MAX,
        0 <= k < cells.len(),
        0 <= m <= cells.len(),
    ensures
        members_upto(cells, c, m).contains(k as u32) <==> (k < m && cells[k] == c),
    decreases m,
{
    if m > 0 {
        lemma_members_upto_exact(cells, c, k, m - 1);
        let prev = members_upto(cells, c, m - 1);
        if cells[m - 1] == c {
            assert(prev.push((m - 1) as u32).contains(k as u32) <==> (prev.contains(k as u32)
                || (m - 1) as u32 == k as u32)) by {
                if prev.push((m - 1) as u32).contains(k as u32) {
                    let i = choose|i: int| 0 <= i < prev.len() + 1 && #[trigger] prev.push((m - 1) as u32)[i] == k as u32;
                    if i < prev.len() {
                        assert(prev[i] == k as u32);
                    }
                }
                if prev.contains(k as u32) {
                    let i = choose|i: int| 0 <= i < prev.len() && #[trigger] prev[i] == k as u32;
                    assert(prev.push((m - 1) as u32)[i] == k as u32);
                }
                if (m - 1) as u32 == k as u32 {
                    assert(prev.push((m - 1) as u32)[prev.len() as int] == k as u32);
                }
            }
        }
    }
}

/// A creature is listed among a cell's members exactly when that cell is its
/// own: every creature lies in one run, its own.
pub proof fn lemma_members_exact(cells: Seq<u32>, c: int, k: int)
    requires
        cells.len() <= u32::MAX,
        0 <= k < cells.len(),
    ensures
        members(cells, c).contains(k as u32) <==> cells[k] == c,
{
    lemma_members_upto_exact(cells, c, k, cells.len() as int);
}

/// First column or row of a query box, clamped to the grid.
pub open spec fn box_lo(v: i64) -> int {
    if v < 0 { 0 } else { v as int }
}

/// One past the last column or row of a query box (whose last one is `v`),
/// clamped to the grid.
pub open spec fn box_hi(v: i64) -> int {
    if v < 0 { 0 } else if v >= HASH_DIM { HASH_DIM as int } else { v + 1 }
}

/// The creatures of row `iy`'s cells `x0..x1`, cell by cell.
pub open spec fn row_members(cells: Seq<u32>, iy: int, x0: int, x1: int) -> Seq<u32>
    decreases x1 - x0,
{
    if x1 <= x0 {
        Seq::empty()
    } else {
        row_members(cells, iy, x0, x1 - 1) + members(cells, iy * HASH_DIM + x1 - 1)
    }
}

/// The creatures of the cells in rows `y0..y1` and columns `x0..x1`, row
/// by row.
pub open spec fn box_members(cells: Seq<u32>, y0: int, y1: int, x0: int, x1: int) -> Seq<u32>
    decreases y1 - y0,
{
    if y1 <= y0 {
        Seq::empty()
    } else {
        box_members(cells, y0, y1 - 1, x0, x1) + row_members(cells, y1 - 1, x0, x1)
    }
}

proof fn lemma_box_empty_columns(cells: Seq<u32>, y0: int, y1: int, x0: int, x1: int)
    requires
        x1 <= x0,
    ensures
        box_members(cells, y0, y1, x0, x1) =~= Seq::<u32>::empty(),
    decreases y1 - y0,
{
    if y0 < y1 {
        lemma_box_empty_columns(cells, y0, y1 - 1, x0, x1);
    }
}

proof fn lemma_concat_contains(a: Seq<u32>, b: Seq<u32>, v: u32)
    ensures
        (a + b).contains(v) <==> (a.contains(v) || b.contains(v)),
{
    if (a + b).contains(v) {
        let w = choose|w: int| 0 <= w < (a + b).len() && (a + b)[w] == v;
        if w < a.len() {
            assert(a[w] == v);
        } else {
            assert(b[w - a.len()] == v);
        }
    }
    if a.contains(v) {
        let w = choose|w: int| 0 <= w < a.len() && a[w] == v;
        assert((a + b)[w] == v);
    }
    if b.contains(v) {
        let w = choose|w: int| 0 <= w < b.len() && b[w] == v;
        assert((a + b)[a.len() + w] == v);
    }
}

proof fn lemma_members_upto_below(cells: Seq<u32>, c: int, k: int, v: u32)
    requires
        0 <= k,
        members_upto(cells, c, k).contains(v),
    ensures
        v < k,
    decreases k,
{
    if k > 0 {
        let prev = members_upto(cells, c, k - 1);
        if cells[k - 1] == c {
            lemma_concat_contains(prev, seq![(k - 1) as u32], v);
            assert(prev.push((k - 1) as u32) =~= prev + seq![(k - 1) as u32]);
            if prev.contains(v) {
                lemma_members_upto_below(cells, c, k - 1, v);
            }
        } else {
            lemma_members_upto_below(cells, c, k - 1, v);
        }
    }
}

/// Cell `c` of the grid is in row `c / HASH_DIM`, column `c % HASH_DIM`.
proof fn lemma_cell_row_col(c: int, iy: int, ix: int)
    requires
        0 <= iy,
        0 <= ix < HASH_DIM,
    ensures
        (c == iy * HASH_DIM + ix) <==> (c / (HASH_DIM as int) == iy && c % (HASH_DIM as int) == ix),
{
    if c == iy * HASH_DIM + ix {
        vstd::arithmetic::div_mod::lemma_fundamental_div_mod_converse(c, HASH_DIM as int, iy, ix);
    }
    if c / (HASH_DIM as int) == iy && c % (HASH_DIM as int) == ix {
        vstd::arithmetic::div_mod::lemma_fundamental_div_mod(c, HASH_DIM as int);
    }
}

proof fn lemma_row_members_contains(cells: Seq<u32>, iy: int, x0: int, x1: int, v: u32)
    requires
        cells.len() <= u32::MAX,
        0 <= iy,
        0 <= x0,
        x1 <= HASH_DIM,
    ensures
        row_members(cells, iy, x0, x1).contains(v) <==> (v < cells.len()
            && (cells[v as int] as int) / (HASH_DIM as int) == iy && x0 <= (cells[v as int] as int) % (HASH_DIM as int) < x1),
    decreases x1 - x0,
{
    if x1 > x0 {
        lemma_row_members_contains(cells, iy, x0, x1 - 1, v);
        let c = iy * HASH_DIM + x1 - 1;
        lemma_concat_contains(row_members(cells, iy, x0, x1 - 1), members(cells, c), v);
        if members(cells, c).contains(v) {
            lemma_members_upto_below(cells, c, cells.len() as int, v);
        }
        if v < cells.len() {
            lemma_members_exact(cells, c, v as int);
            lemma_cell_row_col(cells[v as int] as int, iy, x1 - 1);
        }
    }
}

proof fn lemma_box_members_contains(cells: Seq<u32>, y0: int, y1: int, x0: int, x1: int, v: u32)
    requires
        cells.len() <= u32::MAX,
        0 <= y0,
        0 <= x0,
        x1 <= HASH_DIM,
    ensures
        box_members(cells, y0, y1, x0, x1).contains(v) <==> (v < cells.len()
            && y0 <= (cells[v as int] as int) / (HASH_DIM as int) < y1 && x0 <= (cells[v as int] as int) % (HASH_DIM as int) < x1),
    decreases y1 - y0,
{
    if y1 > y0 {
        lemma_box_members_contains(cells, y0, y1 - 1, x0, x1, v);
        lemma_row_members_contains(cells, y1 - 1, x0, x1, v);
        lemma_concat_contains(box_members(cells, y0, y1 - 1, x0, x1), row_members(cells, y1 - 1, x0, x1), v);
    }
}

/// A box query lists exactly the creatures whose cell's column lies in
/// `lo_x..=hi_x` and whose row lies in `lo_y..=hi_y` (so only cells of the
/// grid count, and a box reaching past an edge is cut there).
pub proof fn lemma_box_query_exact(cells: Seq<u32>, lo_x: i64, hi_x: i64, lo_y: i64, hi_y: i64, v: u32)
    requires
        cells.len() <= u32::MAX,
        cells_in_range(cells),
    ensures
        box_members(cells, box_lo(lo_y), box_hi(hi_y), box_lo(lo_x), box_hi(hi_x)).contains(v) <==> (v < cells.len()
            && lo_x <= (cells[v as int] as int) % (HASH_DIM as int) <= hi_x
            && lo_y <= (cells[v as int] as int) / (HASH_DIM as int) <= hi_y),
{
    lemma_box_members_contains(cells, box_lo(lo_y), box_hi(hi_y), box_lo(lo_x), box_hi(hi_x), v);
    if v < cells.len() {
        let c = cells[v as int] as int;
        assert(c < HASH_CELLS);
        assert(0 <= c / (HASH_DIM as int) < HASH_DIM) by (nonlinear_arith)
            requires
                0 <= c < HASH_DIM * HASH_DIM,
        ;
        assert(0 <= c % (HASH_DIM as int) < HASH_DIM);
    }
}

/// The spatial hash: `starts[c]..starts[c + 1]` delimits the creatures of
/// cell `c` inside `indices`; `cells[k]` caches creature `k`'s cell.
pub struct SpatialGrid {
    starts: Vec<u32>,
    indices: Vec<u32>,
    cursors: Vec<u32>,
    cells: Vec<u32>,
}

impl View for SpatialGrid {
    type V = Seq<u32>;

    /// The grid's model: the cell of each creature, by creature index.
    closed spec fn view(&self) -> Seq<u32> {
        self.cells@
    }
}

impl Default for SpatialGrid {
    fn default() -> (g: Self)
        ensures
            g.wf(),
            g@ == Seq::<u32>::empty(),
    {
        SpatialGrid::new()
    }
}

impl SpatialGrid {
    /// The grid indexes its cached cells: the run starts are the counts of
    /// creatures in lower cells and each run lists its cell's creatures in
    /// ascending order.
    pub closed spec fn wf(&self) -> bool {
        &&& self.starts@.len() == HASH_CELLS + 1
        &&& self.cursors@.len() == HASH_CELLS + 1
        &&& self.indices@.len() == self.cells@.len()
        &&& self.cells@.len() <= u32::MAX
        &&& cells_in_range(self.cells@)
        &&& forall|j: int| 0 <= j <= HASH_CELLS ==> #[trigger] self.starts@[j] == cell_start(self.cells@, j)
        &&& forall|c: int| 0 <= c < HASH_CELLS ==>
            self.indices@.subrange(self.starts@[c] as int, self.starts@[c + 1] as int) == #[trigger] members(self.cells@, c)
    }

    /// An empty grid.
    pub fn new() -> (g: SpatialGrid)
        ensures
            g.wf(),
            g@ == Seq::<u32>::empty(),
    {
        let mut starts: Vec<u32> = Vec::new();
        let mut cursors: Vec<u32> = Vec::new();
        let mut j: usize = 0;
        while j < HASH_CELLS + 1
            invariant
                j <= HASH_CELLS + 1,
                starts@.len() == j,
                cursors@.len() == j,
                forall|i: int| 0 <= i < j ==> #[trigger] starts@[i] == 0,
            decreases HASH_CELLS + 1 - j,
        {
            starts.push(0);
            cursors.push(0);
            j = j + 1;
        }
        let g = SpatialGrid { starts, indices: Vec::new(), cursors, cells: Vec::new() };
        assert forall|j: int| 0 <= j <= HASH_CELLS implies #[trigger] g.starts@[j] == cell_start(g.cells@, j) by {
            lemma_below_mono(g.cells@, 0, j, 0);
            lemma_below_all(g.cells@, 0);
            lemma_below_mono(g.cells@, j, HASH_CELLS as int, 0);
        }
        assert forall|c: int| 0 <= c < HASH_CELLS implies
            g.indices@.subrange(g.starts@[c] as int, g.starts@[c + 1] as int) == #[trigger] members(g.cells@, c) by {
            assert(g.indices@.subrange(0, 0) =~= Seq::<u32>::empty());
        }
        g
    }

    /// The creatures of cell `c`, in ascending order.
    pub fn cell_members(&self, c: usize) -> (r: &[u32])
        requires
            self.wf(),
            c < HASH_CELLS,
        ensures
            r@ == members(self@, c as int),
    {
        proof {
            lemma_cell_start_bounds(self.cells@, c as int, c as int + 1);
        }
        let s = self.starts[c] as usize;
        let e = self.starts[c + 1] as usize;
        vstd::slice::slice_subrange(self.indices.as_slice(), s, e)
    }

    /// The creatures of every cell in the box of columns `lo_x..=hi_x` and
    /// rows `lo_y..=hi_y`, row by row and cell by cell. The world is walled:
    /// columns and rows outside the grid are skipped, never wrapped.
    pub fn members_in_box(&self, lo_x: i64, hi_x: i64, lo_y: i64, hi_y: i64) -> (r: Vec<u32>)
        requires
            self.wf(),
        ensures
            r@ == box_members(self@, box_lo(lo_y), box_hi(hi_y), box_lo(lo_x), box_hi(hi_x)),
            forall|v: u32| #[trigger] r@.contains(v) <==> (v < self@.len()
                && lo_x <= (self@[v as int] as int) % (HASH_DIM as int) <= hi_x
                && lo_y <= (self@[v as int] as int) / (HASH_DIM as int) <= hi_y),
    {
        let x0: usize = if lo_x < 0 { 0 } else if lo_x >= HASH_DIM as i64 { HASH_DIM } else { lo_x as usize };
        let x1: usize = if hi_x < 0 { 0 } else if hi_x >= HASH_DIM as i64 { HASH_DIM } else { hi_x as usize + 1 };
        let y0: usize = if lo_y < 0 { 0 } else if lo_y >= HASH_DIM as i64 { HASH_DIM } else { lo_y as usize };
        let y1: usize = if hi_y < 0 { 0 } else if hi_y >= HASH_DIM as i64 { HASH_DIM } else { hi_y as usize + 1 };
        let ghost gx0 = box_lo(lo_x);
        let ghost gy0 = box_lo(lo_y);
        let ghost gx1 = box_hi(hi_x);
        let ghost gy1 = box_hi(hi_y);
        let ghost cs = self@;
        let mut out: Vec<u32> = Vec::new();
        if y0 < y1 && x0 < x1 {
            assert(x0 == gx0 && x1 == gx1 && y0 == gy0 && y1 == gy1);
            let mut iy = y0;
            while iy < y1
                invariant
                    self.wf(),
                    cs == self@,
                    x0 == gx0,
                    x1 == gx1,
                    y0 == gy0,
                    y1 == gy1,
                    x0 < x1 <= HASH_DIM,
                    y0 <= iy <= y1 <= HASH_DIM,
                    out@ == box_members(cs, gy0, iy as int, gx0, gx1),
                decreases y1 - iy,
            {
                let ghost row_start = out@;
                let mut ix = x0;
                while ix < x1
                    invariant
                        self.wf(),
                        cs == self@,
                        x0 <= ix <= x1 <= HASH_DIM,
                        iy < HASH_DIM,
                        out@ == row_start + row_members(cs, iy as int, x0 as int, ix as int),
                    decreases x1 - ix,
                {
                    let c = iy * HASH_DIM + ix;
                    assert(c < HASH_CELLS) by (nonlinear_arith)
                        requires
                            c == iy * HASH_DIM + ix,
                            iy < HASH_DIM,
                            ix < HASH_DIM,
                    ;
                    let run = self.cell_members(c);
                    let ghost cell_start_out = out@;
                    let mut t: usize = 0;
                    while t < run.len()
                        invariant
                            t <= run@.len(),
                            out@ == cell_start_out + run@.subrange(0, t as int),
                        decreases run@.len() - t,
                    {
                        out.push(run[t]);
                        t = t + 1;
                        assert(out@ =~= cell_start_out + run@.subrange(0, t as int));
                    }
                    assert(run@.subrange(0, t as int) =~= run@);
                    ix = ix + 1;
                    assert(out@ =~= row_start + row_members(cs, iy as int, x0 as int, ix as int));
                }
                iy = iy + 1;
                assert(out@ =~= box_members(cs, gy0, iy as int, gx0, gx1));
            }
        } else {
            assert(box_members(cs, gy0, gy1, gx0, gx1) =~= Seq::<u32>::empty()) by {
                if gy0 < gy1 {
                    lemma_box_empty_columns(cs, gy0, gy1, gx0, gx1);
                }
            }
        }
        proof {
            assert forall|v: u32| #[trigger] out@.contains(v) <==> (v < self@.len()
                && lo_x <= (self@[v as int] as int) % (HASH_DIM as int) <= hi_x
                && lo_y <= (self@[v as int] as int) / (HASH_DIM as int) <= hi_y) by {
                lemma_box_query_exact(self@, lo_x, hi_x, lo_y, hi_y, v);
            }
        }
        out
    }

    /// The cached cell of each creature, by creature index.
    pub fn cells(&self) -> (r: &[u32])
        ensures
            r@ == self@,
    {
        self.cells.as_slice()
    }

    /// Rebuild the index from each creature's cell (counting sort): count the
    /// creatures per cell, turn the counts into run starts, then place every
    /// creature in its cell's run in ascending order.
    pub fn rebuild(&mut self, cells: &[u32])
        requires
            old(self).wf(),
            cells@.len() <= u32::MAX,
            cells_in_range(cells@),
        ensures
            final(self).wf(),
            final(self)@ == cells@,
    {
        let n = cells.len();
        let ghost cs = cells@;
        // Cache the cells.
        self.cells.clear();
        let mut k: usize = 0;
        while k < n
            invariant
                n == cs.len(),
                cs == cells@,
                k <= n,
                self.cells@ == cs.subrange(0, k as int),
                self.starts@.len() == HASH_CELLS + 1,
                self.cursors@.len() == HASH_CELLS + 1,
            decreases n - k,
        {
            self.cells.push(cells[k]);
            k = k + 1;
            assert(self.cells@ =~= cs.subrange(0, k as int));
        }
        assert(self.cells@ =~= cs);
        // Count the creatures per cell into starts[c + 1].
        let mut j: usize = 0;
        while j < HASH_CELLS + 1
            invariant
                self.starts@.len() == HASH_CELLS + 1,
                j <= HASH_CELLS + 1,
                forall|i: int| 0 <= i < j ==> #[trigger] self.starts@[i] == 0,
                self.cells@ == cs,
                self.cursors@.len() == HASH_CELLS + 1,
            decreases HASH_CELLS + 1 - j,
        {
            self.starts.set(j, 0);
            j = j + 1;
        }
        k = 0;
        while k < n
            invariant
                n == cs.len(),
                cs == cells@,
                n <= u32::MAX,
                cells_in_range(cs),
                k <= n,
                self.starts@.len() == HASH_CELLS + 1,
                self.starts@[0] == 0,
                self.cells@ == cs,
                self.cursors@.len() == HASH_CELLS + 1,
                forall|c: int| 1 <= c <= HASH_CELLS ==> #[trigger] self.starts@[c] == members_upto(cs, c - 1, k as int).len(),
            decreases n - k,
        {
            let c = cells[k] as usize;
            proof {
                lemma_members_len(cs, c as int, k as int);
            }
            let v = self.starts[c + 1];
            self.starts.set(c + 1, v + 1);
            k = k + 1;
        }
        // Prefix sums: starts[j] becomes the number of creatures below cell j.
        proof {
            assert forall|i: int| 0 <= i <= HASH_CELLS implies below_upto(cs, i, n as int) <= n by {
                lemma_cell_start_bounds(cs, i, HASH_CELLS as int);
            }
        }
        j = 1;
        while j < HASH_CELLS + 1
            invariant
                n == cs.len(),
                n <= u32::MAX,
                1 <= j <= HASH_CELLS + 1,
                self.starts@.len() == HASH_CELLS + 1,
                self.cells@ == cs,
                self.cursors@.len() == HASH_CELLS + 1,
                forall|i: int| 0 <= i <= HASH_CELLS ==> below_upto(cs, i, n as int) <= n,
                forall|i: int| 0 <= i < j ==> #[trigger] self.starts@[i] == below_upto(cs, i, n as int),
                forall|i: int| j <= i <= HASH_CELLS ==> #[trigger] self.starts@[i] == members_upto(cs, i - 1, n as int).len(),
            decreases HASH_CELLS + 1 - j,
        {
            let prev = self.starts[j - 1];
            let cur = self.starts[j];
            assert(below_upto(cs, j as int, n as int) == prev + cur);
            self.starts.set(j, prev + cur);
            j = j + 1;
        }
        let ghost st = self.starts@;
        proof {
            lemma_cell_start_bounds(cs, 0, HASH_CELLS as int);
        }
        // Scatter: every creature goes to the next free slot of its cell's run.
        self.indices.clear();
        k = 0;
        while k < n
            invariant
                n == cs.len(),
                k <= n,
                self.indices@.len() == k,
                self.starts@ == st,
                self.cells@ == cs,
                self.cursors@.len() == HASH_CELLS + 1,
            decreases n - k,
        {
            self.indices.push(0);
            k = k + 1;
        }
        j = 0;
        while j < HASH_CELLS + 1
            invariant
                j <= HASH_CELLS + 1,
                self.starts@ == st,
                st.len() == HASH_CELLS + 1,
                self.cursors@.len() == HASH_CELLS + 1,
                forall|i: int| 0 <= i < j ==> #[trigger] self.cursors@[i] == st[i],
                self.cells@ == cs,
                self.indices@.len() == cs.len(),
            decreases HASH_CELLS + 1 - j,
        {
            let s = self.starts[j];
            self.cursors.set(j, s);
            j = j + 1;
        }
        k = 0;
        while k < n
            invariant
                n == cs.len(),
                cs == cells@,
                n <= u32::MAX,
                cells_in_range(cs),
                k <= n,
                self.starts@ == st,
                self.cells@ == cs,
                st.len() == HASH_CELLS + 1,
                forall|i: int| 0 <= i <= HASH_CELLS ==> #[trigger] st[i] == cell_start(cs, i),
                self.indices@.len() == n,
                self.cursors@.len() == HASH_CELLS + 1,
                forall|c: int| 0 <= c < HASH_CELLS ==>
                    #[trigger] self.cursors@[c] == st[c] + members_upto(cs, c, k as int).len(),
                forall|c: int| 0 <= c < HASH_CELLS ==>
                    self.indices@.subrange(st[c] as int, self.cursors@[c] as int) == #[trigger] members_upto(cs, c, k as int),
            decreases n - k,
        {
            let c = cells[k] as usize;
            let pos = self.cursors[c];
            let ghost before = self.indices@;
            let ghost cur_before = self.cursors@;
            proof {
                lemma_members_len_mono(cs, c as int, k as int + 1, n as int);
                lemma_cell_start_bounds(cs, c as int, c as int + 1);
                assert(cur_before[c as int] == st[c as int] + members_upto(cs, c as int, k as int).len());
                assert(st[c as int + 1] == st[c as int] + members_upto(cs, c as int, n as int).len());
            }
            self.indices.set(pos as usize, k as u32);
            self.cursors.set(c, pos + 1);
            proof {
                let kk = k as int;
                assert forall|d: int| 0 <= d < HASH_CELLS implies
                    #[trigger] self.cursors@[d] == st[d] + members_upto(cs, d, kk + 1).len() by {
                    assert(cur_before[d] == st[d] + members_upto(cs, d, kk).len());
                }
                assert forall|d: int| 0 <= d < HASH_CELLS implies
                    self.indices@.subrange(st[d] as int, self.cursors@[d] as int) == #[trigger] members_upto(cs, d, kk + 1) by {
                    assert(cur_before[d] == st[d] + members_upto(cs, d, kk).len());
                    assert(before.subrange(st[d] as int, cur_before[d] as int) == members_upto(cs, d, kk));
                    if d == c as int {
                        assert(self.indices@.subrange(st[d] as int, self.cursors@[d] as int)
                            =~= before.subrange(st[d] as int, cur_before[d] as int).push(kk as u32));
                    } else {
                        let sd = st[d] as int;
                        let cd = cur_before[d] as int;
                        lemma_members_len_mono(cs, d, kk, n as int);
                        lemma_cell_start_bounds(cs, d, d + 1);
                        assert(st[d + 1] == st[d] + members_upto(cs, d, n as int).len());
                        assert(cd <= st[d + 1]);
                        if d < c as int {
                            lemma_cell_start_bounds(cs, d + 1, c as int);
                            assert(st[d + 1] <= st[c as int]);
                            assert(cd <= pos);
                        } else {
                            lemma_cell_start_bounds(cs, c as int + 1, d);
                            assert(st[c as int + 1] <= st[d]);
                            assert(pos < sd);
                        }
                        assert(self.cursors@[d] == cd);
                        assert forall|i: int| 0 <= i < cd - sd implies
                            #[trigger] self.indices@.subrange(sd, cd)[i] == before.subrange(sd, cd)[i] by {
                            assert(sd + i != pos);
                        }
                        assert(self.indices@.subrange(sd, cd) =~= before.subrange(sd, cd));
                    }
                }
            }
            k = k + 1;
        }
        proof {
            assert forall|c: int| 0 <= c < HASH_CELLS implies
                self.indices@.subrange(self.starts@[c] as int, self.starts@[c + 1] as int) == #[trigger] members(self.cells@, c) by {
                assert(self.cursors@[c] == st[c] + members_upto(cs, c, n as int).len());
                assert(self.indices@.subrange(st[c] as int, self.cursors@[c] as int) == members_upto(cs, c, n as int));
                assert(st[c + 1] == st[c] + members_upto(cs, c, n as int).len());
            }
        }
    }
}

} // verus!
