//! Box-filter mip pyramid over the byte grass field: level 0 is the field
//! itself (owned by the grass grid), each further level halves both axes
//! (rounding up) and stores the rounded mean of its in-bounds parents.

use vstd::prelude::*;
use crate::constants::GRASS_PYRAMID_MAX_LEVELS;

verus! {

/// `ceil(v / 2)`.
pub open spec fn ceil_half(v: nat) -> nat {
    ((v + 1) / 2) as nat
}

/// `v` halved `i` times, rounding up each time.
pub open spec fn halve_n(v: nat, i: nat) -> nat
    decreases i,
{
    if i == 0 {
        v
    } else {
        ceil_half(halve_n(v, (i - 1) as nat))
    }
}

/// The chain of level sizes for a `w0 × h0` base: level `i` is the base
/// halved `i` times; the chain stops at the first 1×1 level or after
/// `GRASS_PYRAMID_MAX_LEVELS` levels, whichever comes first.
pub open spec fn is_level_chain(dims: Seq<(usize, usize)>, w0: nat, h0: nat) -> bool {
    &&& 1 <= dims.len() <= GRASS_PYRAMID_MAX_LEVELS
    &&& forall|i: int| 0 <= i < dims.len() ==>
        (#[trigger] dims[i]).0 == halve_n(w0, i as nat) && dims[i].1 == halve_n(h0, i as nat)
    &&& forall|i: int| 0 <= i < dims.len() - 1 ==> !((#[trigger] dims[i]).0 == 1 && dims[i].1 == 1)
    &&& (dims.len() == GRASS_PYRAMID_MAX_LEVELS || (dims.last().0 == 1 && dims.last().1 == 1))
}

/// Value of the parent cell `(x, y)` of a `pw × ph` row-major level, or 0
/// when it lies outside.
pub open spec fn parent_val(src: Seq<u8>, pw: int, ph: int, x: int, y: int) -> int {
    if x < pw && y < ph { src[y * pw + x] as int } else { 0 }
}

/// 1 when the parent cell `(x, y)` lies inside the `pw × ph` level, else 0.
pub open spec fn parent_in(pw: int, ph: int, x: int, y: int) -> int {
    if x < pw && y < ph { 1 } else { 0 }
}

/// A mip cell: the mean of the in-bounds cells of its 2×2 parent block,
/// rounded to nearest (`(sum + count / 2) / count`).
pub open spec fn down_cell(src: Seq<u8>, pw: int, ph: int, ox: int, oy: int) -> u8 {
    let x = 2 * ox;
    let y = 2 * oy;
    let sum = parent_val(src, pw, ph, x, y) + parent_val(src, pw, ph, x + 1, y)
        + parent_val(src, pw, ph, x, y + 1) + parent_val(src, pw, ph, x + 1, y + 1);
    let count = parent_in(pw, ph, x, y) + parent_in(pw, ph, x + 1, y) + parent_in(pw, ph, x, y + 1)
        + parent_in(pw, ph, x + 1, y + 1);
    ((sum + count / 2) / count) as u8
}

/// The `cw × ch` level built from the `pw × ph` level `src`, row-major.
pub open spec fn downsample(src: Seq<u8>, pw: int, ph: int, cw: int, ch: int) -> Seq<u8> {
    Seq::new((cw * ch) as nat, |i: int| down_cell(src, pw, ph, i % cw, i / cw))
}

proof fn lemma_halve_le(v: nat, i: nat)
    ensures
        halve_n(v, i) <= v,
    decreases i,
{
    if i > 0 {
        lemma_halve_le(v, (i - 1) as nat);
    }
}

proof fn lemma_row_major(x: int, y: int, w: int)
    requires
        0 <= x < w,
        0 <= y,
    ensures
        (y * w + x) % w == x,
        (y * w + x) / w == y,
{
    vstd::arithmetic::div_mod::lemma_fundamental_div_mod_converse(y * w + x, w, y, x);
}

proof fn lemma_row_major_bound(x: int, y: int, w: int, h: int)
    requires
        0 <= x < w,
        0 <= y < h,
    ensures
        0 <= y * w + x < w * h,
{
    assert(y * w + x < w * h) by (nonlinear_arith)
        requires
            0 <= x < w,
            0 <= y < h,
    ;
    assert(0 <= y * w) by (nonlinear_arith)
        requires
            0 <= y,
            0 <= w,
    ;
}

proof fn lemma_mul_mono(a: int, b: int, c: int, d: int)
    requires
        0 <= a <= c,
        0 <= b <= d,
    ensures
        a * b <= c * d,
{
    assert(a * b <= c * d) by (nonlinear_arith)
        requires
            0 <= a <= c,
            0 <= b <= d,
    ;
}

/// The mean of a mip cell's parents lies between the least and the greatest
/// of them.
pub proof fn lemma_down_cell_between(src: Seq<u8>, pw: int, ph: int, ox: int, oy: int, lo: int, hi: int)
    requires
        0 <= 2 * ox < pw,
        0 <= 2 * oy < ph,
        src.len() == pw * ph,
        forall|x: int, y: int|
            2 * ox <= x <= 2 * ox + 1 && 2 * oy <= y <= 2 * oy + 1 && x < pw && y < ph ==>
            lo <= #[trigger] src[y * pw + x] <= hi,
    ensures
        lo <= down_cell(src, pw, ph, ox, oy) <= hi,
{
    let x = 2 * ox;
    let y = 2 * oy;
    let a = parent_val(src, pw, ph, x, y);
    let b = parent_val(src, pw, ph, x + 1, y);
    let c = parent_val(src, pw, ph, x, y + 1);
    let d = parent_val(src, pw, ph, x + 1, y + 1);
    let ia = parent_in(pw, ph, x, y);
    let ib = parent_in(pw, ph, x + 1, y);
    let ic = parent_in(pw, ph, x, y + 1);
    let id = parent_in(pw, ph, x + 1, y + 1);
    assert(lo <= src[y * pw + x] <= hi);
    if ib == 1 {
        assert(lo <= src[y * pw + x + 1] <= hi);
    }
    if ic == 1 {
        assert(lo <= src[(y + 1) * pw + x] <= hi);
    }
    if id == 1 {
        assert(lo <= src[(y + 1) * pw + x + 1] <= hi);
    }
    let sum = a + b + c + d;
    let count = ia + ib + ic + id;
    assert(lo * count <= sum <= hi * count) by (nonlinear_arith)
        requires
            ia == 1,
            ib == 0 || ib == 1,
            ic == 0 || ic == 1,
            id == 0 || id == 1,
            lo <= a <= hi,
            ib == 1 ==> lo <= b <= hi,
            ib == 0 ==> b == 0,
            ic == 1 ==> lo <= c <= hi,
            ic == 0 ==> c == 0,
            id == 1 ==> lo <= d <= hi,
            id == 0 ==> d == 0,
            sum == a + b + c + d,
            count == ia + ib + ic + id,
    ;
    assert(lo <= (sum + count / 2) / count <= hi) by (nonlinear_arith)
        requires
            1 <= count <= 4,
            lo * count <= sum <= hi * count,
    ;
    assert(0 <= lo || lo <= (sum + count / 2) / count);
    assert((sum + count / 2) / count <= 255) by (nonlinear_arith)
        requires
            1 <= count <= 4,
            sum <= 255 * count,
            a <= 255,
            b <= 255,
            c <= 255,
            d <= 255,
            sum == a + b + c + d,
            ia == 1,
            count == ia + ib + ic + id,
            ib == 0 ==> b == 0,
            ic == 0 ==> c == 0,
            id == 0 ==> d == 0,
            ib == 0 || ib == 1,
            ic == 0 || ic == 1,
            id == 0 || id == 1,
    ;
}

/// The level sizes for a `w0 × h0` base, from level 0 down to the coarsest.
fn compute_level_dims(w0: usize, h0: usize) -> (dims: Vec<(usize, usize)>)
    ensures
        is_level_chain(dims@, w0 as nat, h0 as nat),
{
    let mut dims: Vec<(usize, usize)> = Vec::new();
    dims.push((w0, h0));
    let mut pw = w0;
    let mut ph = h0;
    while dims.len() < GRASS_PYRAMID_MAX_LEVELS && !(pw == 1 && ph == 1)
        invariant
            1 <= dims@.len() <= GRASS_PYRAMID_MAX_LEVELS,
            forall|i: int| 0 <= i < dims@.len() ==>
                (#[trigger] dims@[i]).0 == halve_n(w0 as nat, i as nat) && dims@[i].1 == halve_n(h0 as nat, i as nat),
            forall|i: int| 0 <= i < dims@.len() - 1 ==> !((#[trigger] dims@[i]).0 == 1 && dims@[i].1 == 1),
            pw == dims@.last().0,
            ph == dims@.last().1,
        decreases GRASS_PYRAMID_MAX_LEVELS - dims@.len(),
    {
        let nw = pw / 2 + pw % 2;
        let nh = ph / 2 + ph % 2;
        let ghost i = dims@.len() as nat;
        assert(halve_n(w0 as nat, i) == ceil_half(halve_n(w0 as nat, (i - 1) as nat)));
        assert(halve_n(h0 as nat, i) == ceil_half(halve_n(h0 as nat, (i - 1) as nat)));
        dims.push((nw, nh));
        pw = nw;
        ph = nh;
    }
    dims
}

/// A `len`-byte buffer of zeros.
fn zeros(len: usize) -> (v: Vec<u8>)
    ensures
        v@.len() == len,
        forall|i: int| 0 <= i < len ==> #[trigger] v@[i] == 0,
{
    let mut v: Vec<u8> = Vec::new();
    let mut i: usize = 0;
    while i < len
        invariant
            i <= len,
            v@.len() == i,
            forall|j: int| 0 <= j < i ==> #[trigger] v@[j] == 0,
        decreases len - i,
    {
        v.push(0);
        i = i + 1;
    }
    v
}

/// Build the `cw × ch` level from the `pw × ph` level `src`.
fn downsample_level(src: &[u8], pw: usize, ph: usize, cw: usize, ch: usize) -> (dst: Vec<u8>)
    requires
        src@.len() == pw * ph,
        cw == ceil_half(pw as nat),
        ch == ceil_half(ph as nat),
        cw * ch <= usize::MAX,
    ensures
        dst@ == downsample(src@, pw as int, ph as int, cw as int, ch as int),
{
    let mut dst: Vec<u8> = Vec::new();
    let src_len = src.len();
    assert(pw * ph <= usize::MAX);
    let ghost target = downsample(src@, pw as int, ph as int, cw as int, ch as int);
    let mut oy: usize = 0;
    while oy < ch
        invariant
            src@.len() == pw * ph,
            pw * ph <= usize::MAX,
            cw == ceil_half(pw as nat),
            ch == ceil_half(ph as nat),
            cw * ch <= usize::MAX,
            target == downsample(src@, pw as int, ph as int, cw as int, ch as int),
            oy <= ch,
            dst@.len() == oy * cw,
            forall|j: int| 0 <= j < dst@.len() ==> #[trigger] dst@[j] == target[j],
        decreases ch - oy,
    {
        let sy0 = oy * 2;
        let sy1 = sy0 + 1;
        let has_y1 = sy1 < ph;
        let mut ox: usize = 0;
        while ox < cw
            invariant
                src@.len() == pw * ph,
                pw * ph <= usize::MAX,
                cw == ceil_half(pw as nat),
                ch == ceil_half(ph as nat),
                cw * ch <= usize::MAX,
                target == downsample(src@, pw as int, ph as int, cw as int, ch as int),
                oy < ch,
                sy0 == 2 * oy,
                sy1 == sy0 + 1,
                has_y1 == (sy1 < ph),
                ox <= cw,
                dst@.len() == oy * cw + ox,
                forall|j: int| 0 <= j < dst@.len() ==> #[trigger] dst@[j] == target[j],
            decreases cw - ox,
        {
            let sx0 = ox * 2;
            let sx1 = sx0 + 1;
            let has_x1 = sx1 < pw;
            assert(sx0 < pw && sy0 < ph);
            proof {
                lemma_row_major_bound(sx0 as int, sy0 as int, pw as int, ph as int);
                if has_x1 {
                    lemma_row_major_bound(sx1 as int, sy0 as int, pw as int, ph as int);
                }
                if has_y1 {
                    lemma_row_major_bound(sx0 as int, sy1 as int, pw as int, ph as int);
                }
                if has_x1 && has_y1 {
                    lemma_row_major_bound(sx1 as int, sy1 as int, pw as int, ph as int);
                }
            }
            let v00 = src[sy0 * pw + sx0] as u32;
            let (sum, count) = if !has_x1 && !has_y1 {
                (v00, 1u32)
            } else if !has_x1 {
                let v01 = src[sy1 * pw + sx0] as u32;
                (v00 + v01, 2)
            } else if !has_y1 {
                let v10 = src[sy0 * pw + sx1] as u32;
                (v00 + v10, 2)
            } else {
                let v10 = src[sy0 * pw + sx1] as u32;
                let v01 = src[sy1 * pw + sx0] as u32;
                let v11 = src[sy1 * pw + sx1] as u32;
                (v00 + v10 + v01 + v11, 4)
            };
            let value = ((sum + count / 2) / count) as u8;
            proof {
                let j = oy * cw + ox;
                lemma_row_major(ox as int, oy as int, cw as int);
                lemma_row_major_bound(ox as int, oy as int, cw as int, ch as int);
                assert(value == down_cell(src@, pw as int, ph as int, ox as int, oy as int));
                assert(target[j as int] == down_cell(src@, pw as int, ph as int, ox as int, oy as int));
            }
            dst.push(value);
            ox = ox + 1;
        }
        assert((oy + 1) * cw == oy * cw + cw) by (nonlinear_arith);
        oy = oy + 1;
    }
    assert(ch * cw == cw * ch) by (nonlinear_arith);
    assert(dst@ =~= target);
    dst
}

/// Box-filter mip pyramid: the size of every level (level 0 included) and
/// the owned bytes of levels 1 and up.
#[derive(Debug)]
pub struct GrassPyramid {
    /// `(width, height)` of each level, level 0 first.
    pub level_dims: Vec<(usize, usize)>,
    /// Row-major bytes of levels 1, 2, …; `levels[k]` is level `k + 1`.
    pub levels: Vec<Vec<u8>>,
}

impl GrassPyramid {
    /// The size chain starts at the base and halves down, and each owned
    /// level holds exactly one byte per cell.
    pub open spec fn wf(&self) -> bool {
        &&& is_level_chain(self.level_dims@, self.level_dims@[0].0 as nat, self.level_dims@[0].1 as nat)
        &&& self.levels@.len() == self.level_dims@.len() - 1
        &&& forall|k: int| 0 <= k < self.levels@.len() ==>
            (#[trigger] self.levels@[k])@.len() == self.level_dims@[k + 1].0 * self.level_dims@[k + 1].1
        &&& self.level_dims@[0].0 * self.level_dims@[0].1 <= usize::MAX
    }

    /// The bytes of level `k`: the base field for level 0, the owned buffer
    /// otherwise.
    pub open spec fn level_bytes(&self, density: Seq<u8>, k: int) -> Seq<u8> {
        if k == 0 { density } else { self.levels@[k - 1]@ }
    }

    /// A pyramid over a square `grass_dim × grass_dim` base.
    pub fn new(grass_dim: usize) -> (p: GrassPyramid)
        requires
            grass_dim * grass_dim <= usize::MAX,
        ensures
            p.wf(),
            p.level_dims@[0] == (grass_dim, grass_dim),
            forall|k: int, i: int| 0 <= k < p.levels@.len() && 0 <= i < p.levels@[k]@.len() ==>
                #[trigger] p.levels@[k]@[i] == 0,
    {
        GrassPyramid::new_rect(grass_dim, grass_dim)
    }

    /// A pyramid over a `grass_dim_x × grass_dim_y` base; the owned levels
    /// start zeroed.
    pub fn new_rect(grass_dim_x: usize, grass_dim_y: usize) -> (p: GrassPyramid)
        requires
            grass_dim_x * grass_dim_y <= usize::MAX,
        ensures
            p.wf(),
            p.level_dims@[0] == (grass_dim_x, grass_dim_y),
            forall|k: int, i: int| 0 <= k < p.levels@.len() && 0 <= i < p.levels@[k]@.len() ==>
                #[trigger] p.levels@[k]@[i] == 0,
    {
        let level_dims = compute_level_dims(grass_dim_x, grass_dim_y);
        let mut levels: Vec<Vec<u8>> = Vec::new();
        let mut k: usize = 1;
        while k < level_dims.len()
            invariant
                is_level_chain(level_dims@, grass_dim_x as nat, grass_dim_y as nat),
                grass_dim_x * grass_dim_y <= usize::MAX,
                1 <= k <= level_dims@.len(),
                levels@.len() == k - 1,
                forall|j: int| 0 <= j < levels@.len() ==>
                    (#[trigger] levels@[j])@.len() == level_dims@[j + 1].0 * level_dims@[j + 1].1,
                forall|j: int, i: int| 0 <= j < levels@.len() && 0 <= i < levels@[j]@.len() ==>
                    #[trigger] levels@[j]@[i] == 0,
            decreases level_dims@.len() - k,
        {
            let (w, h) = level_dims[k];
            proof {
                lemma_halve_le(grass_dim_x as nat, k as nat);
                lemma_halve_le(grass_dim_y as nat, k as nat);
                lemma_mul_mono(w as int, h as int, grass_dim_x as int, grass_dim_y as int);
            }
            let buf = zeros(w * h);
            levels.push(buf);
            k = k + 1;
        }
        GrassPyramid { level_dims, levels }
    }

    /// Number of levels, level 0 included.
    pub fn num_levels(&self) -> (n: usize)
        ensures
            n == self.level_dims@.len(),
    {
        self.level_dims.len()
    }

    /// Every level has at most as many cells as the base, so its size fits.
    pub proof fn lemma_level_size(&self, k: int)
        requires
            self.wf(),
            0 <= k < self.level_dims@.len(),
        ensures
            self.level_dims@[k].0 * self.level_dims@[k].1 <= self.level_dims@[0].0 * self.level_dims@[0].1,
            self.level_dims@[k].0 * self.level_dims@[k].1 <= usize::MAX,
    {
        let w0 = self.level_dims@[0].0 as nat;
        let h0 = self.level_dims@[0].1 as nat;
        assert(self.level_dims@[0].0 == halve_n(w0, 0));
        assert(self.level_dims@[k].0 == halve_n(w0, k as nat));
        assert(self.level_dims@[k].1 == halve_n(h0, k as nat));
        lemma_halve_le(w0, k as nat);
        lemma_halve_le(h0, k as nat);
        lemma_mul_mono(
            self.level_dims@[k].0 as int,
            self.level_dims@[k].1 as int,
            w0 as int,
            h0 as int,
        );
    }

    /// Level `k + 1` is the downsample of level `k` (for every owned level).
    pub open spec fn levels_current(&self, density: Seq<u8>) -> bool {
        forall|k: int| 0 <= k < self.levels@.len() ==>
            (#[trigger] self.levels@[k])@ == downsample(
                self.level_bytes(density, k),
                self.level_dims@[k].0 as int,
                self.level_dims@[k].1 as int,
                self.level_dims@[k + 1].0 as int,
                self.level_dims@[k + 1].1 as int,
            )
    }

    /// Rebuild every owned level from the base field `density`: level 1 from
    /// the base, each further level from the one before. Each cell becomes
    /// the rounded mean of its in-bounds 2×2 parents. The tile bitset and
    /// tile count are accepted for a future active-set-keyed refresh and are
    /// not read: every level is recomputed in full.
    pub fn refresh(&mut self, density: &[u8], _tile_active: &[u64], _tiles_per_axis: usize)
        requires
            old(self).wf(),
            density@.len() == old(self).level_dims@[0].0 * old(self).level_dims@[0].1,
        ensures
            final(self).wf(),
            final(self).level_dims@ == old(self).level_dims@,
            final(self).levels_current(density@),
    {
        let ghost w0 = self.level_dims@[0].0 as nat;
        let ghost h0 = self.level_dims@[0].1 as nat;
        let mut k: usize = 0;
        while k < self.levels.len()
            invariant
                self.wf(),
                self.level_dims@ == old(self).level_dims@,
                w0 == self.level_dims@[0].0,
                h0 == self.level_dims@[0].1,
                density@.len() == w0 * h0,
                k <= self.levels@.len(),
                forall|j: int| 0 <= j < k ==>
                    (#[trigger] self.levels@[j])@ == downsample(
                        self.level_bytes(density@, j),
                        self.level_dims@[j].0 as int,
                        self.level_dims@[j].1 as int,
                        self.level_dims@[j + 1].0 as int,
                        self.level_dims@[j + 1].1 as int,
                    ),
            decreases self.levels@.len() - k,
        {
            let (pw, ph) = self.level_dims[k];
            let (cw, ch) = self.level_dims[k + 1];
            proof {
                let dk = self.level_dims@[k as int];
                let dk1 = self.level_dims@[k as int + 1];
                assert(dk.0 == halve_n(w0, k as nat) && dk.1 == halve_n(h0, k as nat));
                assert(dk1.0 == halve_n(w0, (k + 1) as nat) && dk1.1 == halve_n(h0, (k + 1) as nat));
                lemma_halve_le(w0, (k + 1) as nat);
                lemma_halve_le(h0, (k + 1) as nat);
                lemma_mul_mono(cw as int, ch as int, w0 as int, h0 as int);
            }
            let next = if k == 0 {
                downsample_level(density, pw, ph, cw, ch)
            } else {
                downsample_level(self.levels[k - 1].as_slice(), pw, ph, cw, ch)
            };
            let ghost before = self.levels@;
            self.levels.set(k, next);
            proof {
                assert forall|j: int| 0 <= j < k + 1 implies
                    (#[trigger] self.levels@[j])@ == downsample(
                        self.level_bytes(density@, j),
                        self.level_dims@[j].0 as int,
                        self.level_dims@[j].1 as int,
                        self.level_dims@[j + 1].0 as int,
                        self.level_dims@[j + 1].1 as int,
                    ) by {
                    if j < k {
                        assert(self.levels@[j] == before[j]);
                        if j > 0 {
                            assert(self.levels@[j - 1] == before[j - 1]);
                        }
                    } else if j > 0 {
                        assert(self.levels@[j - 1] == before[j - 1]);
                    }
                }
            }
            k = k + 1;
        }
    }

    /// The byte of level `level` at cell `(x, y)`, the coordinates clamped to
    /// the level (never wrapped).
    pub fn sample_clamped(&self, density: &[u8], level: usize, x: usize, y: usize) -> (b: u8)
        requires
            self.wf(),
            level < self.level_dims@.len(),
            density@.len() == self.level_dims@[0].0 * self.level_dims@[0].1,
            self.level_dims@[level as int].0 >= 1,
            self.level_dims@[level as int].1 >= 1,
        ensures
            ({
                let (w, h) = self.level_dims@[level as int];
                let cx = if x < w { x as int } else { w - 1 };
                let cy = if y < h { y as int } else { h - 1 };
                b == self.level_bytes(density@, level as int)[cy * w + cx]
            }),
    {
        let (w, h) = self.level_dims[level];
        let cx = if x < w { x } else { w - 1 };
        let cy = if y < h { y } else { h - 1 };
        proof {
            self.lemma_level_size(level as int);
            lemma_row_major_bound(cx as int, cy as int, w as int, h as int);
        }
        if level == 0 {
            density[cy * w + cx]
        } else {
            self.levels[level - 1][cy * w + cx]
        }
    }

    /// The byte shown at window cell `(row, col)` for a window of `level`
    /// with origin `(origin_x, origin_y)`: the level cell at the origin plus
    /// the offset, clamped to the level's last row and column.
    pub open spec fn window_byte(
        &self,
        density: Seq<u8>,
        level: int,
        origin_x: int,
        origin_y: int,
        row: int,
        col: int,
    ) -> u8 {
        let (w, h) = self.level_dims@[level];
        let sy = if origin_y + row < h { origin_y + row } else { h - 1 };
        let sx = if origin_x + col < w { origin_x + col } else { w - 1 };
        self.level_bytes(density, level)[sy * w + sx]
    }

    /// Fill the first `win_w * win_h` bytes of `dst`, row-major, with a
    /// `win_w × win_h` window of `level` whose origin is `(origin_x,
    /// origin_y)` in level cells; cells past the level's edge repeat the edge.
    /// The rest of `dst` is left as it was.
    pub fn viewport_window(
        &self,
        density: &[u8],
        level: usize,
        origin_x: usize,
        origin_y: usize,
        win_w: usize,
        win_h: usize,
        dst: &mut [u8],
    )
        requires
            self.wf(),
            level < self.level_dims@.len(),
            density@.len() == self.level_dims@[0].0 * self.level_dims@[0].1,
            self.level_dims@[level as int].0 >= 1,
            self.level_dims@[level as int].1 >= 1,
            win_w * win_h <= old(dst)@.len(),
            origin_x + win_w <= usize::MAX,
            origin_y + win_h <= usize::MAX,
        ensures
            final(dst)@.len() == old(dst)@.len(),
            forall|i: int| 0 <= i < win_w * win_h ==> #[trigger] final(dst)@[i] == self.window_byte(
                density@,
                level as int,
                origin_x as int,
                origin_y as int,
                i / (win_w as int),
                i % (win_w as int),
            ),
            forall|i: int| win_w * win_h <= i < old(dst)@.len() ==> #[trigger] final(dst)@[i] == old(dst)@[i],
    {
        let (lw, lh) = self.level_dims[level];
        let dst_len = dst.len();
        proof {
            self.lemma_level_size(level as int);
        }
        let mut row: usize = 0;
        while row < win_h
            invariant
                self.wf(),
                level < self.level_dims@.len(),
                density@.len() == self.level_dims@[0].0 * self.level_dims@[0].1,
                (lw, lh) == self.level_dims@[level as int],
                lw >= 1,
                lh >= 1,
                lw * lh <= usize::MAX,
                win_w * win_h <= dst@.len(),
                dst@.len() == dst_len,
                dst@.len() == old(dst)@.len(),
                origin_x + win_w <= usize::MAX,
                origin_y + win_h <= usize::MAX,
                row <= win_h,
                forall|i: int| 0 <= i < row * win_w ==> #[trigger] dst@[i] == self.window_byte(
                    density@,
                    level as int,
                    origin_x as int,
                    origin_y as int,
                    i / (win_w as int),
                    i % (win_w as int),
                ),
                forall|i: int| row * win_w <= i < dst@.len() ==> #[trigger] dst@[i] == old(dst)@[i],
            decreases win_h - row,
        {
            let sy = if origin_y + row < lh { origin_y + row } else { lh - 1 };
            let mut col: usize = 0;
            while col < win_w
                invariant
                    self.wf(),
                    level < self.level_dims@.len(),
                    density@.len() == self.level_dims@[0].0 * self.level_dims@[0].1,
                    (lw, lh) == self.level_dims@[level as int],
                    lw >= 1,
                    lh >= 1,
                    lw * lh <= usize::MAX,
                    win_w * win_h <= dst@.len(),
                    dst@.len() == dst_len,
                    dst@.len() == old(dst)@.len(),
                    origin_x + win_w <= usize::MAX,
                    row < win_h,
                    sy == (if origin_y + row < lh { origin_y + row } else { lh - 1 }),
                    sy < lh,
                    col <= win_w,
                    forall|i: int| 0 <= i < row * win_w + col ==> #[trigger] dst@[i] == self.window_byte(
                        density@,
                        level as int,
                        origin_x as int,
                        origin_y as int,
                        i / (win_w as int),
                        i % (win_w as int),
                    ),
                    forall|i: int| row * win_w + col <= i < dst@.len() ==> #[trigger] dst@[i] == old(dst)@[i],
                decreases win_w - col,
            {
                let sx = if origin_x + col < lw { origin_x + col } else { lw - 1 };
                proof {
                    lemma_row_major_bound(sx as int, sy as int, lw as int, lh as int);
                    lemma_row_major_bound(col as int, row as int, win_w as int, win_h as int);
                    lemma_row_major(col as int, row as int, win_w as int);
                }
                let byte = if level == 0 {
                    density[sy * lw + sx]
                } else {
                    self.levels[level - 1][sy * lw + sx]
                };
                let idx = row * win_w + col;
                dst[idx] = byte;
                col = col + 1;
            }
            assert((row + 1) * win_w == row * win_w + win_w) by (nonlinear_arith);
            row = row + 1;
        }
    }

    /// `(width, height)` of level `k`.
    pub fn level_dim(&self, k: usize) -> (d: (usize, usize))
        requires
            k < self.level_dims@.len(),
        ensures
            d == self.level_dims@[k as int],
    {
        self.level_dims[k]
    }
}

} // verus!
