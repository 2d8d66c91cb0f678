//! Snapshot buffer layout shared with the renderer: the fixed header and
//! creature regions, the runtime-sized grass region, the bit-packed render
//! lane, and the integer core of the grass level-of-detail choice.

use vstd::prelude::*;
use crate::constants::MAX_POP_FOR_SIM;

verus! {

/// Bytes of the per-slot stats header (20 bytes payload, 12 bytes padding so
/// the creature records that follow are 32-byte aligned).
pub const SNAPSHOT_HEADER_BYTES: usize = 32;

/// Bytes per creature record (eight 4-byte lanes).
pub const SNAPSHOT_CREATURE_STRIDE: usize = 32;

/// Bytes of the creature region of one slot, sized for the population cap.
pub const SNAPSHOT_CREATURE_BYTES: usize = MAX_POP_FOR_SIM * SNAPSHOT_CREATURE_STRIDE;

/// Region sizes of the snapshot buffer for a world with a given grass cell
/// count: one byte per grass cell, two double-buffered slots.
#[derive(Clone, Copy, Debug)]
pub struct SnapshotLayout {
    /// Grass region per slot: one byte per cell.
    pub grass_bytes: usize,
    /// Header, creatures and grass of one slot.
    pub slot_bytes: usize,
    /// The two slots.
    pub buf_bytes: usize,
    /// The biome buffer: one byte per cell, like the grass region.
    pub biome_bytes: usize,
}

impl SnapshotLayout {
    /// The layout for `grass_cell_count` grass cells.
    pub fn from_grass_cell_count(grass_cell_count: usize) -> (l: SnapshotLayout)
        requires
            2 * (SNAPSHOT_HEADER_BYTES + SNAPSHOT_CREATURE_BYTES + grass_cell_count) <= usize::MAX,
        ensures
            l.grass_bytes == grass_cell_count,
            l.slot_bytes == SNAPSHOT_HEADER_BYTES + SNAPSHOT_CREATURE_BYTES + grass_cell_count,
            l.buf_bytes == 2 * l.slot_bytes,
            l.biome_bytes == grass_cell_count,
    {
        let grass_bytes = grass_cell_count;
        let slot_bytes = SNAPSHOT_HEADER_BYTES + SNAPSHOT_CREATURE_BYTES + grass_bytes;
        SnapshotLayout { grass_bytes, slot_bytes, buf_bytes: 2 * slot_bytes, biome_bytes: grass_cell_count }
    }
}

/// Byte `i` (0 = least significant) of `v`.
pub open spec fn le_byte(v: u32, i: int) -> u8 {
    ((v >> ((8 * i) as u32)) & 0xff) as u8
}

/// The stats header's fields in order: tick, population written, ended flag
/// (1 or 0), ticks-per-second bits, jank count.
pub open spec fn header_field(tick: u32, population: u32, ended: bool, tps_bits: u32, jank: u32, f: int) -> u32 {
    if f == 0 {
        tick
    } else if f == 1 {
        population
    } else if f == 2 {
        if ended { 1 } else { 0 }
    } else if f == 3 {
        tps_bits
    } else {
        jank
    }
}

/// Start of slot `slot` (only its lowest bit counts) in the snapshot buffer.
pub open spec fn slot_base(layout: SnapshotLayout, slot: u32) -> int {
    (slot % 2) * layout.slot_bytes
}

fn put_u32_le(buf: &mut Vec<u8>, at: usize, v: u32)
    requires
        at + 4 <= old(buf)@.len(),
    ensures
        final(buf)@.len() == old(buf)@.len(),
        forall|j: int| 0 <= j < final(buf)@.len() ==> #[trigger] final(buf)@[j]
            == (if at <= j < at + 4 { le_byte(v, j - at) } else { old(buf)@[j] }),
{
    let n = buf.len();
    assert(at + 4 <= n);
    buf.set(at, (v & 0xff) as u8);
    buf.set(at + 1, ((v >> 8u32) & 0xff) as u8);
    buf.set(at + 2, ((v >> 16u32) & 0xff) as u8);
    buf.set(at + 3, ((v >> 24u32) & 0xff) as u8);
    assert((v >> 0u32) & 0xff == v & 0xff) by (bit_vector);
    assert(le_byte(v, 0) == (v & 0xff) as u8);
    assert(le_byte(v, 1) == ((v >> 8u32) & 0xff) as u8);
    assert(le_byte(v, 2) == ((v >> 16u32) & 0xff) as u8);
    assert(le_byte(v, 3) == ((v >> 24u32) & 0xff) as u8);
}

/// Write the 20-byte stats header of slot `slot` (its lowest bit picks the
/// slot): five little-endian `u32` fields (tick, population written, ended
/// flag, ticks-per-second bits, jank count); every other byte is kept.
pub fn write_snapshot_header(
    buf: &mut Vec<u8>,
    layout: SnapshotLayout,
    slot: u32,
    tick: u32,
    population: u32,
    ended: bool,
    tps_bits: u32,
    jank: u32,
)
    requires
        layout.slot_bytes >= SNAPSHOT_HEADER_BYTES,
        layout.buf_bytes == 2 * layout.slot_bytes,
        old(buf)@.len() >= layout.buf_bytes,
    ensures
        final(buf)@.len() == old(buf)@.len(),
        forall|j: int| 0 <= j < final(buf)@.len() ==> {
            let base = slot_base(layout, slot);
            #[trigger] final(buf)@[j] == (if base <= j < base + 20 {
                le_byte(header_field(tick, population, ended, tps_bits, jank, (j - base) / 4), (j - base) % 4)
            } else {
                old(buf)@[j]
            })
        },
{
    let n = buf.len();
    let base: usize = if slot % 2 == 1 { layout.slot_bytes } else { 0 };
    assert(base + 20 <= n);
    assert(base == (slot % 2) * layout.slot_bytes);
    let ghost b0 = buf@;
    put_u32_le(buf, base, tick);
    put_u32_le(buf, base + 4, population);
    put_u32_le(buf, base + 8, if ended { 1 } else { 0 });
    put_u32_le(buf, base + 12, tps_bits);
    put_u32_le(buf, base + 16, jank);
    assert forall|j: int| 0 <= j < buf@.len() implies {
        let base = slot_base(layout, slot);
        #[trigger] buf@[j] == (if base <= j < base + 20 {
            le_byte(header_field(tick, population, ended, tps_bits, jank, (j - base) / 4), (j - base) % 4)
        } else {
            b0[j]
        })
    } by {
        assert(slot_base(layout, slot) == base);
    }
}

/// Lane `k` of a creature record, in order: x bits, y bits, radius bits,
/// colour, id low half, id high half, packed render lane, zero pad.
pub open spec fn record_lane(x_bits: u32, y_bits: u32, radius_bits: u32, color: u32, id: u64, packed: u32, k: int) -> u32 {
    if k == 0 {
        x_bits
    } else if k == 1 {
        y_bits
    } else if k == 2 {
        radius_bits
    } else if k == 3 {
        color
    } else if k == 4 {
        (id % 0x1_0000_0000) as u32
    } else if k == 5 {
        (id / 0x1_0000_0000) as u32
    } else if k == 6 {
        packed
    } else {
        0
    }
}

/// Write the 32-byte record of creature `i` at `i * 32`: eight
/// little-endian `u32` lanes (x bits, y bits, radius bits, colour, id low
/// half, id high half, packed render lane, zero pad); every other byte is
/// kept.
pub fn write_creature_record(
    dst: &mut Vec<u8>,
    i: usize,
    x_bits: u32,
    y_bits: u32,
    radius_bits: u32,
    color: u32,
    id: u64,
    packed: u32,
)
    requires
        i * 32 + 32 <= old(dst)@.len(),
    ensures
        final(dst)@.len() == old(dst)@.len(),
        forall|j: int| 0 <= j < final(dst)@.len() ==> #[trigger] final(dst)@[j] == (if i * 32 <= j < i * 32 + 32 {
            le_byte(record_lane(x_bits, y_bits, radius_bits, color, id, packed, (j - i * 32) / 4), (j - i * 32) % 4)
        } else {
            old(dst)@[j]
        }),
{
    let n = dst.len();
    assert(i * 32 + 32 <= n);
    let off = i * 32;
    let lo = (id % 0x1_0000_0000) as u32;
    let hi = (id / 0x1_0000_0000) as u32;
    put_u32_le(dst, off, x_bits);
    put_u32_le(dst, off + 4, y_bits);
    put_u32_le(dst, off + 8, radius_bits);
    put_u32_le(dst, off + 12, color);
    put_u32_le(dst, off + 16, lo);
    put_u32_le(dst, off + 20, hi);
    put_u32_le(dst, off + 24, packed);
    put_u32_le(dst, off + 28, 0);
}

/// The population cap the snapshot is sized for.
pub fn max_pop_for_sim() -> (r: u32)
    ensures
        r == MAX_POP_FOR_SIM,
{
    MAX_POP_FOR_SIM as u32
}

/// The render lane of a creature record, least significant bits first:
/// 3 bits of flash tag, 4 bits of flash ticks, 16 bits of species id, and
/// zeros above.
pub open spec fn render_lane(flash_tag: u8, flash_ticks: u8, species_id: u16) -> int {
    (flash_tag % 8) + 8 * (flash_ticks % 16) + 128 * species_id
}

/// Bit-pack the render lane; each field is cut to its width.
pub fn pack_render_u32(flash_tag: u8, flash_ticks: u8, species_id: u16) -> (r: u32)
    ensures
        r == render_lane(flash_tag, flash_ticks, species_id),
        flash_tag < 8 ==> r & 0x7 == flash_tag,
        flash_ticks < 16 ==> (r >> 3u32) & 0xF == flash_ticks,
        (r >> 7u32) & 0xFFFF == species_id,
{
    let t = flash_tag as u32;
    let k = flash_ticks as u32;
    let s = species_id as u32;
    let r = (t & 0x7) | ((k & 0xF) << 3u32) | ((s & 0xFFFF) << 7u32);
    assert(r == (t % 8) + 8 * (k % 16) + 128 * s) by (bit_vector)
        requires
            r == (t & 0x7) | ((k & 0xF) << 3u32) | ((s & 0xFFFF) << 7u32),
            s < 0x10000,
    ;
    assert(t < 8 ==> r & 0x7 == t) by (bit_vector)
        requires
            r == (t & 0x7) | ((k & 0xF) << 3u32) | ((s & 0xFFFF) << 7u32),
    ;
    assert(k < 16 ==> (r >> 3u32) & 0xF == k) by (bit_vector)
        requires
            r == (t & 0x7) | ((k & 0xF) << 3u32) | ((s & 0xFFFF) << 7u32),
    ;
    assert((r >> 7u32) & 0xFFFF == s) by (bit_vector)
        requires
            r == (t & 0x7) | ((k & 0xF) << 3u32) | ((s & 0xFFFF) << 7u32),
            s < 0x10000,
    ;
    r
}

/// Whether an `f32` bit pattern is a NaN: all exponent bits set and a
/// non-zero mantissa.
pub open spec fn is_nan_bits(bits: u32) -> bool {
    (bits >> 23u32) & 0xFF == 0xFF && bits & 0x7F_FFFF != 0
}

/// The canonical quiet NaN.
pub const CANONICAL_NAN_BITS: u32 = 0x7fc0_0000;

/// The bits an `f32` is hashed as: every NaN pattern becomes the canonical
/// quiet NaN; every other value (zeros, infinities, subnormals) keeps its bits.
pub fn canonical_f32_bits(bits: u32) -> (r: u32)
    ensures
        r == (if is_nan_bits(bits) { CANONICAL_NAN_BITS } else { bits }),
{
    if (bits >> 23u32) & 0xFF == 0xFF && bits & 0x7F_FFFF != 0 {
        CANONICAL_NAN_BITS
    } else {
        bits
    }
}

/// Grass cells per axis the renderer is sent at most.
pub const GRASS_LOD_BUDGET_AXIS: usize = 4096;

/// `floor(log2(x))`, with 0 for `x < 2`.
pub open spec fn floor_log2(x: nat) -> nat
    decreases x,
{
    if x < 2 {
        0
    } else {
        1 + floor_log2(x / 2)
    }
}

/// The pyramid level that fits a visible span of `span_cells` level-0 cells
/// into the budget: `floor(log2(max(1, span_cells / budget)))`.
pub open spec fn lod_base_level(span_cells: nat) -> nat {
    floor_log2(span_cells / (GRASS_LOD_BUDGET_AXIS as nat))
}

/// The level actually used: the base level lowered by `bias_steps` (not below
/// 0) and capped at `max_level`.
pub open spec fn lod_level_spec(span_cells: nat, bias_steps: nat, max_level: nat) -> nat {
    let b = lod_base_level(span_cells);
    let lowered: nat = if b > bias_steps { (b - bias_steps) as nat } else { 0 };
    if lowered > max_level { max_level } else { lowered }
}

/// The grass pyramid level for a visible span of `span_cells` whole level-0
/// cells (the span rounded down), lowered by `bias_steps` levels (the bias
/// rounded up) and capped at `max_level`.
pub fn lod_level(span_cells: u64, bias_steps: u32, max_level: usize) -> (r: usize)
    ensures
        r == lod_level_spec(span_cells as nat, bias_steps as nat, max_level as nat),
{
    let mut x: u64 = span_cells / (GRASS_LOD_BUDGET_AXIS as u64);
    let ghost x0 = x as nat;
    let mut level: u64 = 0;
    while x >= 2
        invariant
            level + floor_log2(x as nat) == floor_log2(x0),
            level + x <= x0,
            x0 <= u64::MAX,
        decreases x,
    {
        x = x / 2;
        level = level + 1;
    }
    let bias = bias_steps as u64;
    let lowered: u64 = if level > bias { level - bias } else { 0 };
    if lowered > max_level as u64 { max_level } else { lowered as usize }
}

/// `s` halved `m` times, rounding up each time: `ceil(s / 2^m)`.
pub open spec fn ceil_halvings(s: nat, m: nat) -> nat
    decreases m,
{
    if m == 0 {
        s
    } else {
        ceil_halvings(((s + 1) / 2) as nat, (m - 1) as nat)
    }
}

/// The visible span in cells of pyramid level `mip_level`, for a visible
/// span of `span_cells` level-0 cells (the span rounded up).
pub fn vis_cells(span_cells: u64, mip_level: u32) -> (r: u64)
    ensures
        r == ceil_halvings(span_cells as nat, mip_level as nat),
{
    let mut s = span_cells;
    let mut m = mip_level;
    while m > 0
        invariant
            ceil_halvings(s as nat, m as nat) == ceil_halvings(span_cells as nat, mip_level as nat),
        decreases m,
    {
        let ghost prev = s as nat;
        s = s / 2 + s % 2;
        assert(s == (prev + 1) / 2);
        m = m - 1;
    }
    s
}

} // verus!
