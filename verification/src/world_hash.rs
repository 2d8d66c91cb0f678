//! The world's state hash: xxHash64 (seed 0) over a fixed byte stream of
//! the world's state. Integers go in little-endian; every float goes in as
//! its bit pattern, with every NaN replaced by the canonical quiet NaN.
//!
//! Stream order: the tick; the creature count and each creature (id,
//! position, velocity, energy, age, genome, brain weights, mutation rate,
//! digestion cooldown, upkeep, species and parent species, last and current
//! action, largest size, distance, birth tick); the grass cell count and each
//! cell's density; the carrion count and each corpse (position, pool, age,
//! id); the species count and each species (id, digest of its anchor
//! genome, parent, name length and UTF-8 bytes, birth tick, death tick,
//! child count, depth, anchor brain weights); the next species id; the four
//! state words of the random stream.
//!
//! Optional ticks and ids go in as a presence byte then the value (zero when
//! absent).

use vstd::prelude::*;
use crate::rng::{xxh64, xxh64_digest};
use crate::snapshot::{canonical_f32_bits, is_nan_bits, CANONICAL_NAN_BITS};

verus! {

/// A genome as the hash reads it: the bits of its floats, its integers.
#[derive(Clone, Debug)]
pub struct GenomeHashInput {
    pub size_bits: u32,
    pub max_age: u32,
    pub graze_efficiency_bits: u32,
    pub eat_efficiency_bits: u32,
    pub scavenge_efficiency_bits: u32,
    pub move_speed_bits: u32,
    pub eye_count: u8,
    pub eye_offset_bits: Vec<u32>,
    pub nose_count: u8,
    pub vision_range_bits: u32,
    pub armor_bits: u32,
    pub bite_reach_bits: u32,
    /// Red, green, blue.
    pub pigment_bits: [u32; 3],
    /// The per-trait mutation rates, in the genome's trait order.
    pub mutation_rate_bits: [u32; 15],
}

/// One creature as the hash reads it.
#[derive(Clone, Debug)]
pub struct CreatureHashInput {
    pub id: u64,
    pub x_bits: u32,
    pub y_bits: u32,
    pub vx_bits: u32,
    pub vy_bits: u32,
    pub energy_bits: u32,
    pub age: u32,
    pub genome: GenomeHashInput,
    pub weight_bits: Vec<u32>,
    pub nn_mutation_rate_bits: u32,
    pub digestion_cooldown: u32,
    pub cumulative_upkeep_bits: u32,
    pub species_id: u32,
    pub parent_species_id: u32,
    pub last_action: u8,
    pub action_this_tick: u8,
    pub max_size_reached_bits: u32,
    pub distance_travelled_bits: u32,
    pub birth_tick: u32,
}

/// One corpse as the hash reads it.
#[derive(Clone, Copy, Debug)]
pub struct CarrionHashInput {
    pub x_bits: u32,
    pub y_bits: u32,
    pub pool_bits: u32,
    pub age: u32,
    pub id: u64,
}

/// One species as the hash reads it.
#[derive(Clone, Debug)]
pub struct SpeciesHashInput {
    pub id: u32,
    pub anchor_genome: GenomeHashInput,
    pub parent_id: Option<u32>,
    pub name: String,
    pub born_tick: u32,
    pub died_tick: Option<u32>,
    pub child_count: u32,
    pub depth: u32,
    pub anchor_brain_weight_bits: Vec<u32>,
}

/// The world as the hash reads it.
#[derive(Clone, Debug)]
pub struct WorldHashInput {
    pub tick: u32,
    pub creatures: Vec<CreatureHashInput>,
    /// The bits of each grass cell's density, in cell order.
    pub grass_bits: Vec<u32>,
    pub carrion: Vec<CarrionHashInput>,
    pub species: Vec<SpeciesHashInput>,
    pub species_next_id: u32,
    /// The four state words of the random stream, in storage order.
    pub rng_state: [u64; 4],
}

/// `v` as four little-endian bytes.
pub open spec fn u32_le(v: u32) -> Seq<u8> {
    seq![v as u8, (v >> 8u32) as u8, (v >> 16u32) as u8, (v >> 24u32) as u8]
}

/// `v` as eight little-endian bytes.
pub open spec fn u64_le(v: u64) -> Seq<u8> {
    seq![
        v as u8,
        (v >> 8u64) as u8,
        (v >> 16u64) as u8,
        (v >> 24u64) as u8,
        (v >> 32u64) as u8,
        (v >> 40u64) as u8,
        (v >> 48u64) as u8,
        (v >> 56u64) as u8,
    ]
}

/// A float given by its bits: the canonical bits, little-endian.
pub open spec fn f32_le(bits: u32) -> Seq<u8> {
    u32_le(if is_nan_bits(bits) { CANONICAL_NAN_BITS } else { bits })
}

/// An optional value: a presence byte, then the value (0 when absent).
pub open spec fn opt_le(o: Option<u32>) -> Seq<u8> {
    match o {
        None => seq![0u8] + u32_le(0),
        Some(v) => seq![1u8] + u32_le(v),
    }
}

/// The bytes of every item of `s`, in order.
pub open spec fn concat_le<T>(s: Seq<T>, f: spec_fn(T) -> Seq<u8>) -> Seq<u8>
    decreases s.len(),
{
    if s.len() == 0 {
        Seq::empty()
    } else {
        concat_le(s.drop_last(), f) + f(s.last())
    }
}

/// A run of floats given by their bits.
pub open spec fn floats_le(s: Seq<u32>) -> Seq<u8> {
    concat_le(s, |b: u32| f32_le(b))
}

/// The bytes of a genome, in field order.
pub open spec fn genome_le(g: GenomeHashInput) -> Seq<u8> {
    f32_le(g.size_bits) + u32_le(g.max_age) + f32_le(g.graze_efficiency_bits) + f32_le(g.eat_efficiency_bits)
        + f32_le(g.scavenge_efficiency_bits) + f32_le(g.move_speed_bits) + seq![g.eye_count]
        + floats_le(g.eye_offset_bits@) + seq![g.nose_count] + f32_le(g.vision_range_bits)
        + f32_le(g.armor_bits) + f32_le(g.bite_reach_bits) + floats_le(g.pigment_bits@)
        + floats_le(g.mutation_rate_bits@)
}

/// The bytes of a creature, in field order.
pub open spec fn creature_le(c: CreatureHashInput) -> Seq<u8> {
    u64_le(c.id) + f32_le(c.x_bits) + f32_le(c.y_bits) + f32_le(c.vx_bits) + f32_le(c.vy_bits)
        + f32_le(c.energy_bits) + u32_le(c.age) + genome_le(c.genome) + floats_le(c.weight_bits@)
        + f32_le(c.nn_mutation_rate_bits) + u32_le(c.digestion_cooldown) + f32_le(c.cumulative_upkeep_bits)
        + u32_le(c.species_id) + u32_le(c.parent_species_id) + seq![c.last_action]
        + seq![c.action_this_tick] + f32_le(c.max_size_reached_bits) + f32_le(c.distance_travelled_bits)
        + u32_le(c.birth_tick)
}

/// The bytes of a corpse, in field order.
pub open spec fn carrion_le(c: CarrionHashInput) -> Seq<u8> {
    f32_le(c.x_bits) + f32_le(c.y_bits) + f32_le(c.pool_bits) + u32_le(c.age) + u64_le(c.id)
}

/// The UTF-8 bytes of a name.
pub open spec fn name_bytes(name: Seq<char>) -> Seq<u8> {
    vstd::utf8::encode_utf8(name)
}

/// The bytes of a species, in field order; its anchor genome goes in as the
/// digest of the genome's own bytes.
pub open spec fn species_le(s: SpeciesHashInput) -> Seq<u8> {
    u32_le(s.id) + u64_le(xxh64_digest(0, genome_le(s.anchor_genome))) + opt_le(s.parent_id)
        + u32_le((name_bytes(s.name@).len() as usize) as u32) + name_bytes(s.name@) + u32_le(s.born_tick)
        + opt_le(s.died_tick) + u32_le(s.child_count) + u32_le(s.depth)
        + floats_le(s.anchor_brain_weight_bits@)
}

/// The whole stream the world's hash is taken over.
pub open spec fn world_le(w: WorldHashInput) -> Seq<u8> {
    u32_le(w.tick) + u32_le(w.creatures@.len() as u32) + concat_le(w.creatures@, |c: CreatureHashInput| creature_le(c))
        + u32_le(w.grass_bits@.len() as u32) + floats_le(w.grass_bits@)
        + u32_le(w.carrion@.len() as u32) + concat_le(w.carrion@, |c: CarrionHashInput| carrion_le(c))
        + u32_le(w.species@.len() as u32) + concat_le(w.species@, |s: SpeciesHashInput| species_le(s))
        + u32_le(w.species_next_id) + u64_le(w.rng_state[0]) + u64_le(w.rng_state[1])
        + u64_le(w.rng_state[2]) + u64_le(w.rng_state[3])
}

/// One more item extends the bytes of a prefix by that item's bytes.
proof fn lemma_concat_step<T>(s: Seq<T>, f: spec_fn(T) -> Seq<u8>, i: int)
    requires
        0 <= i < s.len(),
    ensures
        concat_le(s.take(i + 1), f) == concat_le(s.take(i), f) + f(s[i]),
{
    assert(s.take(i + 1).drop_last() =~= s.take(i));
}

/// The bytes of a sequence are the bytes of any prefix followed by the
/// bytes of the rest.
proof fn lemma_concat_split<T>(s: Seq<T>, f: spec_fn(T) -> Seq<u8>, i: int)
    requires
        0 <= i <= s.len(),
    ensures
        concat_le(s, f) == concat_le(s.take(i), f) + concat_le(s.skip(i), f),
    decreases s.len(),
{
    if i == s.len() {
        assert(s.take(i) =~= s);
        assert(s.skip(i) =~= Seq::<T>::empty());
        assert(concat_le(s.take(i), f) + concat_le(s.skip(i), f) =~= concat_le(s, f));
    } else {
        let dl = s.drop_last();
        lemma_concat_split(dl, f, i);
        assert(dl.take(i) =~= s.take(i));
        assert(s.skip(i).drop_last() =~= dl.skip(i));
        assert(s.skip(i).last() == s.last());
        assert(concat_le(s.take(i), f) + concat_le(s.skip(i), f)
            =~= concat_le(s.take(i), f) + concat_le(dl.skip(i), f) + f(s.last()));
    }
}

/// Appending the same bytes to different sequences keeps them different.
proof fn lemma_append_differs(x: Seq<u8>, y: Seq<u8>, g: Seq<u8>)
    requires
        x != y,
    ensures
        x + g != y + g,
{
    if x.len() == y.len() {
        if forall|k: int| 0 <= k < x.len() ==> x[k] == y[k] {
            assert(x =~= y);
        }
        let k = choose|k: int| 0 <= k < x.len() && x[k] != y[k];
        assert((x + g)[k] == x[k]);
        assert((y + g)[k] == y[k]);
    } else {
        assert((x + g).len() != (y + g).len());
    }
}

/// Prepending the same bytes to different sequences keeps them different.
proof fn lemma_prefix_differs(p: Seq<u8>, x: Seq<u8>, y: Seq<u8>)
    requires
        x != y,
    ensures
        p + x != p + y,
{
    if x.len() == y.len() {
        if forall|k: int| 0 <= k < x.len() ==> x[k] == y[k] {
            assert(x =~= y);
        }
        let k = choose|k: int| 0 <= k < x.len() && x[k] != y[k];
        assert((p + x)[p.len() + k] == x[k]);
        assert((p + y)[p.len() + k] == y[k]);
    } else {
        assert((p + x).len() != (p + y).len());
    }
}

/// Distinct words give distinct little-endian bytes.
proof fn lemma_u32_le_injective(a: u32, b: u32)
    requires
        a != b,
    ensures
        u32_le(a) != u32_le(b),
{
    assert((a as u8 == b as u8 && (a >> 8u32) as u8 == (b >> 8u32) as u8 && (a >> 16u32) as u8
        == (b >> 16u32) as u8 && (a >> 24u32) as u8 == (b >> 24u32) as u8) ==> a == b) by (bit_vector);
    if u32_le(a) == u32_le(b) {
        assert(u32_le(a)[0] == u32_le(b)[0]);
        assert(u32_le(a)[1] == u32_le(b)[1]);
        assert(u32_le(a)[2] == u32_le(b)[2]);
        assert(u32_le(a)[3] == u32_le(b)[3]);
    }
}

/// Two floats that are not both NaN and have different bits go into the
/// stream as different bytes.
pub proof fn lemma_floats_distinguished(a: u32, b: u32)
    requires
        a != b,
        !(is_nan_bits(a) && is_nan_bits(b)),
    ensures
        f32_le(a) != f32_le(b),
{
    let c = CANONICAL_NAN_BITS;
    assert(is_nan_bits(c)) by (bit_vector)
        requires
            c == 0x7fc0_0000u32,
    ;
    let ca = if is_nan_bits(a) { c } else { a };
    let cb = if is_nan_bits(b) { c } else { b };
    assert(ca != cb);
    lemma_u32_le_injective(ca, cb);
}

/// `x` followed by the first `k` of `parts`, one after another.
pub open spec fn appended(x: Seq<u8>, parts: Seq<Seq<u8>>, k: int) -> Seq<u8>
    decreases k,
{
    if k <= 0 {
        x
    } else {
        appended(x, parts, k - 1) + parts[k - 1]
    }
}

/// Appending the same parts to different sequences keeps them different.
proof fn lemma_appended_differs(x: Seq<u8>, y: Seq<u8>, parts: Seq<Seq<u8>>, k: int)
    requires
        x != y,
    ensures
        appended(x, parts, k) != appended(y, parts, k),
    decreases k,
{
    if k > 0 {
        lemma_appended_differs(x, y, parts, k - 1);
        lemma_append_differs(appended(x, parts, k - 1), appended(y, parts, k - 1), parts[k - 1]);
    }
}

/// Two sequences that agree except at `i`, where the items' bytes differ,
/// have different bytes.
proof fn lemma_concat_one_differs<T>(s1: Seq<T>, s2: Seq<T>, f: spec_fn(T) -> Seq<u8>, i: int)
    requires
        s1.len() == s2.len(),
        0 <= i < s1.len(),
        forall|j: int| 0 <= j < s1.len() && j != i ==> #[trigger] s1[j] == s2[j],
        f(s1[i]) != f(s2[i]),
    ensures
        concat_le(s1, f) != concat_le(s2, f),
{
    lemma_concat_split(s1, f, i + 1);
    lemma_concat_split(s2, f, i + 1);
    lemma_concat_step(s1, f, i);
    lemma_concat_step(s2, f, i);
    assert(s1.take(i) =~= s2.take(i));
    assert(s1.skip(i + 1) =~= s2.skip(i + 1));
    let p = concat_le(s1.take(i), f);
    let q = concat_le(s1.skip(i + 1), f);
    lemma_prefix_differs(p, f(s1[i]), f(s2[i]));
    lemma_append_differs(p + f(s1[i]), p + f(s2[i]), q);
}

/// Every creature reaches the stream: two worlds that agree everywhere
/// except in one creature, whose bytes differ, have different streams,
/// whichever creature it is.
pub proof fn lemma_every_creature_reaches_stream(w1: WorldHashInput, w2: WorldHashInput, i: int)
    requires
        w1.tick == w2.tick,
        w1.creatures@.len() == w2.creatures@.len(),
        0 <= i < w1.creatures@.len(),
        forall|j: int| 0 <= j < w1.creatures@.len() && j != i ==> #[trigger] w1.creatures@[j] == w2.creatures@[j],
        creature_le(w1.creatures@[i]) != creature_le(w2.creatures@[i]),
        w1.grass_bits@ == w2.grass_bits@,
        w1.carrion@ == w2.carrion@,
        w1.species@ == w2.species@,
        w1.species_next_id == w2.species_next_id,
        w1.rng_state == w2.rng_state,
    ensures
        world_le(w1) != world_le(w2),
{
    let f = |c: CreatureHashInput| creature_le(c);
    let s1 = w1.creatures@;
    let s2 = w2.creatures@;
    lemma_concat_one_differs(s1, s2, f, i);
    let c1 = concat_le(s1, f);
    let c2 = concat_le(s2, f);
    let a = u32_le(w1.tick) + u32_le(s1.len() as u32);
    lemma_prefix_differs(a, c1, c2);
    let g1 = u32_le(w1.grass_bits@.len() as u32);
    let g2 = floats_le(w1.grass_bits@);
    let g3 = u32_le(w1.carrion@.len() as u32);
    let g4 = concat_le(w1.carrion@, |c: CarrionHashInput| carrion_le(c));
    let g5 = u32_le(w1.species@.len() as u32);
    let g6 = concat_le(w1.species@, |s: SpeciesHashInput| species_le(s));
    let g7 = u32_le(w1.species_next_id);
    let g8 = u64_le(w1.rng_state[0]);
    let g9 = u64_le(w1.rng_state[1]);
    let g10 = u64_le(w1.rng_state[2]);
    let g11 = u64_le(w1.rng_state[3]);
    let x1 = a + c1 + g1;
    let y1 = a + c2 + g1;
    lemma_append_differs(a + c1, a + c2, g1);
    lemma_append_differs(x1, y1, g2);
    lemma_append_differs(x1 + g2, y1 + g2, g3);
    lemma_append_differs(x1 + g2 + g3, y1 + g2 + g3, g4);
    let x5 = x1 + g2 + g3 + g4;
    let y5 = y1 + g2 + g3 + g4;
    lemma_append_differs(x5, y5, g5);
    lemma_append_differs(x5 + g5, y5 + g5, g6);
    lemma_append_differs(x5 + g5 + g6, y5 + g5 + g6, g7);
    let x8 = x5 + g5 + g6 + g7;
    let y8 = y5 + g5 + g6 + g7;
    lemma_append_differs(x8, y8, g8);
    lemma_append_differs(x8 + g8, y8 + g8, g9);
    lemma_append_differs(x8 + g8 + g9, y8 + g8 + g9, g10);
    lemma_append_differs(x8 + g8 + g9 + g10, y8 + g8 + g9 + g10, g11);
    assert(world_le(w1) == x8 + g8 + g9 + g10 + g11);
    assert(world_le(w2) == y8 + g8 + g9 + g10 + g11);
}

/// Every grass cell reaches the stream: changing one cell's density bits,
/// to bits that are different and not both NaN, changes the stream,
/// whichever cell it is.
pub proof fn lemma_every_grass_cell_reaches_stream(w1: WorldHashInput, w2: WorldHashInput, i: int, b: u32)
    requires
        0 <= i < w1.grass_bits@.len(),
        b != w1.grass_bits@[i],
        !(is_nan_bits(b) && is_nan_bits(w1.grass_bits@[i])),
        w2 == (WorldHashInput { grass_bits: w2.grass_bits, ..w1 }),
        w2.grass_bits@ == w1.grass_bits@.update(i, b),
    ensures
        world_le(w1) != world_le(w2),
{
    let f = |x: u32| f32_le(x);
    lemma_floats_distinguished(w1.grass_bits@[i], b);
    lemma_concat_one_differs(w1.grass_bits@, w2.grass_bits@, f, i);
    let t3 = u32_le(w1.tick) + u32_le(w1.creatures@.len() as u32)
        + concat_le(w1.creatures@, |c: CreatureHashInput| creature_le(c)) + u32_le(w1.grass_bits@.len() as u32);
    let g1 = floats_le(w1.grass_bits@);
    let h1 = floats_le(w2.grass_bits@);
    lemma_prefix_differs(t3, g1, h1);
    let k1 = u32_le(w1.carrion@.len() as u32);
    let k2 = concat_le(w1.carrion@, |c: CarrionHashInput| carrion_le(c));
    let k3 = u32_le(w1.species@.len() as u32);
    let k4 = concat_le(w1.species@, |s: SpeciesHashInput| species_le(s));
    let k5 = u32_le(w1.species_next_id);
    let r0 = u64_le(w1.rng_state[0]);
    let r1 = u64_le(w1.rng_state[1]);
    let r2 = u64_le(w1.rng_state[2]);
    let r3 = u64_le(w1.rng_state[3]);
    let x = t3 + g1;
    let y = t3 + h1;
    lemma_append_differs(x, y, k1);
    lemma_append_differs(x + k1, y + k1, k2);
    lemma_append_differs(x + k1 + k2, y + k1 + k2, k3);
    lemma_append_differs(x + k1 + k2 + k3, y + k1 + k2 + k3, k4);
    let x5 = x + k1 + k2 + k3 + k4;
    let y5 = y + k1 + k2 + k3 + k4;
    lemma_append_differs(x5, y5, k5);
    lemma_append_differs(x5 + k5, y5 + k5, r0);
    lemma_append_differs(x5 + k5 + r0, y5 + k5 + r0, r1);
    lemma_append_differs(x5 + k5 + r0 + r1, y5 + k5 + r0 + r1, r2);
    lemma_append_differs(x5 + k5 + r0 + r1 + r2, y5 + k5 + r0 + r1 + r2, r3);
    assert(world_le(w1) == x5 + k5 + r0 + r1 + r2 + r3);
    assert(world_le(w2) == y5 + k5 + r0 + r1 + r2 + r3);
}

/// Every corpse reaches the stream: replacing one corpse by one with other
/// bytes changes the stream, whichever corpse it is.
pub proof fn lemma_every_corpse_reaches_stream(w1: WorldHashInput, w2: WorldHashInput, i: int, c: CarrionHashInput)
    requires
        0 <= i < w1.carrion@.len(),
        carrion_le(c) != carrion_le(w1.carrion@[i]),
        w2 == (WorldHashInput { carrion: w2.carrion, ..w1 }),
        w2.carrion@ == w1.carrion@.update(i, c),
    ensures
        world_le(w1) != world_le(w2),
{
    let f = |x: CarrionHashInput| carrion_le(x);
    lemma_concat_one_differs(w1.carrion@, w2.carrion@, f, i);
    let t5 = u32_le(w1.tick) + u32_le(w1.creatures@.len() as u32)
        + concat_le(w1.creatures@, |c: CreatureHashInput| creature_le(c)) + u32_le(w1.grass_bits@.len() as u32)
        + floats_le(w1.grass_bits@) + u32_le(w1.carrion@.len() as u32);
    let g1 = concat_le(w1.carrion@, f);
    let h1 = concat_le(w2.carrion@, f);
    lemma_prefix_differs(t5, g1, h1);
    let k3 = u32_le(w1.species@.len() as u32);
    let k4 = concat_le(w1.species@, |s: SpeciesHashInput| species_le(s));
    let k5 = u32_le(w1.species_next_id);
    let r0 = u64_le(w1.rng_state[0]);
    let r1 = u64_le(w1.rng_state[1]);
    let r2 = u64_le(w1.rng_state[2]);
    let r3 = u64_le(w1.rng_state[3]);
    let x = t5 + g1;
    let y = t5 + h1;
    lemma_append_differs(x, y, k3);
    lemma_append_differs(x + k3, y + k3, k4);
    let x5 = x + k3 + k4;
    let y5 = y + k3 + k4;
    lemma_append_differs(x5, y5, k5);
    lemma_append_differs(x5 + k5, y5 + k5, r0);
    lemma_append_differs(x5 + k5 + r0, y5 + k5 + r0, r1);
    lemma_append_differs(x5 + k5 + r0 + r1, y5 + k5 + r0 + r1, r2);
    lemma_append_differs(x5 + k5 + r0 + r1 + r2, y5 + k5 + r0 + r1 + r2, r3);
    assert(world_le(w1) == x5 + k5 + r0 + r1 + r2 + r3);
    assert(world_le(w2) == y5 + k5 + r0 + r1 + r2 + r3);
}

/// Every species reaches the stream: replacing one species by one with
/// other bytes changes the stream, whichever species it is.
pub proof fn lemma_every_species_reaches_stream(w1: WorldHashInput, w2: WorldHashInput, i: int, sp: SpeciesHashInput)
    requires
        0 <= i < w1.species@.len(),
        species_le(sp) != species_le(w1.species@[i]),
        w2 == (WorldHashInput { species: w2.species, ..w1 }),
        w2.species@ == w1.species@.update(i, sp),
    ensures
        world_le(w1) != world_le(w2),
{
    let f = |x: SpeciesHashInput| species_le(x);
    lemma_concat_one_differs(w1.species@, w2.species@, f, i);
    let t7 = u32_le(w1.tick) + u32_le(w1.creatures@.len() as u32)
        + concat_le(w1.creatures@, |c: CreatureHashInput| creature_le(c)) + u32_le(w1.grass_bits@.len() as u32)
        + floats_le(w1.grass_bits@) + u32_le(w1.carrion@.len() as u32)
        + concat_le(w1.carrion@, |c: CarrionHashInput| carrion_le(c)) + u32_le(w1.species@.len() as u32);
    let g1 = concat_le(w1.species@, f);
    let h1 = concat_le(w2.species@, f);
    lemma_prefix_differs(t7, g1, h1);
    let k5 = u32_le(w1.species_next_id);
    let r0 = u64_le(w1.rng_state[0]);
    let r1 = u64_le(w1.rng_state[1]);
    let r2 = u64_le(w1.rng_state[2]);
    let r3 = u64_le(w1.rng_state[3]);
    let x5 = t7 + g1;
    let y5 = t7 + h1;
    lemma_append_differs(x5, y5, k5);
    lemma_append_differs(x5 + k5, y5 + k5, r0);
    lemma_append_differs(x5 + k5 + r0, y5 + k5 + r0, r1);
    lemma_append_differs(x5 + k5 + r0 + r1, y5 + k5 + r0 + r1, r2);
    lemma_append_differs(x5 + k5 + r0 + r1 + r2, y5 + k5 + r0 + r1 + r2, r3);
    assert(world_le(w1) == x5 + k5 + r0 + r1 + r2 + r3);
    assert(world_le(w2) == y5 + k5 + r0 + r1 + r2 + r3);
}

/// Distinct words give distinct little-endian bytes.
proof fn lemma_u64_le_injective(a: u64, b: u64)
    requires
        u64_le(a) == u64_le(b),
    ensures
        a == b,
{
    assert(u64_le(a)[0] == u64_le(b)[0]);
    assert(u64_le(a)[1] == u64_le(b)[1]);
    assert(u64_le(a)[2] == u64_le(b)[2]);
    assert(u64_le(a)[3] == u64_le(b)[3]);
    assert(u64_le(a)[4] == u64_le(b)[4]);
    assert(u64_le(a)[5] == u64_le(b)[5]);
    assert(u64_le(a)[6] == u64_le(b)[6]);
    assert(u64_le(a)[7] == u64_le(b)[7]);
    assert((a as u8 == b as u8 && (a >> 8u64) as u8 == (b >> 8u64) as u8 && (a >> 16u64) as u8
        == (b >> 16u64) as u8 && (a >> 24u64) as u8 == (b >> 24u64) as u8 && (a >> 32u64) as u8
        == (b >> 32u64) as u8 && (a >> 40u64) as u8 == (b >> 40u64) as u8 && (a >> 48u64) as u8
        == (b >> 48u64) as u8 && (a >> 56u64) as u8 == (b >> 56u64) as u8) ==> a == b) by (bit_vector);
}

/// The random stream's state reaches the stream: two worlds that differ
/// only in the state words have different streams.
pub proof fn lemma_rng_state_reaches_stream(w1: WorldHashInput, w2: WorldHashInput)
    requires
        w2 == (WorldHashInput { rng_state: w2.rng_state, ..w1 }),
        w1.rng_state != w2.rng_state,
    ensures
        world_le(w1) != world_le(w2),
{
    let x = u32_le(w1.tick) + u32_le(w1.creatures@.len() as u32)
        + concat_le(w1.creatures@, |c: CreatureHashInput| creature_le(c)) + u32_le(w1.grass_bits@.len() as u32)
        + floats_le(w1.grass_bits@) + u32_le(w1.carrion@.len() as u32)
        + concat_le(w1.carrion@, |c: CarrionHashInput| carrion_le(c)) + u32_le(w1.species@.len() as u32)
        + concat_le(w1.species@, |s: SpeciesHashInput| species_le(s)) + u32_le(w1.species_next_id);
    let a = w1.rng_state;
    let b = w2.rng_state;
    if world_le(w1) == world_le(w2) {
        let s1 = world_le(w1);
        let s2 = world_le(w2);
        let n = x.len() as int;
        assert(s1 == x + u64_le(a[0]) + u64_le(a[1]) + u64_le(a[2]) + u64_le(a[3]));
        assert(s2 == x + u64_le(b[0]) + u64_le(b[1]) + u64_le(b[2]) + u64_le(b[3]));
        assert(s1.subrange(n, n + 8) =~= u64_le(a[0]));
        assert(s2.subrange(n, n + 8) =~= u64_le(b[0]));
        assert(s1.subrange(n + 8, n + 16) =~= u64_le(a[1]));
        assert(s2.subrange(n + 8, n + 16) =~= u64_le(b[1]));
        assert(s1.subrange(n + 16, n + 24) =~= u64_le(a[2]));
        assert(s2.subrange(n + 16, n + 24) =~= u64_le(b[2]));
        assert(s1.subrange(n + 24, n + 32) =~= u64_le(a[3]));
        assert(s2.subrange(n + 24, n + 32) =~= u64_le(b[3]));
        lemma_u64_le_injective(a[0], b[0]);
        lemma_u64_le_injective(a[1], b[1]);
        lemma_u64_le_injective(a[2], b[2]);
        lemma_u64_le_injective(a[3], b[3]);
        assert(a@ =~= b@);
        assert(a == b);
    }
}

/// A creature's energy reaches its bytes: two creatures that differ only in
/// the energy, with bits that are different and not both NaN, have
/// different bytes.
pub proof fn lemma_creature_energy_reaches_bytes(c1: CreatureHashInput, c2: CreatureHashInput)
    requires
        c2 == (CreatureHashInput { energy_bits: c2.energy_bits, ..c1 }),
        c1.energy_bits != c2.energy_bits,
        !(is_nan_bits(c1.energy_bits) && is_nan_bits(c2.energy_bits)),
    ensures
        creature_le(c1) != creature_le(c2),
{
    lemma_floats_distinguished(c1.energy_bits, c2.energy_bits);
    let p = u64_le(c1.id) + f32_le(c1.x_bits) + f32_le(c1.y_bits) + f32_le(c1.vx_bits) + f32_le(c1.vy_bits);
    lemma_prefix_differs(p, f32_le(c1.energy_bits), f32_le(c2.energy_bits));
    let parts = seq![
        u32_le(c1.age),
        genome_le(c1.genome),
        floats_le(c1.weight_bits@),
        f32_le(c1.nn_mutation_rate_bits),
        u32_le(c1.digestion_cooldown),
        f32_le(c1.cumulative_upkeep_bits),
        u32_le(c1.species_id),
        u32_le(c1.parent_species_id),
        seq![c1.last_action],
        seq![c1.action_this_tick],
        f32_le(c1.max_size_reached_bits),
        f32_le(c1.distance_travelled_bits),
        u32_le(c1.birth_tick),
    ];
    let x0 = p + f32_le(c1.energy_bits);
    let y0 = p + f32_le(c2.energy_bits);
    lemma_appended_differs(x0, y0, parts, 13);
    reveal_with_fuel(appended, 14);
    assert(creature_le(c1) == appended(x0, parts, 13));
    assert(creature_le(c2) == appended(y0, parts, 13));
}

/// Changing the energy of any one creature, to bits that are different and
/// not both NaN, changes the world's stream.
pub proof fn lemma_any_creature_energy_reaches_stream(w1: WorldHashInput, w2: WorldHashInput, i: int, e: u32)
    requires
        0 <= i < w1.creatures@.len(),
        e != w1.creatures@[i].energy_bits,
        !(is_nan_bits(e) && is_nan_bits(w1.creatures@[i].energy_bits)),
        w2 == (WorldHashInput { creatures: w2.creatures, ..w1 }),
        w2.creatures@ == w1.creatures@.update(i, CreatureHashInput { energy_bits: e, ..w1.creatures@[i] }),
    ensures
        world_le(w1) != world_le(w2),
{
    lemma_creature_energy_reaches_bytes(w1.creatures@[i], w2.creatures@[i]);
    lemma_every_creature_reaches_stream(w1, w2, i);
}

fn push_u8(buf: &mut Vec<u8>, v: u8)
    ensures
        final(buf)@ == old(buf)@ + seq![v],
{
    buf.push(v);
}

fn push_u32(buf: &mut Vec<u8>, v: u32)
    ensures
        final(buf)@ == old(buf)@ + u32_le(v),
{
    buf.push(v as u8);
    buf.push((v >> 8u32) as u8);
    buf.push((v >> 16u32) as u8);
    buf.push((v >> 24u32) as u8);
    assert(buf@ =~= old(buf)@ + u32_le(v));
}

fn push_u64(buf: &mut Vec<u8>, v: u64)
    ensures
        final(buf)@ == old(buf)@ + u64_le(v),
{
    buf.push(v as u8);
    buf.push((v >> 8u64) as u8);
    buf.push((v >> 16u64) as u8);
    buf.push((v >> 24u64) as u8);
    buf.push((v >> 32u64) as u8);
    buf.push((v >> 40u64) as u8);
    buf.push((v >> 48u64) as u8);
    buf.push((v >> 56u64) as u8);
    assert(buf@ =~= old(buf)@ + u64_le(v));
}

fn push_f32(buf: &mut Vec<u8>, bits: u32)
    ensures
        final(buf)@ == old(buf)@ + f32_le(bits),
{
    push_u32(buf, canonical_f32_bits(bits));
}

fn push_opt(buf: &mut Vec<u8>, o: Option<u32>)
    ensures
        final(buf)@ == old(buf)@ + opt_le(o),
{
    match o {
        None => {
            push_u8(buf, 0);
            push_u32(buf, 0);
        },
        Some(v) => {
            push_u8(buf, 1);
            push_u32(buf, v);
        },
    }
    assert(buf@ =~= old(buf)@ + opt_le(o));
}

fn push_floats(buf: &mut Vec<u8>, s: &[u32])
    ensures
        final(buf)@ == old(buf)@ + floats_le(s@),
{
    let ghost f = |b: u32| f32_le(b);
    let mut i: usize = 0;
    while i < s.len()
        invariant
            i <= s@.len(),
            f == (|b: u32| f32_le(b)),
            buf@ == old(buf)@ + concat_le(s@.take(i as int), f),
        decreases s@.len() - i,
    {
        proof {
            lemma_concat_step(s@, f, i as int);
        }
        push_f32(buf, s[i]);
        assert(buf@ =~= old(buf)@ + concat_le(s@.take(i as int + 1), f));
        i = i + 1;
    }
    assert(s@.take(s@.len() as int) =~= s@);
}

fn push_genome(buf: &mut Vec<u8>, g: &GenomeHashInput)
    ensures
        final(buf)@ == old(buf)@ + genome_le(*g),
{
    push_f32(buf, g.size_bits);
    push_u32(buf, g.max_age);
    push_f32(buf, g.graze_efficiency_bits);
    push_f32(buf, g.eat_efficiency_bits);
    push_f32(buf, g.scavenge_efficiency_bits);
    push_f32(buf, g.move_speed_bits);
    push_u8(buf, g.eye_count);
    push_floats(buf, g.eye_offset_bits.as_slice());
    push_u8(buf, g.nose_count);
    push_f32(buf, g.vision_range_bits);
    push_f32(buf, g.armor_bits);
    push_f32(buf, g.bite_reach_bits);
    push_floats(buf, &g.pigment_bits);
    push_floats(buf, &g.mutation_rate_bits);
    assert(buf@ =~= old(buf)@ + genome_le(*g));
}

fn push_creature(buf: &mut Vec<u8>, c: &CreatureHashInput)
    ensures
        final(buf)@ == old(buf)@ + creature_le(*c),
{
    push_u64(buf, c.id);
    push_f32(buf, c.x_bits);
    push_f32(buf, c.y_bits);
    push_f32(buf, c.vx_bits);
    push_f32(buf, c.vy_bits);
    push_f32(buf, c.energy_bits);
    push_u32(buf, c.age);
    push_genome(buf, &c.genome);
    push_floats(buf, c.weight_bits.as_slice());
    push_f32(buf, c.nn_mutation_rate_bits);
    push_u32(buf, c.digestion_cooldown);
    push_f32(buf, c.cumulative_upkeep_bits);
    push_u32(buf, c.species_id);
    push_u32(buf, c.parent_species_id);
    push_u8(buf, c.last_action);
    push_u8(buf, c.action_this_tick);
    push_f32(buf, c.max_size_reached_bits);
    push_f32(buf, c.distance_travelled_bits);
    push_u32(buf, c.birth_tick);
    assert(buf@ =~= old(buf)@ + creature_le(*c));
}

fn push_carrion(buf: &mut Vec<u8>, c: &CarrionHashInput)
    ensures
        final(buf)@ == old(buf)@ + carrion_le(*c),
{
    push_f32(buf, c.x_bits);
    push_f32(buf, c.y_bits);
    push_f32(buf, c.pool_bits);
    push_u32(buf, c.age);
    push_u64(buf, c.id);
    assert(buf@ =~= old(buf)@ + carrion_le(*c));
}

/// The digest of a genome's bytes alone (the anchor genome of a species
/// goes into the world's stream as this digest).
pub fn genome_digest(g: &GenomeHashInput) -> (h: u64)
    ensures
        h == xxh64_digest(0, genome_le(*g)),
{
    let mut bytes: Vec<u8> = Vec::new();
    push_genome(&mut bytes, g);
    assert(bytes@ =~= genome_le(*g));
    xxh64(0, bytes.as_slice())
}

fn push_species(buf: &mut Vec<u8>, s: &SpeciesHashInput)
    ensures
        final(buf)@ == old(buf)@ + species_le(*s),
{
    push_u32(buf, s.id);
    let d = genome_digest(&s.anchor_genome);
    push_u64(buf, d);
    push_opt(buf, s.parent_id);
    let name = s.name.as_str().as_bytes();
    push_u32(buf, name.len() as u32);
    buf.extend_from_slice(name);
    push_u32(buf, s.born_tick);
    push_opt(buf, s.died_tick);
    push_u32(buf, s.child_count);
    push_u32(buf, s.depth);
    push_floats(buf, s.anchor_brain_weight_bits.as_slice());
    assert(buf@ =~= old(buf)@ + species_le(*s));
}

fn push_creatures(buf: &mut Vec<u8>, s: &Vec<CreatureHashInput>)
    ensures
        final(buf)@ == old(buf)@ + concat_le(s@, |c: CreatureHashInput| creature_le(c)),
{
    let ghost f = |c: CreatureHashInput| creature_le(c);
    let mut i: usize = 0;
    while i < s.len()
        invariant
            i <= s@.len(),
            f == (|c: CreatureHashInput| creature_le(c)),
            buf@ == old(buf)@ + concat_le(s@.take(i as int), f),
        decreases s@.len() - i,
    {
        proof {
            lemma_concat_step(s@, f, i as int);
        }
        push_creature(buf, &s[i]);
        assert(buf@ =~= old(buf)@ + concat_le(s@.take(i as int + 1), f));
        i = i + 1;
    }
    assert(s@.take(s@.len() as int) =~= s@);
}

fn push_carrions(buf: &mut Vec<u8>, s: &Vec<CarrionHashInput>)
    ensures
        final(buf)@ == old(buf)@ + concat_le(s@, |c: CarrionHashInput| carrion_le(c)),
{
    let ghost f = |c: CarrionHashInput| carrion_le(c);
    let mut i: usize = 0;
    while i < s.len()
        invariant
            i <= s@.len(),
            f == (|c: CarrionHashInput| carrion_le(c)),
            buf@ == old(buf)@ + concat_le(s@.take(i as int), f),
        decreases s@.len() - i,
    {
        proof {
            lemma_concat_step(s@, f, i as int);
        }
        push_carrion(buf, &s[i]);
        assert(buf@ =~= old(buf)@ + concat_le(s@.take(i as int + 1), f));
        i = i + 1;
    }
    assert(s@.take(s@.len() as int) =~= s@);
}

fn push_species_list(buf: &mut Vec<u8>, s: &Vec<SpeciesHashInput>)
    ensures
        final(buf)@ == old(buf)@ + concat_le(s@, |x: SpeciesHashInput| species_le(x)),
{
    let ghost f = |x: SpeciesHashInput| species_le(x);
    let mut i: usize = 0;
    while i < s.len()
        invariant
            i <= s@.len(),
            f == (|x: SpeciesHashInput| species_le(x)),
            buf@ == old(buf)@ + concat_le(s@.take(i as int), f),
        decreases s@.len() - i,
    {
        proof {
            lemma_concat_step(s@, f, i as int);
        }
        push_species(buf, &s[i]);
        assert(buf@ =~= old(buf)@ + concat_le(s@.take(i as int + 1), f));
        i = i + 1;
    }
    assert(s@.take(s@.len() as int) =~= s@);
}

/// The stream the world's hash is taken over, as bytes.
pub fn world_hash_bytes(w: &WorldHashInput) -> (bytes: Vec<u8>)
    ensures
        bytes@ == world_le(*w),
{
    let mut buf: Vec<u8> = Vec::new();
    push_u32(&mut buf, w.tick);
    push_u32(&mut buf, w.creatures.len() as u32);
    push_creatures(&mut buf, &w.creatures);
    push_u32(&mut buf, w.grass_bits.len() as u32);
    push_floats(&mut buf, w.grass_bits.as_slice());
    push_u32(&mut buf, w.carrion.len() as u32);
    push_carrions(&mut buf, &w.carrion);
    push_u32(&mut buf, w.species.len() as u32);
    push_species_list(&mut buf, &w.species);
    push_u32(&mut buf, w.species_next_id);
    push_u64(&mut buf, w.rng_state[0]);
    push_u64(&mut buf, w.rng_state[1]);
    push_u64(&mut buf, w.rng_state[2]);
    push_u64(&mut buf, w.rng_state[3]);
    assert(buf@ =~= world_le(*w));
    buf
}

/// The world's state hash: xxHash64 with seed 0 of [`world_le`].
pub fn snapshot_hash(w: &WorldHashInput) -> (h: u64)
    ensures
        h == xxh64_digest(0, world_le(*w)),
{
    let bytes = world_hash_bytes(w);
    xxh64(0, bytes.as_slice())
}

} // verus!
