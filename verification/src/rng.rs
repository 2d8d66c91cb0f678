//! Deterministic randomness: the world's xoshiro256++ stream and the
//! stateless, position-addressable hash used by the grass scatter kernel.

use vstd::prelude::*;
use rand_xoshiro::rand_core::{RngCore, SeedableRng};
use rand_xoshiro::Xoshiro256PlusPlus;
use std::hash::Hasher;
use twox_hash::XxHash64;
use vstd::string::StringSliceAdditionalSpecFns;

verus! {

/// 2^64, the modulus of `u64` wrapping arithmetic.
pub open spec fn two_pow_64() -> int {
    0x1_0000_0000_0000_0000
}

/// `x` reduced modulo 2^64.
pub open spec fn wrap64(x: int) -> u64 {
    (x % two_pow_64()) as u64
}

/// The four key parts folded into one word: each part times its own odd
/// constant, summed, modulo 2^64.
pub open spec fn grass_key(world_seed: u32, id: u64, tick: u32, salt: u32) -> u64 {
    wrap64(
        id * 0x9E37_79B9_7F4A_7C15int + world_seed * 0xD1B5_4A32_D192_ED03int
            + tick * 0xCA5A_826F_5C26_2A4Dint + salt * 0x2545_F491_4F6C_DD1Dint,
    )
}

/// SplitMix64's output finalizer.
pub open spec fn splitmix_finalize(z: u64) -> u64 {
    let a = wrap64((z ^ (z >> 30u64)) * 0xBF58_476D_1CE4_E5B9int);
    let b = wrap64((a ^ (a >> 27u64)) * 0x94D0_49BB_1331_11EBint);
    b ^ (b >> 31u64)
}

/// The grass hash of a key: the finalizer applied to the folded key.
pub open spec fn grass_hash(world_seed: u32, id: u64, tick: u32, salt: u32) -> u64 {
    splitmix_finalize(grass_key(world_seed, id, tick, salt))
}

proof fn lemma_wrap_add(a: int, b: int)
    requires
        a >= 0,
        b >= 0,
    ensures
        wrap64(wrap64(a) + wrap64(b)) == wrap64(a + b),
{
    vstd::arithmetic::div_mod::lemma_add_mod_noop(a, b, two_pow_64());
}

/// Multiplying by `c` modulo 2^64 is undone by multiplying by `cinv`, when
/// `c · cinv = 1 + q · 2^64`.
proof fn lemma_mul_undo(x: int, c: int, cinv: int, q: int)
    requires
        0 <= x < two_pow_64(),
        c * cinv == 1 + q * two_pow_64(),
    ensures
        ((x * c) % two_pow_64()) * cinv % two_pow_64() == x,
{
    let m = two_pow_64();
    vstd::arithmetic::div_mod::lemma_mul_mod_noop_left(x * c, cinv, m);
    assert((x * c) * cinv == m * (x * q) + x) by (nonlinear_arith)
        requires
            c * cinv == 1 + q * m,
    ;
    vstd::arithmetic::div_mod::lemma_mod_multiples_vanish(x * q, x, m);
    vstd::arithmetic::div_mod::lemma_small_mod(x as nat, m as nat);
}

/// Multiplication by an invertible constant modulo 2^64 separates values.
proof fn lemma_mul_separates(a: int, b: int, c: int, cinv: int, q: int)
    requires
        0 <= a < two_pow_64(),
        0 <= b < two_pow_64(),
        c * cinv == 1 + q * two_pow_64(),
        (a * c) % two_pow_64() == (b * c) % two_pow_64(),
    ensures
        a == b,
{
    lemma_mul_undo(a, c, cinv, q);
    lemma_mul_undo(b, c, cinv, q);
}

/// Adding the same `p` keeps products by an invertible constant apart.
proof fn lemma_key_part_separates(p: int, a: int, b: int, c: int, cinv: int, q: int)
    requires
        0 <= a < two_pow_64(),
        0 <= b < two_pow_64(),
        c * cinv == 1 + q * two_pow_64(),
        (p + a * c) % two_pow_64() == (p + b * c) % two_pow_64(),
    ensures
        a == b,
{
    let m = two_pow_64();
    vstd::arithmetic::div_mod::lemma_sub_mod_noop(p + a * c, p, m);
    vstd::arithmetic::div_mod::lemma_sub_mod_noop(p + b * c, p, m);
    assert((p + a * c) - p == a * c);
    assert((p + b * c) - p == b * c);
    lemma_mul_separates(a, b, c, cinv, q);
}

proof fn lemma_xorshift_separates(x: u64, y: u64)
    ensures
        (x ^ (x >> 30u64)) == (y ^ (y >> 30u64)) ==> x == y,
        (x ^ (x >> 27u64)) == (y ^ (y >> 27u64)) ==> x == y,
        (x ^ (x >> 31u64)) == (y ^ (y >> 31u64)) ==> x == y,
{
    assert((x ^ (x >> 30u64)) == (y ^ (y >> 30u64)) ==> x == y) by (bit_vector);
    assert((x ^ (x >> 27u64)) == (y ^ (y >> 27u64)) ==> x == y) by (bit_vector);
    assert((x ^ (x >> 31u64)) == (y ^ (y >> 31u64)) ==> x == y) by (bit_vector);
}

/// The SplitMix64 finalizer never maps two words to one.
pub proof fn lemma_splitmix_finalize_separates(z1: u64, z2: u64)
    ensures
        splitmix_finalize(z1) == splitmix_finalize(z2) ==> z1 == z2,
{
    let m = two_pow_64();
    let c5 = 0xBF58_476D_1CE4_E5B9int;
    let c6 = 0x94D0_49BB_1331_11EBint;
    let x1 = z1 ^ (z1 >> 30u64);
    let x2 = z2 ^ (z2 >> 30u64);
    let a1 = wrap64(x1 * c5);
    let a2 = wrap64(x2 * c5);
    let y1 = a1 ^ (a1 >> 27u64);
    let y2 = a2 ^ (a2 >> 27u64);
    let b1 = wrap64(y1 * c6);
    let b2 = wrap64(y2 * c6);
    if splitmix_finalize(z1) == splitmix_finalize(z2) {
        lemma_xorshift_separates(b1, b2);
        assert(b1 == b2);
        assert(c6 * 0x3196_42B2_D24D_8EC3int == 1 + 2077064247507883091int * m);
        lemma_mul_separates(y1 as int, y2 as int, c6, 0x3196_42B2_D24D_8EC3int, 2077064247507883091int);
        lemma_xorshift_separates(a1, a2);
        assert(c5 * 0x96DE_1B17_3F11_9089int == 1 + 8125545580553827436int * m);
        lemma_mul_separates(x1 as int, x2 as int, c5, 0x96DE_1B17_3F11_9089int, 8125545580553827436int);
        lemma_xorshift_separates(z1, z2);
    }
}

/// Draws for keys that differ in exactly one of world seed, id, tick and
/// salt are different: each part enters the key through a multiply by an
/// odd constant (invertible modulo 2^64), and the finalizer is a bijection.
pub proof fn lemma_grass_hash_separates(
    world_seed: u32,
    id: u64,
    tick: u32,
    salt: u32,
    world_seed2: u32,
    id2: u64,
    tick2: u32,
    salt2: u32,
)
    ensures
        (id != id2 && world_seed == world_seed2 && tick == tick2 && salt == salt2)
            ==> grass_hash(world_seed, id, tick, salt) != grass_hash(world_seed2, id2, tick2, salt2),
        (world_seed != world_seed2 && id == id2 && tick == tick2 && salt == salt2)
            ==> grass_hash(world_seed, id, tick, salt) != grass_hash(world_seed2, id2, tick2, salt2),
        (tick != tick2 && world_seed == world_seed2 && id == id2 && salt == salt2)
            ==> grass_hash(world_seed, id, tick, salt) != grass_hash(world_seed2, id2, tick2, salt2),
        (salt != salt2 && world_seed == world_seed2 && id == id2 && tick == tick2)
            ==> grass_hash(world_seed, id, tick, salt) != grass_hash(world_seed2, id2, tick2, salt2),
{
    let m = two_pow_64();
    let c1 = 0x9E37_79B9_7F4A_7C15int;
    let c2 = 0xD1B5_4A32_D192_ED03int;
    let c3 = 0xCA5A_826F_5C26_2A4Dint;
    let c4 = 0x2545_F491_4F6C_DD1Dint;
    let k1 = grass_key(world_seed, id, tick, salt);
    let k2 = grass_key(world_seed2, id2, tick2, salt2);
    if grass_hash(world_seed, id, tick, salt) == grass_hash(world_seed2, id2, tick2, salt2) {
        lemma_splitmix_finalize_separates(k1, k2);
        assert(k1 == k2);
        let s1 = id * c1 + world_seed * c2 + tick * c3 + salt * c4;
        let s2 = id2 * c1 + world_seed2 * c2 + tick2 * c3 + salt2 * c4;
        assert(s1 % m == s2 % m);
        assert(c1 * 0xF1DE_83E1_9937_733Dint == 1 + 10771413168148108919int * m);
        assert(c2 * 0x0610_6CCF_A448_E5ABint == 1 + 357952832567956711int * m);
        assert(c3 * 0xB44E_683C_5193_1E85int == 1 + 10269787898042099270int * m);
        assert(c4 * 0x5907_1D96_D81E_CD35int == 1 + 934034299265436267int * m);
        if world_seed == world_seed2 && tick == tick2 && salt == salt2 {
            lemma_key_part_separates(world_seed * c2 + tick * c3 + salt * c4, id as int, id2 as int, c1, 0xF1DE_83E1_9937_733Dint, 10771413168148108919int);
        }
        if id == id2 && tick == tick2 && salt == salt2 {
            lemma_key_part_separates(id * c1 + tick * c3 + salt * c4, world_seed as int, world_seed2 as int, c2, 0x0610_6CCF_A448_E5ABint, 357952832567956711int);
        }
        if world_seed == world_seed2 && id == id2 && salt == salt2 {
            lemma_key_part_separates(id * c1 + world_seed * c2 + salt * c4, tick as int, tick2 as int, c3, 0xB44E_683C_5193_1E85int, 10269787898042099270int);
        }
        if world_seed == world_seed2 && id == id2 && tick == tick2 {
            lemma_key_part_separates(id * c1 + world_seed * c2 + tick * c3, salt as int, salt2 as int, c4, 0x5907_1D96_D81E_CD35int, 934034299265436267int);
        }
    }
}

fn add_wrapping(a: u64, b: u64) -> (r: u64)
    ensures
        r == wrap64(a + b),
{
    a.wrapping_add(b)
}

fn mul_wrapping(a: u64, b: u64) -> (r: u64)
    ensures
        r == wrap64(a * b),
{
    a.wrapping_mul(b)
}

/// Stateless, position-addressable hash for the grass scatter kernel: a pure
/// function of `(world_seed, id, tick, salt)`, so draws are independent of
/// evaluation order and never touch the world's sequential stream. `salt`
/// separates independent draws for the same cell and tick.
pub fn grass_hash_u64(world_seed: u32, id: u64, tick: u32, salt: u32) -> (h: u64)
    ensures
        h == grass_hash(world_seed, id, tick, salt),
{
    let a = mul_wrapping(id, 0x9E37_79B9_7F4A_7C15);
    let b = mul_wrapping(world_seed as u64, 0xD1B5_4A32_D192_ED03);
    let c = mul_wrapping(tick as u64, 0xCA5A_826F_5C26_2A4D);
    let d = mul_wrapping(salt as u64, 0x2545_F491_4F6C_DD1D);
    let ab = add_wrapping(a, b);
    let abc = add_wrapping(ab, c);
    let mut z = add_wrapping(abc, d);
    proof {
        let pa = id * 0x9E37_79B9_7F4A_7C15int;
        let pb = world_seed * 0xD1B5_4A32_D192_ED03int;
        let pc = tick * 0xCA5A_826F_5C26_2A4Dint;
        let pd = salt * 0x2545_F491_4F6C_DD1Dint;
        assert(pa >= 0 && pb >= 0 && pc >= 0 && pd >= 0) by (nonlinear_arith)
            requires
                pa == id * 0x9E37_79B9_7F4A_7C15int,
                pb == world_seed * 0xD1B5_4A32_D192_ED03int,
                pc == tick * 0xCA5A_826F_5C26_2A4Dint,
                pd == salt * 0x2545_F491_4F6C_DD1Dint,
        ;
        lemma_wrap_add(pa, pb);
        lemma_wrap_add(pa + pb, pc);
        lemma_wrap_add(pa + pb + pc, pd);
    }
    z = mul_wrapping(z ^ (z >> 30), 0xBF58_476D_1CE4_E5B9);
    z = mul_wrapping(z ^ (z >> 27), 0x94D0_49BB_1331_11EB);
    z ^ (z >> 31)
}

/// The index `floor(draw * n / 2^64)`: a 64-bit draw scaled onto `0..n`.
pub fn index_from_draw(draw: u64, n: usize) -> (r: usize)
    requires
        n > 0,
    ensures
        r as int == (draw as int * n as int) / two_pow_64(),
        r < n,
{
    let x: u128 = draw as u128;
    let y: u128 = n as u128;
    assert(x * y < 0x1_0000_0000_0000_0000_0000_0000_0000_0000) by (nonlinear_arith)
        requires
            x < 0x1_0000_0000_0000_0000,
            y < 0x1_0000_0000_0000_0000,
    ;
    let p: u128 = x * y;
    let q: u128 = p >> 64u32;
    assert(q == p / 0x1_0000_0000_0000_0000) by (bit_vector)
        requires
            q == p >> 64u32,
    ;
    assert(p / 0x1_0000_0000_0000_0000 < y) by (nonlinear_arith)
        requires
            p == x * y,
            x < 0x1_0000_0000_0000_0000,
            y > 0,
    ;
    q as usize
}

/// The 64-bit xxHash digest of `bytes` with `seed`, as the `twox_hash`
/// crate computes it.
pub uninterp spec fn xxh64_digest(seed: u64, bytes: Seq<u8>) -> u64;

/// Hashes `bytes` with `twox_hash::XxHash64` seeded with `seed` (one
/// `with_seed`, one `write`, then `finish`). The digest is a pure function of
/// the seed and the bytes; its value is left to the name `xxh64_digest`.
#[verifier::external_body]
pub(crate) fn xxh64(seed: u64, bytes: &[u8]) -> (h: u64)
    ensures
        h == xxh64_digest(seed, bytes@),
{
    let mut hasher = XxHash64::with_seed(seed);
    hasher.write(bytes);
    hasher.finish()
}

#[verifier::external_type_specification]
#[verifier::external_body]
pub struct ExXoshiro256PlusPlus(Xoshiro256PlusPlus);

/// `Clone` of `rand_xoshiro::Xoshiro256PlusPlus` (derived upstream over its
/// four state words): the copy equals the value it was taken from.
pub assume_specification[<Xoshiro256PlusPlus as Clone>::clone](x: &Xoshiro256PlusPlus) -> (r: Xoshiro256PlusPlus)
    ensures
        r == *x,
;

/// The world's deterministic random stream (xoshiro256++), seeded once.
#[derive(Clone, Debug)]
pub struct SimRng(pub Xoshiro256PlusPlus);

/// The seed a string seed stands for: xxHash64 (seed 0) of its UTF-8 bytes.
pub open spec fn string_seed_spec(s: &str) -> u64 {
    xxh64_digest(0, s.spec_bytes())
}

/// The numeric seed for a string seed: its UTF-8 bytes hashed with xxHash64
/// under seed 0.
pub fn string_seed(s: &str) -> (seed: u64)
    ensures
        seed == string_seed_spec(s),
{
    xxh64(0, s.as_bytes())
}

/// The stream `rand_xoshiro`'s `SeedableRng::seed_from_u64` builds from
/// `seed` (its four state words filled by SplitMix64 from the seed): a pure
/// function of the seed.
pub uninterp spec fn xoshiro_seeded(seed: u64) -> SimRng;

/// One step of the stream (`RngCore::next_u64`): the output drawn and the
/// stream after the draw, a pure function of the stream before it.
pub uninterp spec fn xoshiro_next(rng: SimRng) -> (u64, SimRng);

/// The stream after `k` steps from `s0`.
pub open spec fn stream_after(s0: SimRng, k: nat) -> SimRng
    decreases k,
{
    if k == 0 {
        s0
    } else {
        xoshiro_next(stream_after(s0, (k - 1) as nat)).1
    }
}

/// The `k`-th of a run of `index(n)` draws starting from stream `s0`.
pub open spec fn index_draw(s0: SimRng, k: nat, n: int) -> int {
    (xoshiro_next(stream_after(s0, k)).0 as int * n) / two_pow_64()
}

impl SimRng {
    /// A stream seeded from `seed` through `rand_xoshiro`'s
    /// `SeedableRng::seed_from_u64`. The stream is the one the name
    /// `xoshiro_seeded` gives for the seed; its state words are left unsaid.
    #[verifier::external_body]
    pub fn from_u64(seed: u64) -> (r: SimRng)
        ensures
            r == xoshiro_seeded(seed),
    {
        SimRng(Xoshiro256PlusPlus::seed_from_u64(seed))
    }

    /// A stream seeded from a string seed: the string is reduced to a
    /// numeric seed by [`string_seed`], which then seeds the generator.
    pub fn from_string(s: &str) -> (r: SimRng)
        ensures
            r == xoshiro_seeded(string_seed_spec(s)),
    {
        let seed = string_seed(s);
        SimRng::from_u64(seed)
    }

    /// The next 64-bit output of the stream (`RngCore::next_u64`): output
    /// and new stream are the step the name `xoshiro_next` gives for the
    /// stream before the call; the xoshiro256++ arithmetic is left unsaid.
    #[verifier::external_body]
    pub fn next_u64(&mut self) -> (x: u64)
        ensures
            (x, *final(self)) == xoshiro_next(*old(self)),
    {
        self.0.next_u64()
    }

    /// One of `n` picked uniformly: the next draw scaled onto `0..n`
    /// (`floor(draw * n / 2^64)`); the stream advances by one step.
    pub fn index(&mut self, n: usize) -> (r: usize)
        requires
            n > 0,
        ensures
            r as int == (xoshiro_next(*old(self)).0 as int * n as int) / two_pow_64(),
            *final(self) == xoshiro_next(*old(self)).1,
            r < n,
    {
        let draw = self.next_u64();
        index_from_draw(draw, n)
    }
}

} // verus!
