//! Sim-wide integer constants: network shape bounds, population caps,
//! chunking, grass tiling and pyramid limits, and the biome and crossover tags.

use vstd::prelude::*;

verus! {

/// Legacy/default NN input width (a SIMD-aligned multiple of 8).
pub const NN_INPUTS: usize = 32;
/// Hard upper bound on the runtime NN input width.
pub const MAX_NN_INPUTS: usize = 48;
/// Outputs: two velocity slots plus three action logits.
pub const NN_OUTPUTS: usize = 5;
/// Hard upper bound on a single hidden-layer width.
pub const NN_MAX_HIDDEN_WIDTH: usize = 256;
/// Hard upper bound on hidden-layer count.
pub const NN_MAX_HIDDEN_LAYERS: usize = 8;
/// One matmul per hidden layer plus the output matmul.
pub const NN_MAX_MATMULS: usize = 9;
/// Width of the first legacy hidden layer (32→48→24→5 pyramid).
pub const LEGACY_HIDDEN_0: usize = 48;
/// Width of the second legacy hidden layer (32→48→24→5 pyramid).
pub const LEGACY_HIDDEN_1: usize = 24;
/// Number of angular sectors for the creature and grass sector inputs.
pub const NN_SECTORS: usize = 8;
/// Creature-sector count when species mode splits same/other species.
pub const NN_CREATURE_SECTORS_SPECIES: usize = 16;
/// Number of directional biome NN inputs (N/S/E/W).
pub const NN_BIOME_DIRS: usize = 4;
/// Fixed cap on mutation buckets.
pub const MUTATION_BUCKET_COUNT: usize = 8;

/// Default number of creatures seeded at world init.
pub const STARTING_POP_DEFAULT: u32 = 32;
/// Simulation population cap; the snapshot creature region is sized from it.
pub const MAX_POP_FOR_SIM: usize = 32_000;
/// Default soft cap for the `max_population` slider.
pub const MAX_POPULATION_DEFAULT: u32 = 8_000;
/// Default creature lifespan in ticks.
pub const MAX_AGE_DEFAULT: u32 = 5000;
/// Default digestion cooldown in ticks.
pub const DIGESTION_COOLDOWN_TICKS: u32 = 0;

/// Lower clamp on the per-tick chunk count.
pub const MIN_CHUNKS: usize = 4;
/// Upper clamp on the per-tick chunk count.
pub const MAX_CHUNKS: usize = 16;
/// Fixed number of NN-forward chunks the population is partitioned into.
pub const N_CHUNKS: usize = 8;

/// Default number of grass cells seeded at world init.
pub const GRASS_INITIAL_SEED_COUNT_DEFAULT: u32 = 8000;
/// Default bites needed to drain a ripe grass cell.
pub const GRASS_BITES_PER_BLOCK_DEFAULT: u32 = 2;
/// Fixed bites-per-block used for graze energy quantization.
pub const GRASS_BITES_PER_BLOCK: u32 = 2;
/// Maximum number of grass pyramid levels (L0 included).
pub const GRASS_PYRAMID_MAX_LEVELS: usize = 16;
/// Pyramid mip level used by the far grass sensing band.
pub const GRASS_FAR_MIP_LEVEL: usize = 3;

/// Default initiator-only post-mating cooldown in ticks.
pub const MATING_COOLDOWN_TICKS_DEFAULT: u32 = 200;
/// Default number of seeded species in species mode.
pub const STARTING_SPECIES_COUNT_DEFAULT: u32 = 10;
/// Default founders per species.
pub const STARTING_SPECIES_MEMBER_COUNT_DEFAULT: u32 = 10;
/// Salt mixed into `world_seed` for the species-seeding stream.
pub const SEEDING_PRNG_SALT: u64 = 0x5EED_0F00_D1CE_A11E;

/// Per-cell biome tag; one byte per grass cell in the biome buffer.
#[derive(Clone, Copy, Debug, PartialEq, Eq, Structural)]
pub enum Biome {
    Plains,
    Water,
    Desert,
}

impl Biome {
    /// The byte this biome is stored as.
    pub fn to_u8(self) -> (b: u8)
        ensures
            b == biome_byte(self),
    {
        match self {
            Biome::Plains => 0,
            Biome::Water => 1,
            Biome::Desert => 2,
        }
    }

    /// The biome a stored byte names, if any.
    pub fn from_u8(b: u8) -> (r: Option<Biome>)
        ensures
            match r {
                Some(x) => biome_byte(x) == b,
                None => b > 2,
            },
    {
        if b == 0 {
            Some(Biome::Plains)
        } else if b == 1 {
            Some(Biome::Water)
        } else if b == 2 {
            Some(Biome::Desert)
        } else {
            None
        }
    }
}

/// Storage byte of each biome.
pub open spec fn biome_byte(b: Biome) -> u8 {
    match b {
        Biome::Plains => 0,
        Biome::Water => 1,
        Biome::Desert => 2,
    }
}

/// Crossover policy for sexual reproduction.
#[derive(Clone, Copy, Debug, PartialEq, Eq, Structural)]
pub enum CrossoverMode {
    /// Per-slot elementwise midpoint of the two parents.
    Average,
    /// Per-slot 50/50 random pick from the two parents.
    FiftyFifty,
}

impl CrossoverMode {
    /// The mode a construction slider selects: zero is `Average`, anything
    /// else `FiftyFifty`. The slider's float is tested for zero by the caller.
    pub fn from_slider_is_zero(is_zero: bool) -> (m: CrossoverMode)
        ensures
            m == (if is_zero { CrossoverMode::Average } else { CrossoverMode::FiftyFifty }),
    {
        if is_zero {
            CrossoverMode::Average
        } else {
            CrossoverMode::FiftyFifty
        }
    }

    /// The repr byte of this mode.
    pub fn to_u8(self) -> (b: u8)
        ensures
            b == (match self { CrossoverMode::Average => 0u8, CrossoverMode::FiftyFifty => 1u8 }),
    {
        match self {
            CrossoverMode::Average => 0,
            CrossoverMode::FiftyFifty => 1,
        }
    }
}

/// Default crossover mode (construction setting).
pub const CROSSOVER_MODE_DEFAULT: CrossoverMode = CrossoverMode::FiftyFifty;

} // verus!
