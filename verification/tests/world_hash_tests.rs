use std::hash::Hasher;
use evosim::world_hash::{
    genome_digest, snapshot_hash, world_hash_bytes, CarrionHashInput, CreatureHashInput, GenomeHashInput,
    SpeciesHashInput, WorldHashInput,
};
use twox_hash::XxHash64;

fn genome(nose: u8) -> GenomeHashInput {
    GenomeHashInput {
        size_bits: 1.0f32.to_bits(),
        max_age: 900,
        graze_efficiency_bits: 0.5f32.to_bits(),
        eat_efficiency_bits: 0.25f32.to_bits(),
        scavenge_efficiency_bits: 0.125f32.to_bits(),
        move_speed_bits: 2.0f32.to_bits(),
        eye_count: 2,
        eye_offset_bits: vec![0.3f32.to_bits(), (-0.3f32).to_bits()],
        nose_count: nose,
        vision_range_bits: 40.0f32.to_bits(),
        armor_bits: 0.1f32.to_bits(),
        bite_reach_bits: 3.0f32.to_bits(),
        pigment_bits: [0.2f32.to_bits(), 0.4f32.to_bits(), 0.6f32.to_bits()],
        mutation_rate_bits: [0.01f32.to_bits(); 15],
    }
}

fn world(nose: u8, grass0: u32, rng0: u64) -> WorldHashInput {
    WorldHashInput {
        tick: 77,
        creatures: vec![CreatureHashInput {
            id: 5,
            x_bits: 10.0f32.to_bits(),
            y_bits: 20.0f32.to_bits(),
            vx_bits: 0.0f32.to_bits(),
            vy_bits: (-1.0f32).to_bits(),
            energy_bits: 50.0f32.to_bits(),
            age: 12,
            genome: genome(nose),
            weight_bits: vec![0.5f32.to_bits(), f32::NAN.to_bits()],
            nn_mutation_rate_bits: 0.05f32.to_bits(),
            digestion_cooldown: 3,
            cumulative_upkeep_bits: 1.5f32.to_bits(),
            species_id: 1,
            parent_species_id: 0,
            last_action: 2,
            action_this_tick: 1,
            max_size_reached_bits: 1.25f32.to_bits(),
            distance_travelled_bits: 99.0f32.to_bits(),
            birth_tick: 4,
        }],
        grass_bits: vec![grass0, 0.75f32.to_bits()],
        carrion: vec![CarrionHashInput {
            x_bits: 1.0f32.to_bits(),
            y_bits: 2.0f32.to_bits(),
            pool_bits: 3.0f32.to_bits(),
            age: 6,
            id: 9,
        }],
        species: vec![SpeciesHashInput {
            id: 1,
            anchor_genome: genome(1),
            parent_id: Some(0),
            name: "Aké".to_string(),
            born_tick: 2,
            died_tick: None,
            child_count: 1,
            depth: 1,
            anchor_brain_weight_bits: vec![0.5f32.to_bits()],
        }],
        species_next_id: 2,
        rng_state: [rng0, 2, 3, 4],
    }
}

fn write_f32(h: &mut XxHash64, bits: u32) {
    let v = f32::from_bits(bits);
    h.write_u32(if v.is_nan() { 0x7fc0_0000 } else { bits });
}

fn stream_genome(h: &mut XxHash64, g: &GenomeHashInput) {
    write_f32(h, g.size_bits);
    h.write_u32(g.max_age);
    write_f32(h, g.graze_efficiency_bits);
    write_f32(h, g.eat_efficiency_bits);
    write_f32(h, g.scavenge_efficiency_bits);
    write_f32(h, g.move_speed_bits);
    h.write_u8(g.eye_count);
    for &b in &g.eye_offset_bits {
        write_f32(h, b);
    }
    h.write_u8(g.nose_count);
    write_f32(h, g.vision_range_bits);
    write_f32(h, g.armor_bits);
    write_f32(h, g.bite_reach_bits);
    for &b in g.pigment_bits.iter().chain(g.mutation_rate_bits.iter()) {
        write_f32(h, b);
    }
}

fn write_opt(h: &mut XxHash64, o: Option<u32>) {
    match o {
        None => {
            h.write_u8(0);
            h.write_u32(0);
        }
        Some(v) => {
            h.write_u8(1);
            h.write_u32(v);
        }
    }
}

/// The hash written field by field into a streaming hasher.
fn streamed(w: &WorldHashInput) -> u64 {
    let mut h = XxHash64::with_seed(0);
    h.write_u32(w.tick);
    h.write_u32(w.creatures.len() as u32);
    for c in &w.creatures {
        h.write_u64(c.id);
        for b in [c.x_bits, c.y_bits, c.vx_bits, c.vy_bits, c.energy_bits] {
            write_f32(&mut h, b);
        }
        h.write_u32(c.age);
        stream_genome(&mut h, &c.genome);
        for &b in &c.weight_bits {
            write_f32(&mut h, b);
        }
        write_f32(&mut h, c.nn_mutation_rate_bits);
        h.write_u32(c.digestion_cooldown);
        write_f32(&mut h, c.cumulative_upkeep_bits);
        h.write_u32(c.species_id);
        h.write_u32(c.parent_species_id);
        h.write_u8(c.last_action);
        h.write_u8(c.action_this_tick);
        write_f32(&mut h, c.max_size_reached_bits);
        write_f32(&mut h, c.distance_travelled_bits);
        h.write_u32(c.birth_tick);
    }
    h.write_u32(w.grass_bits.len() as u32);
    for &b in &w.grass_bits {
        write_f32(&mut h, b);
    }
    h.write_u32(w.carrion.len() as u32);
    for c in &w.carrion {
        write_f32(&mut h, c.x_bits);
        write_f32(&mut h, c.y_bits);
        write_f32(&mut h, c.pool_bits);
        h.write_u32(c.age);
        h.write_u64(c.id);
    }
    h.write_u32(w.species.len() as u32);
    for s in &w.species {
        h.write_u32(s.id);
        let mut ah = XxHash64::with_seed(0);
        stream_genome(&mut ah, &s.anchor_genome);
        h.write_u64(ah.finish());
        write_opt(&mut h, s.parent_id);
        h.write_u32(s.name.len() as u32);
        h.write(s.name.as_bytes());
        h.write_u32(s.born_tick);
        write_opt(&mut h, s.died_tick);
        h.write_u32(s.child_count);
        h.write_u32(s.depth);
        for &b in &s.anchor_brain_weight_bits {
            write_f32(&mut h, b);
        }
    }
    h.write_u32(w.species_next_id);
    for v in w.rng_state {
        h.write_u64(v);
    }
    h.finish()
}

#[test]
fn hash_equals_the_field_by_field_stream() {
    let w = world(2, 0.5f32.to_bits(), 1);
    assert_eq!(snapshot_hash(&w), streamed(&w));
    let mut ah = XxHash64::with_seed(0);
    stream_genome(&mut ah, &genome(1));
    assert_eq!(genome_digest(&genome(1)), ah.finish());
}

#[test]
fn stream_starts_with_tick_and_ends_with_rng_state() {
    let w = world(2, 0.5f32.to_bits(), 0x0102_0304_0506_0708);
    let b = world_hash_bytes(&w);
    assert_eq!(&b[..8], &[77, 0, 0, 0, 1, 0, 0, 0]);
    assert_eq!(&b[b.len() - 32..b.len() - 24], &[8, 7, 6, 5, 4, 3, 2, 1]);
    assert_eq!(&b[b.len() - 36..b.len() - 32], &[2, 0, 0, 0]);
}

#[test]
fn hash_is_deterministic() {
    let w = world(2, 0.5f32.to_bits(), 1);
    assert_eq!(snapshot_hash(&w), snapshot_hash(&w.clone()));
}

#[test]
fn every_nan_hashes_alike() {
    let a = world(2, f32::NAN.to_bits(), 1);
    let b = world(2, 0x7fff_ffff, 1);
    assert_eq!(snapshot_hash(&a), snapshot_hash(&b));
    let pi = world(2, std::f32::consts::PI.to_bits(), 1);
    let e = world(2, std::f32::consts::E.to_bits(), 1);
    assert_ne!(snapshot_hash(&pi), snapshot_hash(&e));
}

#[test]
fn nose_count_and_rng_state_reach_the_hash() {
    let base = world(2, 0.5f32.to_bits(), 1);
    assert_ne!(snapshot_hash(&base), snapshot_hash(&world(3, 0.5f32.to_bits(), 1)));
    assert_ne!(snapshot_hash(&base), snapshot_hash(&world(2, 0.5f32.to_bits(), 2)));
}
