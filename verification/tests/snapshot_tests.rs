use evosim::constants::MAX_POP_FOR_SIM;
use evosim::snapshot::{
    canonical_f32_bits, max_pop_for_sim, pack_render_u32, SnapshotLayout, SNAPSHOT_CREATURE_BYTES,
    SNAPSHOT_CREATURE_STRIDE, SNAPSHOT_HEADER_BYTES, write_creature_record, write_snapshot_header,
};

#[test]
fn creature_region_size_unchanged() {
    assert_eq!(SNAPSHOT_CREATURE_STRIDE, 32, "stride must stay 32 B / 8 lanes");
    assert_eq!(
        SNAPSHOT_CREATURE_BYTES,
        MAX_POP_FOR_SIM * 32,
        "creature region size must stay MAX_POP_FOR_SIM × 32"
    );
    assert_eq!(SNAPSHOT_HEADER_BYTES, 32, "header bytes unchanged");
}

#[test]
fn pack_render_u32_roundtrips() {
    for tag in 0u8..=5 {
        for ticks in 0u8..=15 {
            for &sp in &[0u16, 1, 1234, 0xFFFF] {
                let packed = pack_render_u32(tag, ticks, sp);
                assert_eq!(packed & 0x7, tag as u32, "flash_tag bits");
                assert_eq!((packed >> 3) & 0xF, ticks as u32, "flash_ticks bits");
                assert_eq!((packed >> 7) & 0xFFFF, sp as u32, "species_id bits");
            }
        }
    }
}

#[test]
fn max_pop_for_sim_matches_constant() {
    assert_eq!(max_pop_for_sim() as usize, MAX_POP_FOR_SIM);
}

#[test]
fn pack_render_u32_cuts_fields_to_width() {
    assert_eq!(pack_render_u32(9, 0, 0), 1);
    assert_eq!(pack_render_u32(0, 17, 0), 8);
    assert_eq!(pack_render_u32(5, 15, 0xFFFF), 5 | (15 << 3) | (0xFFFF << 7));
}

#[test]
fn snapshot_layout_sizes() {
    let l = SnapshotLayout::from_grass_cell_count(1200 * 1200 / 25);
    assert_eq!(l.grass_bytes, 240 * 240);
    assert_eq!(l.biome_bytes, 240 * 240);
    assert_eq!(l.slot_bytes, 32 + MAX_POP_FOR_SIM * 32 + 240 * 240);
    assert_eq!(l.buf_bytes, 2 * l.slot_bytes);
}

#[test]
fn write_f32_nan_canonical() {
    let patterns = [f32::NAN.to_bits(), 0x7fc0_0001, 0xffc0_0000, 0x7f80_0001, 0xffff_ffff];
    for &b in &patterns {
        assert!(f32::from_bits(b).is_nan());
        assert_eq!(canonical_f32_bits(b), 0x7fc0_0000, "all NaN patterns must hash identically (canonical 0x7fc0_0000)");
    }
}

#[test]
fn write_f32_finite_values_pass_through() {
    for v in [0.0f32, -0.0, 1.5, -2.25, f32::INFINITY, f32::NEG_INFINITY, f32::MIN_POSITIVE / 2.0, f32::MAX] {
        assert_eq!(canonical_f32_bits(v.to_bits()), v.to_bits());
    }
}

#[test]
fn header_fields_are_little_endian_in_the_chosen_slot() {
    let layout = SnapshotLayout::from_grass_cell_count(16);
    let mut buf = vec![0xAAu8; layout.buf_bytes];
    let tps = 59.5f32.to_bits();
    write_snapshot_header(&mut buf, layout, 3, 0x0102_0304, 17, true, tps, 9);
    let base = layout.slot_bytes;
    let mut want = Vec::new();
    for v in [0x0102_0304u32, 17, 1, tps, 9] {
        want.extend_from_slice(&v.to_le_bytes());
    }
    assert_eq!(&buf[base..base + 20], &want[..]);
    assert!(buf[..base].iter().all(|&b| b == 0xAA));
    assert!(buf[base + 20..].iter().all(|&b| b == 0xAA));
    write_snapshot_header(&mut buf, layout, 0, 5, 0, false, 0, 0);
    assert_eq!(&buf[0..4], &[5, 0, 0, 0]);
    assert_eq!(&buf[8..12], &[0, 0, 0, 0]);
}

#[test]
fn creature_record_lanes() {
    let mut dst = vec![0xEEu8; 3 * 32];
    let id: u64 = 0x0000_0007_8000_0001;
    let packed = pack_render_u32(5, 9, 300);
    write_creature_record(&mut dst, 1, 12.5f32.to_bits(), (-3.0f32).to_bits(), 1.5f32.to_bits(), 0xFF00_80FF, id, packed);
    let lane = |k: usize| u32::from_le_bytes(dst[32 + 4 * k..36 + 4 * k].try_into().unwrap());
    assert_eq!(f32::from_bits(lane(0)), 12.5);
    assert_eq!(f32::from_bits(lane(1)), -3.0);
    assert_eq!(f32::from_bits(lane(2)), 1.5);
    assert_eq!(lane(3), 0xFF00_80FF);
    assert_eq!(((lane(5) as u64) << 32) | lane(4) as u64, id);
    assert_eq!(lane(6) & 0x7, 5);
    assert_eq!((lane(6) >> 3) & 0xF, 9);
    assert_eq!(lane(7), 0);
    assert!(dst[..32].iter().chain(&dst[64..]).all(|&b| b == 0xEE));
}
