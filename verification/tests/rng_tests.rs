use evosim::rng::{grass_hash_u64, index_from_draw, string_seed, SimRng};

#[test]
fn same_seed_same_stream() {
    let mut a = SimRng::from_string("evosim");
    let mut b = SimRng::from_string("evosim");
    for _ in 0..1024 {
        assert_eq!(a.next_u64(), b.next_u64());
    }
}

#[test]
fn different_seeds_differ() {
    let mut a = SimRng::from_u64(1);
    let mut b = SimRng::from_u64(2);
    let same = (0..16).all(|_| a.next_u64() == b.next_u64());
    assert!(!same);
}

#[test]
fn string_seed_is_xxhash64_of_bytes() {
    // xxHash64 of the empty input under seed 0.
    assert_eq!(string_seed(""), 0xEF46_DB37_51D8_E999);
    assert_eq!(string_seed("evosim"), string_seed("evosim"));
    assert_ne!(string_seed("evosim"), string_seed("evosin"));
}

#[test]
fn grass_hash_reference_values() {
    assert_eq!(grass_hash_u64(0, 0, 0, 0), 0);
    let h = grass_hash_u64(1, 2, 3, 4);
    assert_eq!(h, grass_hash_u64(1, 2, 3, 4));
    assert_ne!(h, grass_hash_u64(1, 2, 3, 5));
    // id = 1 alone: the folded key is the first odd constant.
    let mut z: u64 = 0x9E37_79B9_7F4A_7C15;
    z = (z ^ (z >> 30)).wrapping_mul(0xBF58_476D_1CE4_E5B9);
    z = (z ^ (z >> 27)).wrapping_mul(0x94D0_49BB_1331_11EB);
    z ^= z >> 31;
    assert_eq!(grass_hash_u64(0, 1, 0, 0), z);
}

#[test]
fn index_scales_draw_onto_range() {
    assert_eq!(index_from_draw(0, 10), 0);
    assert_eq!(index_from_draw(u64::MAX, 10), 9);
    assert_eq!(index_from_draw(1u64 << 63, 10), 5);
    assert_eq!(index_from_draw(u64::MAX, 1), 0);
}

#[test]
fn index_stays_in_range() {
    let mut r = SimRng::from_u64(42);
    for n in 1..200usize {
        assert!(r.index(n) < n);
    }
}

#[test]
fn index_scales_the_next_draw_and_advances() {
    let mut a = SimRng::from_string("index");
    let mut b = a.clone();
    let draw = b.next_u64();
    let r = a.index(1000);
    assert_eq!(r as u128, (draw as u128 * 1000) >> 64);
    // Both streams advanced by the same one step.
    assert_eq!(a.next_u64(), b.next_u64());
}

#[test]
fn string_and_numeric_seeds_agree() {
    let mut a = SimRng::from_string("evosim");
    let mut b = SimRng::from_u64(evosim::rng::string_seed("evosim"));
    let first = a.next_u64();
    assert_eq!(first, b.next_u64());
    assert_ne!(first, a.next_u64());
}

#[test]
fn grass_hash_changes_with_each_key_part() {
    let base = grass_hash_u64(3, 1000, 50, 2);
    assert_ne!(base, grass_hash_u64(4, 1000, 50, 2));
    assert_ne!(base, grass_hash_u64(3, 1001, 50, 2));
    assert_ne!(base, grass_hash_u64(3, 1000, 51, 2));
    assert_ne!(base, grass_hash_u64(3, 1000, 50, 3));
}
