use evosim::constants::{Biome, CrossoverMode};
use evosim::heapless::Vec as BoundedVec;
use evosim::text::{decimal_string, str_eq};

#[test]
fn bounded_vec_refuses_past_capacity() {
    let mut v: BoundedVec<u8, 2> = BoundedVec::new();
    assert!(v.is_empty());
    assert_eq!(v.push(4), Ok(()));
    assert_eq!(v.push(8), Ok(()));
    assert_eq!(v.push(6), Err(6));
    assert_eq!(v.len(), 2);
    assert!(!v.is_empty());
    assert_eq!(*v.get(0), 4);
    assert_eq!(*v.get(1), 8);
}

#[test]
fn decimal_rendering() {
    assert_eq!(decimal_string(0), "0");
    assert_eq!(decimal_string(7), "7");
    assert_eq!(decimal_string(1234), "1234");
    assert_eq!(decimal_string(u64::MAX), "18446744073709551615");
    assert!(str_eq("abc", "abc"));
    assert!(!str_eq("abc", "abd"));
    assert!(!str_eq("ab", "abc"));
}

#[test]
fn biome_bytes_round_trip() {
    for b in 0u8..=2 {
        assert_eq!(Biome::from_u8(b).map(|x| x.to_u8()), Some(b));
    }
    assert_eq!(Biome::from_u8(3), None);
}

#[test]
fn crossover_mode_from_slider() {
    assert_eq!(CrossoverMode::from_slider_is_zero(true), CrossoverMode::Average);
    assert_eq!(CrossoverMode::from_slider_is_zero(false), CrossoverMode::FiftyFifty);
}
