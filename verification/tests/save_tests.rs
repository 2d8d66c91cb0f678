use evosim::save::{validate_save, validate_save_full, CreatureCheck, LoadError, SaveExpect, SaveShape};

fn good_creature() -> CreatureCheck {
    CreatureCheck {
        weight_count: 12,
        mutation_rate_bits: 0.05f32.to_bits(),
        x_bits: 10.0f32.to_bits(),
        y_bits: 20.0f32.to_bits(),
        energy_bits: 100.0f32.to_bits(),
        parent_species_id: 0,
    }
}

fn good_shape() -> SaveShape {
    SaveShape {
        sun_capacity_len: 16,
        sun_current_len: 16,
        hotspot_count: 3,
        creatures: vec![good_creature(), good_creature()],
        slider_bits: [1.0f32.to_bits(); 5],
    }
}

const EXPECT: SaveExpect = SaveExpect { sun_cells: 16, hotspots: 3, weight_count: 12 };

fn structural(r: Result<usize, LoadError>) -> String {
    match r {
        Err(LoadError::StructuralError(m)) => m,
        _ => panic!("expected a structural error"),
    }
}

#[test]
fn valid_save_returns_creature_count() {
    assert_eq!(validate_save(&good_shape(), &EXPECT).unwrap(), 2);
}

#[test]
fn sun_sizes_are_checked_first() {
    let mut s = good_shape();
    s.sun_current_len = 15;
    s.hotspot_count = 0;
    assert_eq!(structural(validate_save(&s, &EXPECT)), "sun.current len 15 != expected 16");
    s.sun_capacity_len = 4;
    assert_eq!(structural(validate_save(&s, &EXPECT)), "sun.capacity len 4 != expected 16");
    let mut s = good_shape();
    s.hotspot_count = 2;
    assert_eq!(structural(validate_save(&s, &EXPECT)), "sun.hotspots len 2 != expected 3");
}

#[test]
fn brain_checks_run_before_positions() {
    let mut s = good_shape();
    s.creatures[0].x_bits = f32::NAN.to_bits();
    s.creatures[1].weight_count = 7;
    assert_eq!(
        structural(validate_save(&s, &EXPECT)),
        "creature 1 brain weight count 7 != 12"
    );
    s.creatures[1].weight_count = 12;
    s.creatures[1].mutation_rate_bits = f32::INFINITY.to_bits();
    assert_eq!(
        structural(validate_save(&s, &EXPECT)),
        "creature 1 brain.nn_mutation_rate is non-finite: inf"
    );
    s.creatures[1].mutation_rate_bits = 0.1f32.to_bits();
    assert_eq!(structural(validate_save(&s, &EXPECT)), "creature 0 x is non-finite: NaN");
}

#[test]
fn non_finite_values_print_like_floats() {
    let mut s = good_shape();
    s.creatures[1].y_bits = f32::NEG_INFINITY.to_bits();
    let m = structural(validate_save(&s, &EXPECT));
    assert_eq!(m, format!("creature 1 y is non-finite: {}", f32::NEG_INFINITY));
    let mut s = good_shape();
    s.creatures[0].energy_bits = f32::NAN.to_bits();
    let m = structural(validate_save(&s, &EXPECT));
    assert_eq!(m, format!("creature 0 energy is non-finite: {}", f32::NAN));
}

#[test]
fn parent_sentinel_and_sliders() {
    let mut s = good_shape();
    s.creatures[1].parent_species_id = u32::MAX;
    s.slider_bits[3] = f32::NAN.to_bits();
    assert_eq!(
        structural(validate_save(&s, &EXPECT)),
        "creature 1 parent_species_id is u32::MAX (invalid sentinel)"
    );
    s.creatures[1].parent_species_id = 4;
    assert_eq!(structural(validate_save(&s, &EXPECT)), "slider 'mouth_tax' is non-finite: NaN");
    s.slider_bits[1] = f32::INFINITY.to_bits();
    assert_eq!(
        structural(validate_save(&s, &EXPECT)),
        "slider 'mutation_rate_multiplier' is non-finite: inf"
    );
}

#[test]
fn full_check_reports_column_lengths_before_the_structure() {
    let cols = [("x", 2usize), ("y", 2), ("energy", 1), ("brains", 2)];
    let mut short = good_shape();
    short.creatures.pop();
    short.sun_capacity_len = 4;
    assert_eq!(
        structural(validate_save_full(2, &cols, &short, &EXPECT)),
        "column 'energy' len 1 != id len 2"
    );
    let ok_cols = [("x", 2usize), ("y", 2), ("energy", 2), ("brains", 2)];
    assert_eq!(validate_save_full(2, &ok_cols, &good_shape(), &EXPECT).unwrap(), 2);
    let mut bad = good_shape();
    bad.hotspot_count = 2;
    assert_eq!(
        structural(validate_save_full(2, &ok_cols, &bad, &EXPECT)),
        "sun.hotspots len 2 != expected 3"
    );
    assert_eq!(validate_save_full(0, &[], &SaveShape { creatures: vec![], ..good_shape() }, &EXPECT).unwrap(), 0);
}

#[test]
fn every_single_defect_is_a_structural_error() {
    let cols = [("x", 2usize), ("y", 2), ("energy", 2), ("parent_species_id", 2), ("brains", 2)];
    assert!(validate_save_full(2, &cols, &good_shape(), &EXPECT).is_ok());
    let short_x = [("x", 1usize), ("y", 2), ("energy", 2), ("parent_species_id", 2), ("brains", 2)];
    let mut one = good_shape();
    one.creatures.truncate(1);
    assert!(!structural(validate_save_full(2, &short_x, &one, &EXPECT)).is_empty());
    let defects: Vec<fn(&mut SaveShape)> = vec![
        |s| s.sun_capacity_len -= 1,
        |s| s.hotspot_count -= 1,
        |s| s.creatures[0].x_bits = f32::NAN.to_bits(),
        |s| s.creatures[0].energy_bits = f32::INFINITY.to_bits(),
        |s| s.creatures[0].parent_species_id = u32::MAX,
        |s| s.slider_bits[1] = f32::NAN.to_bits(),
    ];
    for defect in defects {
        let mut s = good_shape();
        defect(&mut s);
        assert!(!structural(validate_save_full(2, &cols, &s, &EXPECT)).is_empty());
    }
}
