use evosim::brain::{topology_from_names, Activation, NnTopology};
use evosim::constants::{MAX_NN_INPUTS, NN_INPUTS, NN_OUTPUTS, NN_SECTORS};
use evosim::nn_layout::{NnInputGroup, NnInputLayout};

#[test]
fn nn_weight_count_legacy_pyramid() {
    let t = NnTopology::legacy();
    assert_eq!(t.weight_count(), 2808);
}

#[test]
fn nn_inputs_padded_to_multiple_of_8() {
    assert_eq!(NN_INPUTS % 8, 0);
}

#[test]
fn legacy_weight_count_unchanged() {
    let t = NnTopology::legacy();
    assert_eq!(t.input_width(), NN_INPUTS, "legacy width must stay 32");
    assert_eq!(
        t.weight_count(),
        2808,
        "legacy weight_count must equal the pre-refactor value 32*48 + 48*24 + 24*5"
    );
}

#[test]
fn weight_count_scales_with_input_width() {
    let hidden = vec![48usize, 24];
    let acts = vec![Activation::LReLU, Activation::LReLU];
    for &w in &[32usize, 40, 48] {
        let t = NnTopology::with_input_width(w, hidden.clone(), acts.clone()).unwrap();
        let expected = w * 48 + 48 * 24 + 24 * NN_OUTPUTS;
        assert_eq!(t.weight_count(), expected, "weight_count for input_width={w}");
        assert_eq!(t.input_width(), w);
    }
}

#[test]
fn wider_width_grows_first_matmul() {
    let legacy = NnTopology::with_input_width(
        32,
        vec![48, 24],
        vec![Activation::LReLU, Activation::LReLU],
    )
    .unwrap();
    let wide = NnTopology::with_input_width(
        48,
        vec![48, 24],
        vec![Activation::LReLU, Activation::LReLU],
    )
    .unwrap();
    assert_eq!(wide.weight_count() - legacy.weight_count(), (48 - 32) * 48);
}

#[test]
fn input_width_validation_rejects_bad_widths() {
    let h = vec![8usize];
    let a = vec![Activation::LReLU];
    assert!(NnTopology::with_input_width(0, h.clone(), a.clone()).is_err());
    assert!(NnTopology::with_input_width(33, h.clone(), a.clone()).is_err());
    assert!(
        NnTopology::with_input_width(MAX_NN_INPUTS + 8, h.clone(), a.clone()).is_err(),
        "width above MAX_NN_INPUTS must be rejected"
    );
    assert!(NnTopology::with_input_width(8, h.clone(), a.clone()).is_ok());
    assert!(NnTopology::with_input_width(MAX_NN_INPUTS, h, a).is_ok());
}

#[test]
fn legacy_layout_reproduces_width_32_slots() {
    let l = NnInputLayout::legacy();
    assert_eq!(l.width(), 32, "legacy layout width must be 32");
    assert_eq!(l.offset_of(NnInputGroup::SelfMemory), Some(0));
    assert_eq!(l.offset_of(NnInputGroup::WallProximity), Some(8));
    assert_eq!(l.offset_of(NnInputGroup::CreatureSectors), Some(12));
    assert_eq!(l.offset_of(NnInputGroup::GrassSectors), Some(20));
    assert_eq!(l.offset_of(NnInputGroup::ReservedPredator), Some(28));
    assert_eq!(l.offset_of(NnInputGroup::CurrGrass), Some(29));
    assert_eq!(l.offset_of(NnInputGroup::Bias), Some(30));
    assert_eq!(l.width(), NnTopology::legacy().input_width());
}

#[test]
fn layout_recomputes_offsets_when_a_group_widens() {
    let wide = NnInputLayout::from_groups_for_test(&[
        (NnInputGroup::SelfMemory, 8),
        (NnInputGroup::WallProximity, 4),
        (NnInputGroup::CreatureSectors, 2 * NN_SECTORS),
        (NnInputGroup::GrassSectors, NN_SECTORS),
        (NnInputGroup::ReservedPredator, 1),
        (NnInputGroup::CurrGrass, 1),
        (NnInputGroup::Bias, 1),
    ]);
    assert_eq!(wide.width(), 40, "39 real slots round up to 40");
    assert_eq!(wide.offset_of(NnInputGroup::CreatureSectors), Some(12));
    assert_eq!(wide.offset_of(NnInputGroup::GrassSectors), Some(28));
    assert_eq!(wide.offset_of(NnInputGroup::ReservedPredator), Some(36));
    assert_eq!(wide.offset_of(NnInputGroup::Bias), Some(38));
    assert!(NnTopology::with_input_width(
        wide.width(),
        vec![48, 24],
        vec![Activation::LReLU, Activation::LReLU],
    )
    .is_ok());
}

#[test]
fn layout_subset_packs_and_aligns() {
    let l = NnInputLayout::from_groups_for_test(&[
        (NnInputGroup::SelfMemory, 8),
        (NnInputGroup::WallProximity, 4),
        (NnInputGroup::CreatureSectors, NN_SECTORS),
        (NnInputGroup::GrassSectors, NN_SECTORS),
        (NnInputGroup::Bias, 1),
    ]);
    assert_eq!(l.width(), 32);
    assert_eq!(l.offset_of(NnInputGroup::Bias), Some(28));
    assert_eq!(l.offset_of(NnInputGroup::ReservedPredator), None);
    assert_eq!(l.offset_of(NnInputGroup::CurrGrass), None);
}

#[test]
fn activation_names_round_trip() {
    for a in [
        Activation::LReLU,
        Activation::ReLU,
        Activation::Tanh,
        Activation::Sigmoid,
        Activation::Linear,
    ] {
        assert_eq!(Activation::parse(a.as_str()), Some(a));
    }
    assert_eq!(Activation::parse("softmax"), None);
    assert_eq!(Activation::LReLU.as_str(), "lrelu");
}

#[test]
fn topology_shape_accessors() {
    let t = NnTopology::legacy();
    assert_eq!(t.hidden_sizes(), &[48usize, 24][..]);
    assert_eq!(t.hidden_count(), 2);
    assert_eq!(t.matmul_count(), 3);
    assert_eq!(t.max_width(), 48);
    assert_eq!(t.activations().len(), 2);
}

#[test]
fn topology_rejects_mismatched_activation_count() {
    let r = NnTopology::new(vec![48, 24], vec![Activation::LReLU]);
    assert!(r.is_err());
}

#[test]
fn settings_layout_widths_are_multiples_of_8() {
    for wrap in [false, true] {
        for species in [false, true] {
            let l = NnInputLayout::for_settings(wrap, species);
            assert_eq!(l.width() % 8, 0);
            assert!(l.width() <= MAX_NN_INPUTS);
        }
    }
}

#[test]
fn topology_from_names_refuses_unknown_names() {
    let names = vec!["relu".to_string(), "softplus".to_string(), "nope".to_string()];
    match topology_from_names(vec![16, 8, 8], &names) {
        Err(e) => assert_eq!(e, "unknown activation: softplus"),
        Ok(_) => panic!("unknown activation accepted"),
    }
}

#[test]
fn topology_from_names_builds_and_validates() {
    let names = vec!["tanh".to_string(), "linear".to_string()];
    let t = topology_from_names(vec![16, 8], &names).unwrap();
    assert_eq!(t.hidden_sizes(), &[16, 8]);
    assert_eq!(t.activations(), &[Activation::Tanh, Activation::Linear]);
    let e = topology_from_names(vec![16], &names).unwrap_err();
    assert!(e.starts_with("activations.len() (2) must equal hidden_sizes.len() (1)"), "{e}");
}

#[test]
fn topology_clone_keeps_every_field() {
    let t = NnTopology::new(vec![16, 8], vec![Activation::ReLU, Activation::Sigmoid]).unwrap();
    let c = t.clone();
    assert_eq!(c.input_width(), t.input_width());
    assert_eq!(c.hidden_sizes(), t.hidden_sizes());
    assert_eq!(c.activations(), t.activations());
    assert_eq!(c.weight_count(), t.weight_count());
}
