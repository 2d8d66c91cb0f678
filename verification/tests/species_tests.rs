use evosim::events::{EventKind, EventLog};
use evosim::species::{finalize_extinctions, SpeciesRegistry};

#[test]
fn lineage_naming_alternates() {
    let weights: Vec<f32> = vec![0.5, -0.25, 1.0];
    let mut reg: SpeciesRegistry<Vec<f32>> = SpeciesRegistry::new();
    let a = reg.founder(weights.clone(), 0);
    let a1 = reg.speciate(a, weights.clone(), 1);
    assert_eq!(reg.get(a1).name, "Lineage A1");
    let a1a = reg.speciate(a1, weights.clone(), 2);
    assert_eq!(reg.get(a1a).name, "Lineage A1a");
    let a2 = reg.speciate(a, weights.clone(), 3);
    assert_eq!(reg.get(a2).name, "Lineage A2");
    let a1a1 = reg.speciate(a1a, weights.clone(), 4);
    assert_eq!(reg.get(a1a1).name, "Lineage A1a1");
}

#[test]
fn speciate_updates_parent_and_child() {
    let mut reg: SpeciesRegistry<u8> = SpeciesRegistry::new();
    let a = reg.founder(1, 10);
    assert_eq!(a, 0);
    let c = reg.speciate(a, 2, 20);
    assert_eq!(c, 1);
    assert_eq!(reg.next_id, 2);
    let parent = reg.get(a);
    assert_eq!(parent.child_count, 1);
    let child = reg.get(c);
    assert_eq!(child.parent_id, Some(0));
    assert_eq!(child.depth, 1);
    assert_eq!(child.born_tick, 20);
    assert_eq!(child.died_tick, None);
    assert_eq!(child.anchor_brain_weights, 2);
}

#[test]
fn letter_suffixes_carry_past_z() {
    let mut reg: SpeciesRegistry<()> = SpeciesRegistry::new();
    let a = reg.founder((), 0);
    let a1 = reg.speciate(a, (), 0);
    let mut last = a1;
    for _ in 0..27 {
        last = reg.speciate(a1, (), 0);
    }
    assert_eq!(reg.get(last).name, "Lineage A1aa");
}

#[test]
fn long_names_are_cut_with_ellipsis() {
    let mut reg: SpeciesRegistry<()> = SpeciesRegistry::new();
    let mut id = reg.founder((), 0);
    for _ in 0..7 {
        id = reg.speciate(id, (), 0);
    }
    assert_eq!(reg.get(id).name, "Lineage A1a1a1a1");
    let next = reg.speciate(id, (), 0);
    assert_eq!(reg.get(next).name, "Lineage A1a1a1a…");
    let after = reg.speciate(next, (), 0);
    assert_eq!(reg.get(after).name, "Lineage A1a1a1a…");
}

#[test]
fn from_snapshot_keeps_list_and_next_id() {
    let mut reg: SpeciesRegistry<u8> = SpeciesRegistry::default();
    reg.founder(7, 3);
    let list = reg.list.clone();
    let back = SpeciesRegistry::from_snapshot(list, 1);
    assert_eq!(back.next_id, 1);
    assert_eq!(back.get(0).name, "Lineage A");
    assert_eq!(back.get(0).anchor_brain_weights, 7);
}

#[test]
fn extinction_marks_dead_species_once_and_logs_it() {
    let mut reg: SpeciesRegistry<u8> = SpeciesRegistry::new();
    let a = reg.founder(0, 0);
    let b = reg.speciate(a, 0, 5);
    let c = reg.speciate(a, 0, 6);
    let mut log = EventLog::new();
    // Creatures carry species a and c only: b is extinct.
    let living = vec![a, c, c, a];
    let live = finalize_extinctions(&mut reg, &living, vec![b, a, b], 40, true, &mut log);
    assert_eq!(live, 2);
    assert_eq!(reg.get(b).died_tick, Some(40));
    assert_eq!(reg.get(a).died_tick, None);
    assert_eq!(reg.get(c).died_tick, None);
    assert_eq!(log.all.len(), 1);
    assert_eq!(log.all[0].tick, 40);
    match &log.all[0].kind {
        EventKind::Extinction { species_id, species_name } => {
            assert_eq!(*species_id, b);
            assert_eq!(species_name, "Lineage A1");
        }
        _ => panic!("expected an extinction event"),
    }
    // A second pass finds b already dead and logs nothing new.
    let live2 = finalize_extinctions(&mut reg, &living, vec![b], 41, true, &mut log);
    assert_eq!(live2, 2);
    assert_eq!(reg.get(b).died_tick, Some(40));
    assert_eq!(log.all.len(), 1);
}

#[test]
fn extinction_without_events_leaves_log_alone() {
    let mut reg: SpeciesRegistry<u8> = SpeciesRegistry::new();
    let a = reg.founder(0, 0);
    let mut log = EventLog::new();
    let live = finalize_extinctions(&mut reg, &[], vec![a], 7, false, &mut log);
    assert_eq!(live, 0);
    assert_eq!(reg.get(a).died_tick, Some(7));
    assert!(log.all.is_empty());
}
