use evosim::creature::{creature_idx_by_id, eye_count_candidates, promote_actions, remove_indices, step_eye_count, Action};
use evosim::rng::SimRng;

#[test]
fn remove_indices_walks_from_the_back() {
    let mut col: Vec<u32> = vec![10, 11, 12, 13, 14];
    remove_indices(&mut col, &[1, 3]);
    // swap_remove(3): [10, 11, 12, 14]; swap_remove(1): [10, 14, 12].
    assert_eq!(col, vec![10, 14, 12]);
}

#[test]
fn remove_indices_keeps_survivors() {
    let mut col: Vec<u64> = (0..5).collect();
    remove_indices(&mut col, &[0, 2]);
    assert_eq!(col.len(), 3);
    let mut sorted = col.clone();
    sorted.sort();
    assert_eq!(sorted, vec![1, 3, 4]);
}

#[test]
fn remove_indices_all_and_none() {
    let mut col: Vec<f32> = vec![1.0, 2.0, 3.0];
    remove_indices(&mut col, &[]);
    assert_eq!(col, vec![1.0, 2.0, 3.0]);
    remove_indices(&mut col, &[0, 1, 2]);
    assert!(col.is_empty());
}

#[test]
fn action_index_round_trips() {
    for (k, a) in Action::ALL.iter().enumerate() {
        assert_eq!(a.index() as usize, k);
        assert_eq!(Action::from_index(k as u8), Some(*a));
    }
    assert_eq!(Action::from_index(3), None);
    assert_eq!(Action::Eat.index(), 1);
}

#[test]
fn creature_idx_by_id_finds_first_match() {
    let ids: Vec<u64> = vec![7, 3, 9, 3];
    assert_eq!(creature_idx_by_id(&ids, 7), Some(0));
    assert_eq!(creature_idx_by_id(&ids, 3), Some(1));
    assert_eq!(creature_idx_by_id(&ids, u64::MAX), None);
    assert_eq!(creature_idx_by_id(&[], 0), None);
}

const EYES: [u8; 5] = [0, 2, 4, 6, 8];

#[test]
fn eye_count_candidates_are_the_neighbours() {
    let c = eye_count_candidates(&EYES, 6);
    assert_eq!((c.len(), *c.get(0), *c.get(1)), (2, 4, 8));
    let c = eye_count_candidates(&EYES, 0);
    assert_eq!((c.len(), *c.get(0)), (1, 2));
    let c = eye_count_candidates(&EYES, 8);
    assert_eq!((c.len(), *c.get(0)), (1, 6));
    // An unlisted count is read as the first listed one.
    let c = eye_count_candidates(&EYES, 5);
    assert_eq!((c.len(), *c.get(0)), (1, 2));
    assert!(eye_count_candidates(&[3], 3).is_empty());
}

#[test]
fn eye_count_only_mutates_to_adjacent() {
    let mut rng = SimRng::from_u64(11);
    let (mut saw4, mut saw8) = (false, false);
    for _ in 0..200 {
        let mut probe = rng.clone();
        let draw = probe.next_u64();
        let next = step_eye_count(&EYES, 6, &mut rng);
        assert!(next == 4 || next == 8);
        assert_eq!(next, [4, 8][((draw as u128 * 2) >> 64) as usize]);
        saw4 |= next == 4;
        saw8 |= next == 8;
    }
    assert!(saw4 && saw8);
    let mut rng = SimRng::from_u64(1);
    let mut probe = rng.clone();
    assert_eq!(step_eye_count(&[3], 3, &mut rng), 3);
    assert_eq!(rng.next_u64(), probe.next_u64());
}

#[test]
fn promote_copies_this_ticks_actions() {
    let mut last = vec![Action::Graze, Action::Graze, Action::Split];
    let now = [Action::Eat, Action::Split, Action::Graze];
    promote_actions(&mut last, &now);
    assert_eq!(last, now.to_vec());
    let mut empty: Vec<Action> = vec![];
    promote_actions(&mut empty, &[]);
    assert!(empty.is_empty());
}
