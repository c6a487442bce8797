use autobattler::{Dice, DeterministicDice};

/// A two-level decision: the first draw has two branches, and only branch 0
/// opens a second, two-way decision.  The tree has exactly three leaves.
fn dependent_decision<D: Dice>(dice: &mut D) -> (usize, Option<usize>) {
    let first = dice.roll(0, 2);
    if first == 0 {
        let second = dice.roll(0, 2);
        (first, Some(second))
    } else {
        (first, None)
    }
}

#[test]
fn exhaustive_enumeration_visits_every_leaf_once() {
    let mut dice = DeterministicDice::new();
    let mut seen = Vec::new();
    while dice.next() {
        seen.push(dependent_decision(&mut dice));
        assert!(!dice.has_failed());
    }
    assert_eq!(seen, vec![(0, Some(0)), (0, Some(1)), (1, None)]);
}

#[test]
fn fixed_shape_enumeration_counts_all_combinations() {
    let mut dice = DeterministicDice::new();
    let mut count = 0;
    while dice.next() {
        let a = dice.roll(0, 2);
        let b = dice.roll(0, 3);
        assert!(a < 2 && b < 3);
        count += 1;
    }
    assert_eq!(count, 6);
}

#[test]
fn first_advance_reports_work_with_empty_history() {
    let mut dice = DeterministicDice::new();
    assert!(dice.next());
    assert_eq!(dice.key(), "");
}

#[test]
fn replay_returns_recorded_values_before_extending() {
    let mut dice = DeterministicDice::new();
    assert!(dice.next());
    assert_eq!(dice.roll(0, 5), 0);
    assert_eq!(dice.roll(2, 9), 2);
    assert!(dice.next());
    assert_eq!(dice.roll(0, 5), 0);
    assert_eq!(dice.roll(2, 9), 3);
}

#[test]
fn key_round_trips_through_from_key() {
    let mut dice = DeterministicDice::new();
    assert!(dice.next());
    assert_eq!(dice.roll(0, 4), 0);
    assert_eq!(dice.roll(0, 36), 0);
    assert!(dice.next());
    assert!(dice.next());
    // The last decision has been advanced twice.
    assert_eq!(dice.key(), "02");

    let mut replay = DeterministicDice::from_key("02");
    assert_eq!(replay.roll(0, 4), 0);
    assert_eq!(replay.roll(0, 36), 2);
    assert!(!replay.has_failed());
    assert_eq!(replay.key(), "02");
}

#[test]
fn replay_with_wrong_range_marks_the_dice_failed() {
    let mut dice = DeterministicDice::new();
    assert!(dice.next());
    assert_eq!(dice.roll(0, 5), 0);
    assert!(dice.next());
    // The replayed draw asks a different range than was recorded.
    let v = dice.roll(1, 5);
    assert_eq!(v, 1);
    assert!(dice.has_failed());
    assert!(!dice.next());
}

#[test]
fn restored_value_outside_the_requested_range_fails() {
    let mut dice = DeterministicDice::from_key("7");
    let v = dice.roll(0, 3);
    assert_eq!(v, 0);
    assert!(dice.has_failed());
}

#[test]
fn exhaustion_is_reported_after_the_last_combination() {
    let mut dice = DeterministicDice::new();
    assert!(dice.next());
    assert_eq!(dice.roll(0, 2), 0);
    assert!(dice.next());
    assert_eq!(dice.roll(0, 2), 1);
    assert!(!dice.next());
}

#[test]
fn pick_some_draws_distinct_present_indices() {
    let mut dice = DeterministicDice::new();
    assert!(dice.next());
    let slots = vec![Some(10u32), None, Some(20), Some(30), None];
    let picked = autobattler::pick_some(&mut dice, 2, &slots);
    assert_eq!(picked.len(), 2);
    assert!(picked[0] != picked[1]);
    for &i in &picked {
        assert!(slots[i].is_some());
    }
    // The first full enumeration path picks the first present slot twice
    // over the shrinking ranges.
    assert_eq!(picked, vec![0, 2]);
}

#[test]
fn pick_some_visits_every_ordered_selection() {
    let mut dice = DeterministicDice::new();
    let slots = vec![Some(1u8), Some(2), Some(3)];
    let mut seen = Vec::new();
    while dice.next() {
        let picked = autobattler::pick_some(&mut dice, 2, &slots);
        seen.push(picked);
    }
    // Three choices for the first pick, two for the second.
    assert_eq!(seen.len(), 6);
    seen.sort();
    seen.dedup();
    assert_eq!(seen.len(), 6);
}

#[test]
fn pick_one_on_empty_slots_is_none() {
    let mut dice = DeterministicDice::new();
    assert!(dice.next());
    let slots: Vec<Option<u8>> = vec![None, None];
    assert_eq!(autobattler::pick_one(&mut dice, &slots), None);
}
