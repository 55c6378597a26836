use ant_sim::ensemble::{check_input, Ensemble};
use ant_sim::error::{InputFault, SimError};
use ant_sim::grid::{RESOLUTION, SPAN};

#[test]
fn valid_input_is_taken_as_it_is() {
    let e = Ensemble::new(vec![0, 250_000_000, RESOLUTION], vec![true, false, true]).unwrap();
    assert_eq!(e.len(), 3);
    assert_eq!(e.positions(), &vec![0, 500_000_000, SPAN]);
    assert_eq!(e.facing_up(), &vec![true, false, true]);
    assert_eq!(e.gaps(), &vec![500_000_000, 1_500_000_000]);
    assert_eq!(e.travelled(), 0);
    assert_eq!(e.elapsed_time(), 0);
    assert_eq!(e.time_factor(), 100);
}

#[test]
fn line_is_two_half_ticks_per_tick() {
    assert_eq!(SPAN, 2 * RESOLUTION);
}

#[test]
fn empty_input_gives_an_empty_ensemble() {
    let e = Ensemble::new(vec![], vec![]).unwrap();
    assert!(e.is_empty());
    assert_eq!(e.len(), 0);
    assert!(e.gaps().is_empty());
}

#[test]
fn equal_positions_are_in_order() {
    let e = Ensemble::new(vec![5, 5, 5], vec![true, true, false]).unwrap();
    assert_eq!(e.gaps(), &vec![0, 0]);
}

#[test]
fn unequal_lengths_are_turned_down() {
    let r = Ensemble::new(vec![1, 2], vec![true]);
    assert_eq!(r.err(), Some(SimError::InvalidInput(InputFault::LengthMismatch)));
    let r = Ensemble::new(vec![], vec![false]);
    assert_eq!(r.err(), Some(SimError::InvalidInput(InputFault::LengthMismatch)));
}

#[test]
fn position_beyond_the_line_is_turned_down() {
    let r = Ensemble::new(vec![1, RESOLUTION + 1], vec![true, false]);
    assert_eq!(r.err(), Some(SimError::InvalidInput(InputFault::OutOfRange)));
    let r = Ensemble::new(vec![u64::MAX], vec![true]);
    assert_eq!(r.err(), Some(SimError::InvalidInput(InputFault::OutOfRange)));
}

#[test]
fn positions_out_of_order_are_turned_down() {
    let r = Ensemble::new(vec![2, 1], vec![true, false]);
    assert_eq!(r.err(), Some(SimError::InvalidInput(InputFault::Unordered)));
    let r = Ensemble::with_time_factor(vec![1, 3, 2, 4], vec![true, false, true, false], 5);
    assert_eq!(r.err(), Some(SimError::InvalidInput(InputFault::Unordered)));
}

#[test]
fn first_fault_in_rank_is_named() {
    // Out of order and too short a list of directions.
    assert_eq!(check_input(&vec![2, 1], &vec![true]), Some(InputFault::LengthMismatch));
    // Out of order before the position that is out of range.
    assert_eq!(
        check_input(&vec![2, 1, RESOLUTION + 1], &vec![true, true, true]),
        Some(InputFault::OutOfRange)
    );
    assert_eq!(check_input(&vec![2, 1], &vec![true, true]), Some(InputFault::Unordered));
    assert_eq!(check_input(&vec![1, 2], &vec![true, true]), None);
}
