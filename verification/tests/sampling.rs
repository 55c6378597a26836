use ant_sim::ensemble::Ensemble;
use ant_sim::error::{InputFault, SimError};
use ant_sim::grid::{RESOLUTION, SPAN};
use ant_sim::sampling::{draw_ants, fast_ant_sim, time_to_clear};

#[test]
fn time_to_clear_is_the_longest_walk() {
    // Walks of 0.6, 0.3 and 0.8 of the line.
    let t = time_to_clear(
        &vec![400_000_000, 300_000_000, 800_000_000],
        &vec![true, false, false],
        100,
    );
    assert_eq!(t, Ok(1_600_000_000 * 100));
    assert_eq!(time_to_clear(&vec![400_000_000], &vec![true], 3), Ok(1_200_000_000 * 3));
    assert_eq!(time_to_clear(&vec![], &vec![], 100), Ok(0));
}

#[test]
fn time_to_clear_turns_down_bad_input() {
    assert_eq!(
        time_to_clear(&vec![1], &vec![], 100),
        Err(SimError::InvalidInput(InputFault::LengthMismatch))
    );
    assert_eq!(
        time_to_clear(&vec![1, RESOLUTION + 1], &vec![true, true], 100),
        Err(SimError::InvalidInput(InputFault::OutOfRange))
    );
}

#[test]
fn drawn_ants_lie_on_the_line() {
    let (positions, facing_up) = draw_ants(1_000);
    assert_eq!(positions.len(), 1_000);
    assert_eq!(facing_up.len(), 1_000);
    assert!(positions.iter().all(|p| *p <= RESOLUTION));
}

#[test]
fn drawn_positions_are_spread_over_the_line() {
    let (positions, _) = draw_ants(1_000);
    assert!(positions.iter().any(|p| *p < RESOLUTION / 2));
    assert!(positions.iter().any(|p| *p > RESOLUTION / 2));
    assert!(positions.iter().any(|p| *p != RESOLUTION));
}

#[test]
fn drawn_directions_go_both_ways() {
    let (_, facing_up) = draw_ants(1_000);
    assert!(facing_up.iter().any(|up| *up));
    assert!(facing_up.iter().any(|up| !*up));
}

#[test]
fn fast_sim_of_one_ant_is_that_ants_walk() {
    let mut inside = false;
    for _ in 0..200 {
        let t = fast_ant_sim(1, 100);
        assert!(t <= SPAN * 100);
        assert_eq!(t % 200, 0);
        if t != 0 && t != SPAN * 100 {
            inside = true;
        }
    }
    assert!(inside);
}

#[test]
fn fast_sim_of_many_ants_is_near_the_whole_line() {
    for _ in 0..20 {
        let t = fast_ant_sim(10_000, 100);
        assert!(t <= SPAN * 100);
        // Of ten thousand ants one has almost the whole line to walk.
        assert!(t > SPAN * 90);
    }
}

#[test]
fn drawn_ants_in_order_run_as_long_as_found_without_stepping() {
    let (positions, facing_up) = draw_ants(50);
    let mut ants: Vec<(u64, bool)> = positions.into_iter().zip(facing_up.into_iter()).collect();
    ants.sort();
    let positions: Vec<u64> = ants.iter().map(|a| a.0).collect();
    let facing_up: Vec<bool> = ants.iter().map(|a| a.1).collect();
    let expected = time_to_clear(&positions, &facing_up, 100).unwrap();
    let mut e = Ensemble::new(positions, facing_up).unwrap();
    assert_eq!(e.run(), expected);
}
