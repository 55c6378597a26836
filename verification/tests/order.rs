use ant_sim::ensemble::Ensemble;
use ant_sim::error::{InputFault, SimError};
use ant_sim::event::Event;
use ant_sim::grid::RESOLUTION;
use ant_sim::sampling::{draw_ants, time_to_clear};

#[test]
fn sorted_brings_ants_into_the_order_of_the_line() {
    let e = Ensemble::sorted(
        vec![900_000_000, 100_000_000, 200_000_000],
        vec![true, true, false],
        100,
    ).unwrap();
    assert_eq!(e.positions(), &vec![200_000_000, 400_000_000, 1_800_000_000]);
    assert_eq!(e.facing_up(), &vec![true, false, true]);
    assert_eq!(e.gaps(), &vec![200_000_000, 1_400_000_000]);
    assert_eq!(e.next_event(), Event::Collide(0));
}

#[test]
fn sorted_leaves_ants_in_order_as_they_are() {
    let e = Ensemble::sorted(vec![1, 2, 3], vec![false, true, false], 7).unwrap();
    assert_eq!(e.positions(), &vec![2, 4, 6]);
    assert_eq!(e.facing_up(), &vec![false, true, false]);
    assert_eq!(e.time_factor(), 7);
    assert_eq!(e.travelled(), 0);
}

#[test]
fn sorted_puts_the_ant_that_walks_down_first_on_one_point() {
    let mut e = Ensemble::sorted(vec![5, 5, 5, 2], vec![true, false, true, true], 100).unwrap();
    assert_eq!(e.positions(), &vec![4, 10, 10, 10]);
    assert_eq!(e.facing_up(), &vec![true, false, true, true]);
    // The ants on one point walk apart, so the first meeting takes time.
    assert_eq!(e.step(), Ok(Event::Collide(0)));
    assert_eq!(e.travelled(), 3);
}

#[test]
fn sorted_keeps_every_ant() {
    let e = Ensemble::sorted(
        vec![7, 3, 7, 1, 3, 9, 0],
        vec![false, true, true, false, false, true, true],
        100,
    ).unwrap();
    assert_eq!(e.positions(), &vec![0, 2, 6, 6, 14, 14, 18]);
    assert_eq!(e.facing_up(), &vec![true, false, false, true, false, true, true]);
}

#[test]
fn sorted_turns_down_bad_input() {
    let r = Ensemble::sorted(vec![2, 1], vec![true], 100);
    assert_eq!(r.err(), Some(SimError::InvalidInput(InputFault::LengthMismatch)));
    let r = Ensemble::sorted(vec![RESOLUTION + 1, 1], vec![true, false], 100);
    assert_eq!(r.err(), Some(SimError::InvalidInput(InputFault::OutOfRange)));
}

#[test]
fn sorted_of_nothing_is_empty() {
    let mut e = Ensemble::sorted(vec![], vec![], 100).unwrap();
    assert!(e.is_empty());
    assert_eq!(e.run(), 0);
}

#[test]
fn ants_in_any_order_run_as_long_as_found_without_stepping() {
    let positions = vec![700_000_000, 3_000_000, 555_555_555, 120_000_000, 999_999_999];
    let facing_up = vec![false, false, true, true, false];
    let expected = time_to_clear(&positions, &facing_up, 100).unwrap();
    // The ant at tick 999_999_999 walks down almost the whole line.
    assert_eq!(expected, 1_999_999_998 * 100);
    let mut e = Ensemble::sorted(positions, facing_up, 100).unwrap();
    assert_eq!(e.run(), expected);
}

#[test]
fn drawn_ants_run_as_long_as_found_without_stepping() {
    for _ in 0..20 {
        let (positions, facing_up) = draw_ants(40);
        let expected = time_to_clear(&positions, &facing_up, 3).unwrap();
        let mut e = Ensemble::sorted(positions, facing_up, 3).unwrap();
        let mut events = 0;
        while e.step().is_ok() {
            events += 1;
        }
        assert!(events >= 40);
        assert_eq!(e.elapsed_time(), expected);
    }
}
