use ant_sim::ensemble::Ensemble;
use ant_sim::error::SimError;
use ant_sim::event::Event;
use ant_sim::grid::SPAN;
use ant_sim::sampling::time_to_clear;

fn ensemble(positions: Vec<u64>, facing_up: Vec<bool>) -> Ensemble {
    Ensemble::new(positions, facing_up).unwrap()
}

#[test]
fn run_of_three_ants_takes_the_longest_walk() {
    let mut e = ensemble(
        vec![100_000_000, 200_000_000, 900_000_000],
        vec![true, false, true],
    );
    // The lowest ant faces up and is 0.9 of the line from the high end.
    let t = e.run();
    assert_eq!(t, 1_800_000_000 * 100);
    assert!(e.is_empty());
    assert_eq!(e.travelled(), 1_800_000_000);
    assert_eq!(e.elapsed_time(), t);
}

#[test]
fn run_of_an_empty_ensemble_takes_no_time() {
    let mut e = ensemble(vec![], vec![]);
    assert_eq!(e.run(), 0);
    assert!(e.is_empty());
}

#[test]
fn run_of_a_single_ant() {
    let mut e = ensemble(vec![250_000_000], vec![true]);
    assert_eq!(e.run(), 1_500_000_000 * 100);
}

#[test]
fn run_goes_on_from_a_state_reached_by_steps() {
    let mut e = ensemble(
        vec![100_000_000, 200_000_000, 900_000_000],
        vec![true, false, true],
    );
    assert_eq!(e.step(), Ok(Event::Collide(0)));
    assert_eq!(e.step(), Ok(Event::DepartTop));
    let t = e.run();
    assert_eq!(t, 1_800_000_000 * 100);
}

#[test]
fn steps_of_three_ants_in_turn() {
    let mut e = ensemble(
        vec![100_000_000, 200_000_000, 900_000_000],
        vec![true, false, true],
    );
    assert_eq!(e.step(), Ok(Event::Collide(0)));
    assert_eq!(e.positions(), &vec![300_000_000, 300_000_000, 1_900_000_000]);
    assert_eq!(e.step(), Ok(Event::DepartTop));
    assert_eq!(e.positions(), &vec![200_000_000, 400_000_000]);
    assert_eq!(e.facing_up(), &vec![false, true]);
    assert_eq!(e.step(), Ok(Event::DepartBottom));
    assert_eq!(e.positions(), &vec![600_000_000]);
    assert_eq!(e.step(), Ok(Event::DepartTop));
    assert!(e.is_empty());
    assert_eq!(e.travelled(), 1_800_000_000);
}

#[test]
fn step_of_an_empty_ensemble_is_an_error() {
    let mut e = ensemble(vec![], vec![]);
    assert_eq!(e.step(), Err(SimError::EmptyEnsemble));
    assert!(e.is_empty());
    assert_eq!(e.elapsed_time(), 0);

    let mut one = ensemble(vec![1], vec![false]);
    assert_eq!(one.step(), Ok(Event::DepartBottom));
    assert_eq!(one.step(), Err(SimError::EmptyEnsemble));
    assert_eq!(one.travelled(), 2);
}

#[test]
fn run_takes_one_event_per_ant_and_per_crossing() {
    // Climbers below descenders: the pairs (0,2), (0,3), (1,2), (1,3) cross.
    let mut e = ensemble(
        vec![100_000_000, 300_000_000, 600_000_000, 800_000_000],
        vec![true, true, false, false],
    );
    let mut departures = 0;
    let mut meetings = 0;
    while let Ok(event) = e.step() {
        match event {
            Event::Collide(_) => meetings += 1,
            _ => departures += 1,
        }
    }
    assert_eq!(departures, 4);
    assert_eq!(meetings, 4);
}

#[test]
fn run_ends_when_all_ants_face_inwards_at_the_start() {
    let mut e = ensemble(vec![0, 1_000_000_000], vec![true, false]);
    // They meet in the middle, turn, and walk back out.
    assert_eq!(e.run(), SPAN * 100);
}

#[test]
fn run_agrees_with_the_time_found_without_stepping() {
    let positions = vec![
        3_000_000, 120_000_000, 120_000_001, 400_000_000, 555_555_555, 700_000_000, 999_999_999,
    ];
    let facing_up = vec![true, false, true, true, false, false, true];
    let expected = time_to_clear(&positions, &facing_up, 100).unwrap();
    let mut e = ensemble(positions, facing_up);
    assert_eq!(e.run(), expected);
    // The lowest ant faces up from tick 3_000_000.
    assert_eq!(expected, (SPAN - 6_000_000) * 100);
}

#[test]
fn distance_walked_and_longest_walk_left_add_up() {
    let positions = vec![100_000_000, 200_000_000, 650_000_000, 900_000_000];
    let facing_up = vec![true, false, true, false];
    let mut e = ensemble(positions, facing_up);
    let total = 1_800_000_000;
    while !e.is_empty() {
        e.step().unwrap();
        let left = e
            .positions()
            .iter()
            .zip(e.facing_up().iter())
            .map(|(p, up)| if *up { SPAN - *p } else { *p })
            .max()
            .unwrap_or(0);
        assert_eq!(e.travelled() + left, total);
    }
}
