use ant_sim::ensemble::Ensemble;
use ant_sim::event::Event;

fn ensemble(positions: Vec<u64>, facing_up: Vec<bool>) -> Ensemble {
    Ensemble::new(positions, facing_up).unwrap()
}

#[test]
fn top_wins_a_tie_with_bottom() {
    let e = ensemble(vec![250_000_000, 750_000_000], vec![false, true]);
    assert_eq!(e.next_event(), Event::DepartTop);
}

#[test]
fn bottom_wins_a_tie_with_a_meeting() {
    // The lowest ant is 0.1 from the low end; the pair above it is 0.2 apart.
    let e = ensemble(vec![100_000_000, 500_000_000, 700_000_000], vec![false, true, false]);
    assert_eq!(e.next_event(), Event::DepartBottom);
}

#[test]
fn top_wins_a_tie_with_a_meeting() {
    let e = ensemble(vec![300_000_000, 500_000_000, 900_000_000], vec![true, false, true]);
    assert_eq!(e.next_event(), Event::DepartTop);
}

#[test]
fn nearer_bottom_beats_top() {
    let e = ensemble(vec![10_000_000, 500_000_000], vec![false, true]);
    assert_eq!(e.next_event(), Event::DepartBottom);
}

#[test]
fn two_ants_that_face_each_other_meet() {
    let e = ensemble(vec![100_000_000, 200_000_000], vec![true, false]);
    assert_eq!(e.next_event(), Event::Collide(0));
}

#[test]
fn meeting_comes_before_a_later_departure() {
    let e = ensemble(vec![100_000_000, 200_000_000, 900_000_000], vec![true, false, true]);
    assert_eq!(e.next_event(), Event::Collide(0));
    assert_eq!(e.nearest_meeting(), Some((0, 100_000_000)));
}

#[test]
fn lowest_of_equal_meetings_is_chosen() {
    let e = ensemble(
        vec![100_000_000, 200_000_000, 500_000_000, 600_000_000],
        vec![true, false, true, false],
    );
    assert_eq!(e.nearest_meeting(), Some((0, 100_000_000)));
    assert_eq!(e.next_event(), Event::Collide(0));
}

#[test]
fn smallest_gap_is_chosen_whatever_its_index() {
    let e = ensemble(
        vec![100_000_000, 300_000_000, 500_000_000, 600_000_000],
        vec![true, false, true, false],
    );
    assert_eq!(e.nearest_meeting(), Some((2, 100_000_000)));
    assert_eq!(e.next_event(), Event::Collide(2));
}

#[test]
fn pairs_that_walk_apart_or_together_do_not_meet() {
    let apart = ensemble(vec![400_000_000, 600_000_000], vec![false, true]);
    assert_eq!(apart.nearest_meeting(), None);
    let together = ensemble(vec![400_000_000, 600_000_000], vec![true, true]);
    assert_eq!(together.nearest_meeting(), None);
    assert_eq!(together.next_event(), Event::DepartTop);
}

#[test]
fn single_ant_only_departs() {
    let down = ensemble(vec![300_000_000], vec![false]);
    assert_eq!(down.nearest_meeting(), None);
    assert_eq!(down.next_event(), Event::DepartBottom);
    let up = ensemble(vec![300_000_000], vec![true]);
    assert_eq!(up.nearest_meeting(), None);
    assert_eq!(up.next_event(), Event::DepartTop);
}

#[test]
fn inner_ants_that_face_outwards_wait_for_the_ends() {
    // Only the pair in the middle can meet; the ends face inwards.
    let e = ensemble(vec![100_000_000, 400_000_000, 900_000_000], vec![true, false, false]);
    assert_eq!(e.next_event(), Event::Collide(0));
}

#[test]
fn detector_does_not_change_the_ensemble() {
    let e = ensemble(vec![100_000_000, 200_000_000], vec![true, false]);
    let _ = e.next_event();
    assert_eq!(e.positions(), &vec![200_000_000, 400_000_000]);
    assert_eq!(e.facing_up(), &vec![true, false]);
    assert_eq!(e.travelled(), 0);
}
