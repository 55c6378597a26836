//! What holds of every step of every valid ensemble.

use vstd::prelude::*;
use crate::dynamics::{
    lemma_first_meeting_below, lemma_next_limits, lemma_some_event_possible, lemma_step,
    lemma_steps_left,
};
use crate::event::Event;
use crate::state::State;

verus! {

/// A step keeps the ensemble valid: the ants stay on the line, on the grid
/// and in ascending order.
pub proof fn law_step_keeps_valid(s: State, e: Event)
    requires
        s.wf(),
        s.is_next(e),
    ensures
        s.after(e).wf(),
        s.after(e).ascending(),
        s.after(e).within_span(),
{
    lemma_step(s, e);
}

/// A meeting leaves the number of ants as it is, a departure lowers it by
/// exactly one; it never grows.
pub proof fn law_population(s: State, e: Event)
    requires
        s.wf(),
        s.possible(e),
    ensures
        e.is_departure() ==> s.after(e).len() == s.len() - 1,
        !e.is_departure() ==> s.after(e).len() == s.len(),
        s.after(e).len() <= s.len(),
{
}

/// Neighbours that stand apart still stand apart after a step, provided
/// that no pair that faces each other meets at the very moment of the step.
/// (A pair that meets stands on one point afterwards, so after a meeting
/// the order is ascending but not strictly so.)
pub proof fn law_strict_order(s: State, e: Event)
    requires
        s.wf(),
        s.is_next(e),
        s.strictly_ascending(),
        forall|k: usize| #[trigger]
            s.possible(Event::Collide(k)) ==> s.distance(e) < s.distance(Event::Collide(k)),
    ensures
        s.after(e).strictly_ascending(),
{
    let n = s.positions.len() as int;
    let d = s.distance(e);
    let w = s.walked(d);
    let a = s.after(e);
    lemma_next_limits(s, e);
    assert forall|i: int| 0 <= i < n - 1 implies 0 < #[trigger] w.gap(i) by {
        assert(0 < s.gap(i));
        if s.facing_up[i] && !s.facing_up[i + 1] {
            assert(s.possible(Event::Collide(i as usize)));
            assert(s.positions[i] % 2 == s.travelled % 2);
            assert(s.positions[i + 1] % 2 == s.travelled % 2);
        }
    }
    match e {
        Event::DepartBottom => {
            assert forall|i: int| 0 <= i < n - 2 implies 0 < #[trigger] a.gap(i) by {
                assert(0 < w.gap(i + 1));
            }
        },
        Event::DepartTop => {
            assert forall|i: int| 0 <= i < n - 2 implies 0 < #[trigger] a.gap(i) by {
                assert(0 < w.gap(i));
            }
        },
        Event::Collide(i) => {
            assert(s.possible(Event::Collide(i)));
        },
    }
}

/// Time never runs backwards: a step adds the distance walked, times the
/// time factor. It adds nothing only where the event is no distance away
/// (an ant that stands on the end it leaves by, or two ants that face each
/// other on one point) or where the time factor is zero.
pub proof fn law_time(s: State, e: Event)
    requires
        s.wf(),
        s.is_next(e),
    ensures
        s.after(e).elapsed_time() == s.elapsed_time() + s.distance(e) * s.time_factor,
        s.after(e).elapsed_time() >= s.elapsed_time(),
        s.distance(e) > 0 && s.time_factor > 0 ==> s.after(e).elapsed_time() > s.elapsed_time(),
        s.distance(e) == 0 || s.time_factor == 0 ==> s.after(e).elapsed_time() == s.elapsed_time(),
{
    lemma_next_limits(s, e);
    let d = s.distance(e);
    let f = s.time_factor;
    let t = s.travelled;
    assert((t + d) * f == t * f + d * f) by (nonlinear_arith);
    assert(d * f >= 0) by (nonlinear_arith)
        requires
            d >= 0,
            f >= 0,
    ;
    assert(d > 0 && f > 0 ==> d * f > 0) by (nonlinear_arith);
    assert(d == 0 || f == 0 ==> d * f == 0) by (nonlinear_arith);
}

/// Every step takes exactly one from the number of steps left, so a run
/// ends after as many events as the steps that were left at its start.
pub proof fn law_steps_left(s: State, e: Event)
    requires
        s.wf(),
        s.is_next(e),
    ensures
        s.after(e).steps_left() + 1 == s.steps_left(),
{
    lemma_steps_left(s, e);
}

/// The distance walked and the longest walk still ahead add up to the same
/// sum before and after a step: the ensemble is empty exactly when all have
/// walked as far as the longest walk was at the start.
pub proof fn law_longest_walk(s: State, e: Event)
    requires
        s.wf(),
        s.is_next(e),
    ensures
        s.after(e).travelled + s.after(e).remaining() == s.travelled + s.remaining(),
        s.after(e).finished() == s.finished(),
{
    lemma_step(s, e);
}

/// While an ant is on the line, some event is the next one: the search for
/// it never comes back empty-handed.
pub proof fn law_next_exists(s: State) -> (e: Event)
    requires
        s.wf(),
        s.len() > 0,
    ensures
        s.is_next(e),
{
    let some = lemma_some_event_possible(s);
    let meeting = lemma_first_meeting_below(s, s.positions.len() as int);
    let top = Event::DepartTop;
    let bottom = Event::DepartBottom;
    let top_first = s.possible(top) && (s.possible(bottom) ==> s.distance(top) <= s.distance(
        bottom,
    )) && (meeting matches Some(i) ==> s.distance(top) <= s.distance(Event::Collide(i)));
    let bottom_first = s.possible(bottom) && (s.possible(top) ==> s.distance(bottom) <= s.distance(
        top,
    )) && (meeting matches Some(i) ==> s.distance(bottom) <= s.distance(Event::Collide(i)));
    let e = if top_first {
        top
    } else if bottom_first {
        bottom
    } else {
        match meeting {
            Some(i) => Event::Collide(i),
            None => {
                match some {
                    Event::Collide(j) => {
                        assert(s.possible(Event::Collide(j)));
                    },
                    _ => {},
                }
                top
            },
        }
    };
    assert forall|o: Event| #[trigger] s.possible(o) implies s.no_later(e, o) by {
        match o {
            Event::Collide(j) => {
                assert(s.possible(Event::Collide(j)));
            },
            _ => {},
        }
    }
    e
}

/// At most one event is the next one.
pub proof fn law_next_is_unique(s: State, e1: Event, e2: Event)
    requires
        s.is_next(e1),
        s.is_next(e2),
    ensures
        e1 == e2,
{
    assert(s.possible(e1));
    assert(s.possible(e2));
    assert(s.no_later(e1, e2));
    assert(s.no_later(e2, e1));
}

} // verus!
