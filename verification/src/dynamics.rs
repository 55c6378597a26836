//! What one event does to an ensemble: the proofs behind the contracts of
//! the stepping functions.

use vstd::prelude::*;
use crate::event::Event;
use crate::grid::SPAN;
use crate::state::{crossings, walk_of, State};
use crate::walks::{
    lemma_crossings_after_turn, lemma_crossings_without_first, lemma_longest_walk_bounds,
    lemma_longest_walk_is,
};

verus! {

/// In ascending order a higher index never stands below a lower one.
pub proof fn lemma_ordered(s: State, i: int, j: int)
    requires
        s.ascending(),
        0 <= i <= j < s.positions.len(),
    ensures
        s.positions[i] <= s.positions[j],
    decreases j - i,
{
    if i < j {
        lemma_ordered(s, i, j - 1);
        assert(0 <= s.gap(j - 1));
    }
}

/// Between an ant that walks up and a higher ant that walks down stand two
/// neighbours that face each other.
pub proof fn lemma_facing_pair_between(facing_up: Seq<bool>, i: int, j: int) -> (k: int)
    requires
        0 <= i < j < facing_up.len(),
        facing_up[i],
        !facing_up[j],
    ensures
        i <= k < j,
        facing_up[k],
        !facing_up[k + 1],
    decreases j - i,
{
    if !facing_up[i + 1] {
        i
    } else {
        lemma_facing_pair_between(facing_up, i + 1, j)
    }
}

/// On a line that holds an ant some event can happen.
pub proof fn lemma_some_event_possible(s: State) -> (e: Event)
    requires
        s.wf(),
        s.len() > 0,
    ensures
        s.possible(e),
{
    let n = s.positions.len() as int;
    if !s.facing_up[0] {
        Event::DepartBottom
    } else if s.facing_up[n - 1] {
        Event::DepartTop
    } else {
        let k = lemma_facing_pair_between(s.facing_up, 0, n - 1);
        Event::Collide(k as usize)
    }
}

/// Of the meetings of pairs below index `k` the one that comes first, if
/// any pair below `k` faces each other.
pub proof fn lemma_first_meeting_below(s: State, k: int) -> (first: Option<usize>)
    requires
        0 <= k,
    ensures
        first is None ==> forall|j: usize| j < k ==> !#[trigger] s.possible(Event::Collide(j)),
        first matches Some(i) ==> {
            &&& i < k
            &&& s.possible(Event::Collide(i))
            &&& forall|j: usize|
                j < k && #[trigger] s.possible(Event::Collide(j)) ==> s.no_later(
                    Event::Collide(i),
                    Event::Collide(j),
                )
        },
    decreases k,
{
    if k == 0 {
        None
    } else {
        let below = lemma_first_meeting_below(s, k - 1);
        if k - 1 > usize::MAX {
            below
        } else {
            let here = (k - 1) as usize;
            if !s.possible(Event::Collide(here)) {
                below
            } else {
                match below {
                    None => Some(here),
                    Some(i) => if s.distance(Event::Collide(here)) < s.distance(
                        Event::Collide(i),
                    ) {
                        Some(here)
                    } else {
                        Some(i)
                    },
                }
            }
        }
    }
}

/// The next event is near enough that no ant walks off the line or past a
/// neighbour before it happens.
pub proof fn lemma_next_limits(s: State, e: Event)
    requires
        s.wf(),
        s.is_next(e),
    ensures
        0 <= s.distance(e) <= SPAN,
        forall|k: int|
            0 <= k < s.positions.len() - 1 && s.facing_up[k] && !s.facing_up[k + 1] ==> 2
                * s.distance(e) <= #[trigger] s.gap(k),
        !s.facing_up[0] ==> s.distance(e) <= s.positions[0],
        s.facing_up[s.positions.len() - 1] ==> s.distance(e) + s.positions[s.positions.len() - 1]
            <= SPAN,
        e matches Event::Collide(i) ==> s.gap(i as int) == 2 * s.distance(e),
{
    let n = s.positions.len() as int;
    let d = s.distance(e);
    assert forall|k: int| 0 <= k < n - 1 implies (#[trigger] s.gap(k)) % 2 == 0 && 0 <= s.gap(k)
        <= SPAN by {
        assert(s.positions[k] % 2 == s.travelled % 2);
        assert(s.positions[k + 1] % 2 == s.travelled % 2);
        assert(0 <= s.positions[k] <= SPAN);
        assert(0 <= s.positions[k + 1] <= SPAN);
    }
    assert(0 <= s.positions[0] <= SPAN);
    assert(0 <= s.positions[n - 1] <= SPAN);
    match e {
        Event::Collide(i) => {
            assert(s.gap(i as int) % 2 == 0);
        },
        _ => {},
    }
    assert forall|k: int|
        0 <= k < n - 1 && s.facing_up[k] && !s.facing_up[k + 1] implies 2 * d <= #[trigger] s.gap(
        k,
    ) by {
        assert(s.possible(Event::Collide(k as usize)));
        assert(s.no_later(e, Event::Collide(k as usize)));
        assert(s.gap(k) % 2 == 0);
    }
    if !s.facing_up[0] {
        assert(s.possible(Event::DepartBottom));
    }
    if s.facing_up[n - 1] {
        assert(s.possible(Event::DepartTop));
    }
}

/// After every ant has walked as far as the next event is away, the ants
/// are still on the line, on the grid and in order, and each walk to an end
/// is shorter by that distance.
pub proof fn lemma_walked(s: State, e: Event)
    requires
        s.wf(),
        s.is_next(e),
    ensures
        s.walked(s.distance(e)).within_span(),
        s.walked(s.distance(e)).ascending(),
        s.walked(s.distance(e)).on_grid(),
        forall|i: int|
            0 <= i < s.positions.len() ==> #[trigger] walk_of(
                s.walked(s.distance(e)).positions,
                s.facing_up,
                i,
            ) == walk_of(s.positions, s.facing_up, i) - s.distance(e),
        e matches Event::Collide(i) ==> s.walked(s.distance(e)).gap(i as int) == 0,
{
    let n = s.positions.len() as int;
    let d = s.distance(e);
    let w = s.walked(d);
    lemma_next_limits(s, e);
    assert forall|i: int| 0 <= i < n - 1 implies 0 <= #[trigger] w.gap(i) by {
        assert(0 <= s.gap(i));
    }
    assert forall|i: int| 0 <= i < n implies 0 <= #[trigger] w.positions[i] <= SPAN by {
        lemma_ordered(w, 0, i);
        lemma_ordered(w, i, n - 1);
        assert(0 <= s.positions[0] <= SPAN);
        assert(0 <= s.positions[n - 1] <= SPAN);
    }
    assert forall|i: int| 0 <= i < n implies (#[trigger] w.positions[i]) % 2 == w.travelled
        % 2 by {
        assert(s.positions[i] % 2 == s.travelled % 2);
    }
    match e {
        Event::Collide(i) => {
            assert(s.gap(i as int) == 2 * d);
        },
        _ => {},
    }
}

/// One event keeps the ensemble valid and shortens the longest walk by
/// exactly the distance that every ant has walked.
pub proof fn lemma_step(s: State, e: Event)
    requires
        s.wf(),
        s.is_next(e),
    ensures
        s.after(e).wf(),
        s.after(e).remaining() == s.remaining() - s.distance(e),
{
    let n = s.positions.len() as int;
    let d = s.distance(e);
    let w = s.walked(d);
    let a = s.after(e);
    let m = s.remaining();
    lemma_next_limits(s, e);
    lemma_walked(s, e);
    lemma_longest_walk_bounds(s.positions, s.facing_up);
    let top = choose|i: int|
        0 <= i < n && #[trigger] walk_of(s.positions, s.facing_up, i) == m;
    match e {
        Event::DepartBottom => {
            assert forall|i: int| 0 <= i < n - 1 implies 0 <= #[trigger] a.positions[i] <= SPAN
                && a.positions[i] % 2 == a.travelled % 2 && walk_of(a.positions, a.facing_up, i)
                == walk_of(w.positions, s.facing_up, i + 1) by {
                assert(a.positions[i] == w.positions[i + 1]);
            }
            assert forall|i: int| 0 <= i < n - 2 implies 0 <= #[trigger] a.gap(i) by {
                assert(0 <= w.gap(i + 1));
            }
            assert forall|i: int| 0 <= i < n - 1 implies #[trigger] walk_of(
                a.positions,
                a.facing_up,
                i,
            ) <= m - d by {
                assert(walk_of(w.positions, s.facing_up, i + 1) == walk_of(
                    s.positions,
                    s.facing_up,
                    i + 1,
                ) - d);
            }
            if n > 1 {
                if top == 0 {
                    assert(0 <= a.positions[0] <= SPAN);
                    assert(walk_of(a.positions, a.facing_up, 0) == m - d);
                } else {
                    assert(walk_of(w.positions, s.facing_up, top) == walk_of(
                        s.positions,
                        s.facing_up,
                        top,
                    ) - d);
                    assert(walk_of(a.positions, a.facing_up, top - 1) == m - d);
                }
            }
        },
        Event::DepartTop => {
            assert forall|i: int| 0 <= i < n - 1 implies 0 <= #[trigger] a.positions[i] <= SPAN
                && a.positions[i] % 2 == a.travelled % 2 && walk_of(a.positions, a.facing_up, i)
                == walk_of(w.positions, s.facing_up, i) by {
                assert(a.positions[i] == w.positions[i]);
            }
            assert forall|i: int| 0 <= i < n - 2 implies 0 <= #[trigger] a.gap(i) by {
                assert(0 <= w.gap(i));
            }
            assert forall|i: int| 0 <= i < n - 1 implies #[trigger] walk_of(
                a.positions,
                a.facing_up,
                i,
            ) <= m - d by {
                assert(walk_of(w.positions, s.facing_up, i) == walk_of(
                    s.positions,
                    s.facing_up,
                    i,
                ) - d);
            }
            if n > 1 {
                if top == n - 1 {
                    assert(0 <= a.positions[0] <= SPAN);
                    assert(walk_of(a.positions, a.facing_up, 0) == m - d);
                } else {
                    assert(walk_of(w.positions, s.facing_up, top) == walk_of(
                        s.positions,
                        s.facing_up,
                        top,
                    ) - d);
                    assert(walk_of(a.positions, a.facing_up, top) == m - d);
                }
            }
        },
        Event::Collide(i) => {
            let lo = i as int;
            assert(w.gap(lo) == 0);
            assert forall|k: int| 0 <= k < n - 1 implies 0 <= #[trigger] a.gap(k) by {
                assert(0 <= w.gap(k));
            }
            assert(walk_of(w.positions, s.facing_up, lo) == walk_of(s.positions, s.facing_up, lo)
                - d);
            assert(walk_of(w.positions, s.facing_up, lo + 1) == walk_of(
                s.positions,
                s.facing_up,
                lo + 1,
            ) - d);
            assert forall|k: int| 0 <= k < n implies #[trigger] walk_of(
                a.positions,
                a.facing_up,
                k,
            ) <= m - d by {
                assert(walk_of(w.positions, s.facing_up, k) == walk_of(
                    s.positions,
                    s.facing_up,
                    k,
                ) - d);
                if k == lo {
                    assert(walk_of(a.positions, a.facing_up, k) == walk_of(
                        w.positions,
                        s.facing_up,
                        lo + 1,
                    ));
                } else if k == lo + 1 {
                    assert(walk_of(a.positions, a.facing_up, k) == walk_of(
                        w.positions,
                        s.facing_up,
                        lo,
                    ));
                }
            }
            assert(walk_of(w.positions, s.facing_up, top) == walk_of(
                s.positions,
                s.facing_up,
                top,
            ) - d);
            if top == lo {
                assert(walk_of(a.positions, a.facing_up, lo + 1) == m - d);
            } else if top == lo + 1 {
                assert(walk_of(a.positions, a.facing_up, lo) == m - d);
            } else {
                assert(walk_of(a.positions, a.facing_up, top) == m - d);
            }
        },
    }
    lemma_longest_walk_is(a.positions, a.facing_up, m - d);
}

/// One event takes exactly one from the number of events still to come.
pub proof fn lemma_steps_left(s: State, e: Event)
    requires
        s.wf(),
        s.possible(e),
    ensures
        s.after(e).steps_left() + 1 == s.steps_left(),
{
    let n = s.positions.len() as int;
    match e {
        Event::DepartBottom => {
            lemma_crossings_without_first(s.facing_up);
        },
        Event::DepartTop => {
            assert(s.facing_up.subrange(0, n - 1) =~= s.facing_up.drop_last());
            assert(crossings(s.facing_up) == crossings(s.facing_up.drop_last()));
        },
        Event::Collide(i) => {
            lemma_crossings_after_turn(s.facing_up, i as int);
        },
    }
}

} // verus!
