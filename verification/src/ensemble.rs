//! The ensemble of ants and the functions that step it.

use vstd::prelude::*;
use crate::dynamics::{lemma_next_limits, lemma_some_event_possible, lemma_step, lemma_walked};
use crate::error::{InputFault, SimError};
use crate::event::Event;
use crate::grid::{DEFAULT_TIME_FACTOR, RESOLUTION, SPAN};
use crate::state::State;
use crate::walks::lemma_longest_walk_bounds;

verus! {

/// The ants on the line: where they stand, which way they walk, and how far
/// every ant has walked since the start.
pub struct Ensemble {
    positions: Vec<u64>,
    facing_up: Vec<bool>,
    gaps: Vec<u64>,
    travelled: u64,
    time_factor: u32,
}

/// The numbers of a vector as mathematical integers.
pub open spec fn as_ints(v: Seq<u64>) -> Seq<int> {
    Seq::new(v.len(), |i: int| v[i] as int)
}

/// The state in which an ensemble starts: every ant on the half-tick that
/// is twice its tick, nothing walked yet.
pub open spec fn start(ticks: Seq<u64>, facing_up: Seq<bool>, time_factor: u32) -> State {
    State {
        positions: Seq::new(ticks.len(), |i: int| 2 * ticks[i]),
        facing_up,
        travelled: 0,
        time_factor: time_factor as int,
    }
}

/// Whether the position at index `i` lies beyond the high end of the line.
pub open spec fn beyond_line(ticks: Seq<u64>, i: int) -> bool {
    ticks[i] > RESOLUTION
}

/// Whether the position after index `i` lies below the one at `i`.
pub open spec fn out_of_order(ticks: Seq<u64>, i: int) -> bool {
    ticks[i] > ticks[i + 1]
}

/// What is wrong with the starting positions and directions, if anything.
/// Of several faults the first in this order is named: unequal lengths, a
/// position beyond the high end, a position below its predecessor.
pub open spec fn input_fault(ticks: Seq<u64>, facing_up: Seq<bool>) -> Option<InputFault> {
    if ticks.len() != facing_up.len() {
        Some(InputFault::LengthMismatch)
    } else if exists|i: int| 0 <= i < ticks.len() && #[trigger] beyond_line(ticks, i) {
        Some(InputFault::OutOfRange)
    } else if exists|i: int| 0 <= i < ticks.len() - 1 && #[trigger] out_of_order(ticks, i) {
        Some(InputFault::Unordered)
    } else {
        None
    }
}

/// What is wrong with positions, in ticks, and directions of ants that need
/// not be in order, if anything: unequal lengths, or else a position beyond
/// the high end.
pub open spec fn unordered_input_fault(ticks: Seq<u64>, facing_up: Seq<bool>) -> Option<
    InputFault,
> {
    if ticks.len() != facing_up.len() {
        Some(InputFault::LengthMismatch)
    } else if exists|i: int| 0 <= i < ticks.len() && #[trigger] beyond_line(ticks, i) {
        Some(InputFault::OutOfRange)
    } else {
        None
    }
}

/// Checks starting positions, in ticks, and directions.
pub fn check_input(positions: &Vec<u64>, facing_up: &Vec<bool>) -> (fault: Option<InputFault>)
    ensures
        fault == input_fault(positions@, facing_up@),
{
    let n = positions.len();
    if facing_up.len() != n {
        return Some(InputFault::LengthMismatch);
    }
    let mut i: usize = 0;
    while i < n
        invariant
            n == positions.len(),
            n == facing_up.len(),
            i <= n,
            forall|j: int| 0 <= j < i ==> !#[trigger] beyond_line(positions@, j),
        decreases n - i,
    {
        if positions[i] > RESOLUTION {
            assert(beyond_line(positions@, i as int));
            return Some(InputFault::OutOfRange);
        }
        i += 1;
    }
    i = 1;
    while i < n
        invariant
            n == positions.len(),
            n == facing_up.len(),
            1 <= i,
            forall|j: int| 0 <= j < n ==> !#[trigger] beyond_line(positions@, j),
            forall|j: int| 0 <= j < i - 1 && j < n - 1 ==> !#[trigger] out_of_order(positions@, j),
        decreases n - i,
    {
        if positions[i - 1] > positions[i] {
            assert(out_of_order(positions@, i - 1));
            return Some(InputFault::Unordered);
        }
        i += 1;
    }
    None
}

/// Turns positions in ticks into positions in half-ticks.
fn double_all(ticks: Vec<u64>) -> (doubled: Vec<u64>)
    requires
        forall|j: int| 0 <= j < ticks.len() ==> !#[trigger] beyond_line(ticks@, j),
    ensures
        doubled.len() == ticks.len(),
        forall|j: int| 0 <= j < ticks.len() ==> #[trigger] doubled@[j] == 2 * ticks@[j],
{
    let n = ticks.len();
    let mut doubled = ticks;
    let mut i: usize = 0;
    while i < n
        invariant
            n == doubled.len(),
            n == ticks.len(),
            i <= n,
            forall|j: int| 0 <= j < n ==> !#[trigger] beyond_line(ticks@, j),
            forall|j: int| 0 <= j < i ==> #[trigger] doubled@[j] == 2 * ticks@[j],
            forall|j: int| i <= j < n ==> #[trigger] doubled@[j] == ticks@[j],
        decreases n - i,
    {
        assert(!beyond_line(ticks@, i as int));
        let tick = doubled[i];
        doubled.set(i, 2 * tick);
        i += 1;
    }
    doubled
}

impl View for Ensemble {
    type V = State;

    closed spec fn view(&self) -> State {
        State {
            positions: as_ints(self.positions@),
            facing_up: self.facing_up@,
            travelled: self.travelled as int,
            time_factor: self.time_factor as int,
        }
    }
}

impl Ensemble {
    /// Whether the stored gaps are those of the stored positions.
    pub closed spec fn gaps_in_step(&self) -> bool {
        as_ints(self.gaps@) =~= self@.gaps()
    }

    /// The invariant that every function of this type keeps.
    pub open spec fn wf(&self) -> bool {
        self@.wf() && self.gaps_in_step()
    }

    /// Builds an ensemble that counts time with `DEFAULT_TIME_FACTOR`.
    pub fn new(positions: Vec<u64>, facing_up: Vec<bool>) -> (r: Result<Ensemble, SimError>)
        ensures
            r matches Ok(e) ==> input_fault(positions@, facing_up@) is None && e.wf() && e@
                == start(positions@, facing_up@, DEFAULT_TIME_FACTOR),
            r matches Err(err) ==> input_fault(positions@, facing_up@) matches Some(f) && err
                == SimError::InvalidInput(f),
    {
        Ensemble::with_time_factor(positions, facing_up, DEFAULT_TIME_FACTOR)
    }

    /// Builds an ensemble from the ants' positions, in ticks from the low
    /// end and in ascending order, and their directions. The input is taken
    /// as it is or turned down; nothing is corrected.
    pub fn with_time_factor(positions: Vec<u64>, facing_up: Vec<bool>, time_factor: u32) -> (r:
        Result<Ensemble, SimError>)
        ensures
            r matches Ok(e) ==> input_fault(positions@, facing_up@) is None && e.wf() && e@
                == start(positions@, facing_up@, time_factor),
            r matches Err(err) ==> input_fault(positions@, facing_up@) matches Some(f) && err
                == SimError::InvalidInput(f),
    {
        match check_input(&positions, &facing_up) {
            Some(fault) => Err(SimError::InvalidInput(fault)),
            None => {
                let doubled = double_all(positions);
                let mut e = Ensemble {
                    positions: doubled,
                    facing_up,
                    gaps: Vec::new(),
                    travelled: 0,
                    time_factor,
                };
                proof {
                    let s = e@;
                    let ticks = positions@;
                    assert(s.positions =~= start(ticks, facing_up@, time_factor).positions);
                    assert forall|j: int| 0 <= j < s.positions.len() - 1 implies 0
                        <= #[trigger] s.gap(j) by {
                        assert(!out_of_order(ticks, j));
                    }
                    assert forall|j: int| 0 <= j < s.positions.len() implies 0
                        <= #[trigger] s.positions[j] <= SPAN && s.positions[j] % 2 == 0 by {
                        assert(!beyond_line(ticks, j));
                    }
                    lemma_longest_walk_bounds(s.positions, s.facing_up);
                }
                e.refresh_gaps();
                Ok(e)
            },
        }
    }

    /// Computes the gaps anew from the positions.
    fn refresh_gaps(&mut self)
        requires
            old(self)@.ascending(),
        ensures
            final(self).gaps_in_step(),
            final(self)@ == old(self)@,
    {
        let n = self.positions.len();
        let mut gaps: Vec<u64> = Vec::new();
        let mut i: usize = 1;
        while i < n
            invariant
                *self == *old(self),
                self@.ascending(),
                n == self.positions.len(),
                1 <= i,
                i <= n || n == 0,
                gaps.len() == if n == 0 { 0 } else { i - 1 },
                forall|j: int| 0 <= j < gaps.len() ==> #[trigger] gaps@[j] == self@.gap(j),
            decreases n - i,
        {
            proof {
                assert(0 <= self@.gap(i - 1));
            }
            gaps.push(self.positions[i] - self.positions[i - 1]);
            i += 1;
        }
        self.gaps = gaps;
    }

    /// Number of ants on the line.
    pub fn len(&self) -> (n: usize)
        ensures
            n == self@.len(),
    {
        self.positions.len()
    }

    /// Whether every ant has left.
    pub fn is_empty(&self) -> (empty: bool)
        ensures
            empty == (self@.len() == 0),
    {
        self.positions.len() == 0
    }

    /// Where the ants stand, lowest first, in half-ticks from the low end.
    pub fn positions(&self) -> (positions: &Vec<u64>)
        ensures
            as_ints(positions@) == self@.positions,
    {
        &self.positions
    }

    /// Which way each ant walks: `true` towards the high end.
    pub fn facing_up(&self) -> (facing_up: &Vec<bool>)
        ensures
            facing_up@ == self@.facing_up,
    {
        &self.facing_up
    }

    /// The distance from each ant to the ant above it, in half-ticks.
    pub fn gaps(&self) -> (gaps: &Vec<u64>)
        requires
            self.wf(),
        ensures
            as_ints(gaps@) == self@.gaps(),
    {
        &self.gaps
    }

    /// Half-ticks that every ant has walked since the start.
    pub fn travelled(&self) -> (d: u64)
        ensures
            d == self@.travelled,
    {
        self.travelled
    }

    /// Time units that pass per half-tick walked.
    pub fn time_factor(&self) -> (factor: u32)
        ensures
            factor == self@.time_factor,
    {
        self.time_factor
    }

    /// Time that has passed since the start: the distance walked, in
    /// half-ticks, times the time factor.
    pub fn elapsed_time(&self) -> (t: u64)
        requires
            self.wf(),
        ensures
            t == self@.elapsed_time(),
    {
        proof {
            lemma_longest_walk_bounds(self@.positions, self@.facing_up);
            assert(self.travelled * self.time_factor <= SPAN * 0xffff_ffff) by (nonlinear_arith)
                requires
                    0 <= self.travelled <= SPAN,
                    0 <= self.time_factor <= 0xffff_ffff,
            ;
        }
        self.travelled * (self.time_factor as u64)
    }

    /// Finds the pair of neighbours that meets first: among the pairs that
    /// face each other the one with the smallest gap, and of several such
    /// the lowest. Returns the index of its lower ant and the distance each
    /// ant walks until they meet, or `None` where no pair faces each other.
    pub fn nearest_meeting(&self) -> (best: Option<(usize, u64)>)
        requires
            self.wf(),
        ensures
            best is None ==> forall|j: usize| !#[trigger] self@.possible(Event::Collide(j)),
            best matches Some((i, d)) ==> {
                &&& self@.possible(Event::Collide(i))
                &&& d == self@.distance(Event::Collide(i))
                &&& forall|j: usize| #[trigger]
                    self@.possible(Event::Collide(j)) ==> self@.no_later(
                        Event::Collide(i),
                        Event::Collide(j),
                    )
            },
    {
        let n = self.positions.len();
        let mut best: Option<(usize, u64)> = None;
        let mut k: usize = 0;
        while k + 1 < n
            invariant
                self.wf(),
                n == self.positions.len(),
                k < n || k == 0,
                best is None ==> forall|j: usize|
                    j < k ==> !#[trigger] self@.possible(Event::Collide(j)),
                best matches Some((i, d)) ==> {
                    &&& i < k
                    &&& self@.possible(Event::Collide(i))
                    &&& d == self@.distance(Event::Collide(i))
                    &&& forall|j: usize|
                        j < k && #[trigger] self@.possible(Event::Collide(j)) ==> self@.no_later(
                            Event::Collide(i),
                            Event::Collide(j),
                        )
                },
            decreases n - k,
        {
            if self.facing_up[k] && !self.facing_up[k + 1] {
                assert(as_ints(self.gaps@)[k as int] == self@.gaps()[k as int]);
                let d = self.gaps[k] / 2;
                let nearer = match best {
                    None => true,
                    Some((_, least)) => d < least,
                };
                if nearer {
                    best = Some((k, d));
                }
            }
            k += 1;
        }
        best
    }

    /// Finds the next event: of the events that can happen the nearest, and
    /// of several equally near the departure at the top before the departure
    /// at the bottom before the lowest meeting.
    pub fn next_event(&self) -> (e: Event)
        requires
            self.wf(),
            self@.len() > 0,
        ensures
            self@.is_next(e),
    {
        let n = self.positions.len();
        let meeting = self.nearest_meeting();
        let bottom_leaves = !self.facing_up[0];
        let top_leaves = self.facing_up[n - 1];
        let to_bottom = self.positions[0];
        proof {
            assert(0 <= self@.positions[n - 1] <= SPAN);
        }
        let to_top = SPAN - self.positions[n - 1];
        let top_first = top_leaves && (!bottom_leaves || to_top <= to_bottom) && match meeting {
            None => true,
            Some((_, d)) => to_top <= d,
        };
        let bottom_first = bottom_leaves && (!top_leaves || to_bottom <= to_top) && match meeting {
            None => true,
            Some((_, d)) => to_bottom <= d,
        };
        let e = if top_first {
            Event::DepartTop
        } else if bottom_first {
            Event::DepartBottom
        } else {
            match meeting {
                Some((i, _)) => Event::Collide(i),
                None => {
                    proof {
                        let some = lemma_some_event_possible(self@);
                    }
                    vstd::pervasive::unreached()
                },
            }
        };
        proof {
            let s = self@;
            assert forall|o: Event| #[trigger] s.possible(o) implies s.no_later(e, o) by {
                match o {
                    Event::Collide(j) => {
                        assert(s.possible(Event::Collide(j)));
                    },
                    _ => {},
                }
            }
        }
        e
    }

    /// Lets every ant walk `d` half-ticks the way it faces.
    fn advance(&mut self, d: u64)
        requires
            old(self)@.walked(d as int).within_span(),
            old(self)@.facing_up.len() == old(self)@.positions.len(),
            old(self)@.travelled + d <= SPAN,
        ensures
            final(self)@ == old(self)@.walked(d as int),
    {
        let n = self.positions.len();
        let ghost before = self@;
        let mut i: usize = 0;
        while i < n
            invariant
                before == old(self)@,
                before.walked(d as int).within_span(),
                n == self.positions.len(),
                n == before.positions.len(),
                self.facing_up@ == before.facing_up,
                self.travelled == before.travelled,
                self.time_factor == before.time_factor,
                n == self.facing_up.len(),
                i <= n,
                forall|j: int|
                    0 <= j < i ==> #[trigger] self.positions@[j] == before.walked(
                        d as int,
                    ).positions[j],
                forall|j: int| i <= j < n ==> #[trigger] self.positions@[j] == before.positions[j],
            decreases n - i,
        {
            proof {
                assert(0 <= before.walked(d as int).positions[i as int] <= SPAN);
            }
            let here = self.positions[i];
            if self.facing_up[i] {
                self.positions.set(i, here + d);
            } else {
                self.positions.set(i, here - d);
            }
            i += 1;
        }
        self.travelled = self.travelled + d;
        proof {
            assert(self@.positions =~= before.walked(d as int).positions);
        }
    }

    /// Applies the next event: every ant walks until the event happens;
    /// then the ant that has reached an end is taken away, or the two that
    /// have met turn around. Returns whether the line is now empty.
    pub fn apply(&mut self, event: Event) -> (done: bool)
        requires
            old(self).wf(),
            old(self)@.is_next(event),
        ensures
            final(self).wf(),
            final(self)@ == old(self)@.after(event),
            done == (final(self)@.len() == 0),
    {
        let n = self.positions.len();
        proof {
            lemma_next_limits(self@, event);
            lemma_walked(self@, event);
            lemma_step(self@, event);
            lemma_longest_walk_bounds(self@.after(event).positions, self@.after(event).facing_up);
        }
        let d = match event {
            Event::DepartBottom => self.positions[0],
            Event::DepartTop => {
                proof {
                    assert(0 <= self@.positions[n - 1] <= SPAN);
                }
                SPAN - self.positions[n - 1]
            },
            Event::Collide(i) => {
                assert(as_ints(self.gaps@)[i as int] == self@.gaps()[i as int]);
                self.gaps[i] / 2
            },
        };
        assert(d == self@.distance(event));
        self.advance(d);
        match event {
            Event::DepartBottom => {
                self.positions.remove(0);
                self.facing_up.remove(0);
            },
            Event::DepartTop => {
                self.positions.pop();
                self.facing_up.pop();
            },
            Event::Collide(i) => {
                self.facing_up.set(i, false);
                self.facing_up.set(i + 1, true);
            },
        }
        proof {
            assert(self@.positions =~= old(self)@.after(event).positions);
            assert(self@.facing_up =~= old(self)@.after(event).facing_up);
        }
        self.refresh_gaps();
        self.positions.len() == 0
    }
}

} // verus!
