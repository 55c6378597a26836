//! The mathematical model of an ensemble, over which every contract of the
//! crate is stated.

use vstd::prelude::*;
use crate::event::Event;
use crate::grid::SPAN;

verus! {

/// An ensemble as a mathematical value. Index `0` is the lowest ant.
pub struct State {
    /// Where each ant stands, in half-ticks from the low end.
    pub positions: Seq<int>,
    /// Whether each ant walks towards the high end.
    pub facing_up: Seq<bool>,
    /// Half-ticks that every ant has walked since the start.
    pub travelled: int,
    /// Time units that pass per half-tick walked.
    pub time_factor: int,
}

/// How far an ant at `position` is from the end that it walks towards.
pub open spec fn walk_to_end(position: int, facing_up: bool) -> int {
    if facing_up {
        SPAN - position
    } else {
        position
    }
}

/// The walk of ant `i` to the end it faces.
pub open spec fn walk_of(positions: Seq<int>, facing_up: Seq<bool>, i: int) -> int {
    walk_to_end(positions[i], facing_up[i])
}

/// Whether every position lies on the line.
pub open spec fn on_line(positions: Seq<int>) -> bool {
    forall|i: int| 0 <= i < positions.len() ==> 0 <= #[trigger] positions[i] <= SPAN
}

/// The longest of the ants' walks to the ends they face; `0` without ants.
pub open spec fn longest_walk(positions: Seq<int>, facing_up: Seq<bool>) -> int
    decreases positions.len(),
{
    if positions.len() == 0 {
        0
    } else {
        let rest = longest_walk(positions.drop_last(), facing_up.drop_last());
        let own = walk_to_end(positions.last(), facing_up.last());
        if own > rest {
            own
        } else {
            rest
        }
    }
}

/// How many ants walk towards the high end.
pub open spec fn climbers(facing_up: Seq<bool>) -> nat
    decreases facing_up.len(),
{
    if facing_up.len() == 0 {
        0
    } else {
        climbers(facing_up.drop_last()) + if facing_up.last() { 1nat } else { 0nat }
    }
}

/// How many pairs of ants, adjacent or not, walk towards each other: the
/// lower one up, the higher one down. Each such pair still has to meet.
pub open spec fn crossings(facing_up: Seq<bool>) -> nat
    decreases facing_up.len(),
{
    if facing_up.len() == 0 {
        0
    } else {
        crossings(facing_up.drop_last()) + if facing_up.last() {
            0nat
        } else {
            climbers(facing_up.drop_last())
        }
    }
}

impl State {
    /// Number of ants on the line.
    pub open spec fn len(self) -> nat {
        self.positions.len()
    }

    /// Distance between ant `i` and the ant above it.
    pub open spec fn gap(self, i: int) -> int {
        self.positions[i + 1] - self.positions[i]
    }

    /// The gaps between neighbours, lowest pair first.
    pub open spec fn gaps(self) -> Seq<int> {
        if self.positions.len() == 0 {
            Seq::empty()
        } else {
            Seq::new((self.positions.len() - 1) as nat, |i: int| self.gap(i))
        }
    }

    /// Every ant stands on the line.
    pub open spec fn within_span(self) -> bool {
        on_line(self.positions)
    }

    /// No ant stands below the ant before it.
    pub open spec fn ascending(self) -> bool {
        forall|i: int| 0 <= i < self.positions.len() - 1 ==> 0 <= #[trigger] self.gap(i)
    }

    /// No two neighbours stand on the same point.
    pub open spec fn strictly_ascending(self) -> bool {
        forall|i: int| 0 <= i < self.positions.len() - 1 ==> 0 < #[trigger] self.gap(i)
    }

    /// All ants stand on half-ticks of the parity of the distance walked, so
    /// that the gap between any two of them is a whole number of ticks.
    pub open spec fn on_grid(self) -> bool {
        forall|i: int|
            0 <= i < self.positions.len() ==> (#[trigger] self.positions[i]) % 2 == self.travelled
                % 2
    }

    /// The longest walk that any ant still has to the end it faces.
    pub open spec fn remaining(self) -> int {
        longest_walk(self.positions, self.facing_up)
    }

    /// Time that has passed since the start.
    pub open spec fn elapsed_time(self) -> int {
        self.travelled * self.time_factor
    }

    /// Number of events that are still to come: one departure for each ant
    /// and one meeting for each pair that walks towards each other.
    pub open spec fn steps_left(self) -> nat {
        self.positions.len() + crossings(self.facing_up)
    }

    /// The invariant of an ensemble.
    pub open spec fn wf(self) -> bool {
        &&& self.facing_up.len() == self.positions.len()
        &&& self.positions.len() <= usize::MAX
        &&& self.within_span()
        &&& self.ascending()
        &&& self.on_grid()
        &&& 0 <= self.travelled
        &&& self.travelled + self.remaining() <= SPAN
        &&& 0 <= self.time_factor <= u32::MAX
    }

    /// Whether the event can happen at all: a departure needs an ant at that
    /// end that faces outwards, a meeting a pair that faces each other.
    pub open spec fn possible(self, e: Event) -> bool {
        match e {
            Event::DepartBottom => self.positions.len() > 0 && !self.facing_up[0],
            Event::DepartTop => self.positions.len() > 0 && self.facing_up[
                self.positions.len() - 1],
            Event::Collide(i) => i + 1 < self.positions.len() && self.facing_up[i as int]
                && !self.facing_up[i + 1],
        }
    }

    /// How far every ant walks until the event happens.
    pub open spec fn distance(self, e: Event) -> int {
        match e {
            Event::DepartBottom => self.positions[0],
            Event::DepartTop => SPAN - self.positions[self.positions.len() - 1],
            Event::Collide(i) => self.gap(i as int) / 2,
        }
    }

    /// Whether `e` comes no later than `o`: it is nearer, or as near and of
    /// no higher rank.
    pub open spec fn no_later(self, e: Event, o: Event) -> bool {
        self.distance(e) < self.distance(o) || (self.distance(e) == self.distance(o) && e.rank()
            <= o.rank())
    }

    /// Whether `e` is the next event: it can happen, and no event that can
    /// happen comes before it.
    pub open spec fn is_next(self, e: Event) -> bool {
        &&& self.possible(e)
        &&& forall|o: Event| #[trigger] self.possible(o) ==> self.no_later(e, o)
    }

    /// Where the ants stand once each has walked `d` the way it faces.
    pub open spec fn advanced(self, d: int) -> Seq<int> {
        Seq::new(
            self.positions.len(),
            |i: int|
                if self.facing_up[i] {
                    self.positions[i] + d
                } else {
                    self.positions[i] - d
                },
        )
    }

    /// The ensemble once every ant has walked `d` the way it faces.
    pub open spec fn walked(self, d: int) -> State {
        State {
            positions: self.advanced(d),
            facing_up: self.facing_up,
            travelled: self.travelled + d,
            time_factor: self.time_factor,
        }
    }

    /// The ensemble at the end of its run: the line is empty, and every ant
    /// has walked as far as the longest walk was.
    pub open spec fn finished(self) -> State {
        State {
            positions: Seq::empty(),
            facing_up: Seq::empty(),
            travelled: self.travelled + self.remaining(),
            time_factor: self.time_factor,
        }
    }

    /// The ensemble after the event: every ant has walked the event's
    /// distance; a departure takes the ant at that end away, a meeting turns
    /// both ants of the pair around.
    pub open spec fn after(self, e: Event) -> State {
        let w = self.walked(self.distance(e));
        let n = self.positions.len() as int;
        match e {
            Event::DepartBottom => State {
                positions: w.positions.subrange(1, n),
                facing_up: w.facing_up.subrange(1, n),
                ..w
            },
            Event::DepartTop => State {
                positions: w.positions.subrange(0, n - 1),
                facing_up: w.facing_up.subrange(0, n - 1),
                ..w
            },
            Event::Collide(i) => State {
                facing_up: w.facing_up.update(i as int, false).update(i + 1, true),
                ..w
            },
        }
    }
}

} // verus!
