//! The three kinds of event that change an ensemble.

use vstd::prelude::*;

verus! {

/// What happens next on the line.
#[derive(Clone, Copy, Debug, PartialEq, Eq, Structural)]
pub enum Event {
    /// The lowest ant walks off the low end.
    DepartBottom,
    /// The highest ant walks off the high end.
    DepartTop,
    /// The ants at this index and the next meet and both turn around.
    Collide(usize),
}

impl Event {
    /// Rank used to choose among events that are equally far away: the
    /// departure at the top comes first, then the departure at the bottom,
    /// then the meetings from the lowest pair upwards.
    pub open spec fn rank(self) -> int {
        match self {
            Event::DepartTop => 0,
            Event::DepartBottom => 1,
            Event::Collide(i) => 2 + i,
        }
    }

    /// Whether the event takes an ant off the line.
    pub open spec fn is_departure(self) -> bool {
        match self {
            Event::Collide(_) => false,
            _ => true,
        }
    }
}

} // verus!
