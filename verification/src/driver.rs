//! Stepping an ensemble and running it until the line is empty.

use vstd::prelude::*;
use crate::dynamics::{lemma_step, lemma_steps_left};
use crate::ensemble::Ensemble;
use crate::error::SimError;
use crate::event::Event;

verus! {

impl Ensemble {
    /// Finds the next event and applies it. An empty ensemble is left as it
    /// is and reported as an error.
    pub fn step(&mut self) -> (r: Result<Event, SimError>)
        requires
            old(self).wf(),
        ensures
            final(self).wf(),
            old(self)@.len() == 0 ==> r == Err::<Event, SimError>(SimError::EmptyEnsemble)
                && final(self)@ == old(self)@,
            old(self)@.len() > 0 ==> (r matches Ok(e) && old(self)@.is_next(e) && final(self)@
                == old(self)@.after(e)),
    {
        if self.is_empty() {
            Err(SimError::EmptyEnsemble)
        } else {
            let e = self.next_event();
            self.apply(e);
            Ok(e)
        }
    }

    /// Runs the ensemble until every ant has left and returns the time that
    /// has then passed. The run takes as many events as the ensemble has
    /// steps left, and all the ants together walk exactly as far as the
    /// longest walk to an end was at the start.
    pub fn run(&mut self) -> (t: u64)
        requires
            old(self).wf(),
        ensures
            final(self).wf(),
            final(self)@ == old(self)@.finished(),
            t == final(self)@.elapsed_time(),
    {
        let mut done = self.is_empty();
        while !done
            invariant
                self.wf(),
                done == (self@.len() == 0),
                self@.time_factor == old(self)@.time_factor,
                self@.travelled + self@.remaining() == old(self)@.travelled + old(
                    self,
                )@.remaining(),
            decreases self@.steps_left(),
        {
            let e = self.next_event();
            proof {
                lemma_step(self@, e);
                lemma_steps_left(self@, e);
            }
            done = self.apply(e);
        }
        proof {
            assert(self@.positions =~= Seq::<int>::empty());
            assert(self@.facing_up =~= Seq::<bool>::empty());
        }
        self.elapsed_time()
    }
}

} // verus!
