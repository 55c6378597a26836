//! Ants drawn at random, and the time a run takes found without running it.

use vstd::prelude::*;
use crate::ensemble::{beyond_line, start, unordered_input_fault};
use crate::error::{InputFault, SimError};
use crate::grid::{RESOLUTION, SPAN};
use crate::state::longest_walk;
use crate::walks::lemma_longest_walk_bounds;

verus! {

/// Calls `fastrand::u64` with the range from `0` to `limit`, both included,
/// on the generator of the current thread. Trusted, not proved: the number
/// drawn lies in that range. Which number it is depends on the generator's
/// state, so nothing more is claimed.
#[verifier::external_body]
fn random_up_to(limit: u64) -> (drawn: u64)
    ensures
        drawn <= limit,
{
    fastrand::u64(0..=limit)
}

/// Calls `fastrand::bool` on the generator of the current thread. Nothing is
/// claimed of the value drawn.
#[verifier::external_body]
fn random_bool() -> (drawn: bool) {
    fastrand::bool()
}

/// The time after which the line is empty, found without stepping: the
/// longest walk of any ant to the end it faces, times the time factor. The
/// ants may be given in any order: this is the time at which `Ensemble::run`
/// ends for the same ants in the order of the line.
pub fn time_to_clear(positions: &Vec<u64>, facing_up: &Vec<bool>, time_factor: u32) -> (r: Result<
    u64,
    SimError,
>)
    ensures
        r matches Ok(t) ==> (unordered_input_fault(positions@, facing_up@) is None && t == start(
            positions@,
            facing_up@,
            time_factor,
        ).finished().elapsed_time()),
        r matches Err(err) ==> (unordered_input_fault(positions@, facing_up@) matches Some(f)
            && err == SimError::InvalidInput(f)),
{
    let n = positions.len();
    if facing_up.len() != n {
        return Err(SimError::InvalidInput(InputFault::LengthMismatch));
    }
    let ghost s = start(positions@, facing_up@, time_factor);
    let mut longest: u64 = 0;
    let mut i: usize = 0;
    while i < n
        invariant
            n == positions.len(),
            n == facing_up.len(),
            s == start(positions@, facing_up@, time_factor),
            i <= n,
            forall|j: int| 0 <= j < i ==> !#[trigger] beyond_line(positions@, j),
            longest == longest_walk(s.positions.take(i as int), s.facing_up.take(i as int)),
            longest <= SPAN,
        decreases n - i,
    {
        if positions[i] > RESOLUTION {
            assert(beyond_line(positions@, i as int));
            return Err(SimError::InvalidInput(InputFault::OutOfRange));
        }
        let walk = if facing_up[i] {
            SPAN - 2 * positions[i]
        } else {
            2 * positions[i]
        };
        proof {
            let next = i + 1;
            assert(s.positions.take(next).drop_last() =~= s.positions.take(i as int));
            assert(s.facing_up.take(next).drop_last() =~= s.facing_up.take(i as int));
            assert(!beyond_line(positions@, i as int));
        }
        if walk > longest {
            longest = walk;
        }
        i += 1;
    }
    proof {
        assert(s.positions.take(n as int) =~= s.positions);
        assert(s.facing_up.take(n as int) =~= s.facing_up);
        assert(longest * time_factor <= SPAN * 0xffff_ffff) by (nonlinear_arith)
            requires
                0 <= longest <= SPAN,
                0 <= time_factor <= 0xffff_ffff,
        ;
    }
    Ok(longest * (time_factor as u64))
}

/// Draws `n_ants` ants: for each a position in ticks, anywhere on the line,
/// and a direction. The positions are in no order.
pub fn draw_ants(n_ants: usize) -> (ants: (Vec<u64>, Vec<bool>))
    ensures
        ants.0.len() == n_ants,
        ants.1.len() == n_ants,
        unordered_input_fault(ants.0@, ants.1@) is None,
{
    let mut positions: Vec<u64> = Vec::new();
    let mut facing_up: Vec<bool> = Vec::new();
    let mut i: usize = 0;
    while i < n_ants
        invariant
            i <= n_ants,
            positions.len() == i,
            facing_up.len() == i,
            forall|j: int| 0 <= j < i ==> !#[trigger] beyond_line(positions@, j),
        decreases n_ants - i,
    {
        let position = random_up_to(RESOLUTION);
        let down = random_bool();
        let ghost drawn = positions@;
        positions.push(position);
        facing_up.push(!down);
        proof {
            assert forall|j: int| 0 <= j <= i implies !#[trigger] beyond_line(positions@, j) by {
                if j < i {
                    assert(!beyond_line(drawn, j));
                }
            }
        }
        i += 1;
    }
    (positions, facing_up)
}

/// Draws `n_ants` ants at random and returns the time after which the line
/// is empty, found from the two ends alone: the longest walk of any ant to
/// the end it faces, times the time factor.
pub fn fast_ant_sim(n_ants: usize, time_factor: u32) -> (t: u64)
    requires
        n_ants > 0,
    ensures
        exists|ticks: Seq<u64>, facing_up: Seq<bool>|
            ticks.len() == n_ants && unordered_input_fault(ticks, facing_up) is None && t
                == #[trigger] start(ticks, facing_up, time_factor).finished().elapsed_time(),
        t <= SPAN * time_factor,
{
    let (positions, facing_up) = draw_ants(n_ants);
    match time_to_clear(&positions, &facing_up, time_factor) {
        Ok(t) => {
            proof {
                let s = start(positions@, facing_up@, time_factor);
                assert forall|j: int| 0 <= j < s.positions.len() implies 0
                    <= #[trigger] s.positions[j] <= SPAN by {
                    assert(!beyond_line(positions@, j));
                }
                lemma_longest_walk_bounds(s.positions, s.facing_up);
                assert(s.remaining() * time_factor <= SPAN * time_factor) by (nonlinear_arith)
                    requires
                        s.remaining() <= SPAN,
                        0 <= time_factor,
                ;
            }
            t
        },
        Err(_) => vstd::pervasive::unreached(),
    }
}

} // verus!
