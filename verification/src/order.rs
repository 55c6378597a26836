//! Bringing ants that were given in any order into the order of the line.

use vstd::prelude::*;
use vstd::seq_lib::{to_multiset_contains, to_multiset_update};
use crate::ensemble::{beyond_line, out_of_order, start, unordered_input_fault, Ensemble};
use crate::error::{InputFault, SimError};
use crate::grid::SPAN;
use crate::state::walk_of;
use crate::walks::{lemma_longest_walk_bounds, lemma_longest_walk_is};

verus! {

/// The ants as pairs of a position in ticks and a direction.
pub open spec fn ants(ticks: Seq<u64>, facing_up: Seq<bool>) -> Seq<(u64, bool)> {
    Seq::new(ticks.len(), |i: int| (ticks[i], facing_up[i]))
}

/// The number by which ants are ordered: the lower ant first, and of two
/// ants on one point the one that walks down first, so that ants that start
/// on one point walk apart.
pub open spec fn order_key(ant: (u64, bool)) -> int {
    2 * ant.0 + if ant.1 {
        1int
    } else {
        0int
    }
}

/// Whether the ants stand in ascending order of their keys.
pub open spec fn in_key_order(line: Seq<(u64, bool)>) -> bool {
    forall|i: int, j: int|
        0 <= i <= j < line.len() ==> order_key(#[trigger] line[i]) <= order_key(#[trigger] line[j])
}

/// Whether `ticks` and `facing_up` hold the ants of `given_ticks` and
/// `given_facing_up`, each as often as there, in the order of the line.
pub open spec fn arranged(
    given_ticks: Seq<u64>,
    given_facing_up: Seq<bool>,
    ticks: Seq<u64>,
    facing_up: Seq<bool>,
) -> bool {
    &&& ticks.len() == given_ticks.len()
    &&& facing_up.len() == ticks.len()
    &&& ants(ticks, facing_up).to_multiset() == ants(given_ticks, given_facing_up).to_multiset()
    &&& in_key_order(ants(ticks, facing_up))
}

/// Two neighbours that change places are still the same ants.
proof fn lemma_exchange_keeps_ants(line: Seq<(u64, bool)>, j: int)
    requires
        0 < j < line.len(),
    ensures
        line.update(j - 1, line[j]).update(j, line[j - 1]).to_multiset() == line.to_multiset(),
{
    broadcast use vstd::multiset::group_multiset_axioms;

    let half = line.update(j - 1, line[j]);
    assert(line.contains(line[j - 1]));
    assert(line.contains(line[j]));
    to_multiset_contains(line, line[j - 1]);
    to_multiset_contains(line, line[j]);
    to_multiset_update(line, j - 1, line[j]);
    to_multiset_update(half, j, line[j - 1]);
    assert(half[j] == line[j]);
    assert(half.update(j, line[j - 1]).to_multiset() =~= line.to_multiset());
}

/// Brings the ants into the order of the line by letting an ant that
/// stands above a higher-keyed neighbour change places with it.
pub(crate) fn sort_ants(positions: &mut Vec<u64>, facing_up: &mut Vec<bool>)
    requires
        old(positions).len() == old(facing_up).len(),
    ensures
        arranged(old(positions)@, old(facing_up)@, final(positions)@, final(facing_up)@),
{
    let n = positions.len();
    let ghost given = ants(positions@, facing_up@);
    let mut i: usize = 1;
    while i < n
        invariant
            n == positions.len(),
            n == facing_up.len(),
            1 <= i,
            ants(positions@, facing_up@).to_multiset() == given.to_multiset(),
            forall|a: int, b: int|
                0 <= a <= b < i && b < n ==> order_key(#[trigger] ants(positions@, facing_up@)[a])
                    <= order_key(#[trigger] ants(positions@, facing_up@)[b]),
        decreases n - i,
    {
        let mut j: usize = i;
        while j > 0 && (positions[j] < positions[j - 1] || (positions[j] == positions[j - 1]
            && !facing_up[j] && facing_up[j - 1]))
            invariant
                n == positions.len(),
                n == facing_up.len(),
                j <= i < n,
                ants(positions@, facing_up@).to_multiset() == given.to_multiset(),
                forall|a: int, b: int|
                    0 <= a <= b <= i && a != j && b != j ==> order_key(
                        #[trigger] ants(positions@, facing_up@)[a],
                    ) <= order_key(#[trigger] ants(positions@, facing_up@)[b]),
                forall|b: int|
                    j < b <= i ==> order_key(ants(positions@, facing_up@)[j as int]) < order_key(
                        #[trigger] ants(positions@, facing_up@)[b],
                    ),
            decreases j,
        {
            let ghost line = ants(positions@, facing_up@);
            let lower = positions[j - 1];
            let lower_up = facing_up[j - 1];
            let upper = positions[j];
            let upper_up = facing_up[j];
            positions.set(j - 1, upper);
            positions.set(j, lower);
            facing_up.set(j - 1, upper_up);
            facing_up.set(j, lower_up);
            proof {
                let exchanged = ants(positions@, facing_up@);
                assert(exchanged =~= line.update(j - 1, line[j as int]).update(
                    j as int,
                    line[j - 1],
                ));
                lemma_exchange_keeps_ants(line, j as int);
                assert forall|a: int, b: int|
                    0 <= a <= b <= i && a != j - 1 && b != j - 1 implies order_key(
                    #[trigger] exchanged[a],
                ) <= order_key(#[trigger] exchanged[b]) by {
                    let from_a = if a == j { j - 1 } else { a };
                    let from_b = if b == j { j - 1 } else { b };
                    assert(exchanged[a] == line[from_a]);
                    assert(exchanged[b] == line[from_b]);
                    assert(order_key(line[from_a]) <= order_key(line[from_b]));
                }
                assert forall|b: int| j - 1 < b <= i implies order_key(exchanged[j - 1])
                    < order_key(#[trigger] exchanged[b]) by {
                    if b > j {
                        assert(exchanged[b] == line[b]);
                        assert(order_key(line[j as int]) < order_key(line[b]));
                    }
                }
            }
            j -= 1;
        }
        proof {
            let line = ants(positions@, facing_up@);
            assert forall|a: int, b: int| 0 <= a <= b < i + 1 && b < n implies order_key(
                #[trigger] line[a],
            ) <= order_key(#[trigger] line[b]) by {
                if a == j && b != j {
                    assert(order_key(line[j as int]) < order_key(line[b]));
                } else if b == j && a != j {
                    assert(order_key(line[a]) <= order_key(line[j - 1]));
                }
            }
        }
        i += 1;
    }
}

/// An ant of one line stands somewhere in every line of the same ants.
proof fn lemma_ant_is_there(line: Seq<(u64, bool)>, other: Seq<(u64, bool)>, i: int) -> (k: int)
    requires
        line.to_multiset() == other.to_multiset(),
        0 <= i < line.len(),
    ensures
        0 <= k < other.len(),
        other[k] == line[i],
{
    assert(line.contains(line[i]));
    to_multiset_contains(line, line[i]);
    to_multiset_contains(other, line[i]);
    choose|k: int| 0 <= k < other.len() && other[k] == line[i]
}

/// The same ants in another order are on the line if they were, and their
/// longest walk is the same.
pub proof fn lemma_longest_walk_of_same_ants(
    ticks: Seq<u64>,
    facing_up: Seq<bool>,
    other_ticks: Seq<u64>,
    other_facing_up: Seq<bool>,
    time_factor: u32,
)
    requires
        ticks.len() == facing_up.len(),
        other_ticks.len() == other_facing_up.len(),
        ticks.len() == other_ticks.len(),
        ants(ticks, facing_up).to_multiset() == ants(other_ticks, other_facing_up).to_multiset(),
    ensures
        unordered_input_fault(other_ticks, other_facing_up) == unordered_input_fault(
            ticks,
            facing_up,
        ),
        unordered_input_fault(ticks, facing_up) is None ==> start(
            other_ticks,
            other_facing_up,
            time_factor,
        ).remaining() == start(ticks, facing_up, time_factor).remaining(),
{
    let line = ants(ticks, facing_up);
    let other = ants(other_ticks, other_facing_up);
    let s = start(ticks, facing_up, time_factor);
    let o = start(other_ticks, other_facing_up, time_factor);
    assert forall|i: int| 0 <= i < ticks.len() && #[trigger] beyond_line(ticks, i) implies exists|
        k: int,
    |
        0 <= k < other_ticks.len() && #[trigger] beyond_line(other_ticks, k) by {
        let k = lemma_ant_is_there(line, other, i);
        assert(beyond_line(other_ticks, k));
    }
    assert forall|i: int|
        0 <= i < other_ticks.len() && #[trigger] beyond_line(other_ticks, i) implies exists|k: int|
        0 <= k < ticks.len() && #[trigger] beyond_line(ticks, k) by {
        let k = lemma_ant_is_there(other, line, i);
        assert(beyond_line(ticks, k));
    }
    if unordered_input_fault(ticks, facing_up) is None {
        assert forall|i: int| 0 <= i < s.positions.len() implies 0 <= #[trigger] s.positions[i]
            <= SPAN by {
            assert(!beyond_line(ticks, i));
        }
        assert forall|i: int| 0 <= i < o.positions.len() implies 0 <= #[trigger] o.positions[i]
            <= SPAN by {
            assert(!beyond_line(other_ticks, i));
        }
        lemma_longest_walk_bounds(s.positions, s.facing_up);
        let m = s.remaining();
        assert forall|i: int| 0 <= i < o.positions.len() implies #[trigger] walk_of(
            o.positions,
            o.facing_up,
            i,
        ) <= m by {
            let k = lemma_ant_is_there(other, line, i);
            assert(walk_of(s.positions, s.facing_up, k) == walk_of(o.positions, o.facing_up, i));
        }
        if o.positions.len() > 0 {
            let top = choose|i: int|
                0 <= i < s.positions.len() && #[trigger] walk_of(s.positions, s.facing_up, i)
                    == m;
            let k = lemma_ant_is_there(line, other, top);
            assert(walk_of(o.positions, o.facing_up, k) == m);
        }
        lemma_longest_walk_is(o.positions, o.facing_up, m);
    }
}

impl Ensemble {
    /// Builds an ensemble from ants given in any order: the ants are brought
    /// into the order of the line, and of ants on one point those that walk
    /// down come first. The positions are in ticks from the low end.
    pub fn sorted(positions: Vec<u64>, facing_up: Vec<bool>, time_factor: u32) -> (r: Result<
        Ensemble,
        SimError,
    >)
        ensures
            r matches Ok(e) ==> (unordered_input_fault(positions@, facing_up@) is None && e.wf()
                && e@.remaining() == start(positions@, facing_up@, time_factor).remaining()
                && exists|ticks: Seq<u64>, up: Seq<bool>|
                arranged(positions@, facing_up@, ticks, up) && e@ == #[trigger] start(
                    ticks,
                    up,
                    time_factor,
                )),
            r matches Err(err) ==> (unordered_input_fault(positions@, facing_up@) matches Some(f)
                && err == SimError::InvalidInput(f)),
    {
        if positions.len() != facing_up.len() {
            return Err(SimError::InvalidInput(InputFault::LengthMismatch));
        }
        let mut ticks = positions;
        let mut up = facing_up;
        sort_ants(&mut ticks, &mut up);
        proof {
            lemma_longest_walk_of_same_ants(positions@, facing_up@, ticks@, up@, time_factor);
            let line = ants(ticks@, up@);
            assert forall|i: int| 0 <= i < ticks@.len() - 1 implies !#[trigger] out_of_order(
                ticks@,
                i,
            ) by {
                assert(order_key(line[i]) <= order_key(line[i + 1]));
            }
        }
        Ensemble::with_time_factor(ticks, up, time_factor)
    }
}

} // verus!
