//! Facts about the longest walk and about the pairs that still have to meet.

use vstd::prelude::*;
use crate::grid::SPAN;
use crate::state::{climbers, crossings, longest_walk, on_line, walk_of};

verus! {

/// The longest walk is at least every ant's walk, and some ant has it.
pub proof fn lemma_longest_walk_bounds(positions: Seq<int>, facing_up: Seq<bool>)
    requires
        positions.len() == facing_up.len(),
        on_line(positions),
    ensures
        0 <= longest_walk(positions, facing_up) <= SPAN,
        forall|i: int|
            0 <= i < positions.len() ==> #[trigger] walk_of(positions, facing_up, i)
                <= longest_walk(positions, facing_up),
        positions.len() > 0 ==> exists|i: int|
            0 <= i < positions.len() && #[trigger] walk_of(positions, facing_up, i)
                == longest_walk(positions, facing_up),
    decreases positions.len(),
{
    if positions.len() > 0 {
        let shorter = positions.drop_last();
        let facing = facing_up.drop_last();
        let last = positions.len() - 1;
        assert forall|i: int| 0 <= i < shorter.len() implies 0 <= #[trigger] shorter[i]
            <= SPAN by {
            assert(shorter[i] == positions[i]);
        }
        lemma_longest_walk_bounds(shorter, facing);
        let rest = longest_walk(shorter, facing);
        let own = walk_of(positions, facing_up, last);
        assert(0 <= positions[last] <= SPAN);
        assert forall|i: int| 0 <= i < positions.len() implies #[trigger] walk_of(
            positions,
            facing_up,
            i,
        ) <= longest_walk(positions, facing_up) by {
            if i < last {
                assert(walk_of(shorter, facing, i) == walk_of(positions, facing_up, i));
            }
        }
        if own > rest || shorter.len() == 0 {
            assert(walk_of(positions, facing_up, last) == longest_walk(positions, facing_up));
        } else {
            let i = choose|i: int|
                0 <= i < shorter.len() && #[trigger] walk_of(shorter, facing, i) == rest;
            assert(walk_of(positions, facing_up, i) == longest_walk(positions, facing_up));
        }
    }
}

/// A value that bounds every ant's walk and that some ant attains is the
/// longest walk.
pub proof fn lemma_longest_walk_is(positions: Seq<int>, facing_up: Seq<bool>, m: int)
    requires
        positions.len() == facing_up.len(),
        on_line(positions),
        forall|i: int|
            0 <= i < positions.len() ==> #[trigger] walk_of(positions, facing_up, i) <= m,
        positions.len() > 0 ==> exists|i: int|
            0 <= i < positions.len() && #[trigger] walk_of(positions, facing_up, i) == m,
        positions.len() == 0 ==> m == 0,
    ensures
        longest_walk(positions, facing_up) == m,
{
    lemma_longest_walk_bounds(positions, facing_up);
    if positions.len() > 0 {
        let i = choose|i: int|
            0 <= i < positions.len() && #[trigger] walk_of(positions, facing_up, i) == m;
        let j = choose|j: int|
            0 <= j < positions.len() && #[trigger] walk_of(positions, facing_up, j)
                == longest_walk(positions, facing_up);
        assert(walk_of(positions, facing_up, i) <= longest_walk(positions, facing_up));
        assert(walk_of(positions, facing_up, j) <= m);
    }
}

/// Taking the lowest ant away lowers the number of climbers by one if it
/// walked up, and not at all if it walked down.
pub proof fn lemma_climbers_without_first(facing_up: Seq<bool>)
    requires
        facing_up.len() > 0,
    ensures
        climbers(facing_up) == climbers(facing_up.subrange(1, facing_up.len() as int)) + if
            facing_up[0] {
            1nat
        } else {
            0nat
        },
    decreases facing_up.len(),
{
    let n = facing_up.len() as int;
    let tail = facing_up.subrange(1, n);
    if n == 1 {
        assert(climbers(facing_up.drop_last()) == 0);
        assert(climbers(tail) == 0);
    } else {
        lemma_climbers_without_first(facing_up.drop_last());
        assert(facing_up.drop_last().subrange(1, n - 1) =~= tail.drop_last());
        assert(tail.last() == facing_up.last());
    }
}

/// An ant that walks down and has no ant below it is part of no crossing.
pub proof fn lemma_crossings_without_first(facing_up: Seq<bool>)
    requires
        facing_up.len() > 0,
        !facing_up[0],
    ensures
        crossings(facing_up.subrange(1, facing_up.len() as int)) == crossings(facing_up),
    decreases facing_up.len(),
{
    let n = facing_up.len() as int;
    let tail = facing_up.subrange(1, n);
    if n == 1 {
        assert(crossings(facing_up.drop_last()) == 0);
        assert(climbers(facing_up.drop_last()) == 0);
        assert(crossings(tail) == 0);
    } else {
        lemma_crossings_without_first(facing_up.drop_last());
        lemma_climbers_without_first(facing_up.drop_last());
        assert(facing_up.drop_last().subrange(1, n - 1) =~= tail.drop_last());
        assert(tail.last() == facing_up.last());
    }
}

/// Turning around two neighbours that face each other leaves the number of
/// climbers as it was.
pub proof fn lemma_climbers_after_turn(facing_up: Seq<bool>, i: int)
    requires
        0 <= i < facing_up.len() - 1,
        facing_up[i],
        !facing_up[i + 1],
    ensures
        climbers(facing_up.update(i, false).update(i + 1, true)) == climbers(facing_up),
    decreases facing_up.len(),
{
    let n = facing_up.len() as int;
    let turned = facing_up.update(i, false).update(i + 1, true);
    let before = facing_up.drop_last();
    if i + 1 == n - 1 {
        let lowered = before.update(i, false);
        assert(turned.drop_last() =~= lowered);
        assert(lowered.drop_last() =~= before.drop_last());
        assert(before.last());
        assert(!lowered.last());
        assert(turned.last());
        assert(climbers(lowered) == climbers(before.drop_last()));
        assert(climbers(before) == climbers(before.drop_last()) + 1);
    } else {
        lemma_climbers_after_turn(before, i);
        assert(turned.drop_last() =~= before.update(i, false).update(i + 1, true));
    }
}

/// Turning around two neighbours that face each other takes exactly one
/// crossing away.
pub proof fn lemma_crossings_after_turn(facing_up: Seq<bool>, i: int)
    requires
        0 <= i < facing_up.len() - 1,
        facing_up[i],
        !facing_up[i + 1],
    ensures
        crossings(facing_up.update(i, false).update(i + 1, true)) + 1 == crossings(facing_up),
    decreases facing_up.len(),
{
    let n = facing_up.len() as int;
    let turned = facing_up.update(i, false).update(i + 1, true);
    let before = facing_up.drop_last();
    if i + 1 == n - 1 {
        let lowered = before.update(i, false);
        assert(turned.drop_last() =~= lowered);
        assert(lowered.drop_last() =~= before.drop_last());
        assert(before.last());
        assert(!lowered.last());
        assert(turned.last());
        assert(crossings(turned) == crossings(lowered));
        assert(crossings(lowered) == crossings(before.drop_last()) + climbers(
            before.drop_last(),
        ));
        assert(crossings(before) == crossings(before.drop_last()));
        assert(climbers(before) == climbers(before.drop_last()) + 1);
    } else {
        lemma_crossings_after_turn(before, i);
        lemma_climbers_after_turn(before, i);
        assert(turned.drop_last() =~= before.update(i, false).update(i + 1, true));
        assert(turned.last() == facing_up.last());
    }
}

} // verus!
