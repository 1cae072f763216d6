//! Placements that differ only in the order of the robots other than
//! robot 0 play alike: the same moves lead to placements that again differ
//! only in that order.
use vstd::prelude::*;
use vstd::seq_lib::{to_multiset_contains, to_multiset_update};

use crate::direction::Direction;
use crate::game::{apply_move, blocked, robot_dest, slide, slide_measure, step};
use crate::robots::is_canonical_of;

verus! {

/// The robots other than robot 0.
pub open spec fn others(t: Seq<int>) -> Seq<int> {
    t.subrange(1, t.len() as int)
}

/// Robot 0 on the same cell, and the other robots on the same cells, in
/// any order.
pub open spec fn same_up_to_order(t: Seq<int>, u: Seq<int>) -> bool {
    &&& t.len() == u.len()
    &&& t.len() >= 1
    &&& t[0] == u[0]
    &&& others(t).to_multiset() == others(u).to_multiset()
}

/// A cell is taken in `t` when robot 0 or one of the others stands on it.
proof fn lemma_contains_split(t: Seq<int>, q: int)
    requires
        t.len() >= 1,
    ensures
        t.contains(q) <==> (t[0] == q || others(t).contains(q)),
{
    if t.contains(q) {
        let k = choose|k: int| 0 <= k < t.len() && t[k] == q;
        if k > 0 {
            assert(others(t)[k - 1] == q);
        }
    }
    if others(t).contains(q) {
        let k = choose|k: int| 0 <= k < others(t).len() && others(t)[k] == q;
        assert(t[k + 1] == q);
    }
}

/// Placements that differ only in order take the same cells.
pub proof fn lemma_same_cells(t: Seq<int>, u: Seq<int>)
    requires
        same_up_to_order(t, u),
    ensures
        forall|q: int| #[trigger] t.contains(q) == u.contains(q),
{
    assert forall|q: int| #[trigger] t.contains(q) == u.contains(q) by {
        lemma_contains_split(t, q);
        lemma_contains_split(u, q);
        to_multiset_contains(others(t), q);
        to_multiset_contains(others(u), q);
    }
}

/// A slide only asks which cells are taken, not by which robot.
pub proof fn lemma_slide_same_cells(
    walls: Seq<bool>,
    r1: Seq<int>,
    r2: Seq<int>,
    n: int,
    p: int,
    dir: Direction,
)
    requires
        forall|q: int| #[trigger] r1.contains(q) == r2.contains(q),
    ensures
        slide(walls, r1, n, p, dir) == slide(walls, r2, n, p, dir),
    decreases slide_measure(walls.len() as int, p, dir),
{
    match step(walls.len() as int, n, p, dir) {
        Some(q) => {
            assert(blocked(walls, r1, q) == blocked(walls, r2, q));
            if !blocked(walls, r1, q) {
                lemma_slide_same_cells(walls, r1, r2, n, q, dir);
            }
        },
        None => {},
    }
}

/// Sending robot `i` of `t` in a direction does what sending robot `j` of
/// `u` does, where `j` stands where `i` stands (robot 0 for robot 0).
pub proof fn lemma_move_same(
    walls: Seq<bool>,
    n: int,
    t: Seq<int>,
    u: Seq<int>,
    i: int,
    dir: Direction,
) -> (j: int)
    requires
        same_up_to_order(t, u),
        0 <= i < t.len(),
    ensures
        0 <= j < u.len(),
        same_up_to_order(apply_move(walls, n, t, i, dir), apply_move(walls, n, u, j, dir)),
{
    let j = if i == 0 {
        0
    } else {
        assert(others(t)[i - 1] == t[i]);
        to_multiset_contains(others(t), t[i]);
        to_multiset_contains(others(u), t[i]);
        let k = choose|k: int| 0 <= k < others(u).len() && others(u)[k] == t[i];
        k + 1
    };
    assert(u[j] == t[i]);
    lemma_same_cells(t, u);
    lemma_slide_same_cells(walls, t, u, n, t[i], dir);
    let d = robot_dest(walls, n, t, i, dir);
    assert(robot_dest(walls, n, u, j, dir) == d);
    let t2 = t.update(i, d);
    let u2 = u.update(j, d);
    if i == 0 {
        assert(others(t2) =~= others(t));
        assert(others(u2) =~= others(u));
    } else {
        assert(others(t2) =~= others(t).update(i - 1, d));
        assert(others(u2) =~= others(u).update(j - 1, d));
        to_multiset_update(others(t), i - 1, d);
        to_multiset_update(others(u), j - 1, d);
    }
    j
}

/// Two placements with one canonical form differ only in order.
pub proof fn lemma_canonical_same(key: Seq<int>, t: Seq<int>, u: Seq<int>)
    requires
        is_canonical_of(key, t),
        is_canonical_of(key, u),
        t.len() >= 1,
    ensures
        same_up_to_order(t, u),
{
}

} // verus!
