//! Sending a robot one way and straight back is no better than sending it
//! back at once.
use vstd::prelude::*;

use crate::direction::{Direction, opposite};
use crate::game::{
    apply_move, blocked, lemma_mod_bounds, lemma_mod_next, lemma_mod_prev, lemma_slide_facts,
    placement_ok, robot_dest, slide, slide_measure, step,
};

verus! {

/// The cells lying beyond `p` in direction `dir`, in the order of indices.
pub open spec fn beyond(p: int, dir: Direction, y: int) -> bool {
    match dir {
        Direction::Up => y < p,
        Direction::Left => y < p,
        Direction::Right => y > p,
        Direction::Down => y > p,
    }
}

/// A step leads beyond where it starts.
proof fn lemma_step_beyond(len: int, n: int, p: int, dir: Direction)
    requires
        step(len, n, p, dir) is Some,
    ensures
        beyond(p, dir, step(len, n, p, dir)->0),
{
}

/// A step can be taken back.
pub proof fn lemma_step_back(len: int, n: int, p: int, dir: Direction)
    requires
        step(len, n, p, dir) is Some,
    ensures
        step(len, n, step(len, n, p, dir)->0, opposite(dir)) == Some(p),
{
    lemma_mod_bounds(p, n);
    match dir {
        Direction::Right => {
            lemma_mod_next(p, n);
        },
        Direction::Left => {
            lemma_mod_prev(p, n);
        },
        _ => {},
    }
}

/// A slide only looks at the cells beyond its start.
pub proof fn lemma_slide_agree(
    walls: Seq<bool>,
    r1: Seq<int>,
    r2: Seq<int>,
    n: int,
    p: int,
    dir: Direction,
)
    requires
        forall|y: int| beyond(p, dir, y) ==> (#[trigger] r1.contains(y) == r2.contains(y)),
    ensures
        slide(walls, r1, n, p, dir) == slide(walls, r2, n, p, dir),
    decreases slide_measure(walls.len() as int, p, dir),
{
    match step(walls.len() as int, n, p, dir) {
        Some(q) => {
            lemma_step_beyond(walls.len() as int, n, p, dir);
            assert(r1.contains(q) == r2.contains(q));
            if !blocked(walls, r1, q) {
                assert forall|y: int| beyond(q, dir, y) implies (#[trigger] r1.contains(y)
                    == r2.contains(y)) by {
                    assert(beyond(p, dir, y));
                }
                lemma_slide_agree(walls, r1, r2, n, q, dir);
            }
        },
        None => {},
    }
}

/// Sliding back from where a slide from `x` ended leads where sliding back
/// from `x` leads, when the cells passed are free and `t` adds no robot
/// but at the end.
proof fn lemma_walk_back(
    walls: Seq<bool>,
    s: Seq<int>,
    t: Seq<int>,
    n: int,
    x: int,
    dir: Direction,
)
    requires
        forall|y: int| #[trigger] t.contains(y) ==> y == slide(walls, s, n, x, dir) || s.contains(y),
        slide(walls, s, n, x, dir) != x ==> !blocked(walls, t, x),
    ensures
        slide(walls, t, n, slide(walls, s, n, x, dir), opposite(dir)) == slide(
            walls,
            t,
            n,
            x,
            opposite(dir),
        ),
    decreases slide_measure(walls.len() as int, x, dir),
{
    let q = slide(walls, s, n, x, dir);
    if q != x {
        let x1 = step(walls.len() as int, n, x, dir)->0;
        assert(!blocked(walls, s, x1));
        assert(slide(walls, s, n, x1, dir) == q);
        if x1 != q {
            assert(!t.contains(x1));
        }
        lemma_walk_back(walls, s, t, n, x1, dir);
        lemma_step_back(walls.len() as int, n, x, dir);
    }
}

/// Sending robot `i` one way and then straight back puts it where sending
/// it back at once puts it, when no two robots share a cell.
pub proof fn lemma_reverse_move(walls: Seq<bool>, n: int, s: Seq<int>, i: int, dir: Direction)
    requires
        n >= 1,
        0 <= i < s.len(),
        0 <= s[i] < walls.len(),
        s.no_duplicates(),
    ensures
        apply_move(walls, n, apply_move(walls, n, s, i, dir), i, opposite(dir)) == apply_move(
            walls,
            n,
            s,
            i,
            opposite(dir),
        ),
{
    let p = s[i];
    let q = robot_dest(walls, n, s, i, dir);
    let t = apply_move(walls, n, s, i, dir);
    if q == p {
        assert(t =~= s);
    } else {
        assert(!walls[p]);
        lemma_slide_facts(walls, s, n, p, dir);
        assert(q == slide(walls, s, n, p, dir));
        assert(!blocked(walls, s, q));
        assert(t == s.update(i, q));
        assert forall|y: int| #[trigger] t.contains(y) implies y == q || s.contains(y) by {
            let j = choose|j: int| 0 <= j < t.len() && t[j] == y;
            if j != i {
                assert(s[j] == y);
            }
        }
        assert(!t.contains(p)) by {
            if t.contains(p) {
                let j = choose|j: int| 0 <= j < t.len() && t[j] == p;
                assert(j != i);
                assert(s[j] == s[i]);
            }
        }
        lemma_walk_back(walls, s, t, n, p, dir);
        assert(beyond(p, dir, q));
        assert forall|y: int| beyond(p, opposite(dir), y) implies (#[trigger] t.contains(y)
            == s.contains(y)) by {
            assert(y != q && y != p);
            if s.contains(y) {
                let j = choose|j: int| 0 <= j < s.len() && s[j] == y;
                assert(j != i);
                assert(t[j] == y);
            }
        }
        lemma_slide_agree(walls, t, s, n, p, opposite(dir));
        assert(robot_dest(walls, n, t, i, opposite(dir)) == robot_dest(walls, n, s, i, opposite(dir)));
        assert(apply_move(walls, n, t, i, opposite(dir)) =~= apply_move(
            walls,
            n,
            s,
            i,
            opposite(dir),
        ));
    }
}

/// A move keeps the robots on distinct cells.
pub proof fn lemma_move_distinct(walls: Seq<bool>, n: int, s: Seq<int>, i: int, dir: Direction)
    requires
        n >= 1,
        placement_ok(walls, s),
        s.no_duplicates(),
    ensures
        apply_move(walls, n, s, i, dir).no_duplicates(),
{
    if 0 <= i < s.len() {
        let p = s[i];
        let q = robot_dest(walls, n, s, i, dir);
        let t = apply_move(walls, n, s, i, dir);
        if q != p {
            lemma_slide_facts(walls, s, n, p, dir);
            assert(!s.contains(q));
            assert forall|a: int, b: int| 0 <= a < t.len() && 0 <= b < t.len() && a != b implies t[a]
                != t[b] by {
                if a == i {
                    assert(s[b] != q);
                } else if b == i {
                    assert(s[a] != q);
                }
            }
        } else {
            assert(t =~= s);
        }
    }
}

} // verus!
