//! The rules of the game, as specifications.
//!
//! A board of width `n` is stored row by row in a sequence of cells, `true`
//! where a wall stands. A robot sent in a direction slides cell by cell until
//! the next cell is outside the board, a wall, or taken by a robot.
use vstd::prelude::*;
use vstd::arithmetic::div_mod::{
    lemma_fundamental_div_mod, lemma_fundamental_div_mod_converse, lemma_mod_pos_bound,
    lemma_mod_add_multiples_vanish, lemma_mod_sub_multiples_vanish,
};

use crate::direction::{Direction, delta};

verus! {

/// The cell next to `p` in direction `dir`, if it lies on the board.
pub open spec fn step(len: int, n: int, p: int, dir: Direction) -> Option<int> {
    if n < 1 || p < 0 || p >= len {
        None
    } else {
        match dir {
            Direction::Up => if p >= n { Some(p - n) } else { None },
            Direction::Down => if p + n < len { Some(p + n) } else { None },
            Direction::Right => if p % n < n - 1 && p + 1 < len { Some(p + 1) } else { None },
            Direction::Left => if p > 0 && p % n > 0 { Some(p - 1) } else { None },
        }
    }
}

/// A cell a sliding robot cannot enter: a wall, or a cell taken by a robot.
pub open spec fn blocked(walls: Seq<bool>, robots: Seq<int>, q: int) -> bool {
    walls[q] || robots.contains(q)
}

/// How far a slide can still go: it shrinks with each step.
pub open spec fn slide_measure(len: int, p: int, dir: Direction) -> int {
    match dir {
        Direction::Up => p,
        Direction::Left => p,
        _ => len - p,
    }
}

/// Where a robot starting at `p` stops when sent in direction `dir`.
pub open spec fn slide(walls: Seq<bool>, robots: Seq<int>, n: int, p: int, dir: Direction) -> int
    decreases slide_measure(walls.len() as int, p, dir),
{
    match step(walls.len() as int, n, p, dir) {
        Some(q) => if blocked(walls, robots, q) {
            p
        } else {
            slide(walls, robots, n, q, dir)
        },
        None => p,
    }
}

/// Whether the slide from `p` in direction `dir` passes through `r`.
pub open spec fn on_path(
    walls: Seq<bool>,
    robots: Seq<int>,
    n: int,
    p: int,
    dir: Direction,
    r: int,
) -> bool
    decreases slide_measure(walls.len() as int, p, dir),
{
    match step(walls.len() as int, n, p, dir) {
        Some(q) => !blocked(walls, robots, q) && (q == r || on_path(walls, robots, n, q, dir, r)),
        None => false,
    }
}

/// Whether `r` lies strictly after `p` and no further than `e`, on the line
/// from `p` in direction `dir`.
pub open spec fn between(n: int, p: int, e: int, dir: Direction, r: int) -> bool {
    match dir {
        Direction::Right => p < r <= e,
        Direction::Left => e <= r < p,
        Direction::Down => p < r <= e && r % n == p % n,
        Direction::Up => e <= r < p && r % n == p % n,
    }
}

/// Where robot `i` ends up when sent in direction `dir`.
/// A robot that stands inside a wall cannot move.
pub open spec fn robot_dest(walls: Seq<bool>, n: int, robots: Seq<int>, i: int, dir: Direction) -> int {
    let p = robots[i];
    if walls[p] {
        p
    } else {
        slide(walls, robots, n, p, dir)
    }
}

/// The placement after sending robot `i` in direction `dir`; a move by a
/// robot that does not exist changes nothing.
pub open spec fn apply_move(
    walls: Seq<bool>,
    n: int,
    robots: Seq<int>,
    i: int,
    dir: Direction,
) -> Seq<int> {
    if 0 <= i < robots.len() {
        robots.update(i, robot_dest(walls, n, robots, i, dir))
    } else {
        robots
    }
}

/// The placement after playing `moves` (robot, direction), in order.
pub open spec fn run(walls: Seq<bool>, n: int, robots: Seq<int>, moves: Seq<(int, Direction)>) -> Seq<
    int,
>
    decreases moves.len(),
{
    if moves.len() == 0 {
        robots
    } else {
        let prev = run(walls, n, robots, moves.drop_last());
        apply_move(walls, n, prev, moves.last().0, moves.last().1)
    }
}

/// A placement the search can work with: every robot on the board, and a
/// robot inside a wall only at index 0, where an unplaced robot is put.
pub open spec fn placement_ok(walls: Seq<bool>, robots: Seq<int>) -> bool {
    forall|j: int|
        0 <= j < robots.len() ==> 0 <= #[trigger] robots[j] < walls.len() && (walls[robots[j]]
            ==> robots[j] == 0)
}

/// A board of width `n` whose cells fill `n` rows.
pub open spec fn square(walls: Seq<bool>, n: int) -> bool {
    n >= 1 && walls.len() == n * n
}

// ------------------------------------------------------------------------
// Arithmetic on row-major indices
// ------------------------------------------------------------------------

/// A cell's column lies in `0..n`, and its row and column give it back.
pub proof fn lemma_mod_bounds(p: int, n: int)
    requires
        p >= 0,
        n >= 1,
    ensures
        0 <= p % n < n,
        p % n <= p,
        p == n * (p / n) + p % n,
        p / n >= 0,
{
    lemma_mod_pos_bound(p, n);
    lemma_fundamental_div_mod(p, n);
    if p / n < 0 {
        assert(n * (p / n) < 0) by (nonlinear_arith)
            requires
                n >= 1,
                p / n < 0,
        ;
    }
    assert(n * (p / n) >= 0) by (nonlinear_arith)
        requires
            n >= 1,
            p / n >= 0,
    ;
}

/// A step right within a row moves one column right.
pub proof fn lemma_mod_next(p: int, n: int)
    requires
        p >= 0,
        n >= 1,
        p % n < n - 1,
    ensures
        (p + 1) % n == p % n + 1,
{
    lemma_mod_bounds(p, n);
    assert((p / n) * n == n * (p / n)) by (nonlinear_arith);
    lemma_fundamental_div_mod_converse(p + 1, n, p / n, p % n + 1);
}

/// A step left within a row moves one column left.
pub proof fn lemma_mod_prev(p: int, n: int)
    requires
        p >= 1,
        n >= 1,
        p % n > 0,
    ensures
        (p - 1) % n == p % n - 1,
{
    lemma_mod_bounds(p, n);
    assert((p / n) * n == n * (p / n)) by (nonlinear_arith);
    lemma_fundamental_div_mod_converse(p - 1, n, p / n, p % n - 1);
}

/// A step a row up or down keeps the column.
pub proof fn lemma_mod_shift(p: int, n: int)
    requires
        n >= 1,
    ensures
        (p + n) % n == p % n,
        (p - n) % n == p % n,
{
    lemma_mod_add_multiples_vanish(p, n);
    lemma_mod_sub_multiples_vanish(p, n);
    assert(n + p == p + n);
    assert(-n + p == p - n);
}

/// Two cells of one column lie at least a row apart.
pub proof fn lemma_same_column_gap(p: int, r: int, n: int)
    requires
        0 <= p < r,
        n >= 1,
        r % n == p % n,
    ensures
        r >= p + n,
{
    lemma_mod_bounds(p, n);
    lemma_mod_bounds(r, n);
    let a = p / n;
    let b = r / n;
    assert(n * b - n * a == r - p);
    assert(b > a) by (nonlinear_arith)
        requires
            n * b - n * a > 0,
            n >= 1,
    ;
    assert(n * b - n * a >= n) by (nonlinear_arith)
        requires
            b >= a + 1,
            n >= 1,
    ;
}

/// The row of `p` starts at `p - p % n` and is `n` cells long.
pub proof fn lemma_row_bounds(p: int, n: int)
    requires
        p >= 0,
        n >= 1,
    ensures
        (p / n) * n == p - p % n,
        ((p / n) + 1) * n == p - p % n + n,
{
    lemma_mod_bounds(p, n);
    assert((p / n) * n == n * (p / n)) by (nonlinear_arith);
    assert(((p / n) + 1) * n == (p / n) * n + n) by (nonlinear_arith);
}

// ------------------------------------------------------------------------
// Facts about slides
// ------------------------------------------------------------------------

/// A sequence with one more item holds what it held and that item.
pub proof fn lemma_seq_push_contains(robots: Seq<int>, r: int, q: int)
    ensures
        robots.push(r).contains(q) <==> (robots.contains(q) || q == r),
{
    if robots.contains(q) {
        let j = choose|j: int| 0 <= j < robots.len() && robots[j] == q;
        assert(robots.push(r)[j] == q);
    }
    if q == r {
        assert(robots.push(r)[robots.len() as int] == q);
    }
    if robots.push(r).contains(q) {
        let j = choose|j: int| 0 <= j < robots.len() + 1 && robots.push(r)[j] == q;
        if j < robots.len() {
            assert(robots[j] == q);
        }
    }
}

/// Where a slide ends: on the board, in the line of the move, and either at
/// the start or on a free cell.
pub proof fn lemma_slide_facts(walls: Seq<bool>, robots: Seq<int>, n: int, p: int, dir: Direction)
    requires
        n >= 1,
        0 <= p < walls.len(),
    ensures
        ({
            let s = slide(walls, robots, n, p, dir);
            &&& 0 <= s < walls.len()
            &&& s == p || !blocked(walls, robots, s)
            &&& match dir {
                Direction::Right => p <= s <= p + (n - 1 - p % n),
                Direction::Left => p - p % n <= s <= p,
                Direction::Down => p <= s && s % n == p % n,
                Direction::Up => s <= p && s % n == p % n,
            }
        }),
    decreases slide_measure(walls.len() as int, p, dir),
{
    lemma_mod_bounds(p, n);
    match step(walls.len() as int, n, p, dir) {
        Some(q) => {
            if !blocked(walls, robots, q) {
                lemma_slide_facts(walls, robots, n, q, dir);
                match dir {
                    Direction::Right => {
                        lemma_mod_next(p, n);
                    },
                    Direction::Left => {
                        lemma_mod_prev(p, n);
                    },
                    Direction::Down => {
                        lemma_mod_shift(p, n);
                    },
                    Direction::Up => {
                        lemma_mod_shift(p, n);
                    },
                }
            }
        },
        None => {},
    }
}

/// The slide passes through `r` exactly when `r` lies between its start and
/// its end, in the line of the move.
pub proof fn lemma_on_path(
    walls: Seq<bool>,
    robots: Seq<int>,
    n: int,
    p: int,
    dir: Direction,
    r: int,
)
    requires
        n >= 1,
        0 <= p < walls.len(),
    ensures
        on_path(walls, robots, n, p, dir, r) <==> between(
            n,
            p,
            slide(walls, robots, n, p, dir),
            dir,
            r,
        ),
    decreases slide_measure(walls.len() as int, p, dir),
{
    lemma_mod_bounds(p, n);
    match step(walls.len() as int, n, p, dir) {
        Some(q) => {
            if !blocked(walls, robots, q) {
                lemma_on_path(walls, robots, n, q, dir, r);
                lemma_slide_facts(walls, robots, n, q, dir);
                match dir {
                    Direction::Right => {},
                    Direction::Left => {},
                    Direction::Down => {
                        lemma_mod_shift(p, n);
                        if p < r && r % n == p % n {
                            lemma_same_column_gap(p, r, n);
                        }
                    },
                    Direction::Up => {
                        lemma_mod_shift(p, n);
                        if 0 <= r < p && r % n == p % n {
                            lemma_same_column_gap(r, p, n);
                        }
                        if r < 0 {
                            lemma_slide_facts(walls, robots, n, p, dir);
                        }
                    },
                }
            }
        },
        None => {},
    }
}

/// A slide that has reached `t` goes on to the next cell when that cell is free.
pub proof fn lemma_on_path_extend(
    walls: Seq<bool>,
    robots: Seq<int>,
    n: int,
    p: int,
    dir: Direction,
    t: int,
    q: int,
)
    requires
        t == p || on_path(walls, robots, n, p, dir, t),
        step(walls.len() as int, n, t, dir) == Some(q),
        !blocked(walls, robots, q),
    ensures
        on_path(walls, robots, n, p, dir, q),
    decreases slide_measure(walls.len() as int, p, dir),
{
    if t != p {
        let p1 = step(walls.len() as int, n, p, dir)->0;
        if p1 != t {
            lemma_on_path_extend(walls, robots, n, p1, dir, t, q);
        }
    }
}

/// One more robot on the board stops a slide just before it, if it stands
/// in the way, and changes nothing otherwise.
pub proof fn lemma_slide_push(
    walls: Seq<bool>,
    robots: Seq<int>,
    n: int,
    p: int,
    dir: Direction,
    r: int,
)
    requires
        n >= 1,
        0 <= p < walls.len(),
    ensures
        slide(walls, robots.push(r), n, p, dir) == if on_path(walls, robots, n, p, dir, r) {
            r - delta(dir, n)
        } else {
            slide(walls, robots, n, p, dir)
        },
    decreases slide_measure(walls.len() as int, p, dir),
{
    match step(walls.len() as int, n, p, dir) {
        Some(q) => {
            lemma_seq_push_contains(robots, r, q);
            if !blocked(walls, robots, q) && q != r {
                lemma_slide_push(walls, robots, n, q, dir, r);
            }
        },
        None => {},
    }
}

} // verus!
