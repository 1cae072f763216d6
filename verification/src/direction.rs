use vstd::prelude::*;

use crate::position::Position;

verus! {

/// One of the four directions a robot can be sent in.
#[derive(Debug, Clone, Copy, PartialEq, Eq, Structural)]
pub enum Direction {
    Up,
    Right,
    Down,
    Left,
}

/// The direction that undoes `d`.
pub open spec fn opposite(d: Direction) -> Direction {
    match d {
        Direction::Up => Direction::Down,
        Direction::Right => Direction::Left,
        Direction::Down => Direction::Up,
        Direction::Left => Direction::Right,
    }
}

/// The flag that stands for `d` in a packed move: one bit per direction.
pub open spec fn direction_bits(d: Direction) -> u8 {
    match d {
        Direction::Up => 1,
        Direction::Right => 2,
        Direction::Down => 4,
        Direction::Left => 8,
    }
}

/// How much a board index changes when stepping once in direction `d`
/// on a board whose rows are `size` cells wide.
pub open spec fn delta(d: Direction, size: int) -> int {
    match d {
        Direction::Up => -size,
        Direction::Right => 1,
        Direction::Down => size,
        Direction::Left => -1,
    }
}

/// The letter by which a direction is printed.
pub open spec fn direction_letter(d: Direction) -> char {
    match d {
        Direction::Up => 'U',
        Direction::Right => 'R',
        Direction::Down => 'D',
        Direction::Left => 'L',
    }
}

/// Turning around twice faces the first way again, and turning around never
/// keeps the direction.
pub proof fn lemma_opposite_involution(d: Direction)
    ensures
        opposite(opposite(d)) == d,
        opposite(d) != d,
{
}

/// Stepping the opposite way undoes a step: the changes of index cancel.
pub proof fn lemma_opposite_delta(d: Direction, size: int)
    ensures
        delta(opposite(d), size) == -delta(d, size),
{
}

/// A step moves one cell: up and down change the row by one and keep the
/// column; right and left, where the row goes on, change the column by one
/// and keep the row.
pub proof fn lemma_delta_one_cell(p: int, n: int, d: Direction)
    requires
        n >= 1,
        p >= 0,
        p + delta(d, n) >= 0,
    ensures
        d == Direction::Up ==> (p + delta(d, n)) / n == p / n - 1 && (p + delta(d, n)) % n == p % n,
        d == Direction::Down ==> (p + delta(d, n)) / n == p / n + 1 && (p + delta(d, n)) % n == p % n,
        d == Direction::Right && p % n + 1 < n ==> (p + delta(d, n)) / n == p / n && (p + delta(d, n)) % n
            == p % n + 1,
        d == Direction::Left && p % n >= 1 ==> (p + delta(d, n)) / n == p / n && (p + delta(d, n)) % n == p
            % n - 1,
{
    let q = p / n;
    let r = p % n;
    vstd::arithmetic::div_mod::lemma_fundamental_div_mod(p, n);
    assert(0 <= r < n) by {
        vstd::arithmetic::div_mod::lemma_mod_pos_bound(p, n);
    }
    assert(p == q * n + r) by (nonlinear_arith)
        requires
            p == n * q + r,
    ;
    let x = p + delta(d, n);
    match d {
        Direction::Up => {
            assert(x == (q - 1) * n + r) by (nonlinear_arith)
                requires
                    p == q * n + r,
                    x == p - n,
            ;
            vstd::arithmetic::div_mod::lemma_fundamental_div_mod_converse(x, n, q - 1, r);
        },
        Direction::Down => {
            assert(x == (q + 1) * n + r) by (nonlinear_arith)
                requires
                    p == q * n + r,
                    x == p + n,
            ;
            vstd::arithmetic::div_mod::lemma_fundamental_div_mod_converse(x, n, q + 1, r);
        },
        Direction::Right => {
            if r + 1 < n {
                vstd::arithmetic::div_mod::lemma_fundamental_div_mod_converse(x, n, q, r + 1);
            }
        },
        Direction::Left => {
            if r >= 1 {
                vstd::arithmetic::div_mod::lemma_fundamental_div_mod_converse(x, n, q, r - 1);
            }
        },
    }
}

impl Direction {
    /// Whether `other` points the opposite way of `self`.
    pub fn is_opposite(&self, other: &Self) -> (r: bool)
        ensures
            r == (*other == opposite(*self)),
    {
        match *self {
            Direction::Up => *other == Direction::Down,
            Direction::Right => *other == Direction::Left,
            Direction::Down => *other == Direction::Up,
            Direction::Left => *other == Direction::Right,
        }
    }

    /// The direction that undoes this one.
    pub fn opposite(&self) -> (r: Direction)
        ensures
            r == opposite(*self),
            r != *self,
            forall|size: int| #[trigger] delta(r, size) == -delta(*self, size),
    {
        match *self {
            Direction::Up => Direction::Down,
            Direction::Right => Direction::Left,
            Direction::Down => Direction::Up,
            Direction::Left => Direction::Right,
        }
    }

    /// What should be added to an index to move in this direction on a board
    /// of width `size`.
    pub fn delta_idx<P: Position>(&self, size: P) -> (r: i32)
        requires
            size.pos_value() <= i32::MAX,
        ensures
            r == delta(*self, size.pos_value() as int),
    {
        match *self {
            Direction::Up => -size.to_i32(),
            Direction::Right => 1,
            Direction::Down => size.to_i32(),
            Direction::Left => -1,
        }
    }

    /// The flag of this direction in a packed move.
    pub fn bits(&self) -> (r: u8)
        ensures
            r == direction_bits(*self),
    {
        match *self {
            Direction::Up => 1,
            Direction::Right => 2,
            Direction::Down => 4,
            Direction::Left => 8,
        }
    }

    /// The letter by which this direction is printed: `U`, `R`, `D` or `L`.
    pub fn letter(&self) -> (r: char)
        ensures
            r == direction_letter(*self),
    {
        match *self {
            Direction::Up => 'U',
            Direction::Right => 'R',
            Direction::Down => 'D',
            Direction::Left => 'L',
        }
    }
}

} // verus!
