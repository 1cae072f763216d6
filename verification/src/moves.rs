use vstd::prelude::*;

use crate::direction::{Direction, direction_bits};
use crate::position::Position;

verus! {

/// The index of a robot on the board.
pub type Robot = u8;

/// Move a robot to an index and remember the direction for reconstructing the solution.
#[derive(Debug, Clone, Copy)]
pub struct Move<P> {
    pub to: P,
    pub robot: Robot,
    pub dir: Direction,
}

/// A move as the specifications see it: which robot, where it ends, and the direction.
pub struct MoveView {
    pub robot: int,
    pub to: int,
    pub dir: Direction,
}

impl<P: Position> Move<P> {
    /// The move with its target as an index.
    pub open spec fn view(self) -> MoveView {
        MoveView { robot: self.robot as int, to: self.to.pos_value() as int, dir: self.dir }
    }

    /// Shorthand for making a new move.
    pub fn new(robot: Robot, to: P, dir: Direction) -> (r: Self)
        ensures
            r.robot == robot,
            r.to == to,
            r.dir == dir,
    {
        Move { to: to, robot: robot, dir: dir }
    }
}

/// Compact representation of a move: the robot in the low four bits, the
/// direction flag in the high four bits.
#[derive(Clone, Copy, Debug, PartialEq, Eq, Structural)]
pub struct MoveLite(u8);

/// The byte that packs `robot` and `dir`.
pub open spec fn pack(robot: u8, dir: Direction) -> u8 {
    robot | ((direction_bits(dir) << 4u8) as u8)
}

impl MoveLite {
    /// The packed byte.
    pub closed spec fn byte(self) -> u8 {
        self.0
    }

    /// Whether the high four bits hold exactly one direction flag.
    pub closed spec fn wf(self) -> bool {
        let d = self.0 >> 4u8;
        d == 1 || d == 2 || d == 4 || d == 8
    }

    /// The robot in the low four bits.
    pub closed spec fn spec_robot(self) -> u8 {
        self.0 & 15u8
    }

    /// The direction its flag in the high four bits stands for.
    pub closed spec fn spec_direction(self) -> Direction {
        let d = self.0 >> 4u8;
        if d == 1 {
            Direction::Up
        } else if d == 2 {
            Direction::Right
        } else if d == 4 {
            Direction::Down
        } else {
            Direction::Left
        }
    }

    /// The packed move of `robot` and `dir`.
    pub closed spec fn spec_new(robot: u8, dir: Direction) -> MoveLite {
        MoveLite(pack(robot, dir))
    }

    /// Pack a robot and a direction.
    pub fn new(robot: Robot, dir: Direction) -> (r: Self)
        ensures
            r == MoveLite::spec_new(robot, dir),
            r.byte() == pack(robot, dir),
            robot < 16 ==> r.wf() && r.spec_robot() == robot && r.spec_direction() == dir,
    {
        let b = dir.bits();
        let r = MoveLite(robot | (b << 4u8));
        proof {
            if robot < 16 {
                lemma_pack_unpack(r, robot, dir);
            }
        }
        r
    }

    /// The robot that moves.
    pub fn robot(&self) -> (r: Robot)
        ensures
            r == self.spec_robot(),
    {
        self.0 & 0b1111
    }

    /// The direction it moves in.
    pub fn direction(&self) -> (r: Direction)
        requires
            self.wf(),
        ensures
            r == self.spec_direction(),
    {
        let d = self.0 >> 4u8;
        if d == 1 {
            Direction::Up
        } else if d == 2 {
            Direction::Right
        } else if d == 4 {
            Direction::Down
        } else {
            Direction::Left
        }
    }
}

/// Packing a robot below 16 with a direction and unpacking it gives both back.
pub proof fn lemma_pack_unpack(m: MoveLite, robot: u8, dir: Direction)
    requires
        robot < 16,
        m.byte() == pack(robot, dir),
    ensures
        m.wf(),
        m.spec_robot() == robot,
        m.spec_direction() == dir,
{
    let b = direction_bits(dir);
    assert(b == 1 || b == 2 || b == 4 || b == 8);
    let byte = m.0;
    assert(byte & 15u8 == robot && byte >> 4u8 == b) by (bit_vector)
        requires
            robot < 16,
            b == 1 || b == 2 || b == 4 || b == 8,
            byte == robot | ((b << 4u8) as u8),
    ;
}

/// Two packed moves of robots below 16 are equal exactly when they move the
/// same robot the same way.
pub proof fn lemma_pack_injective(r1: u8, d1: Direction, r2: u8, d2: Direction)
    requires
        r1 < 16,
        r2 < 16,
    ensures
        (pack(r1, d1) == pack(r2, d2)) <==> (r1 == r2 && d1 == d2),
{
    if pack(r1, d1) == pack(r2, d2) {
        lemma_pack_unpack(MoveLite(pack(r1, d1)), r1, d1);
        lemma_pack_unpack(MoveLite(pack(r2, d2)), r2, d2);
    }
}

/// Two well-formed packed moves are the same value exactly when they move
/// the same robot in the same direction.
pub proof fn lemma_move_lite_eq(a: MoveLite, b: MoveLite)
    requires
        a.wf(),
        b.wf(),
    ensures
        (a == b) <==> (a.spec_robot() == b.spec_robot() && a.spec_direction() == b.spec_direction()),
{
    let x = a.0;
    let y = b.0;
    if a.spec_robot() == b.spec_robot() && a.spec_direction() == b.spec_direction() {
        assert(x >> 4u8 == y >> 4u8);
        assert(x == y) by (bit_vector)
            requires
                x & 15u8 == y & 15u8,
                x >> 4u8 == y >> 4u8,
        ;
    }
}

} // verus!
