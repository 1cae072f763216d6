use vstd::prelude::*;

use crate::direction::{Direction, delta};
use crate::game::{
    blocked, slide_measure,
    lemma_mod_bounds, lemma_mod_next, lemma_mod_prev, lemma_mod_shift, lemma_on_path, lemma_row_bounds,
    lemma_same_column_gap, lemma_slide_facts, lemma_slide_push, placement_ok, robot_dest, slide, square,
    step,
};
use crate::moves::{Move, MoveView, Robot};
use crate::position::Position;
use crate::robots::{Robots, values};

verus! {

/// Where you end up by going in each direction, disregarding the robots.
#[derive(Debug, Clone, Copy)]
pub struct Endpoints<P> {
    pub up: P,
    pub right: P,
    pub down: P,
    pub left: P,
}

impl<P: Position> Endpoints<P> {
    /// The four endpoints as indices: up, right, down, left.
    pub open spec fn view(self) -> (int, int, int, int) {
        (
            self.up.pos_value() as int,
            self.right.pos_value() as int,
            self.down.pos_value() as int,
            self.left.pos_value() as int,
        )
    }
}

/// The endpoints of cell `i`: where a lone robot starting there stops in
/// each direction. A wall cell has all four set to 0.
pub open spec fn endpoints_at(walls: Seq<bool>, n: int, i: int) -> (int, int, int, int) {
    if walls[i] {
        (0, 0, 0, 0)
    } else {
        let none = Seq::<int>::empty();
        (
            slide(walls, none, n, i, Direction::Up),
            slide(walls, none, n, i, Direction::Right),
            slide(walls, none, n, i, Direction::Down),
            slide(walls, none, n, i, Direction::Left),
        )
    }
}

/// The endpoints of every cell of a board.
pub open spec fn endpoints_of(walls: Seq<bool>, n: int) -> Seq<(int, int, int, int)> {
    Seq::new(walls.len(), |i: int| endpoints_at(walls, n, i))
}

/// The endpoints of every cell, as indices.
pub open spec fn endpoints_view<P: Position>(s: Seq<Endpoints<P>>) -> Seq<(int, int, int, int)> {
    s.map_values(|e: Endpoints<P>| e@)
}

/// A board as the specifications see it.
pub struct BoardView {
    /// `true` where a wall stands, row by row.
    pub walls: Seq<bool>,
    /// The width of a row.
    pub size: int,
    /// The cell robot 0 must reach.
    pub goal: int,
    /// Where each robot stands.
    pub robots: Seq<int>,
}

/// Dimensions the search can work with: a square board whose indices fit
/// both the position type and 32-bit index arithmetic.
pub open spec fn geometry_ok<P: Position>(v: BoardView) -> bool {
    &&& square(v.walls, v.size)
    &&& v.walls.len() + v.size <= i32::MAX
    &&& v.walls.len() <= P::pos_max() + 1
}

/// A board ready for the search: sensible dimensions, the goal on the board,
/// between one and fifteen robots, placed as `placement_ok` asks.
pub open spec fn search_ok<P: Position>(v: BoardView) -> bool {
    &&& geometry_ok::<P>(v)
    &&& 0 <= v.goal < v.walls.len()
    &&& 1 <= v.robots.len() <= 15
    &&& placement_ok(v.walls, v.robots)
}

/// A board is ready for the search exactly when it is square with a width of
/// at least one, small enough for the index arithmetic and the position
/// type, has its goal on any of its cells (the first one included), has one
/// to fifteen robots, and each robot stands on a cell of the board that is
/// free, or on the first cell.
pub proof fn lemma_search_ok_exactly<P: Position>(v: BoardView)
    ensures
        search_ok::<P>(v) <==> {
            &&& v.size >= 1
            &&& v.walls.len() == v.size * v.size
            &&& v.walls.len() + v.size <= i32::MAX
            &&& v.walls.len() <= P::pos_max() + 1
            &&& 0 <= v.goal < v.walls.len()
            &&& 1 <= v.robots.len() <= 15
            &&& forall|j: int|
                0 <= j < v.robots.len() ==> 0 <= #[trigger] v.robots[j] < v.walls.len() && (v.walls[v.robots[j]]
                    ==> v.robots[j] == 0)
        },
{
}

/// Two intended types for T:
/// - bool: The raw board as read from input, true index has a wall
/// - Endpoints: What indices can be reached from each index in each direction, disregarding where the robots are placed
pub struct Board<T, P> {
    board: Vec<T>,
    robots: Robots<P>,
    goal: P,
    size: P,
    walls: Ghost<Seq<bool>>,
}

impl<T, P: Position> Board<T, P> {
    /// The board as the specifications see it.
    pub closed spec fn view(&self) -> BoardView {
        BoardView {
            walls: self.walls@,
            size: self.size.pos_value() as int,
            goal: self.goal.pos_value() as int,
            robots: self.robots@,
        }
    }

    /// The stored cells.
    pub closed spec fn cells(&self) -> Seq<T> {
        self.board@
    }

    /// Where the robots start.
    pub fn robots(&self) -> (r: &Robots<P>)
        ensures
            r@ == self@.robots,
    {
        &self.robots
    }

    /// The cell robot 0 must reach.
    pub fn goal(&self) -> (r: P)
        ensures
            r.pos_value() == self@.goal,
    {
        self.goal
    }

    /// The width of a row.
    pub fn size(&self) -> (r: P)
        ensures
            r.pos_value() == self@.size,
    {
        self.size
    }

    /// The number of cells.
    pub fn len(&self) -> (r: usize)
        ensures
            r == self.cells().len(),
    {
        self.board.len()
    }

    /// Is `i` a reachable index starting at `from` in the given direction
    /// without considering walls.
    pub fn within_board(&self, i: i32, from: P, dir: &Direction) -> (r: bool)
        requires
            geometry_ok::<P>(self@),
            self.cells().len() == self@.walls.len(),
            i >= 0 || *dir == Direction::Up || *dir == Direction::Down,
            from.pos_value() < self@.walls.len(),
        ensures
            r == within(self@.walls.len() as int, self@.size, i as int, from.pos_value() as int, *dir),
            *dir == Direction::Up ==> (r <==> i >= 0),
            *dir == Direction::Down ==> (r <==> 0 <= i < self@.walls.len()),
            *dir == Direction::Right ==> (r <==> (i < 0 || (i as int) / self@.size <= (from.pos_value() as int) / self@.size)),
            *dir == Direction::Left ==> (r <==> (i >= 0 && (i as int) / self@.size >= (from.pos_value() as int) / self@.size)),
    {
        let n = self.size.to_usize();
        let f = from.to_usize();
        let iu = i as usize;
        proof {
            lemma_row_end_fits(f as int, n as int);
            lemma_within_rows(self@.walls.len() as int, n as int, i as int, f as int, *dir);
        }
        match *dir {
            Direction::Up => i >= 0,
            Direction::Right => iu < (f / n + 1) * n,
            Direction::Down => i >= 0 && iu < self.board.len(),
            Direction::Left => iu >= (f / n) * n,
        }
    }
}

/// The test `within_board` makes.
pub open spec fn within(len: int, n: int, i: int, from: int, dir: Direction) -> bool {
    match dir {
        Direction::Up => i >= 0,
        Direction::Right => i < (from / n + 1) * n,
        Direction::Down => 0 <= i < len,
        Direction::Left => i >= (from / n) * n,
    }
}

/// The test `within_board` makes, by rows: up, the index is not negative;
/// down, it is a cell of the board; right, it lies in no later row than
/// `from`; left, it lies in no earlier row than `from`.
pub proof fn lemma_within_rows(len: int, n: int, i: int, from: int, dir: Direction)
    requires
        n >= 1,
        from >= 0,
    ensures
        dir == Direction::Up ==> (within(len, n, i, from, dir) <==> i >= 0),
        dir == Direction::Down ==> (within(len, n, i, from, dir) <==> 0 <= i < len),
        dir == Direction::Right ==> (within(len, n, i, from, dir) <==> (i < 0 || i / n <= from / n)),
        dir == Direction::Left ==> (within(len, n, i, from, dir) <==> (i >= 0 && i / n >= from / n)),
{
    let q = from / n;
    lemma_mod_bounds(from, n);
    if i >= 0 {
        lemma_mod_bounds(i, n);
        let a = i / n;
        let r = i % n;
        assert(i == n * a + r);
        assert(a <= q ==> i < (q + 1) * n) by (nonlinear_arith)
            requires
                i == n * a + r,
                0 <= r < n,
                n >= 1,
        ;
        assert(a > q ==> i >= (q + 1) * n) by (nonlinear_arith)
            requires
                i == n * a + r,
                0 <= r,
                n >= 1,
        ;
        assert(a >= q ==> i >= q * n) by (nonlinear_arith)
            requires
                i == n * a + r,
                0 <= r,
                n >= 1,
        ;
        assert(a < q ==> i < q * n) by (nonlinear_arith)
            requires
                i == n * a + r,
                r < n,
                n >= 1,
        ;
    } else {
        assert(q * n >= 0) by (nonlinear_arith)
            requires
                q >= 0,
                n >= 1,
        ;
        assert((q + 1) * n >= 0) by (nonlinear_arith)
            requires
                q >= 0,
                n >= 1,
        ;
    }
}

/// On a square board the row of any cell ends within the board.
pub proof fn lemma_row_end_fits(f: int, n: int)
    requires
        n >= 1,
        0 <= f < n * n,
    ensures
        (f / n + 1) * n <= n * n,
        (f / n) * n <= f,
        f / n >= 0,
{
    lemma_mod_bounds(f, n);
    lemma_row_bounds(f, n);
    if f / n >= n {
        assert(n * (f / n) >= n * n) by (nonlinear_arith)
            requires
                f / n >= n,
                n >= 1,
        ;
    }
    assert((f / n + 1) * n <= n * n) by (nonlinear_arith)
        requires
            f / n + 1 <= n,
            n >= 1,
    ;
}

/// The condition that keeps a slide going from `t` is the one the loop in
/// `endpoint_in_direction` tests, when `t` is in the row of `from`.
pub proof fn lemma_within_step(len: int, n: int, from: int, t: int, dir: Direction)
    requires
        n >= 1,
        len == n * n,
        0 <= from < len,
        0 <= t < len,
        (dir == Direction::Right || dir == Direction::Left) ==> t - t % n == from - from % n,
    ensures
        t + delta(dir, n) >= 0 ==> (within(len, n, t + delta(dir, n), from, dir) <==> step(
            len,
            n,
            t,
            dir,
        ) is Some),
        t + delta(dir, n) < 0 ==> step(len, n, t, dir) is None,
        step(len, n, t, dir) is Some ==> step(len, n, t, dir)->0 == t + delta(dir, n),
{
    lemma_mod_bounds(t, n);
    lemma_mod_bounds(from, n);
    lemma_row_bounds(from, n);
    lemma_row_end_fits(from, n);
}

impl<P: Position> Board<bool, P> {
    /// The stored cells are the walls.
    pub open spec fn wall_board_ok(&self) -> bool {
        &&& geometry_ok::<P>(self@)
        &&& self.cells() == self@.walls
    }

    /// A board with the given cells, robots, goal and width.
    pub(crate) fn from_parts(board: Vec<bool>, robots: Robots<P>, goal: P, size: P) -> (r: Self)
        ensures
            r.cells() == board@,
            r@.walls == board@,
            r@.robots == robots@,
            r@.goal == goal.pos_value(),
            r@.size == size.pos_value(),
    {
        let ghost w = board@;
        Board { board, robots, goal, size, walls: Ghost(w) }
    }

    /// Whether the board can be searched: see `search_ok`.
    pub fn ready_for_search(&self) -> (r: bool)
        requires
            self.cells() == self@.walls,
        ensures
            r == search_ok::<P>(self@),
            r == ({
                let v = self@;
                &&& v.size >= 1
                &&& v.walls.len() == v.size * v.size
                &&& v.walls.len() + v.size <= i32::MAX
                &&& v.walls.len() <= P::pos_max() + 1
                &&& 0 <= v.goal < v.walls.len()
                &&& 1 <= v.robots.len() <= 15
                &&& forall|j: int|
                    0 <= j < v.robots.len() ==> 0 <= #[trigger] v.robots[j] < v.walls.len() && (
                    v.walls[v.robots[j]] ==> v.robots[j] == 0)
            }),
    {
        proof {
            P::lemma_pos_max();
            self.size.lemma_pos_bounds();
        }
        let n = self.size.to_usize() as u64;
        let len = self.board.len();
        assert(n * n + n <= u64::MAX) by (nonlinear_arith)
            requires
                n <= u32::MAX,
        ;
        if n < 1 || n * n != len as u64 {
            return false;
        }
        if len as u64 + n > i32::MAX as u64 || len as u64 > P::max_index() + 1 {
            return false;
        }
        if self.goal.to_usize() >= len {
            return false;
        }
        let count = self.robots.len();
        if count < 1 || count > 15 {
            return false;
        }
        let mut i: usize = 0;
        while i < count
            invariant
                count == self@.robots.len(),
                len == self@.walls.len(),
                self.cells() == self@.walls,
                i <= count,
                forall|j: int|
                    0 <= j < i ==> 0 <= #[trigger] self@.robots[j] < len && (self@.walls[self@.robots[j]]
                        ==> self@.robots[j] == 0),
            decreases count - i,
        {
            let p = self.robots.get(i).to_usize();
            if p >= len || (self.board[p] && p != 0) {
                return false;
            }
            i = i + 1;
        }
        true
    }

    /// Whether cell `i` holds a wall.
    pub fn is_wall(&self, i: usize) -> (r: bool)
        requires
            i < self.cells().len(),
        ensures
            r == self.cells()[i as int],
    {
        self.board[i]
    }

    /// What index is reachable from the given position in the given direction
    /// when no robot is in the way.
    pub fn endpoint_in_direction(&self, from: P, dir: Direction) -> (r: P)
        requires
            self.wall_board_ok(),
            from.pos_value() < self@.walls.len(),
        ensures
            r.pos_value() == slide(self@.walls, Seq::empty(), self@.size, from.pos_value() as int, dir),
    {
        let ghost walls = self@.walls;
        let ghost n = self@.size;
        let ghost len = walls.len() as int;
        let ghost f = from.pos_value() as int;
        let mut to = from;
        let di = dir.delta_idx(self.size);
        let mut next: i32 = to.to_i32() + di;
        let ghost mut t: int = f;
        proof {
            lemma_mod_bounds(f, n);
            lemma_within_step(len, n, f, t, dir);
        }
        while next >= 0 && self.within_board(next, from, &dir) && !self.board[next as usize]
            invariant
                self.wall_board_ok(),
                walls == self@.walls,
                n == self@.size,
                len == walls.len(),
                0 <= f < len,
                f == from.pos_value(),
                0 <= t < len,
                to.pos_value() == t,
                next == t + delta(dir, n),
                di == delta(dir, n),
                (dir == Direction::Right || dir == Direction::Left) ==> t - t % n == f - f % n,
                slide(walls, Seq::empty(), n, t, dir) == slide(walls, Seq::empty(), n, f, dir),
                next >= 0 && within(len, n, next as int, f, dir) ==> next < len,
            decreases slide_measure(len, t, dir),
        {
            proof {
                lemma_within_step(len, n, f, t, dir);
                lemma_mod_bounds(t, n);
                let q = next as int;
                assert(step(len, n, t, dir) == Some(q));
                assert(!blocked(walls, Seq::<int>::empty(), q));
                if dir == Direction::Right {
                    lemma_mod_next(t, n);
                }
                if dir == Direction::Left {
                    lemma_mod_prev(t, n);
                }
            }
            to = P::from_i32(next);
            proof {
                t = next as int;
            }
            next = next + di;
            proof {
                lemma_within_step(len, n, f, t, dir);
            }
        }
        proof {
            lemma_within_step(len, n, f, t, dir);
            if next >= 0 {
                if step(len, n, t, dir) is Some {
                    assert(walls[next as int]);
                }
            }
        }
        to
    }

    /// Make an endpoint board from the current one.
    /// This happens only once before the search starts, so it doesn't have to be very fast.
    pub fn to_endpoints_board(&self) -> (r: Board<Endpoints<P>, P>)
        requires
            self.wall_board_ok(),
        ensures
            r@ == self@,
            endpoints_view(r.cells()) == endpoints_of(self@.walls, self@.size),
    {
        let ghost walls = self@.walls;
        let ghost sn = self@.size;
        let n = self.size.to_usize();
        let len = self.board.len();
        let mut board: Vec<Endpoints<P>> = Vec::with_capacity(len);
        let mut idx: usize = 0;
        proof {
            P::lemma_pos_max();
        }
        while idx < len
            invariant
                self.wall_board_ok(),
                walls == self@.walls,
                sn == self@.size,
                n == sn,
                len == walls.len(),
                idx <= len,
                board@.len() == idx,
                forall|j: int| 0 <= j < idx ==> (#[trigger] board@[j])@ == endpoints_at(walls, sn, j),
            decreases len - idx,
        {
            let ghost gi = idx as int;
            proof {
                lemma_mod_bounds(gi, sn);
            }
            if self.board[idx] {
                let z = P::from_usize(0);
                board.push(Endpoints { up: z, right: z, down: z, left: z });
            } else {
                let i = P::from_usize(idx);
                let (left, right) = if idx % n == 0 || self.board[idx - 1] {
                    (i, self.endpoint_in_direction(i, Direction::Right))
                } else {
                    let prev = board[idx - 1];
                    proof {
                        lemma_mod_prev(gi, sn);
                        assert(prev@ == endpoints_at(walls, sn, gi - 1));
                        assert(step(len as int, sn, gi - 1, Direction::Right) == Some(gi));
                        assert(step(len as int, sn, gi, Direction::Left) == Some(gi - 1));
                    }
                    (prev.left, prev.right)
                };
                let (up, down) = if idx < n || self.board[idx - n] {
                    (i, self.endpoint_in_direction(i, Direction::Down))
                } else {
                    let prev = board[idx - n];
                    proof {
                        assert(prev@ == endpoints_at(walls, sn, gi - sn));
                        assert(step(len as int, sn, gi - sn, Direction::Down) == Some(gi));
                        assert(step(len as int, sn, gi, Direction::Up) == Some(gi - sn));
                    }
                    (prev.up, prev.down)
                };
                board.push(Endpoints { up, right, down, left });
            }
            proof {
                assert(board@[gi]@ == endpoints_at(walls, sn, gi));
            }
            idx = idx + 1;
        }
        proof {
            assert(endpoints_view(board@) =~= endpoints_of(walls, sn));
        }
        Board {
            board,
            robots: self.robots.duplicate(),
            goal: self.goal,
            size: self.size,
            walls: self.walls,
        }
    }
}

/// The move of robot `i` from `p` to `d` in direction `dir`, if it goes anywhere.
pub open spec fn opt_move(i: int, p: int, d: int, dir: Direction) -> Seq<MoveView> {
    if d != p {
        seq![MoveView { robot: i, to: d, dir: dir }]
    } else {
        Seq::empty()
    }
}

/// The moves of robot `i`: up, right, down and left, leaving out those
/// that would not move it.
pub open spec fn robot_moves(walls: Seq<bool>, n: int, rs: Seq<int>, i: int) -> Seq<MoveView> {
    let p = rs[i];
    opt_move(i, p, robot_dest(walls, n, rs, i, Direction::Up), Direction::Up) + opt_move(
        i,
        p,
        robot_dest(walls, n, rs, i, Direction::Right),
        Direction::Right,
    ) + opt_move(i, p, robot_dest(walls, n, rs, i, Direction::Down), Direction::Down) + opt_move(
        i,
        p,
        robot_dest(walls, n, rs, i, Direction::Left),
        Direction::Left,
    )
}

/// The moves of robots `0..k`, robot by robot.
pub open spec fn all_moves(walls: Seq<bool>, n: int, rs: Seq<int>, k: int) -> Seq<MoveView>
    decreases k,
{
    if k <= 0 {
        Seq::empty()
    } else {
        all_moves(walls, n, rs, k - 1) + robot_moves(walls, n, rs, k - 1)
    }
}

/// Moves as the specifications see them.
pub open spec fn moves_view<P: Position>(s: Seq<Move<P>>) -> Seq<MoveView> {
    s.map_values(|m: Move<P>| m@)
}

/// Where a robot at `p` stops in each direction (up, right, down, left)
/// when the robots `rs` are on the board.
pub open spec fn slides_with(walls: Seq<bool>, n: int, rs: Seq<int>, p: int) -> (int, int, int, int) {
    (
        slide(walls, rs, n, p, Direction::Up),
        slide(walls, rs, n, p, Direction::Right),
        slide(walls, rs, n, p, Direction::Down),
        slide(walls, rs, n, p, Direction::Left),
    )
}

/// How `possible_moves` shortens the endpoints of a robot at `p` for a robot at `r`.
pub open spec fn adjust(n: int, p: int, c: (int, int, int, int), r: int) -> (int, int, int, int) {
    let (up, right, down, left) = c;
    if r > p {
        if r <= right {
            (up, r - 1, down, left)
        } else if r <= down && r % n == p % n {
            (up, right, r - n, left)
        } else {
            c
        }
    } else if r < p {
        if r >= left {
            (up, right, down, r + 1)
        } else if r >= up && r % n == p % n {
            (r + n, right, down, left)
        } else {
            c
        }
    } else {
        c
    }
}

/// Shortening the endpoints for one more robot gives the slides with that
/// robot on the board.
pub proof fn lemma_adjust(walls: Seq<bool>, n: int, rs: Seq<int>, p: int, r: int)
    requires
        square(walls, n),
        0 <= p < walls.len(),
        0 <= r < walls.len(),
    ensures
        adjust(n, p, slides_with(walls, n, rs, p), r) == slides_with(walls, n, rs.push(r), p),
{
    lemma_mod_bounds(p, n);
    lemma_mod_bounds(r, n);
    lemma_slide_push(walls, rs, n, p, Direction::Up, r);
    lemma_slide_push(walls, rs, n, p, Direction::Right, r);
    lemma_slide_push(walls, rs, n, p, Direction::Down, r);
    lemma_slide_push(walls, rs, n, p, Direction::Left, r);
    lemma_on_path(walls, rs, n, p, Direction::Up, r);
    lemma_on_path(walls, rs, n, p, Direction::Right, r);
    lemma_on_path(walls, rs, n, p, Direction::Down, r);
    lemma_on_path(walls, rs, n, p, Direction::Left, r);
    lemma_slide_facts(walls, rs, n, p, Direction::Right);
    lemma_slide_facts(walls, rs, n, p, Direction::Left);
    if r > p && r % n == p % n {
        lemma_same_column_gap(p, r, n);
    }
    if r < p && r % n == p % n {
        lemma_same_column_gap(r, p, n);
    }
}

impl<P: Position> Board<Endpoints<P>, P> {
    /// The endpoints stored are those of the walls, and the board is ready
    /// for the search.
    pub open spec fn endpoint_board_ok(&self) -> bool {
        &&& search_ok::<P>(self@)
        &&& endpoints_view(self.cells()) == endpoints_of(self@.walls, self@.size)
    }

    /// Push all possible moves on the board given a specific placement of
    /// robots into `moves`.
    /// This happens at each node of the search, so it should be as fast as possible.
    pub fn possible_moves(&self, robots: &Robots<P>, moves: &mut Vec<Move<P>>)
        requires
            self.endpoint_board_ok(),
            robots@.len() <= 255,
            placement_ok(self@.walls, robots@),
        ensures
            moves_view(final(moves)@) == moves_view(old(moves)@) + all_moves(
                self@.walls,
                self@.size,
                robots@,
                robots@.len() as int,
            ),
    {
        let ghost walls = self@.walls;
        let ghost sn = self@.size;
        let ghost rs = robots@;
        let n = self.size.to_usize();
        let count = robots.len();
        let mut i: usize = 0;
        while i < count
            invariant
                self.endpoint_board_ok(),
                walls == self@.walls,
                sn == self@.size,
                n == sn,
                rs == robots@,
                count == rs.len(),
                count <= 255,
                placement_ok(walls, rs),
                i <= count,
                moves_view(moves@) == moves_view(old(moves)@) + all_moves(walls, sn, rs, i as int),
            decreases count - i,
        {
            let robot = robots.get(i);
            let p = robot.to_usize();
            proof {
                assert(endpoints_view(self.cells()).len() == self.cells().len());
                assert(endpoints_of(walls, sn).len() == walls.len());
                assert(0 <= rs[i as int] < walls.len());
            }
            let e = self.board[p];
            proof {
                assert(endpoints_view(self.cells())[p as int] == e@);
            }
            let mut up = e.up.to_usize();
            let mut right = e.right.to_usize();
            let mut down = e.down.to_usize();
            let mut left = e.left.to_usize();
            let ghost wall = walls[p as int];
            proof {
                assert(rs.take(0) =~= Seq::<int>::empty());
            }
            let mut k: usize = 0;
            while k < count
                invariant
                    self.endpoint_board_ok(),
                    walls == self@.walls,
                    sn == self@.size,
                    n == sn,
                    rs == robots@,
                    count == rs.len(),
                    placement_ok(walls, rs),
                    i < count,
                    p == rs[i as int],
                    wall == walls[p as int],
                    k <= count,
                    !wall ==> (up as int, right as int, down as int, left as int) == slides_with(
                        walls,
                        sn,
                        rs.take(k as int),
                        p as int,
                    ),
                    wall ==> p == 0 && up == 0 && right == 0 && down == 0 && left == 0,
                decreases count - k,
            {
                let r = robots.get(k).to_usize();
                let ghost before = (up as int, right as int, down as int, left as int);
                proof {
                    lemma_mod_bounds(p as int, sn);
                    lemma_mod_bounds(r as int, sn);
                    if r > p && r % n == p % n {
                        lemma_same_column_gap(p as int, r as int, sn);
                    }
                    if r < p && r % n == p % n {
                        lemma_same_column_gap(r as int, p as int, sn);
                    }
                }
                if r > p {
                    if r <= right {
                        right = r - 1;
                    } else if r <= down && r % n == p % n {
                        down = r - n;
                    }
                } else if r < p {
                    if r >= left {
                        left = r + 1;
                    } else if r >= up && r % n == p % n {
                        up = r + n;
                    }
                }
                proof {
                    assert((up as int, right as int, down as int, left as int) == adjust(
                        sn,
                        p as int,
                        before,
                        r as int,
                    ));
                    assert(rs.take(k as int).push(rs[k as int]) =~= rs.take(k + 1));
                    if !wall {
                        lemma_adjust(walls, sn, rs.take(k as int), p as int, r as int);
                    }
                }
                k = k + 1;
            }
            proof {
                assert(rs.take(count as int) =~= rs);
                if !wall {
                    lemma_slide_facts(walls, rs, sn, p as int, Direction::Up);
                    lemma_slide_facts(walls, rs, sn, p as int, Direction::Right);
                    lemma_slide_facts(walls, rs, sn, p as int, Direction::Down);
                    lemma_slide_facts(walls, rs, sn, p as int, Direction::Left);
                }
                P::lemma_pos_max();
            }
            let ri = i as Robot;
            let ghost before_moves = moves_view(moves@);
            if up != p {
                moves.push(Move::new(ri, P::from_usize(up), Direction::Up));
            }
            if right != p {
                moves.push(Move::new(ri, P::from_usize(right), Direction::Right));
            }
            if down != p {
                moves.push(Move::new(ri, P::from_usize(down), Direction::Down));
            }
            if left != p {
                moves.push(Move::new(ri, P::from_usize(left), Direction::Left));
            }
            proof {
                assert(moves_view(moves@) =~= before_moves + robot_moves(walls, sn, rs, i as int));
            }
            i = i + 1;
        }
    }
}

} // verus!
