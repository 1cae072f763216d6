//! A* search over robot placements.
use vstd::prelude::*;
use vstd::arithmetic::power::pow;

use crate::board::{Board, BoardView, Endpoints, all_moves, moves_view, search_ok, robot_moves, opt_move};
use crate::counting::{in_range, lemma_placements_bound};
use crate::dists::dists_view;
use crate::direction::Direction;
use crate::frontier::Frontier;
use crate::game::{apply_move, lemma_slide_facts, placement_ok, robot_dest, run, slide};
use crate::moves::{Move, MoveLite, MoveView};
use crate::position::Position;
use crate::robots::{Robots, is_canonical_of, values};
use crate::state_map::StateMap;
use crate::symmetry::{lemma_canonical_same, lemma_move_same, same_up_to_order};

verus! {

/// A search node: a placement, the index of the move that led to it, the
/// number of moves made so far, and the estimated length of a solution
/// through it.
pub struct Node<P> {
    state: Robots<P>,
    move_idx: usize,
    path_cost: usize,
    estimated_cost: usize,
}

impl<P: Position> Node<P> {
    /// The placement of the node.
    pub closed spec fn state(&self) -> Seq<int> {
        self.state@
    }

    /// The index of the move that led to it.
    pub closed spec fn move_idx(&self) -> int {
        self.move_idx as int
    }

    /// The number of moves made to reach it.
    pub closed spec fn path_cost(&self) -> int {
        self.path_cost as int
    }

    /// The estimated length of a solution through it.
    pub closed spec fn estimated_cost(&self) -> int {
        self.estimated_cost as int
    }
}

/// How many of `spots` hold a robot of `state`.
pub open spec fn covered(spots: Seq<int>, state: Seq<int>) -> nat
    decreases spots.len(),
{
    if spots.len() == 0 {
        0
    } else {
        covered(spots.drop_last(), state) + if state.contains(spots.last()) {
            1nat
        } else {
            0nat
        }
    }
}

/// The estimate of a node: moves made, plus the distance table's moves for
/// robot 0, plus the helper spots still free; kept below `usize::MAX`.
pub open spec fn estimate(path_cost: int, dist: int, spots: Seq<int>, state: Seq<int>) -> int {
    let e = path_cost + dist + (spots.len() - covered(spots, state));
    if e < usize::MAX {
        e
    } else {
        usize::MAX - 1
    }
}

/// No more spots are covered than there are.
proof fn lemma_covered_le(spots: Seq<int>, state: Seq<int>)
    ensures
        covered(spots, state) <= spots.len(),
    decreases spots.len(),
{
    if spots.len() > 0 {
        lemma_covered_le(spots.drop_last(), state);
    }
}

/// The node reached from `parent` by `action`, recorded as move `move_idx`.
pub fn child_node<P: Position>(
    dists: &Vec<(u16, Vec<P>)>,
    parent: &Node<P>,
    action: Move<P>,
    move_idx: usize,
) -> (r: Node<P>)
    requires
        (action.robot as int) < parent.state().len(),
        parent.path_cost() < usize::MAX,
        parent.state().len() >= 1,
        action.robot != 0 ==> parent.state()[0] < dists@.len(),
        action.robot == 0 ==> action.to.pos_value() < dists@.len(),
    ensures
        r.state() == parent.state().update(action.robot as int, action.to.pos_value() as int),
        r.move_idx() == move_idx,
        r.path_cost() == parent.path_cost() + 1,
        ({
            let e = dists@[r.state()[0]];
            r.estimated_cost() == estimate(
                r.path_cost(),
                e.0 as int,
                values(e.1@),
                r.state(),
            )
        }),
{
    let mut state = parent.state.duplicate();
    state.set(action.robot as usize, action.to);
    let entry = &dists[state.get(0).to_usize()];
    let dist = entry.0;
    let spots = &entry.1;
    let mut count: usize = 0;
    let mut k: usize = 0;
    while k < spots.len()
        invariant
            k <= spots@.len(),
            count == covered(values(spots@).take(k as int), state@),
            count <= k,
        decreases spots@.len() - k,
    {
        proof {
            assert(values(spots@).take(k + 1).drop_last() =~= values(spots@).take(k as int));
        }
        if state.contains(&spots[k]) {
            count = count + 1;
        }
        k = k + 1;
    }
    proof {
        assert(values(spots@).take(spots@.len() as int) =~= values(spots@));
    }
    let uncovered = spots.len() - count;
    let path_cost = parent.path_cost + 1;
    let total: u128 = path_cost as u128 + dist as u128 + uncovered as u128;
    let estimated_cost = if total < usize::MAX as u128 {
        total as usize
    } else {
        usize::MAX - 1
    };
    Node { state, move_idx, path_cost, estimated_cost }
}

/// The moves from the root to `m`, where `m` was made after move `i`:
/// follow the parents back to move 0 and list the moves from the root on.
pub open spec fn chain(moves: Seq<MoveLite>, parents: Seq<usize>, m: MoveLite, i: int) -> Seq<
    MoveLite,
>
    decreases i,
{
    if i <= 0 || i >= moves.len() || i >= parents.len() || parents[i] >= i {
        seq![m]
    } else {
        chain(moves, parents, moves[i], parents[i] as int).push(m)
    }
}

/// Parents precede their children, so following them back ends at move 0.
pub open spec fn parents_ok(moves: Seq<MoveLite>, parents: Seq<usize>) -> bool {
    &&& moves.len() == parents.len()
    &&& moves.len() >= 1
    &&& parents[0] < parents.len()
    &&& forall|k: int| 0 < k < parents.len() ==> #[trigger] parents[k] < k
}

/// Reconstruct the moves leading to move `idx`.
pub fn solution(idx: usize, moves: &[MoveLite], moves_indices: &[usize]) -> (r: Vec<MoveLite>)
    requires
        parents_ok(moves@, moves_indices@),
        idx < moves@.len(),
    ensures
        r@ == chain(moves@, moves_indices@, moves@[idx as int], moves_indices@[idx as int] as int),
{
    let ghost ms = moves@;
    let ghost ps = moves_indices@;
    let ghost target = chain(ms, ps, ms[idx as int], ps[idx as int] as int);
    let mut sol: Vec<MoveLite> = Vec::new();
    let mut m = moves[idx];
    let mut i = moves_indices[idx];
    let ghost mut acc: Seq<MoveLite> = Seq::empty();
    while i > 0
        invariant
            parents_ok(ms, ps),
            ms == moves@,
            ps == moves_indices@,
            i < ms.len(),
            target == chain(ms, ps, m, i as int) + acc,
            sol@.len() == acc.len(),
            forall|j: int| 0 <= j < acc.len() ==> sol@[j] == acc[acc.len() - 1 - j],
        decreases i,
    {
        proof {
            assert(chain(ms, ps, m, i as int) == chain(ms, ps, ms[i as int], ps[i as int] as int).push(
                m,
            ));
            assert(chain(ms, ps, ms[i as int], ps[i as int] as int).push(m) + acc =~= chain(
                ms,
                ps,
                ms[i as int],
                ps[i as int] as int,
            ) + (seq![m] + acc));
            acc = seq![m] + acc;
        }
        sol.push(m);
        m = moves[i];
        i = moves_indices[i];
    }
    sol.push(m);
    proof {
        acc = seq![m] + acc;
        assert(target =~= acc);
    }
    let mut out: Vec<MoveLite> = Vec::new();
    let mut k = sol.len();
    while k > 0
        invariant
            k <= sol@.len(),
            sol@.len() == acc.len(),
            forall|j: int| 0 <= j < acc.len() ==> sol@[j] == acc[acc.len() - 1 - j],
            out@.len() == sol@.len() - k,
            forall|j: int| 0 <= j < out@.len() ==> out@[j] == acc[j],
        decreases k,
    {
        k = k - 1;
        out.push(sol[k]);
    }
    proof {
        assert(out@ =~= target);
    }
    out
}

/// A packed move as the rules see it: (robot, direction).
pub open spec fn decode(sol: Seq<MoveLite>) -> Seq<(int, Direction)> {
    sol.map_values(|m: MoveLite| (m.spec_robot() as int, m.spec_direction()))
}

/// Playing `sol` from the robots' starting places brings robot 0 onto the goal.
pub open spec fn reaches_goal(v: BoardView, sol: Seq<(int, Direction)>) -> bool {
    let end = run(v.walls, v.size, v.robots, sol);
    end.len() >= 1 && end[0] == v.goal
}

/// Every move names a robot of the board and changes its cell.
pub open spec fn every_move_moves(v: BoardView, sol: Seq<(int, Direction)>) -> bool {
    forall|j: int|
        0 <= j < sol.len() ==> 0 <= (#[trigger] sol[j]).0 < v.robots.len() && run(
            v.walls,
            v.size,
            v.robots,
            sol.take(j + 1),
        ) != run(v.walls, v.size, v.robots, sol.take(j))
}

/// The search tree: move `k` led from placement `states[parents[k]]` to
/// `states[k]`; move 0, by a robot that does not exist, stands for the root.
pub open spec fn tree_ok(
    v: BoardView,
    moves: Seq<MoveLite>,
    parents: Seq<usize>,
    states: Seq<Seq<int>>,
) -> bool {
    &&& parents_ok(moves, parents)
    &&& states.len() == moves.len()
    &&& parents[0] == 0
    &&& states[0] == v.robots
    &&& moves[0].spec_robot() as int == v.robots.len()
    &&& moves[0].spec_direction() == Direction::Up
    &&& forall|k: int|
        0 < k < moves.len() ==> (#[trigger] moves[k]).spec_robot() < v.robots.len() && states[k]
            != states[parents[k] as int]
    &&& forall|k: int| 0 <= k < moves.len() ==> (#[trigger] moves[k]).wf()
    &&& forall|k: int|
        0 < k < moves.len() ==> #[trigger] states[k] == apply_move(
            v.walls,
            v.size,
            states[parents[k] as int],
            moves[k].spec_robot() as int,
            moves[k].spec_direction(),
        )
}

/// Following the tree back from a move and playing the moves found, from the
/// start, gives the placement the move led to.
pub proof fn lemma_chain_runs(
    v: BoardView,
    moves: Seq<MoveLite>,
    parents: Seq<usize>,
    states: Seq<Seq<int>>,
    idx: int,
)
    requires
        tree_ok(v, moves, parents, states),
        0 <= idx < moves.len(),
    ensures
        run(
            v.walls,
            v.size,
            v.robots,
            decode(chain(moves, parents, moves[idx], parents[idx] as int)),
        ) == states[idx],
        forall|j: int|
            0 <= j < chain(moves, parents, moves[idx], parents[idx] as int).len() ==> (#[trigger] chain(
                moves,
                parents,
                moves[idx],
                parents[idx] as int,
            )[j]).wf(),
        idx > 0 ==> every_move_moves(v, decode(chain(moves, parents, moves[idx], parents[idx] as int))),
    decreases idx,
{
    let c = chain(moves, parents, moves[idx], parents[idx] as int);
    let p = parents[idx] as int;
    if idx == 0 || p == 0 {
        if idx > 0 {
            let d = decode(c);
            assert(d.take(1) =~= d);
            assert(d.take(0) =~= Seq::<(int, Direction)>::empty());
        }
        assert(c == seq![moves[idx]]);
        let d = decode(c);
        assert(d =~= seq![(moves[idx].spec_robot() as int, moves[idx].spec_direction())]);
        assert(d.drop_last() =~= Seq::<(int, Direction)>::empty());
        assert(run(v.walls, v.size, v.robots, d.drop_last()) == v.robots);
        assert(run(v.walls, v.size, v.robots, d) == apply_move(
            v.walls,
            v.size,
            v.robots,
            moves[idx].spec_robot() as int,
            moves[idx].spec_direction(),
        ));
        if idx > 0 {
            assert(states[idx] == apply_move(
                v.walls,
                v.size,
                states[parents[idx] as int],
                moves[idx].spec_robot() as int,
                moves[idx].spec_direction(),
            ));
        }
    } else {
        lemma_chain_runs(v, moves, parents, states, p);
        let c0 = chain(moves, parents, moves[p], parents[p] as int);
        assert(c == c0.push(moves[idx]));
        assert(decode(c).drop_last() =~= decode(c0));
        let d = decode(c);
        let d0 = decode(c0);
        assert forall|j: int| 0 <= j < d.len() implies 0 <= (#[trigger] d[j]).0 < v.robots.len() && run(
            v.walls,
            v.size,
            v.robots,
            d.take(j + 1),
        ) != run(v.walls, v.size, v.robots, d.take(j)) by {
            if j < d0.len() {
                assert(d[j] == d0[j]);
                assert(d.take(j + 1) =~= d0.take(j + 1));
                assert(d.take(j) =~= d0.take(j));
            } else {
                assert(d.take(j + 1) =~= d);
                assert(d.take(j) =~= d0);
            }
        }
        assert forall|j: int| 0 <= j < c.len() implies (#[trigger] c[j]).wf() by {
            if j < c0.len() {
                assert(c[j] == c0[j]);
            }
        }
    }
}

/// Every move in `all_moves` names a robot that exists and stops where the
/// rules send it.
pub proof fn lemma_all_moves_valid(walls: Seq<bool>, n: int, rs: Seq<int>, k: int)
    requires
        0 <= k <= rs.len(),
    ensures
        forall|j: int|
            0 <= j < all_moves(walls, n, rs, k).len() ==> {
                let mv = #[trigger] all_moves(walls, n, rs, k)[j];
                &&& 0 <= mv.robot < k
                &&& mv.to == robot_dest(walls, n, rs, mv.robot, mv.dir)
            &&& mv.to != rs[mv.robot]
                &&& mv.to != rs[mv.robot]
            },
    decreases k,
{
    if k > 0 {
        lemma_all_moves_valid(walls, n, rs, k - 1);
        let a = all_moves(walls, n, rs, k - 1);
        let b = robot_moves(walls, n, rs, k - 1);
        assert(all_moves(walls, n, rs, k) == a + b);
        assert forall|j: int| 0 <= j < b.len() implies {
            let mv = #[trigger] b[j];
            &&& 0 <= mv.robot < k
            &&& mv.to == robot_dest(walls, n, rs, mv.robot, mv.dir)
            &&& mv.to != rs[mv.robot]
        } by {
            let i = k - 1;
            let p = rs[i];
            let o1 = opt_move(i, p, robot_dest(walls, n, rs, i, Direction::Up), Direction::Up);
            let o2 = opt_move(i, p, robot_dest(walls, n, rs, i, Direction::Right), Direction::Right);
            let o3 = opt_move(i, p, robot_dest(walls, n, rs, i, Direction::Down), Direction::Down);
            let o4 = opt_move(i, p, robot_dest(walls, n, rs, i, Direction::Left), Direction::Left);
            assert(b == o1 + o2 + o3 + o4);
            if j < o1.len() {
                assert(b[j] == o1[j]);
            } else if j < o1.len() + o2.len() {
                assert(b[j] == o2[j - o1.len()]);
            } else if j < o1.len() + o2.len() + o3.len() {
                assert(b[j] == o3[j - o1.len() - o2.len()]);
            } else {
                assert(b[j] == o4[j - o1.len() - o2.len() - o3.len()]);
            }
        }
        assert forall|j: int| 0 <= j < (a + b).len() implies {
            let mv = #[trigger] (a + b)[j];
            &&& 0 <= mv.robot < k
            &&& mv.to == robot_dest(walls, n, rs, mv.robot, mv.dir)
            &&& mv.to != rs[mv.robot]
        } by {
            if j < a.len() {
                assert((a + b)[j] == a[j]);
            } else {
                assert((a + b)[j] == b[j - a.len()]);
            }
        }
    }
}

/// A move keeps every robot on the board, and out of the walls.
pub proof fn lemma_apply_placement(walls: Seq<bool>, n: int, rs: Seq<int>, i: int, dir: Direction)
    requires
        n >= 1,
        placement_ok(walls, rs),
    ensures
        placement_ok(walls, apply_move(walls, n, rs, i, dir)),
        apply_move(walls, n, rs, i, dir).len() == rs.len(),
{
    if 0 <= i < rs.len() {
        let p = rs[i];
        if !walls[p] {
            lemma_slide_facts(walls, rs, n, p, dir);
        }
        let t = apply_move(walls, n, rs, i, dir);
        assert forall|j: int| 0 <= j < t.len() implies 0 <= #[trigger] t[j] < walls.len() && (
        walls[t[j]] ==> t[j] == 0) by {
            if j != i {
                assert(t[j] == rs[j]);
            }
        }
    }
}

/// A canonical form holds the same indices as the placement it comes from.
proof fn lemma_canonical_in_range(c: Seq<int>, s: Seq<int>, n: nat, cells: int)
    requires
        is_canonical_of(c, s),
        in_range(s, n, cells),
        n >= 1,
    ensures
        in_range(c, n, cells),
{
    broadcast use vstd::seq_lib::group_to_multiset_ensures;

    let c1 = c.subrange(1, c.len() as int);
    let s1 = s.subrange(1, s.len() as int);
    assert forall|i: int| 0 <= i < c.len() implies 0 <= #[trigger] c[i] < cells by {
        if i > 0 {
            assert(c1[i - 1] == c[i]);
            assert(c1.contains(c[i]));
            assert(c1.to_multiset().count(c[i]) > 0);
            assert(s1.to_multiset().count(c[i]) > 0);
            assert(s1.contains(c[i]));
            let k = choose|k: int| 0 <= k < s1.len() && s1[k] == c[i];
            assert(s[k + 1] == c[i]);
        }
    }
}

/// Whether a frontier node is in the tree.
pub open spec fn node_ok<P: Position>(node: Node<P>, states: Seq<Seq<int>>) -> bool {
    &&& 0 <= node.move_idx() < states.len()
    &&& node.state() == states[node.move_idx()]
    &&& 0 <= node.path_cost() <= node.move_idx()
}

/// Some key is the canonical form of `t`.
pub open spec fn known(keys: Set<Seq<int>>, t: Seq<int>) -> bool {
    exists|key: Seq<int>| #[trigger] keys.contains(key) && is_canonical_of(key, t)
}

/// Every move of a robot of `s` leaves `s` as it is or leads to a known
/// placement.
pub open spec fn successors_known(v: BoardView, keys: Set<Seq<int>>, s: Seq<int>) -> bool {
    forall|i: int, dir: Direction|
        0 <= i < s.len() ==> {
            let t = #[trigger] apply_move(v.walls, v.size, s, i, dir);
            t == s || known(keys, t)
        }
}

/// Expanded placements are off the goal, and all their successors are known.
pub open spec fn expanded_ok(
    v: BoardView,
    keys: Set<Seq<int>>,
    states: Seq<Seq<int>>,
    expanded: Set<int>,
) -> bool {
    forall|k: int| #[trigger]
        expanded.contains(k) ==> 0 <= k < states.len() && states[k][0] != v.goal
            && successors_known(v, keys, states[k])
}

/// Every key is the canonical form of a placement of the tree.
pub open spec fn keys_ok(keys: Set<Seq<int>>, states: Seq<Seq<int>>) -> bool {
    forall|key: Seq<int>| #[trigger]
        keys.contains(key) ==> exists|k: int| 0 <= k < states.len() && is_canonical_of(key, states[k])
}

/// A node for placement `k` waits in the frontier.
pub open spec fn waiting<P: Position>(fr: Frontier<Node<P>>, k: int) -> bool {
    exists|c: int, j: int| 0 <= j < fr.at(c).len() && #[trigger] fr.at(c)[j].move_idx() == k
}

/// More keys, and more placements after the old ones, keep what expanded
/// placements promise.
proof fn lemma_expanded_grow(
    v: BoardView,
    keys1: Set<Seq<int>>,
    keys2: Set<Seq<int>>,
    states1: Seq<Seq<int>>,
    states2: Seq<Seq<int>>,
    expanded: Set<int>,
)
    requires
        expanded_ok(v, keys1, states1, expanded),
        keys1.subset_of(keys2),
        states1.len() <= states2.len(),
        forall|k: int| 0 <= k < states1.len() ==> #[trigger] states2[k] == states1[k],
    ensures
        expanded_ok(v, keys2, states2, expanded),
{
    assert forall|k: int| #[trigger] expanded.contains(k) implies 0 <= k < states2.len()
        && states2[k][0] != v.goal && successors_known(v, keys2, states2[k]) by {
        let s = states1[k];
        assert(states2[k] == s);
        assert forall|i: int, dir: Direction| 0 <= i < s.len() implies {
            let t = #[trigger] apply_move(v.walls, v.size, s, i, dir);
            t == s || known(keys2, t)
        } by {
            let t = apply_move(v.walls, v.size, s, i, dir);
            if t != s {
                assert(known(keys1, t));
                let key = choose|key: Seq<int>| #[trigger] keys1.contains(key) && is_canonical_of(key, t);
                assert(keys2.contains(key));
            }
        }
    }
}

/// Every move that goes somewhere is listed by `all_moves`.
pub proof fn lemma_all_moves_complete(
    walls: Seq<bool>,
    n: int,
    rs: Seq<int>,
    k: int,
    i: int,
    dir: Direction,
) -> (j: int)
    requires
        0 <= i < k <= rs.len(),
        robot_dest(walls, n, rs, i, dir) != rs[i],
    ensures
        0 <= j < all_moves(walls, n, rs, k).len(),
        all_moves(walls, n, rs, k)[j] == (MoveView { robot: i, to: robot_dest(walls, n, rs, i, dir), dir: dir }),
    decreases k,
{
    let a = all_moves(walls, n, rs, k - 1);
    assert(all_moves(walls, n, rs, k) == a + robot_moves(walls, n, rs, k - 1));
    if i < k - 1 {
        let j = lemma_all_moves_complete(walls, n, rs, k - 1, i, dir);
        assert((a + robot_moves(walls, n, rs, k - 1))[j] == a[j]);
        j
    } else {
        let p = rs[i];
        let o1 = opt_move(i, p, robot_dest(walls, n, rs, i, Direction::Up), Direction::Up);
        let o2 = opt_move(i, p, robot_dest(walls, n, rs, i, Direction::Right), Direction::Right);
        let o3 = opt_move(i, p, robot_dest(walls, n, rs, i, Direction::Down), Direction::Down);
        let o4 = opt_move(i, p, robot_dest(walls, n, rs, i, Direction::Left), Direction::Left);
        let b = robot_moves(walls, n, rs, i);
        assert(b == o1 + o2 + o3 + o4);
        let off = match dir {
            Direction::Up => 0int,
            Direction::Right => o1.len() as int,
            Direction::Down => (o1.len() + o2.len()) as int,
            Direction::Left => (o1.len() + o2.len() + o3.len()) as int,
        };
        assert(b[off] == (MoveView { robot: i, to: robot_dest(walls, n, rs, i, dir), dir: dir }));
        assert((a + b)[a.len() + off] == b[off]);
        a.len() + off
    }
}

/// When every placement of the tree is expanded, no sequence of moves
/// brings robot 0 to the goal: each placement it passes differs only in
/// order from one of the tree.
pub proof fn lemma_no_solution(
    v: BoardView,
    keys: Set<Seq<int>>,
    states: Seq<Seq<int>>,
    expanded: Set<int>,
    sol: Seq<(int, Direction)>,
)
    requires
        states.len() >= 1,
        states[0] == v.robots,
        v.robots.len() >= 1,
        keys_ok(keys, states),
        expanded_ok(v, keys, states, expanded),
        forall|k: int| 0 <= k < states.len() ==> #[trigger] expanded.contains(k),
    ensures
        exists|k: int|
            0 <= k < states.len() && same_up_to_order(run(v.walls, v.size, v.robots, sol), states[k]),
        run(v.walls, v.size, v.robots, sol)[0] != v.goal,
    decreases sol.len(),
{
    let t = run(v.walls, v.size, v.robots, sol);
    if sol.len() == 0 {
        assert(same_up_to_order(t, states[0]));
        assert(expanded.contains(0));
    } else {
        lemma_no_solution(v, keys, states, expanded, sol.drop_last());
        let prev = run(v.walls, v.size, v.robots, sol.drop_last());
        let k = choose|k: int| 0 <= k < states.len() && same_up_to_order(prev, states[k]);
        assert(expanded.contains(k));
        let (i, dir) = sol.last();
        assert(t == apply_move(v.walls, v.size, prev, i, dir));
        if 0 <= i < prev.len() {
            let j = lemma_move_same(v.walls, v.size, prev, states[k], i, dir);
            let u = apply_move(v.walls, v.size, states[k], j, dir);
            assert(successors_known(v, keys, states[k]));
            if u == states[k] {
                assert(same_up_to_order(t, states[k]));
            } else {
                assert(known(keys, u));
                let key = choose|key: Seq<int>| #[trigger] keys.contains(key) && is_canonical_of(key, u);
                let k2 = choose|k2: int| 0 <= k2 < states.len() && is_canonical_of(key, states[k2]);
                lemma_canonical_same(key, u, states[k2]);
                assert(same_up_to_order(t, states[k2]));
                assert(expanded.contains(k2));
            }
        } else {
            assert(same_up_to_order(t, states[k]));
        }
    }
}

/// A search node as the specifications see it.
pub struct SearchNode {
    pub state: Seq<int>,
    pub move_idx: int,
    pub path_cost: int,
    pub est: int,
}

/// A node as the specifications see it.
pub open spec fn node_view<P: Position>(n: Node<P>) -> SearchNode {
    SearchNode {
        state: n.state(),
        move_idx: n.move_idx(),
        path_cost: n.path_cost(),
        est: n.estimated_cost(),
    }
}

/// A frontier bucket as the specifications see it.
pub open spec fn nodes_view<P: Position>(s: Seq<Node<P>>) -> Seq<SearchNode> {
    s.map_values(|n: Node<P>| node_view(n))
}

/// The state of the search: the waiting nodes by estimate, the canonical
/// forms of the placements reached, the moves made and the move each one
/// followed.
pub struct Search {
    pub fr: spec_fn(int) -> Seq<SearchNode>,
    pub keys: Set<Seq<int>>,
    pub moves: Seq<MoveLite>,
    pub parents: Seq<usize>,
}

/// What one round of the search does: go on from a new state, or end with
/// its answer.
pub enum Step {
    Next(Search),
    Done(Option<Seq<MoveLite>>),
}

/// The canonical form of a placement: robot 0 first, the others ascending.
pub open spec fn canon(s: Seq<int>) -> Seq<int> {
    choose|c: Seq<int>| is_canonical_of(c, s)
}

/// `c` is the lowest estimate with a waiting node.
pub open spec fn is_lowest(fr: spec_fn(int) -> Seq<SearchNode>, c: int) -> bool {
    &&& c >= 0
    &&& fr(c).len() > 0
    &&& forall|c2: int| 0 <= c2 < c ==> #[trigger] fr(c2).len() == 0
}

/// The search before its first round: the start placement waits with
/// estimate 0, and move 0, by a robot the board does not have, stands for
/// the root.
pub open spec fn search_start(v: BoardView) -> Search {
    Search {
        fr: |c: int|
            if c == 0 {
                seq![SearchNode { state: v.robots, move_idx: 0, path_cost: 0, est: 0 }]
            } else {
                Seq::<SearchNode>::empty()
            },
        keys: Set::empty(),
        moves: seq![MoveLite::spec_new(v.robots.len() as u8, Direction::Up)],
        parents: seq![0usize],
    }
}

/// The node that move `mv` from node `x` leads to, recorded as move `idx`,
/// with its estimate from the distance table `d`.
pub open spec fn child_of(d: Seq<(int, Seq<int>)>, x: SearchNode, mv: MoveView, idx: int) -> SearchNode {
    let cs = x.state.update(mv.robot, mv.to);
    let e = d[cs[0]];
    SearchNode {
        state: cs,
        move_idx: idx,
        path_cost: x.path_cost + 1,
        est: estimate(x.path_cost + 1, e.0, e.1, cs),
    }
}

/// Trying move `mv` from node `x`: a placement whose canonical form is new
/// is recorded and waits under its estimate; any other is passed over.
pub open spec fn expand_one(d: Seq<(int, Seq<int>)>, st: Search, x: SearchNode, mv: MoveView) -> Search {
    let child = child_of(d, x, mv, st.moves.len() as int);
    let key = canon(child.state);
    if st.keys.contains(key) {
        st
    } else {
        Search {
            fr: |c: int|
                if c == child.est {
                    (st.fr)(c).push(child)
                } else {
                    (st.fr)(c)
                },
            keys: st.keys.insert(key),
            moves: st.moves.push(MoveLite::spec_new(mv.robot as u8, mv.dir)),
            parents: st.parents.push(x.move_idx as usize),
        }
    }
}

/// Trying the first `j` moves of `ms` from node `x`, in order.
pub open spec fn expand_prefix(
    d: Seq<(int, Seq<int>)>,
    st: Search,
    x: SearchNode,
    ms: Seq<MoveView>,
    j: int,
) -> Search
    decreases j,
{
    if j <= 0 {
        st
    } else {
        expand_one(d, expand_prefix(d, st, x, ms, j - 1), x, ms[j - 1])
    }
}

/// The search with the last node of estimate `c` taken out.
pub open spec fn popped_at(st: Search, c: int) -> Search {
    Search {
        fr: |c2: int|
            if c2 == c {
                (st.fr)(c2).drop_last()
            } else {
                (st.fr)(c2)
            },
        keys: st.keys,
        moves: st.moves,
        parents: st.parents,
    }
}

/// One round: take out the node added last among those of lowest estimate;
/// end with its moves if robot 0 stands on the goal, else try every move
/// from it, robot by robot, in the order up, right, down, left. With no node
/// waiting, end with no answer.
pub open spec fn astar_step(v: BoardView, d: Seq<(int, Seq<int>)>, st: Search) -> Step {
    if exists|c: int| is_lowest(st.fr, c) {
        let c = choose|c: int| is_lowest(st.fr, c);
        let x = (st.fr)(c).last();
        if x.state[0] == v.goal {
            if x.move_idx == 0 {
                Step::Done(Some(Seq::empty()))
            } else {
                Step::Done(
                    Some(
                        chain(st.moves, st.parents, st.moves[x.move_idx], st.parents[x.move_idx] as int),
                    ),
                )
            }
        } else {
            let ms = all_moves(v.walls, v.size, x.state, v.robots.len() as int);
            Step::Next(expand_prefix(d, popped_at(st, c), x, ms, ms.len() as int))
        }
    } else {
        Step::Done(None)
    }
}

/// The answer of at most `fuel` rounds from `st`, if the search ends by then.
pub open spec fn astar_run(v: BoardView, d: Seq<(int, Seq<int>)>, st: Search, fuel: nat) -> Option<
    Option<Seq<MoveLite>>,
>
    decreases fuel,
{
    if fuel == 0 {
        None
    } else {
        match astar_step(v, d, st) {
            Step::Done(r) => Some(r),
            Step::Next(st2) => astar_run(v, d, st2, (fuel - 1) as nat),
        }
    }
}

/// Enough rounds for the search to end.
pub open spec fn astar_fuel(v: BoardView) -> nat {
    (2 * pow(v.walls.len() as int, v.robots.len() as nat) + 2) as nat
}

/// A result of the search as the specifications see it.
pub open spec fn opt_moves(r: Option<Vec<MoveLite>>) -> Option<Seq<MoveLite>> {
    match r {
        Some(s) => Some(s@),
        None => None,
    }
}

/// The search's state, as kept by the frontier, the map of reached
/// placements and the move lists, is `st`.
pub open spec fn search_is<P: Position>(
    fr: Frontier<Node<P>>,
    explored: StateMap<P, ()>,
    moves: Seq<MoveLite>,
    parents: Seq<usize>,
    st: Search,
) -> bool {
    &&& forall|c: int| #[trigger] (st.fr)(c) == nodes_view(fr.at(c))
    &&& st.keys == explored@.dom()
    &&& st.moves == moves
    &&& st.parents == parents
}

/// Trying a move either leaves the search as it is, or records a canonical
/// form not reached before together with one new move: no placement enters
/// the frontier twice, up to the order of the robots other than robot 0.
pub proof fn lemma_expand_once(d: Seq<(int, Seq<int>)>, st: Search, x: SearchNode, mv: MoveView)
    ensures
        ({
            let nxt = expand_one(d, st, x, mv);
            let key = canon(child_of(d, x, mv, st.moves.len() as int).state);
            ||| nxt == st
            ||| (!st.keys.contains(key) && nxt.keys == st.keys.insert(key) && nxt.moves.len()
                == st.moves.len() + 1)
        }),
{
}

/// A lowest estimate is the only one.
proof fn lemma_lowest_unique(fr: spec_fn(int) -> Seq<SearchNode>, c: int)
    requires
        is_lowest(fr, c),
    ensures
        (choose|c2: int| is_lowest(fr, c2)) == c,
{
    let c2 = choose|c2: int| is_lowest(fr, c2);
    assert(is_lowest(fr, c2));
    if c2 < c {
        assert(fr(c2).len() == 0);
    } else if c < c2 {
        assert(fr(c).len() == 0);
    }
}

/// A placement has one canonical form.
proof fn lemma_canon(key: Seq<int>, s: Seq<int>)
    requires
        is_canonical_of(key, s),
        s.len() >= 1,
    ensures
        canon(s) == key,
{
    let c = canon(s);
    assert(is_canonical_of(c, s));
    assert(same_up_to_order(s, s));
    crate::robots::lemma_canonical_unique(c, key, s, s);
}

/// Search for a sequence of moves that brings robot 0 to the goal, always
/// expanding a node of least estimated cost. Placements that differ only in
/// the order of the robots other than robot 0 are explored once. The answer
/// is the one the rounds of `astar_step` give from `search_start`.
pub fn astar<P: Position>(board: &Board<Endpoints<P>, P>, dists: &Vec<(u16, Vec<P>)>) -> (r: Option<
    Vec<MoveLite>,
>)
    requires
        board.endpoint_board_ok(),
        dists@.len() == board@.walls.len(),
    ensures
        match r {
            Some(sol) => {
                &&& reaches_goal(board@, decode(sol@))
                &&& forall|j: int| 0 <= j < sol@.len() ==> (#[trigger] sol@[j]).wf()
                &&& every_move_moves(board@, decode(sol@))
                &&& (sol@.len() == 0 <==> board@.robots[0] == board@.goal)
            },
            None => forall|sol: Seq<(int, Direction)>| !#[trigger] reaches_goal(board@, sol),
        },
        astar_run(board@, dists_view(dists@), search_start(board@), astar_fuel(board@)) == Some(
            opt_moves(r),
        ),
{
    let ghost v = board@;
    let ghost walls = v.walls;
    let ghost n = v.size;
    let ghost s0 = v.robots;
    let ghost cells = walls.len() as int;
    let ghost nr = s0.len();
    let ghost bound = pow(cells, nr);
    let robot_count = board.robots().len();
    let initial = Node {
        state: board.robots().duplicate(),
        move_idx: 0,
        path_cost: 0,
        estimated_cost: 0,
    };
    let mut frontier: Frontier<Node<P>> = Frontier::new();
    let mut explored: StateMap<P, ()> = StateMap::new();
    let mut moves: Vec<MoveLite> = Vec::new();
    let mut moves_indices: Vec<usize> = Vec::new();
    moves.push(MoveLite::new(robot_count as u8, Direction::Up));
    moves_indices.push(0);
    let ghost mut states: Seq<Seq<int>> = seq![s0];
    let ghost mut expanded: Set<int> = Set::empty();
    frontier.push(0, initial);
    proof {
        assert(frontier.at(0)[0] == initial);
        assert(frontier.at(0)[0].move_idx() == 0);
        assert(waiting(frontier, 0));
        assert forall|c: int, j: int| 0 <= j < frontier.at(c).len() implies node_ok(
            #[trigger] frontier.at(c)[j],
            states,
        ) by {
            if c == 0 {
                assert(frontier.at(c)[j] == initial);
            }
        }
        lemma_placements_bound(explored@.dom(), nr, cells);
    }
    let ghost dv = dists_view(dists@);
    let ghost mut sst = search_start(v);
    let ghost mut fuel: nat = astar_fuel(v);
    proof {
        assert forall|c: int| #[trigger] (sst.fr)(c) == nodes_view(frontier.at(c)) by {
            if c == 0 {
                assert(node_view(initial) == SearchNode { state: v.robots, move_idx: 0, path_cost: 0, est: 0 });
                assert(nodes_view(frontier.at(c)) =~= seq![node_view(initial)]);
            } else {
                assert(nodes_view(frontier.at(c)) =~= Seq::<SearchNode>::empty());
            }
        }
        assert(sst.keys =~= explored@.dom());
        assert(sst.moves =~= moves@);
        assert(sst.parents =~= moves_indices@);
    }
    loop
        invariant
            dv == dists_view(dists@),
            search_is(frontier, explored, moves@, moves_indices@, sst),
            astar_run(v, dv, search_start(v), astar_fuel(v)) == astar_run(v, dv, sst, fuel),
            fuel >= 2 * (bound - explored@.dom().len()) + frontier.size() + 1,
            board.endpoint_board_ok(),
            v == board@,
            walls == v.walls,
            n == v.size,
            s0 == v.robots,
            cells == walls.len(),
            cells >= 1,
            nr == s0.len(),
            1 <= nr <= 15,
            robot_count == nr,
            bound == pow(cells, nr),
            dists@.len() == cells,
            tree_ok(v, moves@, moves_indices@, states),
            forall|k: int|
                0 <= k < states.len() ==> placement_ok(walls, #[trigger] states[k]) && states[k].len()
                    == nr,
            frontier.wf(),
            frontier.size() <= moves@.len(),
            forall|c: int, j: int|
                0 <= j < frontier.at(c).len() ==> node_ok(#[trigger] frontier.at(c)[j], states),
            explored.wf(),
            forall|key: Seq<int>| #[trigger] explored@.contains_key(key) ==> in_range(key, nr, cells),
            explored@.dom().len() <= bound,
            keys_ok(explored@.dom(), states),
            expanded_ok(v, explored@.dom(), states, expanded),
            forall|k: int| 0 <= k < states.len() ==> expanded.contains(k) || waiting(frontier, k),
            s0[0] == v.goal ==> moves@.len() == 1,
        decreases 2 * (bound - explored@.dom().len()) + frontier.size(),
    {
        let ghost measure0 = 2 * (bound - explored@.dom().len()) + frontier.size();
        let ghost fr0 = frontier;
        let popped = frontier.pop();
        match popped {
            None => {
                proof {
                    assert forall|k: int| 0 <= k < states.len() implies #[trigger] expanded.contains(
                        k,
                    ) by {
                        if !expanded.contains(k) {
                            assert(waiting(fr0, k));
                            let (c, jj) = choose|c: int, jj: int|
                                0 <= jj < fr0.at(c).len() && #[trigger] fr0.at(c)[jj].move_idx() == k;
                            assert(fr0.at(c).len() == 0);
                        }
                    }
                    assert forall|sol: Seq<(int, Direction)>| !#[trigger] reaches_goal(v, sol) by {
                        lemma_no_solution(v, explored@.dom(), states, expanded, sol);
                    }
                }
                return None;
            },
            Some((cost0, node)) => {
                let ghost nidx = node.move_idx();
                let ghost nstate = states[nidx];
                proof {
                    let c = cost0 as int;
                    let q = fr0.at(c);
                    assert(q[q.len() - 1] == node);
                    assert(node_ok(q[q.len() - 1], states));
                    assert forall|c2: int, jj: int|
                        0 <= jj < frontier.at(c2).len() implies node_ok(
                        #[trigger] frontier.at(c2)[jj],
                        states,
                    ) by {
                        if c2 == c {
                            assert(frontier.at(c2)[jj] == fr0.at(c2)[jj]);
                        } else {
                            assert(frontier.at(c2) == fr0.at(c2));
                        }
                    }
                    assert forall|k: int| 0 <= k < states.len() implies expanded.contains(k) || k == nidx
                        || waiting(frontier, k) by {
                        if !expanded.contains(k) {
                            assert(waiting(fr0, k));
                            let (c2, jj) = choose|c2: int, jj: int|
                                0 <= jj < fr0.at(c2).len() && #[trigger] fr0.at(c2)[jj].move_idx()
                                    == k;
                            if c2 == c && jj == q.len() - 1 {
                                assert(k == nidx);
                            } else {
                                assert(frontier.at(c2)[jj] == fr0.at(c2)[jj]);
                                assert(frontier.at(c2)[jj].move_idx() == k);
                            }
                        }
                    }
                }
                let ghost c0 = cost0 as int;
                let ghost xv = node_view(node);
                let ghost popped = popped_at(sst, c0);
                proof {
                    assert(is_lowest(sst.fr, c0)) by {
                        assert((sst.fr)(c0) == nodes_view(fr0.at(c0)));
                        assert forall|c2: int| 0 <= c2 < c0 implies #[trigger] (sst.fr)(c2).len() == 0 by {
                            assert((sst.fr)(c2) == nodes_view(fr0.at(c2)));
                        }
                    }
                    lemma_lowest_unique(sst.fr, c0);
                    assert((sst.fr)(c0).last() == xv);
                    assert forall|c: int| #[trigger] (popped.fr)(c) == nodes_view(frontier.at(c)) by {
                        assert((sst.fr)(c) == nodes_view(fr0.at(c)));
                        if c == c0 {
                            assert(nodes_view(frontier.at(c)) =~= nodes_view(fr0.at(c)).drop_last());
                        }
                    }
                    assert(xv.state == nstate);
                }
                if node.state.get(0).to_usize() == board.goal().to_usize() {
                    if node.move_idx == 0 {
                        proof {
                            assert(nstate == s0);
                            assert(decode(Seq::<MoveLite>::empty()) =~= Seq::<(int, Direction)>::empty());
                            assert(run(walls, n, s0, Seq::<(int, Direction)>::empty()) == s0);
                            assert(astar_step(v, dv, sst) == Step::Done(Some(Seq::<MoveLite>::empty())));
                        }
                        let none: Vec<MoveLite> = Vec::new();
                        proof {
                            assert(opt_moves(Some(none)) == Some(Seq::<MoveLite>::empty()));
                        }
                        return Some(none);
                    }
                    let sol = solution(node.move_idx, moves.as_slice(), moves_indices.as_slice());
                    proof {
                        lemma_chain_runs(v, moves@, moves_indices@, states, nidx);
                        if s0[0] == v.goal {
                            assert(nidx == 0);
                        }
                        assert(astar_step(v, dv, sst) == Step::Done(Some(sol@)));
                    }
                    return Some(sol);
                }
                let mut possible: Vec<Move<P>> = Vec::new();
                board.possible_moves(&node.state, &mut possible);
                proof {
                    assert(moves_view(possible@) =~= all_moves(walls, n, nstate, nr as int));
                    lemma_all_moves_valid(walls, n, nstate, nr as int);
                }
                let mut j: usize = 0;
                while j < possible.len()
                    invariant
                        board.endpoint_board_ok(),
                        v == board@,
                        walls == v.walls,
                        n == v.size,
                        s0 == v.robots,
                        cells == walls.len(),
                        cells >= 1,
                        nr == s0.len(),
                        1 <= nr <= 15,
                        robot_count == nr,
                        bound == pow(cells, nr),
                        dists@.len() == cells,
                        tree_ok(v, moves@, moves_indices@, states),
                        forall|k: int|
                            0 <= k < states.len() ==> placement_ok(walls, #[trigger] states[k])
                                && states[k].len() == nr,
                        frontier.wf(),
                        frontier.size() <= moves@.len(),
                        forall|c: int, jj: int|
                            0 <= jj < frontier.at(c).len() ==> node_ok(
                                #[trigger] frontier.at(c)[jj],
                                states,
                            ),
                        explored.wf(),
                        forall|key: Seq<int>|
                            #[trigger] explored@.contains_key(key) ==> in_range(key, nr, cells),
                        explored@.dom().len() <= bound,
                        2 * (bound - explored@.dom().len()) + frontier.size() < measure0,
                        node_ok(node, states),
                        nidx == node.move_idx(),
                        nstate == states[nidx],
                        moves_view(possible@) == all_moves(walls, n, nstate, nr as int),
                        j <= possible@.len(),
                        dv == dists_view(dists@),
                        xv == node_view(node),
                        search_is(
                            frontier,
                            explored,
                            moves@,
                            moves_indices@,
                            expand_prefix(dv, popped, xv, moves_view(possible@), j as int),
                        ),
                        keys_ok(explored@.dom(), states),
                        expanded_ok(v, explored@.dom(), states, expanded),
                        forall|k: int|
                            0 <= k < states.len() ==> expanded.contains(k) || k == nidx || waiting(
                                frontier,
                                k,
                            ),
                        nstate[0] != v.goal,
                        forall|jj: int|
                            0 <= jj < j ==> known(
                                explored@.dom(),
                                #[trigger] apply_move(
                                    walls,
                                    n,
                                    nstate,
                                    moves_view(possible@)[jj].robot,
                                    moves_view(possible@)[jj].dir,
                                ),
                            ),
                    decreases possible@.len() - j,
                {
                    let ghost sj = expand_prefix(dv, popped, xv, moves_view(possible@), j as int);
                    let m = possible[j];
                    proof {
                        assert(moves_view(possible@)[j as int] == m@);
                        assert(all_moves(walls, n, nstate, nr as int)[j as int] == m@);
                        assert(placement_ok(walls, nstate));
                        assert(0 <= nstate[0] < cells);
                        lemma_all_moves_valid(walls, n, nstate, nr as int);
                        assert(states[nidx].len() == nr);
                        assert(node.state().len() == nr);
                        assert(0 <= m@.robot < nr);
                        assert(m@.to == robot_dest(walls, n, nstate, m@.robot, m@.dir));
                        lemma_apply_placement(walls, n, nstate, m.robot as int, m.dir);
                        let t = apply_move(walls, n, nstate, m.robot as int, m.dir);
                        assert(t[m.robot as int] == m@.to);
                        assert(0 <= t[m.robot as int] < cells);
                    }
                    let child = child_node(dists, &node, m, moves.len());
                    let ghost cstate = child.state();
                    proof {
                        assert(cstate == apply_move(walls, n, nstate, m.robot as int, m.dir));
                        lemma_apply_placement(walls, n, nstate, m.robot as int, m.dir);
                    }
                    let child_symmetry = child.state.duplicate().symmetric().into_positions();
                    let ghost key = values(child_symmetry@);
                    let ghost mv = moves_view(possible@)[j as int];
                    let ghost dom0 = explored@.dom();
                    let ghost states0 = states;
                    let ghost fr_0 = frontier;
                    proof {
                        assert(mv == m@);
                        assert(cstate == apply_move(walls, n, nstate, mv.robot, mv.dir));
                        assert(is_canonical_of(key, cstate));
                    }
                    if !explored.contains(&child_symmetry) {
                        proof {
                            assert(in_range(cstate, nr, cells));
                            lemma_canonical_in_range(key, cstate, nr, cells);
                        }
                        let lite = MoveLite::new(m.robot, m.dir);
                        let ghost idx_before = moves_indices@;
                        let ghost moves_before = moves@;
                        moves.push(lite);
                        moves_indices.push(node.move_idx);
                        proof {
                            states = states.push(cstate);
                        }
                        let ghost dom_before = explored@.dom();
                        proof {
                            explored.lemma_finite();
                        }
                        explored.insert(child_symmetry, ());
                        proof {
                            assert(explored@.dom() =~= dom_before.insert(key));
                            assert(!dom_before.contains(key));
                            assert(explored@.dom().len() == dom_before.len() + 1);
                        }
                        let cost = child.estimated_cost;
                        let moves_len = moves.len();
                        frontier.push(cost, child);
                        proof {
                            explored.lemma_finite();
                            lemma_placements_bound(explored@.dom(), nr, cells);
                            let len = moves@.len();
                            assert forall|k: int| 0 < k < len implies #[trigger] moves_indices@[k]
                                < k by {
                                if k < len - 1 {
                                    assert(moves_indices@[k] == idx_before[k]);
                                }
                            }
                            assert forall|c: int, jj: int|
                                0 <= jj < frontier.at(c).len() implies node_ok(
                                #[trigger] frontier.at(c)[jj],
                                states,
                            ) by {}
                            let newk = states.len() - 1;
                            assert forall|key2: Seq<int>| #[trigger]
                                explored@.dom().contains(key2) implies exists|k: int|
                                0 <= k < states.len() && is_canonical_of(key2, states[k]) by {
                                if key2 == key {
                                    assert(is_canonical_of(key2, states[newk]));
                                } else {
                                    assert(dom0.contains(key2));
                                    let k = choose|k: int|
                                        0 <= k < states0.len() && is_canonical_of(key2, states0[k]);
                                    assert(states[k] == states0[k]);
                                }
                            }
                            assert(dom0.subset_of(explored@.dom()));
                            lemma_expanded_grow(v, dom0, explored@.dom(), states0, states, expanded);
                            assert forall|k: int| 0 <= k < states.len() implies expanded.contains(k)
                                || k == nidx || waiting(frontier, k) by {
                                if k == newk {
                                    let c = cost as int;
                                    assert(frontier.at(c)[fr_0.at(c).len() as int] == child);
                                    assert(frontier.at(c)[fr_0.at(c).len() as int].move_idx()
                                        == k);
                                } else if !expanded.contains(k) && k != nidx {
                                    assert(waiting(fr_0, k));
                                    let (c2, jj) = choose|c2: int, jj: int|
                                        0 <= jj < fr_0.at(c2).len() && #[trigger] fr_0.at(
                                            c2,
                                        )[jj].move_idx() == k;
                                    assert(frontier.at(c2)[jj] == fr_0.at(c2)[jj]);
                                    assert(frontier.at(c2)[jj].move_idx() == k);
                                }
                            }
                        }
                    }
                    proof {
                        assert(dom0.subset_of(explored@.dom()));
                        assert(explored@.dom().contains(key));
                        assert forall|jj: int| 0 <= jj <= j implies known(
                            explored@.dom(),
                            #[trigger] apply_move(
                                walls,
                                n,
                                nstate,
                                moves_view(possible@)[jj].robot,
                                moves_view(possible@)[jj].dir,
                            ),
                        ) by {
                            let t = apply_move(
                                walls,
                                n,
                                nstate,
                                moves_view(possible@)[jj].robot,
                                moves_view(possible@)[jj].dir,
                            );
                            if jj < j {
                                assert(known(dom0, t));
                                let key2 = choose|key2: Seq<int>| #[trigger]
                                    dom0.contains(key2) && is_canonical_of(key2, t);
                                assert(explored@.dom().contains(key2));
                            } else {
                                assert(t == cstate);
                            }
                        }
                        let mvj = moves_view(possible@)[j as int];
                        let childv = child_of(dv, xv, mvj, sj.moves.len() as int);
                        assert(dv[cstate[0]] == (dists@[cstate[0]].0 as int, values(dists@[cstate[0]].1@)));
                        assert(node_view(child) == childv);
                        lemma_canon(key, cstate);
                        assert(canon(childv.state) == key);
                        let nxt = expand_one(dv, sj, xv, mvj);
                        assert(expand_prefix(dv, popped, xv, moves_view(possible@), j + 1) == nxt);
                        if !dom0.contains(key) {
                            assert forall|c: int| #[trigger] (nxt.fr)(c) == nodes_view(frontier.at(c)) by {
                                assert((sj.fr)(c) == nodes_view(fr_0.at(c)));
                                if c == childv.est {
                                    assert(nodes_view(frontier.at(c)) =~= nodes_view(fr_0.at(c)).push(
                                        node_view(child),
                                    ));
                                }
                            }
                            assert(nxt.moves =~= moves@);
                            assert(nxt.parents =~= moves_indices@);
                            assert(nxt.keys =~= explored@.dom());
                        }
                    }
                    j = j + 1;
                }
                proof {
                    let dom = explored@.dom();
                    assert forall|i: int, dir: Direction| 0 <= i < nstate.len() implies {
                        let t = #[trigger] apply_move(walls, n, nstate, i, dir);
                        t == nstate || known(dom, t)
                    } by {
                        let t = apply_move(walls, n, nstate, i, dir);
                        if robot_dest(walls, n, nstate, i, dir) != nstate[i] {
                            let jj = lemma_all_moves_complete(walls, n, nstate, nr as int, i, dir);
                            assert(moves_view(possible@)[jj] == all_moves(
                                walls,
                                n,
                                nstate,
                                nr as int,
                            )[jj]);
                            assert(known(
                                dom,
                                apply_move(
                                    walls,
                                    n,
                                    nstate,
                                    moves_view(possible@)[jj].robot,
                                    moves_view(possible@)[jj].dir,
                                ),
                            ));
                        } else {
                            assert(t =~= nstate);
                        }
                    }
                    assert(successors_known(v, dom, states[nidx]));
                    expanded = expanded.insert(nidx);
                    let ms = moves_view(possible@);
                    let nxt = expand_prefix(dv, popped, xv, ms, ms.len() as int);
                    assert(astar_step(v, dv, sst) == Step::Next(nxt));
                    assert(astar_run(v, dv, sst, fuel) == astar_run(v, dv, nxt, (fuel - 1) as nat));
                    sst = nxt;
                    fuel = (fuel - 1) as nat;
                }
            },
        }
    }
}

} // verus!
