//! Iterative deepening depth-first search over robot placements.
use vstd::prelude::*;

use crate::board::{Board, BoardView, Endpoints, all_moves, moves_view};
use crate::direction::{Direction, lemma_opposite_involution, opposite};
use crate::astar::{lemma_all_moves_valid, lemma_apply_placement};
use crate::game::{apply_move, placement_ok, robot_dest, run};
use crate::moves::{Move, MoveView};
use crate::position::Position;
use crate::robots::{Robots, values};
use crate::reverse::lemma_reverse_move;
use crate::reverse::lemma_move_distinct;
use crate::state_map::StateMap;
use crate::astar::{lemma_all_moves_complete, reaches_goal};

verus! {

/// A sequence of moves from placement `s`: each names a robot, ends where the
/// rules send it, and after the last one robot 0 is on `goal`.
pub open spec fn valid_path(walls: Seq<bool>, n: int, goal: int, s: Seq<int>, ms: Seq<MoveView>) -> bool
    decreases ms.len(),
{
    if ms.len() == 0 {
        s.len() >= 1 && s[0] == goal
    } else {
        let m = ms[0];
        &&& 0 <= m.robot < s.len()
        &&& m.to == robot_dest(walls, n, s, m.robot, m.dir)
        &&& valid_path(walls, n, goal, apply_move(walls, n, s, m.robot, m.dir), ms.drop_first())
    }
}

/// The (robot, direction) pairs of a sequence of moves.
pub open spec fn pairs(ms: Seq<MoveView>) -> Seq<(int, Direction)> {
    ms.map_values(|m: MoveView| (m.robot, m.dir))
}

/// Playing one move and then the rest is playing them all.
pub proof fn lemma_run_prepend(
    walls: Seq<bool>,
    n: int,
    s: Seq<int>,
    a: (int, Direction),
    rest: Seq<(int, Direction)>,
)
    ensures
        run(walls, n, s, seq![a] + rest) == run(walls, n, apply_move(walls, n, s, a.0, a.1), rest),
    decreases rest.len(),
{
    let t = apply_move(walls, n, s, a.0, a.1);
    if rest.len() == 0 {
        assert((seq![a] + rest).drop_last() =~= Seq::<(int, Direction)>::empty());
        assert(seq![a] + rest =~= seq![a]);
        assert(run(walls, n, s, Seq::<(int, Direction)>::empty()) == s);
        assert(run(walls, n, s, seq![a]) == t);
        assert(run(walls, n, t, rest) == t);
    } else {
        assert((seq![a] + rest).drop_last() =~= seq![a] + rest.drop_last());
        assert((seq![a] + rest).last() == rest.last());
        lemma_run_prepend(walls, n, s, a, rest.drop_last());
    }
}

/// A valid path brings robot 0 onto the goal when played by the rules.
pub proof fn lemma_valid_path_reaches(
    walls: Seq<bool>,
    n: int,
    goal: int,
    s: Seq<int>,
    ms: Seq<MoveView>,
)
    requires
        valid_path(walls, n, goal, s, ms),
    ensures
        run(walls, n, s, pairs(ms)).len() >= 1,
        run(walls, n, s, pairs(ms))[0] == goal,
    decreases ms.len(),
{
    if ms.len() > 0 {
        let m = ms[0];
        lemma_valid_path_reaches(walls, n, goal, apply_move(walls, n, s, m.robot, m.dir), ms.drop_first());
        assert(pairs(ms) =~= seq![(m.robot, m.dir)] + pairs(ms.drop_first()));
        lemma_run_prepend(walls, n, s, (m.robot, m.dir), pairs(ms.drop_first()));
    } else {
        assert(pairs(ms) =~= Seq::<(int, Direction)>::empty());
    }
}

/// A search node: the placement, and the move that led to it.
pub struct Node<P> {
    robots: Robots<P>,
    action: Move<P>,
}

impl<P: Position> Node<P> {
    /// The placement of the node.
    pub closed spec fn robots(&self) -> Seq<int> {
        self.robots@
    }

    /// The move that led to it.
    pub closed spec fn action(&self) -> Move<P> {
        self.action
    }
}

/// Create a child node from the parent and the given move.
pub fn child_node<P: Position>(parent: Node<P>, m: Move<P>) -> (r: Node<P>)
    requires
        (m.robot as int) < parent.robots().len(),
    ensures
        r.robots() == parent.robots().update(m.robot as int, m.to.pos_value() as int),
        r.action() == m,
{
    let mut robots = parent.robots;
    robots.set(m.robot as usize, m.to);
    Node { robots, action: m }
}

/// The moves of the solution in reverse order.
pub open spec fn reversed(ms: Seq<MoveView>) -> Seq<MoveView> {
    Seq::new(ms.len(), |i: int| ms[ms.len() - 1 - i])
}

/// The depth-limited search from placement `s`, reached by move `act`, with
/// `limit` moves left and the map `seen` of the moves left at each
/// placement already searched: the moves found, last move first, and the
/// map afterwards. On the goal it finds no moves; with no moves left, or at
/// a placement searched before with at least as many moves left, it finds
/// nothing; otherwise it records `limit` for `s` and tries the moves.
pub open spec fn dls(
    v: BoardView,
    s: Seq<int>,
    act: (int, Direction),
    limit: int,
    seen: Map<Seq<int>, u8>,
) -> (Option<Seq<MoveView>>, Map<Seq<int>, u8>)
    decreases limit, 1int, 0int,
{
    if s.len() >= 1 && s[0] == v.goal {
        (Some(Seq::empty()), seen)
    } else if limit <= 0 {
        (None, seen)
    } else if seen.contains_key(s) && seen[s] >= limit {
        (None, seen)
    } else {
        dls_moves(
            v,
            s,
            act,
            limit,
            seen.insert(s, limit as u8),
            all_moves(v.walls, v.size, s, v.robots.len() as int),
            0,
        )
    }
}

/// Trying the moves of `ms` from index `k` on, in order, from placement
/// `s`: a move that sends the robot of `act` straight back is passed over;
/// the first move from which the search finds moves ends it, that move
/// added last.
pub open spec fn dls_moves(
    v: BoardView,
    s: Seq<int>,
    act: (int, Direction),
    limit: int,
    seen: Map<Seq<int>, u8>,
    ms: Seq<MoveView>,
    k: int,
) -> (Option<Seq<MoveView>>, Map<Seq<int>, u8>)
    decreases limit, 0int, ms.len() - k,
{
    if limit <= 0 || k < 0 || k >= ms.len() {
        (None, seen)
    } else {
        let mv = ms[k];
        if mv.robot == act.0 && act.1 == opposite(mv.dir) {
            dls_moves(v, s, act, limit, seen, ms, k + 1)
        } else {
            let sub = dls(v, s.update(mv.robot, mv.to), (mv.robot, mv.dir), limit - 1, seen);
            match sub.0 {
                Some(res) => (Some(res.push(mv)), sub.1),
                None => dls_moves(v, s, act, limit, sub.1, ms, k + 1),
            }
        }
    }
}

/// Iterative deepening from `depth` on, with the map `seen` kept from one
/// depth to the next: the moves of the first depth, up to 255, at which the
/// search from the start finds some, in playing order.
pub open spec fn ids_from(v: BoardView, depth: int, seen: Map<Seq<int>, u8>) -> Option<Seq<MoveView>>
    decreases 256 - depth,
{
    if depth < 0 || depth > 255 {
        None
    } else {
        let found = dls(v, v.robots, (v.robots.len() as int, Direction::Up), depth, seen);
        match found.0 {
            Some(res) => Some(reversed(res)),
            None => if depth == 255 {
                None
            } else {
                ids_from(v, depth + 1, found.1)
            },
        }
    }
}

/// A found list of moves as the specifications see it.
pub open spec fn found_view<P: Position>(r: Option<Vec<Move<P>>>) -> Option<Seq<MoveView>> {
    match r {
        Some(res) => Some(moves_view(res@)),
        None => None,
    }
}

/// How the search last reached a placement: from `parent`, by sending
/// `robot` in direction `dir`. A `robot` that is no robot of the board
/// stands for the start.
pub struct Arrival {
    pub parent: Seq<int>,
    pub robot: int,
    pub dir: Direction,
}

/// What the search has learned so far: how it last reached each placement
/// it searched, and which of those searches are still running.
pub struct SearchLog {
    pub arrivals: Map<Seq<int>, Arrival>,
    pub open: Set<Seq<int>>,
}

/// Where the search is complete: no two robots share a cell.
pub open spec fn search_complete_for(v: BoardView) -> bool {
    v.robots.no_duplicates()
}

/// The search leaves out move (`i`, `dir`) after arrival `a`: it would send
/// the robot just moved straight back.
pub open spec fn skipped(a: Arrival, i: int, dir: Direction) -> bool {
    a.robot == i && dir == opposite(a.dir)
}

/// The search from `k`, with `l` moves left and reached by `a`, is over:
/// `k` is off the goal, and each move tried leads off the goal and, if moves
/// are left after it, to a placement searched with at least `l - 1` moves.
pub open spec fn closed(v: BoardView, seen: Map<Seq<int>, u8>, k: Seq<int>, l: int, a: Arrival) -> bool {
    &&& k[0] != v.goal
    &&& l >= 1
    &&& forall|i: int, dir: Direction|
        0 <= i < k.len() && !skipped(a, i, dir) ==> {
            let t = #[trigger] apply_move(v.walls, v.size, k, i, dir);
            t == k || (t[0] != v.goal && (l == 1 || (seen.contains_key(t) && seen[t] >= l - 1)))
        }
}

/// `k`, searched with `l` moves left, was reached by a move of a robot from
/// a placement searched with more moves left; or it is the start.
pub open spec fn arrived(v: BoardView, seen: Map<Seq<int>, u8>, k: Seq<int>, l: int, a: Arrival) -> bool {
    0 <= a.robot < v.robots.len() ==> {
        &&& seen.contains_key(a.parent)
        &&& seen[a.parent] >= l + 1
        &&& k == apply_move(v.walls, v.size, a.parent, a.robot, a.dir)
    }
}

/// The log agrees with the placements searched.
pub open spec fn log_ok(v: BoardView, seen: Map<Seq<int>, u8>, log: SearchLog) -> bool {
    &&& forall|k: Seq<int>| #[trigger]
        seen.contains_key(k) ==> k.len() == v.robots.len() && placement_ok(v.walls, k)
            && k.no_duplicates() && log.arrivals.contains_key(k) && arrived(
            v,
            seen,
            k,
            seen[k] as int,
            log.arrivals[k],
        )
    &&& forall|k: Seq<int>| #[trigger]
        seen.contains_key(k) && !log.open.contains(k) ==> closed(
            v,
            seen,
            k,
            seen[k] as int,
            log.arrivals[k],
        )
    &&& forall|k: Seq<int>| #[trigger] log.open.contains(k) ==> seen.contains_key(k)
}

/// When every search is over, no sequence of at most `seen[k]` moves from a
/// searched placement `k` brings robot 0 to the goal.
pub proof fn lemma_no_short_solution(
    v: BoardView,
    seen: Map<Seq<int>, u8>,
    log: SearchLog,
    k: Seq<int>,
    sol: Seq<(int, Direction)>,
)
    requires
        v.size >= 1,
        search_complete_for(v),
        log_ok(v, seen, log),
        log.open.is_empty(),
        seen.contains_key(k),
        sol.len() <= seen[k],
    ensures
        run(v.walls, v.size, k, sol)[0] != v.goal,
    decreases sol.len(), 256 - seen[k],
{
    let walls = v.walls;
    let n = v.size;
    let l = seen[k] as int;
    let a = log.arrivals[k];
    assert(!log.open.contains(k));
    assert(closed(v, seen, k, l, a));
    if sol.len() == 0 {
        assert(run(walls, n, k, sol) == k);
    } else {
        let first = sol[0];
        let rest = sol.drop_first();
        assert(sol =~= seq![first] + rest);
        lemma_run_prepend(walls, n, k, first, rest);
        let (i, dir) = first;
        let t = apply_move(walls, n, k, i, dir);
        assert(run(walls, n, k, sol) == run(walls, n, t, rest));
        if !(0 <= i < k.len()) || t == k {
            assert(t == k);
            lemma_no_short_solution(v, seen, log, k, rest);
        } else if skipped(a, i, dir) {
            let pk = a.parent;
            assert(arrived(v, seen, k, l, a));
            assert(seen.contains_key(pk));
            lemma_reverse_move(walls, n, pk, i, a.dir);
            assert(pk[i] == pk[i]);
            lemma_opposite_involution(a.dir);
            assert(t == apply_move(walls, n, pk, i, dir));
            lemma_run_prepend(walls, n, pk, first, rest);
            lemma_no_short_solution(v, seen, log, pk, sol);
        } else {
            assert(t[0] != v.goal);
            if rest.len() == 0 {
                assert(run(walls, n, t, rest) == t);
            } else {
                assert(seen.contains_key(t) && seen[t] >= l - 1);
                lemma_no_short_solution(v, seen, log, t, rest);
            }
        }
    }
}

/// From `a` to `b` the placements searched stay searched with as many
/// moves left or more, and every entry that is new or changed has between
/// 1 and `limit` moves left.
pub open spec fn seen_step(a: Map<Seq<int>, u8>, b: Map<Seq<int>, u8>, limit: int) -> bool {
    &&& seen_grows(a, b)
    &&& forall|k: Seq<int>| #[trigger]
        b.contains_key(k) && !(a.contains_key(k) && b[k] == a[k]) ==> 1 <= b[k] <= limit
}

/// Two steps with limits `l1 >= l2` make one step with limit `l1`.
proof fn lemma_seen_step_compose(
    a: Map<Seq<int>, u8>,
    b: Map<Seq<int>, u8>,
    c: Map<Seq<int>, u8>,
    l1: int,
    l2: int,
)
    requires
        seen_step(a, b, l1),
        seen_step(b, c, l2),
        l2 <= l1,
    ensures
        seen_step(a, c, l1),
{
    assert forall|k: Seq<int>| #[trigger] a.contains_key(k) implies c.contains_key(k) && c[k] >= a[k] by {
        assert(b.contains_key(k));
    }
    assert forall|k: Seq<int>| #[trigger]
        c.contains_key(k) && !(a.contains_key(k) && c[k] == a[k]) implies 1 <= c[k] <= l1 by {
        if b.contains_key(k) && c[k] == b[k] {
            assert(b.contains_key(k) && !(a.contains_key(k) && b[k] == a[k]));
        }
    }
}

/// Every placement searched before is still searched, with as many moves
/// left or more.
pub open spec fn seen_grows(a: Map<Seq<int>, u8>, b: Map<Seq<int>, u8>) -> bool {
    forall|k: Seq<int>| #[trigger] a.contains_key(k) ==> b.contains_key(k) && b[k] >= a[k]
}

/// The placements searched with at least `limit` moves left keep their
/// entries and arrivals.
pub open spec fn kept_from(
    a: Map<Seq<int>, u8>,
    b: Map<Seq<int>, u8>,
    la: SearchLog,
    lb: SearchLog,
    limit: int,
) -> bool {
    forall|k: Seq<int>| #[trigger]
        a.contains_key(k) && a[k] >= limit ==> b[k] == a[k] && lb.arrivals[k] == la.arrivals[k]
}

/// The arrival that a node records.
pub open spec fn arrival_of<P: Position>(node: Node<P>, parent: Seq<int>) -> Arrival {
    Arrival { parent: parent, robot: node.action().robot as int, dir: node.action().dir }
}

/// Starting the search of `s` with `l` moves left keeps the log right.
proof fn lemma_log_open(
    v: BoardView,
    seen: Map<Seq<int>, u8>,
    log: SearchLog,
    s: Seq<int>,
    l: u8,
    a: Arrival,
)
    requires
        log_ok(v, seen, log),
        !seen.contains_key(s) || seen[s] < l,
        s.len() == v.robots.len(),
        placement_ok(v.walls, s),
        s.no_duplicates(),
        arrived(v, seen, s, l as int, a),
    ensures
        log_ok(
            v,
            seen.insert(s, l),
            SearchLog { arrivals: log.arrivals.insert(s, a), open: log.open.insert(s) },
        ),
        seen_grows(seen, seen.insert(s, l)),
{
    let seen2 = seen.insert(s, l);
    let log2 = SearchLog { arrivals: log.arrivals.insert(s, a), open: log.open.insert(s) };
    assert forall|k: Seq<int>| #[trigger] seen2.contains_key(k) implies k.len() == v.robots.len()
        && placement_ok(v.walls, k) && k.no_duplicates() && log2.arrivals.contains_key(k) && arrived(
        v,
        seen2,
        k,
        seen2[k] as int,
        log2.arrivals[k],
    ) by {
        if k != s {
            assert(arrived(v, seen, k, seen[k] as int, log.arrivals[k]));
        }
    }
    assert forall|k: Seq<int>| #[trigger] seen2.contains_key(k) && !log2.open.contains(k) implies closed(
        v,
        seen2,
        k,
        seen2[k] as int,
        log2.arrivals[k],
    ) by {
        let a_k = log.arrivals[k];
        assert(closed(v, seen, k, seen[k] as int, a_k));
        assert forall|i: int, dir: Direction| 0 <= i < k.len() && !skipped(a_k, i, dir) implies {
            let t = #[trigger] apply_move(v.walls, v.size, k, i, dir);
            t == k || (t[0] != v.goal && (seen[k] == 1 || (seen2.contains_key(t) && seen2[t]
                >= seen[k] - 1)))
        } by {
            let t = apply_move(v.walls, v.size, k, i, dir);
            if t != k && seen.contains_key(t) {
                assert(seen2.contains_key(t));
            }
        }
    }
}

/// A search that is over, with its result as `closed` says, leaves the log
/// right when it is marked over.
proof fn lemma_log_close(v: BoardView, seen: Map<Seq<int>, u8>, log: SearchLog, s: Seq<int>)
    requires
        log_ok(v, seen, log),
        seen.contains_key(s),
        closed(v, seen, s, seen[s] as int, log.arrivals[s]),
    ensures
        log_ok(v, seen, SearchLog { arrivals: log.arrivals, open: log.open.remove(s) }),
{
}

/// The actual search: from `node`, look for a path of at most `limit` moves.
/// A placement already searched with at least as many moves left is skipped;
/// a move that sends the robot just moved straight back is not tried.
pub fn recursive_dls<P: Position>(
    board: &Board<Endpoints<P>, P>,
    node: Node<P>,
    limit: u8,
    seen: &mut StateMap<P, u8>,
    log: &mut Ghost<SearchLog>,
    Ghost(parent): Ghost<Seq<int>>,
) -> (r: Option<Vec<Move<P>>>)
    requires
        board.endpoint_board_ok(),
        placement_ok(board@.walls, node.robots()),
        node.robots().len() == board@.robots.len(),
        old(seen).wf(),
        search_complete_for(board@) ==> {
            &&& log_ok(board@, old(seen)@, old(log)@)
            &&& node.robots().no_duplicates()
            &&& arrived(board@, old(seen)@, node.robots(), limit as int, arrival_of(node, parent))
            &&& forall|k: Seq<int>| #[trigger]
                old(log)@.open.contains(k) ==> old(seen)@[k] >= limit + 1
        },
    ensures
        final(seen).wf(),
        match r {
            Some(res) => {
                &&& res@.len() <= limit
                &&& valid_path(
                    board@.walls,
                    board@.size,
                    board@.goal,
                    node.robots(),
                    reversed(moves_view(res@)),
                )
            },
            None => search_complete_for(board@) ==> {
                &&& log_ok(board@, final(seen)@, final(log)@)
                &&& final(log)@.open == old(log)@.open
                &&& kept_from(old(seen)@, final(seen)@, old(log)@, final(log)@, limit as int)
                &&& node.robots()[0] != board@.goal
                &&& (limit == 0 || (final(seen)@.contains_key(node.robots()) && final(seen)@[node.robots()]
                    >= limit))
            },
        },
        seen_step(old(seen)@, final(seen)@, limit as int),
        node.robots()[0] == board@.goal ==> (r matches Some(res) && res@.len() == 0) && final(seen)@
            == old(seen)@,
        node.robots()[0] != board@.goal && limit == 0 ==> r is None && final(seen)@ == old(seen)@,
        r matches Some(res) ==> res@.len() == 0 || !(res@.last().robot == node.action().robot
            && res@.last().dir == opposite(node.action().dir)),
        (found_view(r), final(seen)@) == dls(
            board@,
            node.robots(),
            (node.action().robot as int, node.action().dir),
            limit as int,
            old(seen)@,
        ),
    decreases limit,
{
    let ghost v = board@;
    let ghost walls = v.walls;
    let ghost n = v.size;
    let ghost s = node.robots();
    let ghost nr = s.len();
    let ghost law = search_complete_for(v);
    let ghost arr = arrival_of(node, parent);
    let ghost seen0 = seen@;
    let ghost log0 = log@;
    if node.robots.get(0).to_usize() == board.goal().to_usize() {
        let res: Vec<Move<P>> = Vec::new();
        proof {
            assert(reversed(moves_view(res@)) =~= Seq::<MoveView>::empty());
            assert(moves_view(res@) =~= Seq::<MoveView>::empty());
        }
        return Some(res);
    }
    let ghost act = (node.action().robot as int, node.action().dir);
    if limit == 0 {
        return None;
    }
    let seen_limit = match seen.get(node.robots.positions()) {
        Some(x) => x,
        None => 0,
    };
    if seen_limit >= limit {
        return None;
    }
    proof {
        if law {
            lemma_log_open(v, seen@, log@, s, limit, arr);
        }
    }
    seen.insert(node.robots.duplicate().into_positions(), limit);
    *log = Ghost(SearchLog { arrivals: log@.arrivals.insert(s, arr), open: log@.open.insert(s) });
    let ghost seen1 = seen@;
    let ghost log1 = log@;
    proof {
        assert(seen1 == seen0.insert(s, limit));
        assert forall|kk: Seq<int>| #[trigger] seen0.contains_key(kk) implies seen1.contains_key(kk)
            && seen1[kk] >= seen0[kk] by {}
    }
    let previous_move = node.action;
    let mut moves: Vec<Move<P>> = Vec::new();
    board.possible_moves(&node.robots, &mut moves);
    proof {
        assert(moves_view(moves@) =~= all_moves(walls, n, s, nr as int));
        if law {
            assert(!log0.open.contains(s));
        }
        assert(dls(v, s, act, limit as int, seen0) == dls_moves(
            v,
            s,
            act,
            limit as int,
            seen@,
            moves_view(moves@),
            0,
        ));
    }
    let mut k: usize = 0;
    while k < moves.len()
        invariant
            act == (previous_move.robot as int, previous_move.dir),
            dls(v, s, act, limit as int, seen0) == dls_moves(
                v,
                s,
                act,
                limit as int,
                seen@,
                moves_view(moves@),
                k as int,
            ),
            board.endpoint_board_ok(),
            v == board@,
            walls == v.walls,
            n == v.size,
            s == node.robots(),
            nr == s.len(),
            nr == v.robots.len(),
            placement_ok(walls, s),
            seen.wf(),
            moves_view(moves@) == all_moves(walls, n, s, nr as int),
            k <= moves@.len(),
            limit >= 1,
            law == search_complete_for(v),
            arr == arrival_of(node, parent),
            previous_move == node.action(),
            seen_step(seen0, seen@, limit as int),
            seen0 == old(seen)@,
            s[0] != v.goal,
            law ==> {
                &&& log_ok(v, seen@, log@)
                &&& log@.open == log0.open.insert(s)
                &&& !log0.open.contains(s)
                &&& s.no_duplicates()
                &&& seen_grows(seen0, seen@)
                &&& kept_from(seen0, seen@, log0, log@, limit as int)
                &&& seen@.contains_key(s)
                &&& seen@[s] == limit
                &&& log@.arrivals[s] == arr
                &&& s[0] != v.goal
                &&& forall|kk: Seq<int>| #[trigger] log@.open.contains(kk) ==> seen@[kk] >= limit
                &&& forall|jj: int|
                    0 <= jj < k ==> {
                        let mv = #[trigger] moves_view(moves@)[jj];
                        let t = apply_move(walls, n, s, mv.robot, mv.dir);
                        skipped(arr, mv.robot, mv.dir) || (t[0] != v.goal && (limit == 1 || (
                        seen@.contains_key(t) && seen@[t] >= limit - 1)))
                    }
            },
        decreases moves@.len() - k,
    {
        let action = moves[k];
        let ghost mv = moves_view(moves@)[k as int];
        let ghost seen2 = seen@;
        let ghost log2 = log@;
        proof {
            assert(mv == action@);
        }
        if action.robot != previous_move.robot || !action.dir.is_opposite(&previous_move.dir) {
            proof {
                lemma_all_moves_valid(walls, n, s, nr as int);
                assert(moves_view(moves@)[k as int] == action@);
                assert(0 <= action@.robot < nr);
                assert(action@.to == robot_dest(walls, n, s, action@.robot, action@.dir));
                lemma_apply_placement(walls, n, s, action.robot as int, action.dir);
                if law {
                    lemma_move_distinct(walls, n, s, action.robot as int, action.dir);
                }
            }
            let child = child_node(
                Node { robots: node.robots.duplicate(), action: node.action },
                action,
            );
            let ghost t = child.robots();
            proof {
                assert(t == apply_move(walls, n, s, action.robot as int, action.dir));
                assert(arrival_of(child, s).robot == mv.robot);
            }
            let result = recursive_dls(board, child, limit - 1, seen, log, Ghost(s));
            proof {
                assert(seen_step(seen0, seen2, limit as int));
                assert(seen_step(seen2, seen@, (limit - 1) as int));
                lemma_seen_step_compose(seen0, seen2, seen@, limit as int, limit - 1);
                assert(seen_step(seen0, seen@, limit as int));
            }
            proof {
                assert(child.action() == action);
                assert(t == s.update(mv.robot, mv.to));
                assert(!(mv.robot == act.0 && act.1 == opposite(mv.dir)));
                assert(dls_moves(v, s, act, limit as int, seen2, moves_view(moves@), k as int) == {
                    let sub = dls(v, t, (mv.robot, mv.dir), limit - 1, seen2);
                    match sub.0 {
                        Some(res) => (Some(res.push(mv)), sub.1),
                        None => dls_moves(v, s, act, limit as int, sub.1, moves_view(moves@), k + 1),
                    }
                });
            }
            if let Some(mut res) = result {
                let ghost r0 = res@;
                res.push(action);
                proof {
                    lemma_opposite_involution(action.dir);
                    lemma_opposite_involution(previous_move.dir);
                    let mvs = moves_view(res@);
                    let rv = reversed(mvs);
                    assert(mvs.drop_last() =~= moves_view(r0));
                    assert(mvs =~= moves_view(r0).push(mv));
                    assert(rv =~= seq![action@] + reversed(moves_view(r0)));
                    assert(rv.drop_first() =~= reversed(moves_view(r0)));
                }
                return Some(res);
            }
            proof {
                if law {
                    assert(seen2.contains_key(s) && seen2[s] >= limit - 1);
                    assert forall|kk: Seq<int>| #[trigger] seen0.contains_key(kk) implies seen@.contains_key(kk)
                        && seen@[kk] >= seen0[kk] by {
                        assert(seen2.contains_key(kk));
                    }
                    assert forall|kk: Seq<int>| #[trigger]
                        seen0.contains_key(kk) && seen0[kk] >= limit implies seen@[kk] == seen0[kk]
                            && log@.arrivals[kk] == log0.arrivals[kk] by {
                        assert(seen2[kk] == seen0[kk]);
                    }
                    assert forall|jj: int| 0 <= jj <= k implies {
                        let mv2 = #[trigger] moves_view(moves@)[jj];
                        let t2 = apply_move(walls, n, s, mv2.robot, mv2.dir);
                        skipped(arr, mv2.robot, mv2.dir) || (t2[0] != v.goal && (limit == 1 || (
                        seen@.contains_key(t2) && seen@[t2] >= limit - 1)))
                    } by {
                        let mv2 = moves_view(moves@)[jj];
                        let t2 = apply_move(walls, n, s, mv2.robot, mv2.dir);
                        if jj < k && !skipped(arr, mv2.robot, mv2.dir) && limit != 1 {
                            assert(seen2.contains_key(t2));
                        }
                    }
                }
            }
        } else {
            proof {
                if law {
                    assert(skipped(arr, mv.robot, mv.dir));
                }
                assert(mv.robot == act.0 && act.1 == opposite(mv.dir));
            }
        }
        k = k + 1;
    }
    proof {
        if law {
            lemma_all_moves_valid(walls, n, s, nr as int);
            assert forall|i: int, dir: Direction| 0 <= i < s.len() && !skipped(arr, i, dir) implies {
                let t = #[trigger] apply_move(v.walls, v.size, s, i, dir);
                t == s || (t[0] != v.goal && (limit == 1 || (seen@.contains_key(t) && seen@[t]
                    >= limit - 1)))
            } by {
                let t = apply_move(v.walls, v.size, s, i, dir);
                if robot_dest(walls, n, s, i, dir) != s[i] {
                    let jj = lemma_all_moves_complete(walls, n, s, nr as int, i, dir);
                    assert(moves_view(moves@)[jj] == all_moves(walls, n, s, nr as int)[jj]);
                } else {
                    assert(t =~= s);
                }
            }
            assert(closed(v, seen@, s, seen@[s] as int, log@.arrivals[s]));
            lemma_log_close(v, seen@, log@, s);
            assert(log@.open.remove(s) =~= log0.open);
        }
    }
    *log = Ghost(SearchLog { arrivals: log@.arrivals, open: log@.open.remove(s) });
    None
}

/// Depth-first search to a given limit, from the robots' starting places.
pub fn depth_limited_search<P: Position>(
    board: &Board<Endpoints<P>, P>,
    limit: u8,
    seen: &mut StateMap<P, u8>,
    log: &mut Ghost<SearchLog>,
) -> (r: Option<Vec<Move<P>>>)
    requires
        board.endpoint_board_ok(),
        old(seen).wf(),
        search_complete_for(board@) ==> log_ok(board@, old(seen)@, old(log)@) && old(
            log,
        )@.open.is_empty(),
    ensures
        final(seen).wf(),
        match r {
            Some(res) => {
                &&& res@.len() <= limit
                &&& valid_path(
                    board@.walls,
                    board@.size,
                    board@.goal,
                    board@.robots,
                    reversed(moves_view(res@)),
                )
            },
            None => search_complete_for(board@) ==> {
                &&& log_ok(board@, final(seen)@, final(log)@)
                &&& final(log)@.open.is_empty()
                &&& forall|sol: Seq<(int, Direction)>|
                    sol.len() <= limit ==> !#[trigger] reaches_goal(board@, sol)
            },
        },
        board@.robots[0] == board@.goal ==> (r matches Some(res) && res@.len() == 0),
        seen_step(old(seen)@, final(seen)@, limit as int),
        (found_view(r), final(seen)@) == dls(
            board@,
            board@.robots,
            (board@.robots.len() as int, Direction::Up),
            limit as int,
            old(seen)@,
        ),
{
    proof {
        P::lemma_pos_max();
    }
    let initial = Node {
        robots: board.robots().duplicate(),
        // the first move is by a robot the board does not have
        action: Move::new(board.robots().len() as u8, P::from_usize(0), Direction::Up),
    };
    let ghost v = board@;
    let r = recursive_dls(board, initial, limit, seen, log, Ghost(v.robots));
    proof {
        if r is None && search_complete_for(v) {
            assert forall|sol: Seq<(int, Direction)>| sol.len() <= limit implies !#[trigger] reaches_goal(
                v,
                sol,
            ) by {
                if limit == 0 {
                    assert(sol.len() == 0);
                    assert(run(v.walls, v.size, v.robots, sol) == v.robots);
                } else {
                    lemma_no_short_solution(v, seen@, log@, v.robots, sol);
                }
            }
        }
    }
    r
}

/// Iterative deepening depth-first search: search to depth 0, 1, 2, ... and
/// return the first solution found. The board must have a solution of at
/// most 255 moves. With the robots on distinct cells, the solution found is a
/// shortest one; `None` comes only when robots share a cell and the search,
/// which never sends a robot straight back, finds nothing within 255 moves.
/// The answer is the one `ids_from` gives from depth 0 and no placement seen.
pub fn ids<P: Position>(board: &Board<Endpoints<P>, P>) -> (r: Option<Vec<Move<P>>>)
    requires
        board.endpoint_board_ok(),
        exists|sol: Seq<(int, Direction)>| sol.len() <= 255 && #[trigger] reaches_goal(board@, sol),
    ensures
        board@.robots[0] == board@.goal ==> (r matches Some(sol) && sol@.len() == 0),
        match r {
            Some(sol) => {
                &&& valid_path(
                    board@.walls,
                    board@.size,
                    board@.goal,
                    board@.robots,
                    moves_view(sol@),
                )
                &&& search_complete_for(board@) ==> forall|other: Seq<(int, Direction)>|
                    other.len() < sol@.len() ==> !#[trigger] reaches_goal(board@, other)
            },
            None => !search_complete_for(board@),
        },
        found_view(r) == ids_from(board@, 0, Map::empty()),
{
    let ghost v = board@;
    let mut depth: u8 = 0;
    let mut seen: StateMap<P, u8> = StateMap::new();
    let mut log: Ghost<SearchLog> = Ghost(SearchLog { arrivals: Map::empty(), open: Set::empty() });
    proof {
        assert(log@.open =~= Set::<Seq<int>>::empty());
    }
    loop
        invariant
            board.endpoint_board_ok(),
            v == board@,
            seen.wf(),
            search_complete_for(v) ==> {
                &&& log_ok(v, seen@, log@)
                &&& log@.open.is_empty()
                &&& forall|other: Seq<(int, Direction)>|
                    other.len() < depth ==> !#[trigger] reaches_goal(v, other)
            },
            exists|sol: Seq<(int, Direction)>| sol.len() <= 255 && #[trigger] reaches_goal(v, sol),
            v.robots[0] == v.goal ==> depth == 0,
            ids_from(v, 0, Map::empty()) == ids_from(v, depth as int, seen@),
        decreases 255 - depth,
    {
        let ghost seen_before = seen@;
        let found = depth_limited_search(board, depth, &mut seen, &mut log);
        proof {
            assert(ids_from(v, depth as int, seen_before) == match found_view(found) {
                Some(res) => Some(reversed(res)),
                None => if depth == 255 {
                    None
                } else {
                    ids_from(v, depth + 1, seen@)
                },
            });
        }
        if let Some(result) = found {
            let mut out: Vec<Move<P>> = Vec::new();
            let mut k = result.len();
            while k > 0
                invariant
                    k <= result@.len(),
                    out@.len() == result@.len() - k,
                    forall|j: int|
                        0 <= j < out@.len() ==> out@[j] == result@[result@.len() - 1 - j],
                decreases k,
            {
                k = k - 1;
                out.push(result[k]);
            }
            proof {
                assert(moves_view(out@) =~= reversed(moves_view(result@)));
            }
            return Some(out);
        }
        if depth == 255 {
            proof {
                if search_complete_for(v) {
                    let sol = choose|sol: Seq<(int, Direction)>|
                        sol.len() <= 255 && #[trigger] reaches_goal(v, sol);
                    assert(!reaches_goal(v, sol));
                }
            }
            return None;
        }
        depth = depth + 1;
    }
}

} // verus!
