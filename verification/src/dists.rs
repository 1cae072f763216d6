//! The distance table that guides the A* search.
use vstd::prelude::*;
use vstd::set_lib::{set_int_range, lemma_int_range, lemma_len_subset};

use crate::board::{Board, geometry_ok, lemma_within_step, within};
use crate::direction::{Direction, delta, opposite};
use crate::game::{
    blocked, lemma_mod_bounds, lemma_mod_next, lemma_mod_prev, lemma_on_path, lemma_on_path_extend,
    lemma_same_column_gap, lemma_slide_facts, on_path, slide_measure, step,
};
use crate::position::Position;
use crate::reverse::beyond;
use crate::robots::{copy_positions, values};

verus! {

/// The value of an unreached cell in the distance table.
pub const UNREACHED: u16 = 65535;

/// Robot 0, were it able to stop anywhere, gets from `c` to the goal in at
/// most `k` straight runs over free cells.
pub open spec fn reach_within(walls: Seq<bool>, n: int, goal: int, c: int, k: nat) -> bool
    decreases k,
{
    c == goal || (k > 0 && exists|x: int, dir: Direction|
        0 <= x < walls.len() && #[trigger] on_path(walls, Seq::empty(), n, x, dir, c)
            && reach_within(walls, n, goal, x, (k - 1) as nat))
}

/// The helper spot a run toward `f` against direction `dir` needs in order
/// to stop at `f`: the free cell just past `f`, if the board goes on there.
pub open spec fn helper(walls: Seq<bool>, n: int, f: int, dir: Direction) -> Seq<int> {
    let prev = f - delta(dir, n);
    if 0 <= prev < walls.len() && !walls[prev] && within(walls.len() as int, n, prev, f, opposite(dir)) {
        seq![prev]
    } else {
        Seq::empty()
    }
}

/// More runs allowed reach no fewer cells.
pub proof fn lemma_reach_mono(walls: Seq<bool>, n: int, goal: int, c: int, k: nat, m: nat)
    requires
        reach_within(walls, n, goal, c, k),
        k <= m,
    ensures
        reach_within(walls, n, goal, c, m),
    decreases k,
{
    if c != goal {
        let (x, dir) = choose|x: int, dir: Direction|
            0 <= x < walls.len() && #[trigger] on_path(walls, Seq::empty(), n, x, dir, c)
                && reach_within(walls, n, goal, x, (k - 1) as nat);
        lemma_reach_mono(walls, n, goal, x, (k - 1) as nat, (m - 1) as nat);
    }
}

/// The cells a slide passes lie beyond its start.
pub proof fn lemma_on_path_beyond(walls: Seq<bool>, r: Seq<int>, n: int, p: int, dir: Direction, y: int)
    requires
        on_path(walls, r, n, p, dir, y),
    ensures
        beyond(p, dir, y),
    decreases slide_measure(walls.len() as int, p, dir),
{
    let q = step(walls.len() as int, n, p, dir)->0;
    if q != y {
        lemma_on_path_beyond(walls, r, n, q, dir, y);
    }
}

/// A slide passing `t` and then `c` passes `c` when started from `t`.
pub proof fn lemma_on_path_suffix(
    walls: Seq<bool>,
    r: Seq<int>,
    n: int,
    p: int,
    dir: Direction,
    t: int,
    c: int,
)
    requires
        on_path(walls, r, n, p, dir, t),
        on_path(walls, r, n, p, dir, c),
        beyond(t, dir, c),
    ensures
        on_path(walls, r, n, t, dir, c),
    decreases slide_measure(walls.len() as int, p, dir),
{
    let q = step(walls.len() as int, n, p, dir)->0;
    if q != t {
        if q == c {
            lemma_on_path_beyond(walls, r, n, q, dir, t);
        } else {
            lemma_on_path_suffix(walls, r, n, q, dir, t, c);
        }
    }
}

/// A distance-table entry as the specifications see it: moves, and helper spots.
pub open spec fn dist_view<P: Position>(e: (u16, Vec<P>)) -> (int, Seq<int>) {
    (e.0 as int, values(e.1@))
}

/// A distance table as the specifications see it.
pub open spec fn dists_view<P: Position>(d: Seq<(u16, Vec<P>)>) -> Seq<(int, Seq<int>)> {
    d.map_values(|e: (u16, Vec<P>)| dist_view(e))
}

/// Helper spots must be free cells of the board.
pub open spec fn spots_ok(walls: Seq<bool>, spots: Seq<int>) -> bool {
    forall|i: int| 0 <= i < spots.len() ==> 0 <= #[trigger] spots[i] < walls.len() && !walls[spots[i]]
}

/// A cell one run further than `f`, that the run from `f` in `dir` reaches
/// over cells of its own distance only, has no more helper spots than that
/// run offers: those of `f` and the one the run needs.
pub open spec fn spots_least(walls: Seq<bool>, n: int, d: Seq<(int, Seq<int>)>) -> bool {
    forall|c: int, f: int, dir: Direction|
        0 <= c < d.len() && 0 <= f < d.len() && d[c].0 != UNREACHED && d[f].0 + 1 == d[c].0
            && #[trigger] on_path(walls, Seq::empty(), n, f, dir, c) && (forall|x: int|
            #[trigger] on_path(walls, Seq::empty(), n, f, dir, x) && beyond(x, dir, c) ==> 0 <= x
                < d.len() && d[x].0 == d[c].0) ==> d[c].1.len() <= d[f].1.len() + helper(
            walls,
            n,
            f,
            dir,
        ).len()
}

/// Where the helper spots of reached cell `c` come from: from a cell one run
/// closer, with the spot the run from there needs; or else they are fewer
/// than any cell one run closer offers along a run over cells of the
/// distance of `c` only.
pub open spec fn spots_sourced(walls: Seq<bool>, n: int, d: Seq<(int, Seq<int>)>, c: int) -> bool {
    ||| exists|f: int, dir: Direction|
        0 <= f < d.len() && d[f].0 + 1 == d[c].0 && #[trigger] on_path(walls, Seq::empty(), n, f, dir, c)
            && d[c].1 == d[f].1 + helper(walls, n, f, dir)
    ||| forall|g: int, dg: Direction|
        0 <= g < d.len() && d[g].0 + 1 == d[c].0 && #[trigger] on_path(walls, Seq::empty(), n, g, dg, c)
            && (forall|x: int|
            #[trigger] on_path(walls, Seq::empty(), n, g, dg, x) && beyond(x, dg, c) ==> 0 <= x
                < d.len() && d[x].0 == d[c].0) ==> d[c].1.len() < d[g].1.len() + helper(
            walls,
            n,
            g,
            dg,
        ).len()
}

/// Every cell that some number of runs reaches is reached in fewer than
/// `UNREACHED` runs, so that its distance fits the table.
pub open spec fn dists_fit(walls: Seq<bool>, n: int, goal: int) -> bool {
    forall|c: int, m: nat|
        #[trigger] reach_within(walls, n, goal, c, m) ==> reach_within(
            walls,
            n,
            goal,
            c,
            (UNREACHED - 1) as nat,
        )
}

/// Reached cell `f` at most as far as `c` gives `c` its helper spots along a
/// run in direction `dir`: those of `f` and the spot that run needs.
pub open spec fn spots_from(walls: Seq<bool>, n: int, d: Seq<(int, Seq<int>)>, f: int, dir: Direction, c: int) -> bool {
    &&& 0 <= f < d.len()
    &&& d[f].0 != UNREACHED
    &&& (d[f].0 + 1 == d[c].0 || d[f].0 == d[c].0)
    &&& on_path(walls, Seq::empty(), n, f, dir, c)
    &&& d[c].1 == d[f].1 + helper(walls, n, f, dir)
}

/// The reached cells in an order, the goal first, in which each later cell
/// has its helper spots from a cell before it.
#[verifier::opaque]
pub open spec fn sourced_in_order(
    walls: Seq<bool>,
    n: int,
    goal: int,
    d: Seq<(int, Seq<int>)>,
    order: Seq<int>,
) -> bool {
    &&& order.no_duplicates()
    &&& order.len() >= 1
    &&& order[0] == goal
    &&& forall|i: int| 0 <= i < order.len() ==> 0 <= #[trigger] order[i] < d.len() && d[order[i]].0 != UNREACHED
    &&& forall|c: int| 0 <= c < d.len() && d[c].0 != UNREACHED ==> #[trigger] order.contains(c)
    &&& forall|i: int| 0 < i < order.len() ==> #[trigger] sourced_before(walls, n, d, order, i)
}

/// The cell at `i` in `order` has its helper spots from a cell before it.
pub open spec fn sourced_before(walls: Seq<bool>, n: int, d: Seq<(int, Seq<int>)>, order: Seq<int>, i: int) -> bool {
    exists|j: int, dir: Direction| 0 <= j < i && #[trigger] spots_from(walls, n, d, order[j], dir, order[i])
}

/// What the distance table promises: one entry per cell; the goal at 0 moves
/// with no helper; every cell at the least number of straight runs that
/// take robot 0 to the goal if it could stop anywhere, `UNREACHED` with no
/// helper when no number does; and the helper spots of a reached cell other
/// than the goal are those of a cell at most one run closer, from which a
/// run leads to it, plus the spot that run needs, and no more spots than
/// its distance nor than any run from one cell closer offers it; spots
/// taken from a cell as far as itself are fewer than any such run offers;
/// and the reached cells can be ordered, the goal first, so that each takes
/// its spots from a cell before it.
#[verifier::opaque]
pub open spec fn dists_ok(walls: Seq<bool>, n: int, goal: int, d: Seq<(int, Seq<int>)>) -> bool {
    &&& spots_least(walls, n, d)
    &&& exists|order: Seq<int>| sourced_in_order(walls, n, goal, d, order)
    &&& forall|c: int|
        0 <= c < d.len() && d[c].0 != UNREACHED && c != goal ==> #[trigger] spots_sourced(walls, n, d, c)
    &&& d.len() == walls.len()
    &&& d[goal] == (0int, Seq::<int>::empty())
    &&& forall|c: int|
        0 <= c < d.len() ==> {
            let e = #[trigger] d[c];
            &&& 0 <= e.0 <= UNREACHED
            &&& (e.0 == UNREACHED ==> e.1 == Seq::<int>::empty() && forall|m: nat|
                !#[trigger] reach_within(walls, n, goal, c, m))
            &&& (e.0 != UNREACHED ==> spots_ok(walls, e.1) && e.1.len() <= e.0 && reach_within(
                walls,
                n,
                goal,
                c,
                e.0 as nat,
            ) && (e.0 >= 1 ==> !reach_within(walls, n, goal, c, (e.0 - 1) as nat)))
            &&& (e.0 != UNREACHED && c != goal ==> exists|f: int, dir: Direction|
                0 <= f < d.len() && d[f].0 != UNREACHED && (d[f].0 + 1 == e.0 || d[f].0 == e.0)
                    && #[trigger] on_path(walls, Seq::empty(), n, f, dir, c) && e.1 == d[f].1
                    + helper(walls, n, f, dir))
        }
}

/// A queue entry as the specifications see it: cell, moves, helper spots.
pub open spec fn entry_view<P: Position>(e: (P, u16, Vec<P>)) -> (int, int, Seq<int>) {
    (e.0.pos_value() as int, e.1 as int, values(e.2@))
}

/// A queue as the specifications see it.
pub open spec fn queue_view<P: Position>(q: Seq<(P, u16, Vec<P>)>) -> Seq<(int, int, Seq<int>)> {
    q.map_values(|e: (P, u16, Vec<P>)| entry_view(e))
}

/// The cells of the queue's entries, in order.
pub open spec fn queue_cells(q: Seq<(int, int, Seq<int>)>) -> Seq<int> {
    q.map_values(|e: (int, int, Seq<int>)| e.0)
}

/// The breadth-first search state: the queue holds distinct cells, the goal
/// first, in order of their number of runs, which is exact and at most one
/// more than that of the entry taken out last; each later entry has the
/// helper spots of an entry taken out before, one run away; the entries
/// before `head` are recorded in the table, no other cell is.
#[verifier::opaque]
pub open spec fn queue_ok(
    walls: Seq<bool>,
    n: int,
    goal: int,
    q: Seq<(int, int, Seq<int>)>,
    head: int,
    d: Seq<(int, Seq<int>)>,
) -> bool {
    &&& q.len() >= 1
    &&& q[0].0 == goal
    &&& q[0].1 == 0
    &&& q[0].2 == Seq::<int>::empty()
    &&& 1 <= head <= q.len() || (head == 0 && q.len() == 1)
    &&& d.len() == walls.len()
    &&& queue_cells(q).no_duplicates()
    &&& forall|i: int|
        0 <= i < q.len() ==> {
            let e = #[trigger] q[i];
            &&& 0 <= e.0 < walls.len()
            &&& 0 <= e.1 <= i
            &&& e.1 < UNREACHED
            &&& spots_ok(walls, e.2)
            &&& e.2.len() <= e.1
            &&& reach_within(walls, n, goal, e.0, e.1 as nat)
            &&& (e.1 >= 1 ==> !reach_within(walls, n, goal, e.0, (e.1 - 1) as nat))
            &&& (i > 0 ==> e.1 >= 1 && exists|j: int, dir: Direction|
                0 <= j < i && j < head && (q[j].1 + 1 == e.1 || q[j].1 == e.1) && on_path(
                    walls,
                    Seq::empty(),
                    n,
                    q[j].0,
                    dir,
                    e.0,
                ) && e.2 == q[j].2 + helper(walls, n, q[j].0, dir))
        }
    &&& forall|i: int, j: int| 0 <= i <= j < q.len() ==> #[trigger] q[i].1 <= #[trigger] q[j].1
    &&& head >= 1 ==> forall|j: int| 0 <= j < q.len() ==> #[trigger] q[j].1 <= q[head - 1].1 + 1
    &&& forall|j: int| 0 <= j < head ==> d[(#[trigger] q[j]).0] == (q[j].1, q[j].2)
    &&& forall|c: int|
        0 <= c < d.len() && !queue_cells(q).take(head).contains(c) ==> #[trigger] d[c] == (
            UNREACHED as int,
            Seq::<int>::empty(),
        )
}

/// Exactly `l` runs reach `x` at least: `l` do, fewer do not.
pub open spec fn at_level(walls: Seq<bool>, n: int, goal: int, x: int, l: int) -> bool {
    &&& l >= 0
    &&& reach_within(walls, n, goal, x, l as nat)
    &&& (l >= 1 ==> !reach_within(walls, n, goal, x, (l - 1) as nat))
}

/// A cell has one level.
proof fn lemma_level_unique(walls: Seq<bool>, n: int, goal: int, x: int, a: int, b: int)
    requires
        at_level(walls, n, goal, x, a),
        at_level(walls, n, goal, x, b),
    ensures
        a == b,
{
    if a < b {
        lemma_reach_mono(walls, n, goal, x, a as nat, (b - 1) as nat);
    } else if b < a {
        lemma_reach_mono(walls, n, goal, x, b as nat, (a - 1) as nat);
    }
}

/// Every cell the run from `f` in `dir` passes before `c` is at level `l`.
pub open spec fn run_clear(
    walls: Seq<bool>,
    n: int,
    goal: int,
    f: int,
    dir: Direction,
    c: int,
    l: int,
) -> bool {
    forall|x: int|
        #[trigger] on_path(walls, Seq::empty(), n, f, dir, x) && beyond(x, dir, c) ==> at_level(
            walls,
            n,
            goal,
            x,
            l,
        )
}

/// The spots a run from `f` in direction `dir` offers.
pub open spec fn offer(walls: Seq<bool>, n: int, f: int, spots: Seq<int>, dir: Direction) -> int {
    (spots.len() + helper(walls, n, f, dir).len()) as int
}

/// Entry `j` offered its spots, in direction `dir`, to cell `q[i].0`: a
/// cell one level further that its run reaches over cells of that level.
pub open spec fn offered(walls: Seq<bool>, n: int, goal: int, q: Seq<(int, int, Seq<int>)>, j: int, dir: Direction, i: int) -> bool {
    &&& 0 <= i < q.len()
    &&& on_path(walls, Seq::empty(), n, q[j].0, dir, q[i].0)
    &&& q[i].1 == q[j].1 + 1
    &&& run_clear(walls, n, goal, q[j].0, dir, q[i].0, q[j].1 + 1)
}

/// Entry `i` took its spots from an entry one run closer taken out already,
/// with the spot that run needs.
pub open spec fn closer_source(walls: Seq<bool>, n: int, q: Seq<(int, int, Seq<int>)>, head: int, i: int) -> bool {
    exists|j: int, dir: Direction|
        0 <= j < head && q[j].1 + 1 == q[i].1 && #[trigger] on_path(walls, Seq::empty(), n, q[j].0, dir, q[i].0)
            && q[i].2 == q[j].2 + helper(walls, n, q[j].0, dir)
}

/// Entry `i` has fewer spots than any entry one run closer offers it.
pub open spec fn below_offers(walls: Seq<bool>, n: int, goal: int, q: Seq<(int, int, Seq<int>)>, i: int) -> bool {
    forall|g: int, dg: Direction|
        0 <= g < q.len() && #[trigger] offered(walls, n, goal, q, g, dg, i) ==> q[i].2.len() < offer(
            walls,
            n,
            q[g].0,
            q[g].2,
            dg,
        )
}

/// Where entry `i`'s spots come from: an entry one run closer, or, for an
/// entry no further than the one taken out last, a run that offered fewer
/// spots than any entry one run closer does.
pub open spec fn spot_src(walls: Seq<bool>, n: int, goal: int, q: Seq<(int, int, Seq<int>)>, head: int, i: int) -> bool {
    ||| closer_source(walls, n, q, head, i)
    ||| below_offers(walls, n, goal, q, i) && (head >= 1 ==> q[i].1 <= q[head - 1].1)
}

/// A queue holding the goal alone, at no runs, keeps where spots come from.
proof fn lemma_src_init(walls: Seq<bool>, n: int, goal: int, q: Seq<(int, int, Seq<int>)>)
    requires
        q.len() == 1,
        q[0].1 == 0,
    ensures
        forall|i: int| 0 <= i < q.len() ==> #[trigger] spot_src(walls, n, goal, q, 0, i),
{
    assert forall|i: int| 0 <= i < q.len() implies #[trigger] spot_src(walls, n, goal, q, 0, i) by {
        assert forall|g: int, dg: Direction|
            0 <= g < q.len() && #[trigger] offered(walls, n, goal, q, g, dg, i) implies q[i].2.len()
                < offer(walls, n, q[g].0, q[g].2, dg) by {}
    }
}

/// Taking out the entry at `head` keeps where the spots come from.
proof fn lemma_src_pop(
    walls: Seq<bool>,
    n: int,
    goal: int,
    q: Seq<(int, int, Seq<int>)>,
    head: int,
    d: Seq<(int, Seq<int>)>,
)
    requires
        queue_ok(walls, n, goal, q, head + 1, d),
        0 <= head < q.len(),
        head == 0 ==> q.len() == 1,
        forall|i: int| 0 <= i < q.len() ==> #[trigger] spot_src(walls, n, goal, q, head, i),
    ensures
        forall|i: int| 0 <= i < q.len() ==> #[trigger] spot_src(walls, n, goal, q, head + 1, i),
{
    lemma_queue_facts(walls, n, goal, q, head + 1, d);
    assert forall|i: int| 0 <= i < q.len() implies #[trigger] spot_src(walls, n, goal, q, head + 1, i) by {
        assert(spot_src(walls, n, goal, q, head, i));
        if closer_source(walls, n, q, head, i) {
            let (j, dir) = choose|j: int, dir: Direction|
                0 <= j < head && q[j].1 + 1 == q[i].1 && #[trigger] on_path(walls, Seq::empty(), n, q[j].0, dir, q[i].0)
                    && q[i].2 == q[j].2 + helper(walls, n, q[j].0, dir);
            assert(closer_source(walls, n, q, head + 1, i));
        } else {
            if head >= 1 {
                assert(q[head - 1].1 <= q[head].1);
            } else {
                assert(q[i].1 <= q[0].1);
            }
        }
    }
}

/// Adding an entry whose spots come from the entry taken out last keeps
/// where the spots come from.
proof fn lemma_src_push(
    walls: Seq<bool>,
    n: int,
    goal: int,
    q: Seq<(int, int, Seq<int>)>,
    head: int,
    d: Seq<(int, Seq<int>)>,
    e: (int, int, Seq<int>),
    dir: Direction,
)
    requires
        queue_ok(walls, n, goal, q, head, d),
        1 <= head <= q.len(),
        forall|i: int| 0 <= i < q.len() ==> #[trigger] spot_src(walls, n, goal, q, head, i),
        e.1 == q[head - 1].1 + 1,
        on_path(walls, Seq::empty(), n, q[head - 1].0, dir, e.0),
        e.2 == q[head - 1].2 + helper(walls, n, q[head - 1].0, dir),
    ensures
        forall|i: int| 0 <= i < q.len() + 1 ==> #[trigger] spot_src(walls, n, goal, q.push(e), head, i),
{
    let q2 = q.push(e);
    lemma_queue_facts(walls, n, goal, q, head, d);
    assert forall|i: int| 0 <= i < q.len() + 1 implies #[trigger] spot_src(walls, n, goal, q2, head, i) by {
        if i == q.len() {
            assert(q2[head - 1] == q[head - 1]);
            assert(on_path(walls, Seq::empty(), n, q2[head - 1].0, dir, q2[i].0));
            assert(closer_source(walls, n, q2, head, i));
        } else {
            assert(q2[i] == q[i]);
            assert(spot_src(walls, n, goal, q, head, i));
            if closer_source(walls, n, q, head, i) {
                let (j, dd) = choose|j: int, dd: Direction|
                    0 <= j < head && q[j].1 + 1 == q[i].1 && #[trigger] on_path(walls, Seq::empty(), n, q[j].0, dd, q[i].0)
                        && q[i].2 == q[j].2 + helper(walls, n, q[j].0, dd);
                assert(q2[j] == q[j]);
                assert(closer_source(walls, n, q2, head, i));
            } else {
                assert forall|g: int, dg: Direction|
                    0 <= g < q2.len() && #[trigger] offered(walls, n, goal, q2, g, dg, i) implies q2[i].2.len()
                        < offer(walls, n, q2[g].0, q2[g].2, dg) by {
                    if g < q.len() {
                        assert(q2[g] == q[g]);
                        assert(offered(walls, n, goal, q, g, dg, i));
                    } else {
                        assert(q[i].1 <= q[head - 1].1 + 1);
                    }
                }
                assert(q2[head - 1] == q[head - 1]);
            }
        }
    }
}

/// Giving a waiting entry the fewer spots a run from the entry taken out
/// last offers keeps where the spots come from.
proof fn lemma_src_respot(
    walls: Seq<bool>,
    n: int,
    goal: int,
    q: Seq<(int, int, Seq<int>)>,
    head: int,
    d: Seq<(int, Seq<int>)>,
    k: int,
    spots: Seq<int>,
    dir: Direction,
)
    requires
        queue_ok(walls, n, goal, q, head, d),
        1 <= head <= k < q.len(),
        forall|i: int| 0 <= i < q.len() ==> #[trigger] spot_src(walls, n, goal, q, head, i),
        spots.len() < q[k].2.len(),
        on_path(walls, Seq::empty(), n, q[head - 1].0, dir, q[k].0),
        spots == q[head - 1].2 + helper(walls, n, q[head - 1].0, dir),
        q[k].1 == q[head - 1].1 ==> forall|g: int, dg: Direction|
            0 <= g < q.len() && #[trigger] offered(walls, n, goal, q, g, dg, k) ==> q[k].2.len() <= offer(
                walls,
                n,
                q[g].0,
                q[g].2,
                dg,
            ),
    ensures
        forall|i: int|
            0 <= i < q.len() ==> #[trigger] spot_src(
                walls,
                n,
                goal,
                q.update(k, (q[k].0, q[k].1, spots)),
                head,
                i,
            ),
{
    let q2 = q.update(k, (q[k].0, q[k].1, spots));
    lemma_queue_facts(walls, n, goal, q, head, d);
    assert(q[head - 1].1 <= q[k].1);
    assert(q[k].1 <= q[head - 1].1 + 1);
    assert forall|i: int| 0 <= i < q.len() implies #[trigger] spot_src(walls, n, goal, q2, head, i) by {
        assert(q2[head - 1] == q[head - 1]);
        if i == k {
            if q[k].1 == q[head - 1].1 + 1 {
                assert(on_path(walls, Seq::empty(), n, q2[head - 1].0, dir, q2[i].0));
                assert(closer_source(walls, n, q2, head, i));
            } else {
                assert forall|g: int, dg: Direction|
                    0 <= g < q2.len() && #[trigger] offered(walls, n, goal, q2, g, dg, i) implies q2[i].2.len()
                        < offer(walls, n, q2[g].0, q2[g].2, dg) by {
                    assert(g != k);
                    assert(q2[g] == q[g]);
                    assert(offered(walls, n, goal, q, g, dg, k));
                }
            }
        } else {
            assert(q2[i] == q[i]);
            assert(spot_src(walls, n, goal, q, head, i));
            if closer_source(walls, n, q, head, i) {
                let (j, dd) = choose|j: int, dd: Direction|
                    0 <= j < head && q[j].1 + 1 == q[i].1 && #[trigger] on_path(walls, Seq::empty(), n, q[j].0, dd, q[i].0)
                        && q[i].2 == q[j].2 + helper(walls, n, q[j].0, dd);
                assert(q2[j] == q[j]);
                assert(closer_source(walls, n, q2, head, i));
            } else {
                assert forall|g: int, dg: Direction|
                    0 <= g < q2.len() && #[trigger] offered(walls, n, goal, q2, g, dg, i) implies q2[i].2.len()
                        < offer(walls, n, q2[g].0, q2[g].2, dg) by {
                    if g == k {
                        assert(q2[i].1 == q[k].1 + 1);
                    } else {
                        assert(q2[g] == q[g]);
                        assert(offered(walls, n, goal, q, g, dg, i));
                    }
                }
            }
        }
    }
}

/// Every cell entry `j` offered its spots to, in a direction of rank below
/// `k`, has no more spots than offered.
pub open spec fn entry_min(walls: Seq<bool>, n: int, goal: int, q: Seq<(int, int, Seq<int>)>, j: int, k: int) -> bool {
    forall|dir: Direction, i: int|
        dir_rank(dir) < k && #[trigger] offered(walls, n, goal, q, j, dir, i) ==> q[i].2.len() <= offer(
            walls,
            n,
            q[j].0,
            q[j].2,
            dir,
        )
}

/// The cells still waiting that the current run from `f` in `dir` has
/// passed, up to `t`, have no more than `cand` spots.
pub open spec fn scanned_min(
    walls: Seq<bool>,
    n: int,
    q: Seq<(int, int, Seq<int>)>,
    head: int,
    f: int,
    dir: Direction,
    t: int,
    cand: int,
) -> bool {
    forall|i: int|
        head <= i < q.len() && #[trigger] on_path(walls, Seq::empty(), n, f, dir, q[i].0) && !beyond(
            t,
            dir,
            q[i].0,
        ) ==> q[i].2.len() <= cand
}

/// `q2` keeps the cells and levels of `q`, with no more spots.
pub open spec fn shrinks(q: Seq<(int, int, Seq<int>)>, q2: Seq<(int, int, Seq<int>)>) -> bool {
    forall|i: int|
        0 <= i < q.len() ==> #[trigger] q2[i].0 == q[i].0 && q2[i].1 == q[i].1 && q2[i].2.len()
            <= q[i].2.len()
}

/// Minimality survives a queue that keeps its cells and levels and shrinks
/// no spots, and that gains only cells `j` does not reach.
proof fn lemma_min_keep(
    walls: Seq<bool>,
    n: int,
    goal: int,
    q: Seq<(int, int, Seq<int>)>,
    q2: Seq<(int, int, Seq<int>)>,
    j: int,
    k: int,
)
    requires
        entry_min(walls, n, goal, q, j, k),
        0 <= j < q.len() <= q2.len(),
        q2[j] == q[j],
        shrinks(q, q2),
        forall|dir: Direction, i: int| q.len() <= i < q2.len() && dir_rank(dir) < k ==> !#[trigger] offered(walls, n, goal, q2, j, dir, i),
    ensures
        entry_min(walls, n, goal, q2, j, k),
{
    assert forall|dir: Direction, i: int| dir_rank(dir) < k && #[trigger] offered(walls, n, goal, q2, j, dir, i)
        implies q2[i].2.len() <= offer(walls, n, q2[j].0, q2[j].2, dir) by {
        if i < q.len() {
            assert(q2[i].0 == q[i].0 && q2[i].1 == q[i].1);
            assert(offered(walls, n, goal, q, j, dir, i));
        }
    }
}

/// Every cell a run from entry `j` passes is in the queue.
pub open spec fn entry_closed(walls: Seq<bool>, n: int, q: Seq<(int, int, Seq<int>)>, j: int) -> bool {
    forall|dir: Direction, c: int|
        #[trigger] on_path(walls, Seq::empty(), n, q[j].0, dir, c) ==> queue_cells(q).contains(c)
}

/// The queue's cells, in order.
proof fn lemma_queue_cell(q: Seq<(int, int, Seq<int>)>, i: int)
    requires
        0 <= i < q.len(),
    ensures
        queue_cells(q)[i] == q[i].0,
        queue_cells(q).contains(q[i].0),
{
    assert(queue_cells(q)[i] == q[i].0);
}

/// A cell is in the queue at some index.
proof fn lemma_queue_index(q: Seq<(int, int, Seq<int>)>, c: int) -> (i: int)
    requires
        queue_cells(q).contains(c),
    ensures
        0 <= i < q.len(),
        q[i].0 == c,
{
    let i = choose|i: int| 0 <= i < queue_cells(q).len() && queue_cells(q)[i] == c;
    assert(queue_cells(q)[i] == q[i].0);
    i
}

/// Closure only asks which cells are in the queue.
proof fn lemma_closed_same_cells(
    walls: Seq<bool>,
    n: int,
    q: Seq<(int, int, Seq<int>)>,
    q2: Seq<(int, int, Seq<int>)>,
    j: int,
)
    requires
        entry_closed(walls, n, q, j),
        0 <= j < q.len(),
        q.len() <= q2.len(),
        forall|c: int| queue_cells(q).contains(c) ==> queue_cells(q2).contains(c),
        q2[j].0 == q[j].0,
    ensures
        entry_closed(walls, n, q2, j),
{
}

/// An entry with fewer runs than the entry taken out last comes before it.
proof fn lemma_queue_order(
    walls: Seq<bool>,
    n: int,
    goal: int,
    q: Seq<(int, int, Seq<int>)>,
    head: int,
    d: Seq<(int, Seq<int>)>,
    i: int,
)
    requires
        queue_ok(walls, n, goal, q, head, d),
        1 <= head,
        0 <= i < q.len(),
        q[i].1 < q[head - 1].1,
    ensures
        i < head - 1,
{
    reveal(queue_ok);
    if i >= head - 1 {
        assert(q[head - 1].1 <= q[i].1);
    }
}

/// A cell in the queue has no fewer runs than any number that reaches it.
proof fn lemma_queue_least(
    walls: Seq<bool>,
    n: int,
    goal: int,
    q: Seq<(int, int, Seq<int>)>,
    head: int,
    d: Seq<(int, Seq<int>)>,
    i: int,
    m: nat,
)
    requires
        queue_ok(walls, n, goal, q, head, d),
        0 <= i < q.len(),
        reach_within(walls, n, goal, q[i].0, m),
    ensures
        q[i].1 <= m,
{
    reveal(queue_ok);
    if q[i].1 > m {
        lemma_reach_mono(walls, n, goal, q[i].0, m, (q[i].1 - 1) as nat);
    }
}

/// Every cell that fewer runs than the entry taken out last reach is in the
/// queue before it, when the entries before it are closed.
proof fn lemma_reach_in_queue(
    walls: Seq<bool>,
    n: int,
    goal: int,
    q: Seq<(int, int, Seq<int>)>,
    head: int,
    d: Seq<(int, Seq<int>)>,
    x: int,
    m: nat,
)
    requires
        queue_ok(walls, n, goal, q, head, d),
        1 <= head,
        forall|j: int| 0 <= j < head - 1 ==> #[trigger] entry_closed(walls, n, q, j),
        reach_within(walls, n, goal, x, m),
        m < q[head - 1].1,
    ensures
        queue_cells(q).contains(x),
    decreases m,
{
    reveal(queue_ok);
    if x == goal {
        lemma_queue_cell(q, 0);
    } else {
        let (y, dir) = choose|y: int, dir: Direction|
            0 <= y < walls.len() && #[trigger] on_path(walls, Seq::empty(), n, y, dir, x)
                && reach_within(walls, n, goal, y, (m - 1) as nat);
        lemma_reach_in_queue(walls, n, goal, q, head, d, y, (m - 1) as nat);
        let j = lemma_queue_index(q, y);
        lemma_queue_least(walls, n, goal, q, head, d, j, (m - 1) as nat);
        lemma_queue_order(walls, n, goal, q, head, d, j);
        assert(entry_closed(walls, n, q, j));
    }
}

/// When every entry is closed, every cell some number of runs reaches is in
/// the queue.
proof fn lemma_reach_all_in_queue(
    walls: Seq<bool>,
    n: int,
    goal: int,
    q: Seq<(int, int, Seq<int>)>,
    d: Seq<(int, Seq<int>)>,
    x: int,
    m: nat,
)
    requires
        queue_ok(walls, n, goal, q, q.len() as int, d),
        forall|j: int| 0 <= j < q.len() ==> #[trigger] entry_closed(walls, n, q, j),
        reach_within(walls, n, goal, x, m),
    ensures
        queue_cells(q).contains(x),
    decreases m,
{
    reveal(queue_ok);
    if x == goal {
        lemma_queue_cell(q, 0);
    } else {
        let (y, dir) = choose|y: int, dir: Direction|
            0 <= y < walls.len() && #[trigger] on_path(walls, Seq::empty(), n, y, dir, x)
                && reach_within(walls, n, goal, y, (m - 1) as nat);
        lemma_reach_all_in_queue(walls, n, goal, q, d, y, (m - 1) as nat);
        let j = lemma_queue_index(q, y);
        assert(entry_closed(walls, n, q, j));
    }
}

/// The queue that holds the goal alone, before anything is recorded.
proof fn lemma_queue_init(
    walls: Seq<bool>,
    n: int,
    goal: int,
    q: Seq<(int, int, Seq<int>)>,
    d: Seq<(int, Seq<int>)>,
)
    requires
        q == seq![(goal, 0int, Seq::<int>::empty())],
        0 <= goal < walls.len(),
        d.len() == walls.len(),
        forall|c: int| 0 <= c < d.len() ==> #[trigger] d[c] == (UNREACHED as int, Seq::<int>::empty()),
    ensures
        queue_ok(walls, n, goal, q, 0, d),
{
    reveal(queue_ok);
    assert(queue_cells(q) =~= seq![goal]);
    assert(queue_cells(q).take(0) =~= Seq::<int>::empty());
    assert(reach_within(walls, n, goal, goal, 0));
}

/// What the search loop reads off the queue.
proof fn lemma_queue_facts(
    walls: Seq<bool>,
    n: int,
    goal: int,
    q: Seq<(int, int, Seq<int>)>,
    head: int,
    d: Seq<(int, Seq<int>)>,
)
    requires
        queue_ok(walls, n, goal, q, head, d),
    ensures
        q.len() >= 1,
        q[0].0 == goal,
        1 <= head <= q.len() || (head == 0 && q.len() == 1),
        d.len() == walls.len(),
        forall|i: int| 0 <= i < q.len() ==> 0 <= #[trigger] q[i].0 < walls.len() && 0 <= q[i].1 <= i
            && q[i].1 < UNREACHED
            && spots_ok(walls, q[i].2) && at_level(walls, n, goal, q[i].0, q[i].1),
        head >= 1 ==> forall|m: int| 0 <= m < head ==> #[trigger] q[m].1 <= q[head - 1].1,
        head >= 1 ==> forall|m: int| 0 <= m < q.len() ==> #[trigger] q[m].1 <= q[head - 1].1 + 1,
        forall|a: int, b: int| 0 <= a <= b < q.len() ==> #[trigger] q[a].1 <= #[trigger] q[b].1,
        queue_cells(q).no_duplicates(),
        forall|j: int| 0 <= j < head ==> d[(#[trigger] q[j]).0] == (q[j].1, q[j].2),
        forall|c: int|
            0 <= c < d.len() && !queue_cells(q).take(head).contains(c) ==> #[trigger] d[c] == (
                UNREACHED as int,
                Seq::<int>::empty(),
            ),
{
    reveal(queue_ok);
    if head >= 1 {
        assert forall|m: int| 0 <= m < head implies #[trigger] q[m].1 <= q[head - 1].1 by {
            assert(q[m].1 <= q[head - 1].1);
        }
    }
}

/// Distinct cells of the board are no more than the cells of the board.
proof fn lemma_distinct_cells(s: Seq<int>, len: int)
    requires
        s.no_duplicates(),
        len >= 0,
        forall|i: int| 0 <= i < s.len() ==> 0 <= #[trigger] s[i] < len,
    ensures
        s.len() <= len,
{
    s.unique_seq_to_set();
    lemma_int_range(0, len);
    assert(s.to_set().subset_of(set_int_range(0, len)));
    lemma_len_subset(s.to_set(), set_int_range(0, len));
}

/// The queue holds no more entries than the board has cells.
proof fn lemma_queue_len(walls: Seq<bool>, n: int, goal: int, q: Seq<(int, int, Seq<int>)>, head: int, d: Seq<(int, Seq<int>)>)
    requires
        queue_ok(walls, n, goal, q, head, d),
    ensures
        q.len() <= walls.len(),
{
    reveal(queue_ok);
    let cells = queue_cells(q);
    assert forall|i: int| 0 <= i < cells.len() implies 0 <= #[trigger] cells[i] < walls.len() by {
        assert(cells[i] == q[i].0);
    }
    lemma_distinct_cells(cells, walls.len() as int);
}

/// Taking the entry at `head` out of the queue and recording it in the table.
#[verifier::rlimit(40)]
proof fn lemma_queue_pop(
    walls: Seq<bool>,
    n: int,
    goal: int,
    q: Seq<(int, int, Seq<int>)>,
    head: int,
    d: Seq<(int, Seq<int>)>,
)
    requires
        queue_ok(walls, n, goal, q, head, d),
        0 <= head < q.len(),
    ensures
        queue_ok(walls, n, goal, q, head + 1, d.update(q[head].0, (q[head].1, q[head].2))),
{
    reveal(queue_ok);
    let d2 = d.update(q[head].0, (q[head].1, q[head].2));
    let cells = queue_cells(q);
    assert(cells[head] == q[head].0);
    assert forall|j: int| 0 <= j < head + 1 implies d2[(#[trigger] q[j]).0] == (q[j].1, q[j].2) by {
        if j < head {
            assert(cells[j] == q[j].0);
            assert(q[j].0 != q[head].0);
        }
    }
    assert forall|c: int|
        0 <= c < d2.len() && !queue_cells(q).take(head + 1).contains(c) implies #[trigger] d2[c] == (
        UNREACHED as int,
        Seq::<int>::empty(),
    ) by {
        assert(cells.take(head + 1)[head] == q[head].0);
        if cells.take(head).contains(c) {
            let k = choose|k: int| 0 <= k < head && cells.take(head)[k] == c;
            assert(cells.take(head + 1)[k] == c);
        }
    }
    assert forall|j: int| 0 <= j < q.len() implies #[trigger] q[j].1 <= q[head].1 + 1 by {
        if head >= 1 {
            assert(q[j].1 <= q[head - 1].1 + 1);
            assert(q[head - 1].1 <= q[head].1);
        } else {
            assert(j == 0);
        }
    }
    assert forall|i: int| 0 <= i < q.len() implies {
        let e = #[trigger] q[i];
        (i > 0 ==> e.1 >= 1 && exists|j: int, dir: Direction|
            0 <= j < i && j < head + 1 && (q[j].1 + 1 == e.1 || q[j].1 == e.1) && on_path(
                walls,
                Seq::empty(),
                n,
                q[j].0,
                dir,
                e.0,
            ) && e.2 == q[j].2 + helper(walls, n, q[j].0, dir))
    } by {
        if i > 0 {
            let (j, dir) = choose|j: int, dir: Direction|
                0 <= j < i && j < head && (q[j].1 + 1 == q[i].1 || q[j].1 == q[i].1) && on_path(
                    walls,
                    Seq::empty(),
                    n,
                    q[j].0,
                    dir,
                    q[i].0,
                ) && q[i].2 == q[j].2 + helper(walls, n, q[j].0, dir);
        }
    }
}

/// Adding an entry for a new cell that a run from the entry taken out last
/// passes, and that no fewer runs reach.
proof fn lemma_queue_push(
    walls: Seq<bool>,
    n: int,
    goal: int,
    q: Seq<(int, int, Seq<int>)>,
    head: int,
    d: Seq<(int, Seq<int>)>,
    cell: int,
    spots: Seq<int>,
    dir: Direction,
)
    requires
        queue_ok(walls, n, goal, q, head, d),
        1 <= head <= q.len(),
        !queue_cells(q).contains(cell),
        0 <= cell < walls.len(),
        on_path(walls, Seq::empty(), n, q[head - 1].0, dir, cell),
        !reach_within(walls, n, goal, cell, q[head - 1].1 as nat),
        q[head - 1].1 + 1 < UNREACHED,
        spots == q[head - 1].2 + helper(walls, n, q[head - 1].0, dir),
        spots_ok(walls, spots),
    ensures
        queue_ok(walls, n, goal, q.push((cell, q[head - 1].1 + 1, spots)), head, d),
        queue_cells(q.push((cell, q[head - 1].1 + 1, spots))) == queue_cells(q).push(cell),
{
    reveal(queue_ok);
    let e = (cell, q[head - 1].1 + 1, spots);
    let q2 = q.push(e);
    let cells = queue_cells(q);
    let cells2 = queue_cells(q2);
    let f = q[head - 1].0;
    assert(cells2 =~= cells.push(cell));
    assert(cells2.take(head) =~= cells.take(head));
    assert(q[head - 1] == q[head - 1]);
    assert(reach_within(walls, n, goal, f, q[head - 1].1 as nat));
    assert(reach_within(walls, n, goal, cell, (q[head - 1].1 + 1) as nat));
    assert forall|i: int| 0 <= i < q2.len() implies {
        let e = #[trigger] q2[i];
        &&& 0 <= e.0 < walls.len()
        &&& 0 <= e.1 <= i
        &&& e.1 < UNREACHED
        &&& spots_ok(walls, e.2)
        &&& e.2.len() <= e.1
        &&& reach_within(walls, n, goal, e.0, e.1 as nat)
        &&& (e.1 >= 1 ==> !reach_within(walls, n, goal, e.0, (e.1 - 1) as nat))
        &&& (i > 0 ==> e.1 >= 1 && exists|j: int, dir: Direction|
            0 <= j < i && j < head && (q2[j].1 + 1 == e.1 || q2[j].1 == e.1) && on_path(
                walls,
                Seq::empty(),
                n,
                q2[j].0,
                dir,
                e.0,
            ) && e.2 == q2[j].2 + helper(walls, n, q2[j].0, dir))
    } by {
        if i < q.len() {
            assert(q2[i] == q[i]);
            if i > 0 {
                let (j, dd) = choose|j: int, dir: Direction|
                    0 <= j < i && j < head && (q[j].1 + 1 == q[i].1 || q[j].1 == q[i].1) && on_path(
                        walls,
                        Seq::empty(),
                        n,
                        q[j].0,
                        dir,
                        q[i].0,
                    ) && q[i].2 == q[j].2 + helper(walls, n, q[j].0, dir);
                assert(q2[j] == q[j]);
            }
        } else {
            assert(q2[head - 1] == q[head - 1]);
            assert(q[head - 1].1 <= head - 1);
        }
    }
    assert forall|i: int, j: int| 0 <= i <= j < q2.len() implies #[trigger] q2[i].1 <= #[trigger] q2[j].1 by {
        if j < q.len() {
            assert(q[i].1 <= q[j].1);
        } else if i < q.len() {
            assert(q[i].1 <= q[head - 1].1 + 1);
        }
    }
    assert forall|j: int| 0 <= j < q2.len() implies #[trigger] q2[j].1 <= q2[head - 1].1 + 1 by {
        if j < q.len() {
            assert(q[j].1 <= q[head - 1].1 + 1);
        }
    }
    assert forall|j: int| 0 <= j < head implies d[(#[trigger] q2[j]).0] == (q2[j].1, q2[j].2) by {
        assert(q2[j] == q[j]);
    }
}

/// Giving an entry still waiting the helper spots of a run from the entry
/// taken out last.
#[verifier::rlimit(40)]
proof fn lemma_queue_respot(
    walls: Seq<bool>,
    n: int,
    goal: int,
    q: Seq<(int, int, Seq<int>)>,
    head: int,
    d: Seq<(int, Seq<int>)>,
    k: int,
    spots: Seq<int>,
    dir: Direction,
)
    requires
        queue_ok(walls, n, goal, q, head, d),
        1 <= head <= k < q.len(),
        spots.len() < q[k].2.len(),
        on_path(walls, Seq::empty(), n, q[head - 1].0, dir, q[k].0),
        spots == q[head - 1].2 + helper(walls, n, q[head - 1].0, dir),
        spots_ok(walls, spots),
    ensures
        queue_ok(walls, n, goal, q.update(k, (q[k].0, q[k].1, spots)), head, d),
        queue_cells(q.update(k, (q[k].0, q[k].1, spots))) == queue_cells(q),
{
    reveal(queue_ok);
    let q2 = q.update(k, (q[k].0, q[k].1, spots));
    assert(queue_cells(q2) =~= queue_cells(q));
    assert(q[head - 1].1 <= q[k].1);
    assert(q[k].1 <= q[head - 1].1 + 1);
    assert forall|i: int| 0 <= i < q2.len() implies {
        let e = #[trigger] q2[i];
        &&& 0 <= e.0 < walls.len()
        &&& 0 <= e.1 <= i
        &&& e.1 < UNREACHED
        &&& spots_ok(walls, e.2)
        &&& e.2.len() <= e.1
        &&& reach_within(walls, n, goal, e.0, e.1 as nat)
        &&& (e.1 >= 1 ==> !reach_within(walls, n, goal, e.0, (e.1 - 1) as nat))
        &&& (i > 0 ==> e.1 >= 1 && exists|j: int, dir: Direction|
            0 <= j < i && j < head && (q2[j].1 + 1 == e.1 || q2[j].1 == e.1) && on_path(
                walls,
                Seq::empty(),
                n,
                q2[j].0,
                dir,
                e.0,
            ) && e.2 == q2[j].2 + helper(walls, n, q2[j].0, dir))
    } by {
        let e0 = q[i];
        if i == k {
            assert(q2[head - 1] == q[head - 1]);
            assert(i > 0);
        } else if i > 0 {
            let (j, dd) = choose|j: int, dir: Direction|
                0 <= j < i && j < head && (q[j].1 + 1 == q[i].1 || q[j].1 == q[i].1) && on_path(
                    walls,
                    Seq::empty(),
                    n,
                    q[j].0,
                    dir,
                    q[i].0,
                ) && q[i].2 == q[j].2 + helper(walls, n, q[j].0, dir);
            assert(q2[j] == q[j]);
        }
    }
    assert forall|i: int, j: int| 0 <= i <= j < q2.len() implies #[trigger] q2[i].1 <= #[trigger] q2[j].1 by {
        assert(q[i].1 <= q[j].1);
    }
    assert forall|j: int| 0 <= j < q2.len() implies #[trigger] q2[j].1 <= q2[head - 1].1 + 1 by {
        assert(q[j].1 <= q[head - 1].1 + 1);
    }
    assert forall|j: int| 0 <= j < head implies d[(#[trigger] q2[j]).0] == (q2[j].1, q2[j].2) by {
        assert(q2[j] == q[j]);
    }
}

/// When every entry has offered its spots, the table keeps the fewest.
proof fn lemma_spots_least(
    walls: Seq<bool>,
    n: int,
    goal: int,
    q: Seq<(int, int, Seq<int>)>,
    d: Seq<(int, Seq<int>)>,
)
    requires
        queue_ok(walls, n, goal, q, q.len() as int, d),
        forall|j: int| 0 <= j < q.len() ==> #[trigger] entry_closed(walls, n, q, j),
        forall|j: int| 0 <= j < q.len() ==> #[trigger] entry_min(walls, n, goal, q, j, 4),
    ensures
        spots_least(walls, n, d),
{
    lemma_queue_facts(walls, n, goal, q, q.len() as int, d);
    lemma_queue_len(walls, n, goal, q, q.len() as int, d);
    let cells = queue_cells(q);
    assert(cells.take(q.len() as int) =~= cells);
    assert forall|c: int, f: int, dir: Direction|
        0 <= c < d.len() && 0 <= f < d.len() && d[c].0 != UNREACHED && d[f].0 + 1 == d[c].0
            && #[trigger] on_path(walls, Seq::empty(), n, f, dir, c) && (forall|x: int|
            #[trigger] on_path(walls, Seq::empty(), n, f, dir, x) && beyond(x, dir, c) ==> 0 <= x
                < d.len() && d[x].0 == d[c].0) implies d[c].1.len() <= d[f].1.len() + helper(
            walls,
            n,
            f,
            dir,
        ).len() by {
        let i = lemma_queue_index(q, c);
        assert(d[q[i].0] == (q[i].1, q[i].2));
        assert(q[i].1 < UNREACHED);
        assert(cells.contains(f)) by {
            if !cells.contains(f) {
                assert(d[f].0 == UNREACHED);
            }
        }
        let j = lemma_queue_index(q, f);
        assert(d[q[j].0] == (q[j].1, q[j].2));
        assert forall|x: int| #[trigger] on_path(walls, Seq::empty(), n, q[j].0, dir, x) && beyond(x, dir, q[i].0)
            implies at_level(walls, n, goal, x, q[j].1 + 1) by {
            assert(0 <= x < d.len() && d[x].0 == d[c].0);
            assert(cells.contains(x)) by {
                if !cells.contains(x) {
                    assert(d[x].0 == UNREACHED);
                }
            }
            let m = lemma_queue_index(q, x);
            assert(d[q[m].0] == (q[m].1, q[m].2));
        }
        assert(dir_rank(dir) < 4);
        assert(offered(walls, n, goal, q, j, dir, i));
        assert(entry_min(walls, n, goal, q, j, 4));
    }
}

/// The table's helper spots come from where the queue's did.
proof fn lemma_spots_sourced(
    walls: Seq<bool>,
    n: int,
    goal: int,
    q: Seq<(int, int, Seq<int>)>,
    d: Seq<(int, Seq<int>)>,
)
    requires
        queue_ok(walls, n, goal, q, q.len() as int, d),
        forall|j: int| 0 <= j < q.len() ==> #[trigger] entry_closed(walls, n, q, j),
        forall|i: int| 0 <= i < q.len() ==> #[trigger] spot_src(walls, n, goal, q, q.len() as int, i),
    ensures
        forall|c: int|
            0 <= c < d.len() && d[c].0 != UNREACHED && c != goal ==> #[trigger] spots_sourced(walls, n, d, c),
{
    lemma_queue_facts(walls, n, goal, q, q.len() as int, d);
    lemma_queue_len(walls, n, goal, q, q.len() as int, d);
    let cells = queue_cells(q);
    assert(cells.take(q.len() as int) =~= cells);
    assert forall|c: int| 0 <= c < d.len() && d[c].0 != UNREACHED && c != goal implies #[trigger] spots_sourced(
        walls,
        n,
        d,
        c,
    ) by {
        assert(cells.contains(c)) by {
            if !cells.contains(c) {
                assert(d[c].0 == UNREACHED);
            }
        }
        let i = lemma_queue_index(q, c);
        assert(d[q[i].0] == (q[i].1, q[i].2));
        assert(spot_src(walls, n, goal, q, q.len() as int, i));
        if closer_source(walls, n, q, q.len() as int, i) {
            let (j, dir) = choose|j: int, dir: Direction|
                0 <= j < q.len() && q[j].1 + 1 == q[i].1 && #[trigger] on_path(walls, Seq::empty(), n, q[j].0, dir, q[i].0)
                    && q[i].2 == q[j].2 + helper(walls, n, q[j].0, dir);
            assert(d[q[j].0] == (q[j].1, q[j].2));
            assert(0 <= q[j].0 < d.len());
            assert(on_path(walls, Seq::empty(), n, q[j].0, dir, c));
        } else {
            assert forall|g: int, dg: Direction|
                0 <= g < d.len() && d[g].0 + 1 == d[c].0 && #[trigger] on_path(walls, Seq::empty(), n, g, dg, c)
                    && (forall|x: int|
                    #[trigger] on_path(walls, Seq::empty(), n, g, dg, x) && beyond(x, dg, c) ==> 0 <= x
                        < d.len() && d[x].0 == d[c].0) implies d[c].1.len() < d[g].1.len() + helper(
                    walls,
                    n,
                    g,
                    dg,
                ).len() by {
                assert(q[i].1 < UNREACHED);
                assert(cells.contains(g)) by {
                    if !cells.contains(g) {
                        assert(d[g].0 == UNREACHED);
                    }
                }
                let gi = lemma_queue_index(q, g);
                assert(d[q[gi].0] == (q[gi].1, q[gi].2));
                assert forall|x: int| #[trigger] on_path(walls, Seq::empty(), n, q[gi].0, dg, x) && beyond(x, dg, q[i].0)
                    implies at_level(walls, n, goal, x, q[gi].1 + 1) by {
                    assert(0 <= x < d.len() && d[x].0 == d[c].0);
                    assert(cells.contains(x)) by {
                        if !cells.contains(x) {
                            assert(d[x].0 == UNREACHED);
                        }
                    }
                    let m = lemma_queue_index(q, x);
                    assert(d[q[m].0] == (q[m].1, q[m].2));
                }
                assert(offered(walls, n, goal, q, gi, dg, i));
            }
        }
    }
}

/// When the queue is used up and every entry closed, the table keeps its
/// promises.
#[verifier::rlimit(80)]
#[verifier::spinoff_prover]
proof fn lemma_queue_done(
    walls: Seq<bool>,
    n: int,
    goal: int,
    q: Seq<(int, int, Seq<int>)>,
    d: Seq<(int, Seq<int>)>,
)
    requires
        queue_ok(walls, n, goal, q, q.len() as int, d),
        forall|j: int| 0 <= j < q.len() ==> #[trigger] entry_closed(walls, n, q, j),
        forall|j: int| 0 <= j < q.len() ==> #[trigger] entry_min(walls, n, goal, q, j, 4),
        forall|i: int| 0 <= i < q.len() ==> #[trigger] spot_src(walls, n, goal, q, q.len() as int, i),
        0 <= goal < walls.len(),
    ensures
        dists_ok(walls, n, goal, d),
{
    reveal(dists_ok);
    lemma_spots_least(walls, n, goal, q, d);
    lemma_spots_sourced(walls, n, goal, q, d);
    reveal(queue_ok);
    lemma_queue_len(walls, n, goal, q, q.len() as int, d);
    let cells = queue_cells(q);
    assert(cells.take(q.len() as int) =~= cells);
    assert(d[q[0].0] == (q[0].1, q[0].2));
    lemma_queue_in_order(walls, n, goal, q, d);
    assert forall|c: int| 0 <= c < d.len() implies {
        let e = #[trigger] d[c];
        &&& 0 <= e.0 <= UNREACHED
        &&& (e.0 == UNREACHED ==> e.1 == Seq::<int>::empty() && forall|m: nat|
            !#[trigger] reach_within(walls, n, goal, c, m))
        &&& (e.0 != UNREACHED ==> spots_ok(walls, e.1) && e.1.len() <= e.0 && reach_within(
            walls,
            n,
            goal,
            c,
            e.0 as nat,
        ) && (e.0 >= 1 ==> !reach_within(walls, n, goal, c, (e.0 - 1) as nat)))
        &&& (e.0 != UNREACHED && c != goal ==> exists|f: int, dir: Direction|
            0 <= f < d.len() && d[f].0 != UNREACHED && (d[f].0 + 1 == e.0 || d[f].0 == e.0)
                && #[trigger] on_path(walls, Seq::empty(), n, f, dir, c) && e.1 == d[f].1 + helper(
                walls,
                n,
                f,
                dir,
            ))
    } by {
        if cells.contains(c) {
            let i = lemma_queue_index(q, c);
            assert(d[q[i].0] == (q[i].1, q[i].2));
            if i > 0 {
                let (j, dd) = choose|j: int, dir: Direction|
                    0 <= j < i && j < q.len() && (q[j].1 + 1 == q[i].1 || q[j].1 == q[i].1) && on_path(
                        walls,
                        Seq::empty(),
                        n,
                        q[j].0,
                        dir,
                        q[i].0,
                    ) && q[i].2 == q[j].2 + helper(walls, n, q[j].0, dir);
                assert(d[q[j].0] == (q[j].1, q[j].2));
                assert(0 <= q[j].0 < d.len());
            } else {
                assert(c == goal);
            }
        } else {
            assert forall|m: nat| !#[trigger] reach_within(walls, n, goal, c, m) by {
                if reach_within(walls, n, goal, c, m) {
                    lemma_reach_all_in_queue(walls, n, goal, q, d, c, m);
                }
            }
        }
    }
}

/// The queue's cells, in the order they were taken out, are an order in
/// which each cell has its helper spots from one before it.
#[verifier::rlimit(50)]
proof fn lemma_queue_in_order(
    walls: Seq<bool>,
    n: int,
    goal: int,
    q: Seq<(int, int, Seq<int>)>,
    d: Seq<(int, Seq<int>)>,
)
    requires
        queue_ok(walls, n, goal, q, q.len() as int, d),
    ensures
        sourced_in_order(walls, n, goal, d, queue_cells(q)),
{
    lemma_queue_facts(walls, n, goal, q, q.len() as int, d);
    reveal(sourced_in_order);
    let cells = queue_cells(q);
    assert(cells.take(q.len() as int) =~= cells);
    assert(d[q[0].0] == (q[0].1, q[0].2));
    assert(cells.no_duplicates());
    assert(cells.len() >= 1);
    assert(cells[0] == goal);
    assert forall|i: int| 0 <= i < cells.len() implies 0 <= #[trigger] cells[i] < d.len()
        && d[cells[i]].0 != UNREACHED by {
        assert(cells[i] == q[i].0);
        assert(d[q[i].0] == (q[i].1, q[i].2));
    }
    assert forall|c: int| 0 <= c < d.len() && d[c].0 != UNREACHED implies #[trigger] cells.contains(c) by {
        if !cells.contains(c) {
            assert(!cells.take(q.len() as int).contains(c));
        }
    }
    assert forall|i: int| 0 < i < cells.len() implies #[trigger] sourced_before(walls, n, d, cells, i) by {
        reveal(queue_ok);
        assert(q[i] == q[i]);
        let (j, dd) = choose|j: int, dir: Direction|
            0 <= j < i && j < q.len() && (q[j].1 + 1 == q[i].1 || q[j].1 == q[i].1) && on_path(
                walls,
                Seq::empty(),
                n,
                q[j].0,
                dir,
                q[i].0,
            ) && q[i].2 == q[j].2 + helper(walls, n, q[j].0, dir);
        assert(d[q[j].0] == (q[j].1, q[j].2));
        assert(d[q[i].0] == (q[i].1, q[i].2));
        assert(cells[j] == q[j].0);
        assert(cells[i] == q[i].0);
        assert(spots_from(walls, n, d, cells[j], dd, cells[i]));
    }
}

/// The order in which the directions are scanned.
pub open spec fn dir_rank(d: Direction) -> int {
    match d {
        Direction::Up => 0,
        Direction::Right => 1,
        Direction::Down => 2,
        Direction::Left => 3,
    }
}

/// The cell after `t` on a run from `f` is the next one the run reaches
/// past `t`.
proof fn lemma_next_cell(walls: Seq<bool>, n: int, f: int, dir: Direction, t: int, c: int)
    requires
        n >= 1,
        0 <= f < walls.len(),
        t == f || on_path(walls, Seq::empty(), n, f, dir, t),
        on_path(walls, Seq::empty(), n, f, dir, c),
        beyond(t, dir, c),
        !beyond(t + delta(dir, n), dir, c),
    ensures
        c == t + delta(dir, n),
{
    lemma_on_path(walls, Seq::empty(), n, f, dir, c);
    lemma_slide_facts(walls, Seq::empty(), n, f, dir);
    if t != f {
        lemma_on_path(walls, Seq::empty(), n, f, dir, t);
    }
    match dir {
        Direction::Down => {
            lemma_same_column_gap(t, c, n);
        },
        Direction::Up => {
            lemma_same_column_gap(c, t, n);
        },
        _ => {},
    }
}

impl<P: Position> Board<bool, P> {
    /// For each cell: how many moves robot 0 needs from there to the goal if
    /// other robots could be placed where it must stop, and the cells where
    /// they would have to stand. Cells it cannot reach that way keep
    /// `UNREACHED` moves.
    pub fn get_dists(&self) -> (r: Vec<(u16, Vec<P>)>)
        requires
            self.wall_board_ok(),
            0 <= self@.goal < self@.walls.len(),
            self@.walls.len() < UNREACHED || dists_fit(self@.walls, self@.size, self@.goal),
        ensures
            dists_ok(self@.walls, self@.size, self@.goal, dists_view(r@)),
    {
        let r = self.try_get_dists();
        r.unwrap()
    }

    /// The distance table of `get_dists`, or `None` where some cell needs
    /// `UNREACHED` runs or more, so that its number of runs does not fit.
    #[verifier::rlimit(100)]
    #[verifier::spinoff_prover]
    pub fn try_get_dists(&self) -> (r: Option<Vec<(u16, Vec<P>)>>)
        requires
            self.wall_board_ok(),
            0 <= self@.goal < self@.walls.len(),
        ensures
            match r {
                Some(d) => dists_ok(self@.walls, self@.size, self@.goal, dists_view(d@)),
                None => !(self@.walls.len() < UNREACHED || dists_fit(self@.walls, self@.size, self@.goal)),
            },
    {
        let ghost walls = self@.walls;
        let ghost n = self@.size;
        let ghost goal = self@.goal;
        let len = self.len();
        let mut queue: Vec<(P, u16, Vec<P>)> = Vec::new();
        queue.push((self.goal(), 0, Vec::new()));
        let mut dists: Vec<(u16, Vec<P>)> = Vec::new();
        let mut i: usize = 0;
        while i < len
            invariant
                i <= len,
                dists@.len() == i,
                forall|c: int| 0 <= c < i ==> #[trigger] dists_view(dists@)[c] == (
                    UNREACHED as int,
                    Seq::<int>::empty(),
                ),
            decreases len - i,
        {
            let ghost before = dists@;
            dists.push((UNREACHED, Vec::new()));
            proof {
                assert(dists@ == before.push(dists@[i as int]));
                assert(dists_view(dists@)[i as int] == (UNREACHED as int, Seq::<int>::empty()));
                assert forall|c: int| 0 <= c < i implies #[trigger] dists_view(dists@)[c] == (
                    UNREACHED as int,
                    Seq::<int>::empty(),
                ) by {
                    assert(dists@[c] == before[c]);
                    assert(dists_view(before)[c] == (UNREACHED as int, Seq::<int>::empty()));
                }
            }
            i = i + 1;
        }
        let mut head: usize = 0;
        proof {
            let q = queue_view(queue@);
            assert(q.len() == 1);
            assert(q[0].2 =~= Seq::<int>::empty());
            assert(q[0] == (goal, 0int, Seq::<int>::empty()));
            assert(q =~= seq![(goal, 0int, Seq::<int>::empty())]);
            lemma_queue_init(walls, n, goal, q, dists_view(dists@));
            lemma_src_init(walls, n, goal, q);
        }
        while head < queue.len()
            invariant
                self.wall_board_ok(),
                walls == self@.walls,
                n == self@.size,
                goal == self@.goal,
                len == walls.len(),
                0 <= goal < len,
                queue_ok(walls, n, goal, queue_view(queue@), head as int, dists_view(dists@)),
                dists@.len() == len,
                forall|j: int|
                    0 <= j < head ==> #[trigger] entry_closed(walls, n, queue_view(queue@), j),
                forall|j: int|
                    0 <= j < head ==> #[trigger] entry_min(walls, n, goal, queue_view(queue@), j, 4),
                forall|i: int| 0 <= i < queue_view(queue@).len() ==> #[trigger] spot_src(walls, n, goal, queue_view(queue@), head as int, i),
            decreases len - head,
        {
            let ghost q0 = queue_view(queue@);
            let ghost h = head as int;
            proof {
                lemma_queue_len(walls, n, goal, q0, h, dists_view(dists@));
                lemma_queue_facts(walls, n, goal, q0, h, dists_view(dists@));
                assert(q0[h] == entry_view(queue@[h]));
                assert(0 <= q0[h].0 < len && q0[h].1 <= h);
            }
            let from = queue[head].0;
            let dist = queue[head].1;
            let spots = copy_positions(&queue[head].2);
            let f = from.to_usize();
            let ghost d_before = dists_view(dists@);
            dists.set(f, (dist, copy_positions(&spots)));
            proof {
                assert(dists_view(dists@) =~= d_before.update(q0[h].0, (q0[h].1, q0[h].2)));
                lemma_queue_pop(walls, n, goal, q0, h, d_before);
                lemma_src_pop(walls, n, goal, q0, h, dists_view(dists@));
            }
            head = head + 1;
            proof {
                assert(entry_min(walls, n, goal, queue_view(queue@), head - 1, 0));
            }
            let mut k: usize = 0;
            while k < 4
                invariant
                    self.wall_board_ok(),
                    walls == self@.walls,
                    n == self@.size,
                    goal == self@.goal,
                    len == walls.len(),
                    0 <= goal < len,
                    1 <= head <= queue@.len(),
                    head <= len,
                    queue_ok(walls, n, goal, queue_view(queue@), head as int, dists_view(dists@)),
                    queue_view(queue@)[head - 1].0 == f,
                    queue_view(queue@)[head - 1].1 == dist,
                    values(spots@) == queue_view(queue@)[head - 1].2,
                    f == from.pos_value(),
                    f < len,
                    dist < head,
                    k <= 4,
                    dists@.len() == len,
                    forall|j: int|
                        0 <= j < head - 1 ==> #[trigger] entry_closed(walls, n, queue_view(queue@), j),
                    forall|dir2: Direction, c: int|
                        dir_rank(dir2) < k && #[trigger] on_path(walls, Seq::empty(), n, f as int, dir2, c)
                            ==> queue_cells(queue_view(queue@)).contains(c),
                    forall|j: int|
                        0 <= j < head - 1 ==> #[trigger] entry_min(walls, n, goal, queue_view(queue@), j, 4),
                    entry_min(walls, n, goal, queue_view(queue@), head - 1, k as int),
                    forall|i: int| 0 <= i < queue_view(queue@).len() ==> #[trigger] spot_src(walls, n, goal, queue_view(queue@), head as int, i),
                decreases 4 - k,
            {
                let dir = if k == 0 {
                    Direction::Up
                } else if k == 1 {
                    Direction::Right
                } else if k == 2 {
                    Direction::Down
                } else {
                    Direction::Left
                };
                let di = dir.delta_idx(self.size());
                let opp = dir.opposite();
                let mut new_spots = copy_positions(&spots);
                let prev: i32 = from.to_i32() - di;
                let ghost fi = f as int;
                if prev >= 0 && (prev as usize) < len && !self.is_wall(prev as usize)
                    && self.within_board(prev, from, &opp) {
                    proof {
                        P::lemma_pos_max();
                    }
                    let ghost ns0 = new_spots@;
                    new_spots.push(P::from_i32(prev));
                    proof {
                        assert(values(new_spots@) =~= values(ns0).push(prev as int));
                        assert(helper(walls, n, fi, dir) == seq![prev as int]);
                        assert(values(new_spots@) =~= values(spots@) + helper(walls, n, fi, dir));
                    }
                } else {
                    proof {
                        assert(helper(walls, n, fi, dir) =~= Seq::<int>::empty());
                        assert(values(new_spots@) =~= values(spots@) + helper(walls, n, fi, dir));
                    }
                }
                proof {
                    lemma_queue_facts(walls, n, goal, queue_view(queue@), head as int, dists_view(dists@));
                    assert(spots_ok(walls, queue_view(queue@)[head - 1].2));
                    assert forall|i: int| 0 <= i < values(new_spots@).len() implies 0 <= #[trigger] values(new_spots@)[i] < walls.len()
                        && !walls[values(new_spots@)[i]] by {
                        if i < values(spots@).len() {
                            assert(values(new_spots@)[i] == values(spots@)[i]);
                        }
                    }
                }
                let mut next: i32 = from.to_i32() + di;
                let ghost mut t: int = fi;
                proof {
                    lemma_mod_bounds(fi, n);
                    lemma_within_step(len as int, n, fi, t, dir);
                    assert forall|c: int|
                        #[trigger] on_path(walls, Seq::empty(), n, fi, dir, c) && !beyond(t, dir, c)
                            implies queue_cells(queue_view(queue@)).contains(c) by {
                        lemma_on_path_beyond(walls, Seq::empty(), n, fi, dir, c);
                    }
                    let qs = queue_view(queue@);
                    assert forall|i: int|
                        head <= i < qs.len() && #[trigger] on_path(walls, Seq::empty(), n, fi, dir, qs[i].0)
                            && !beyond(t, dir, qs[i].0) implies qs[i].2.len() <= values(new_spots@).len() by {
                        lemma_on_path_beyond(walls, Seq::empty(), n, fi, dir, qs[i].0);
                    }
                }
                while next >= 0 && self.within_board(next, from, &dir) && !self.is_wall(next as usize)
                    && dists[next as usize].0 == UNREACHED
                    invariant
                        self.wall_board_ok(),
                        walls == self@.walls,
                        n == self@.size,
                        goal == self@.goal,
                        len == walls.len(),
                        0 <= goal < len,
                        1 <= head <= queue@.len(),
                        head <= len,
                        queue_ok(walls, n, goal, queue_view(queue@), head as int, dists_view(dists@)),
                        queue_view(queue@)[head - 1].0 == f,
                        queue_view(queue@)[head - 1].1 == dist,
                        values(spots@) == queue_view(queue@)[head - 1].2,
                        f == from.pos_value(),
                        fi == f,
                        f < len,
                        dist < head,
                        spots_ok(walls, values(new_spots@)),
                        values(new_spots@) == values(spots@) + helper(walls, n, fi, dir),
                        0 <= t < len,
                        t == fi || on_path(walls, Seq::empty(), n, fi, dir, t),
                        next == t + delta(dir, n),
                        di == delta(dir, n),
                        (dir == Direction::Right || dir == Direction::Left) ==> t - t % n == fi - fi % n,
                        next >= 0 && within(len as int, n, next as int, fi, dir) ==> next < len,
                        k < 4,
                        dir_rank(dir) == k,
                        dists@.len() == len,
                        forall|j: int|
                            0 <= j < head - 1 ==> #[trigger] entry_closed(walls, n, queue_view(queue@), j),
                        forall|dir2: Direction, c: int|
                            dir_rank(dir2) < k && #[trigger] on_path(walls, Seq::empty(), n, fi, dir2, c)
                                ==> queue_cells(queue_view(queue@)).contains(c),
                        forall|c: int|
                            #[trigger] on_path(walls, Seq::empty(), n, fi, dir, c) && !beyond(t, dir, c)
                                ==> queue_cells(queue_view(queue@)).contains(c),
                        forall|j: int|
                            0 <= j < head - 1 ==> #[trigger] entry_min(walls, n, goal, queue_view(queue@), j, 4),
                        entry_min(walls, n, goal, queue_view(queue@), head - 1, k as int),
                        scanned_min(walls, n, queue_view(queue@), head as int, fi, dir, t, values(new_spots@).len() as int),
                        forall|i: int| 0 <= i < queue_view(queue@).len() ==> #[trigger] spot_src(walls, n, goal, queue_view(queue@), head as int, i),
                    decreases slide_measure(len as int, t, dir),
                {
                    let ghost qn = next as int;
                    let ghost cells0 = queue_cells(queue_view(queue@));
                    let ghost qv0 = queue_view(queue@);
                    proof {
                        lemma_within_step(len as int, n, fi, t, dir);
                        lemma_mod_bounds(t, n);
                        assert(step(len as int, n, t, dir) == Some(qn));
                        assert(!blocked(walls, Seq::<int>::empty(), qn));
                        lemma_on_path_extend(walls, Seq::empty(), n, fi, dir, t, qn);
                        if dir == Direction::Right {
                            lemma_mod_next(t, n);
                        }
                        if dir == Direction::Left {
                            lemma_mod_prev(t, n);
                        }
                    }
                    let mut found = false;
                    let mut q = head;
                    let ghost mut fidx: int = 0;
                    while q < queue.len() && !found
                        invariant
                            forall|i: int| 0 <= i < head ==> #[trigger] queue_view(queue@)[i] == qv0[i],
                            forall|i: int|
                                0 <= i < qv0.len() ==> #[trigger] queue_view(queue@)[i].0 == qv0[i].0
                                    && queue_view(queue@)[i].1 == qv0[i].1 && queue_view(queue@)[i].2.len()
                                    <= qv0[i].2.len(),
                            found ==> head <= fidx < queue_view(queue@).len() && queue_view(queue@)[fidx].0
                                == qn && queue_view(queue@)[fidx].2.len() <= values(new_spots@).len(),
                            forall|i: int| 0 <= i < queue_view(queue@).len() ==> #[trigger] spot_src(walls, n, goal, queue_view(queue@), head as int, i),
                            !found ==> queue_view(queue@) == qv0,
                            forall|j: int| 0 <= j < head - 1 ==> #[trigger] entry_min(walls, n, goal, qv0, j, 4),
                            queue_view(queue@)[head - 1].1 == dist,
                            walls == self@.walls,
                            len == walls.len(),
                            1 <= head <= q <= queue@.len(),
                            queue_ok(walls, n, goal, queue_view(queue@), head as int, dists_view(dists@)),
                            queue_view(queue@)[head - 1] == qv0[head - 1],
                            queue_view(queue@).len() == qv0.len(),
                            queue_cells(queue_view(queue@)) == cells0,
                            queue_view(queue@)[head - 1].0 == f,
                            fi == f,
                            values(spots@) == queue_view(queue@)[head - 1].2,
                            spots_ok(walls, values(new_spots@)),
                            values(new_spots@) == values(spots@) + helper(walls, n, fi, dir),
                            on_path(walls, Seq::empty(), n, fi, dir, qn),
                            !found ==> forall|i: int| head <= i < q ==> queue_view(queue@)[i].0 != qn,
                            found ==> cells0.contains(qn),
                            0 <= qn < len,
                            qn == next as int,
                            next >= 0,
                            dists@.len() == len,
                        decreases queue@.len() - q, if found { 0int } else { 1int },
                    {
                        if queue[q].0.to_usize() == next as usize {
                            found = true;
                            proof {
                                lemma_queue_cell(queue_view(queue@), q as int);
                                fidx = q as int;
                            }
                            if new_spots.len() < queue[q].2.len() {
                                let e0 = queue[q].0;
                                let e1 = queue[q].1;
                                let ghost qv = queue_view(queue@);
                                queue.set(q, (e0, e1, copy_positions(&new_spots)));
                                proof {
                                    assert(queue_view(queue@) =~= qv.update(
                                        q as int,
                                        (qv[q as int].0, qv[q as int].1, values(new_spots@)),
                                    ));
                                    lemma_queue_facts(walls, n, goal, qv, head as int, dists_view(dists@));
                                    if qv[q as int].1 == qv[head - 1].1 {
                                        assert forall|g: int, dg: Direction|
                                            0 <= g < qv.len() && #[trigger] offered(walls, n, goal, qv, g, dg, q as int)
                                                implies qv[q as int].2.len() <= offer(walls, n, qv[g].0, qv[g].2, dg) by {
                                            lemma_queue_order(walls, n, goal, qv, head as int, dists_view(dists@), g);
                                            assert(entry_min(walls, n, goal, qv0, g, 4));
                                            assert(dir_rank(dg) < 4);
                                        }
                                    }
                                    lemma_src_respot(walls, n, goal, qv, head as int, dists_view(dists@), q as int, values(new_spots@), dir);
                                    lemma_queue_respot(walls, n, goal, qv, head as int, dists_view(dists@), q as int, values(new_spots@), dir);
                                }
                            }
                        } else {
                            q = q + 1;
                        }
                    }
                    if !found {
                        let ghost qv = queue_view(queue@);
                        proof {
                            P::lemma_pos_max();
                            lemma_queue_facts(walls, n, goal, qv, head as int, dists_view(dists@));
                            assert forall|j: int| 0 <= j < head - 1 implies #[trigger] entry_closed(walls, n, qv, j) by {
                                assert(entry_closed(walls, n, qv0, j));
                                lemma_queue_cell(qv0, j);
                                lemma_queue_cell(qv, j);
                                lemma_closed_same_cells(walls, n, qv0, qv, j);
                            }
                            assert(!queue_cells(qv).contains(qn)) by {
                                if queue_cells(qv).contains(qn) {
                                    let i = lemma_queue_index(qv, qn);
                                    if i < head {
                                        assert(dists_view(dists@)[qv[i].0] == (qv[i].1, qv[i].2));
                                        assert(dists_view(dists@)[qn].0 == UNREACHED);
                                        assert(qv[i].1 < UNREACHED);
                                    }
                                }
                            }
                            assert(!reach_within(walls, n, goal, qn, dist as nat)) by {
                                if reach_within(walls, n, goal, qn, dist as nat) {
                                    lemma_queue_cell(qv, 0);
                                    let (y, dd) = choose|y: int, dd: Direction|
                                        0 <= y < walls.len() && #[trigger] on_path(walls, Seq::empty(), n, y, dd, qn)
                                            && reach_within(walls, n, goal, y, (dist - 1) as nat);
                                    lemma_reach_in_queue(walls, n, goal, qv, head as int, dists_view(dists@), y, (dist - 1) as nat);
                                    let j = lemma_queue_index(qv, y);
                                    lemma_queue_least(walls, n, goal, qv, head as int, dists_view(dists@), j, (dist - 1) as nat);
                                    lemma_queue_order(walls, n, goal, qv, head as int, dists_view(dists@), j);
                                    assert(entry_closed(walls, n, qv, j));
                                }
                            }
                            lemma_queue_len(walls, n, goal, qv, head as int, dists_view(dists@));
                        }
                        if dist >= UNREACHED - 1 {
                            proof {
                                assert(reach_within(walls, n, goal, fi as int, dist as nat));
                                assert(reach_within(walls, n, goal, qn, (dist + 1) as nat));
                                if dists_fit(walls, n, goal) {
                                    assert(reach_within(walls, n, goal, qn, (UNREACHED - 1) as nat));
                                    lemma_reach_mono(walls, n, goal, qn, (UNREACHED - 1) as nat, dist as nat);
                                }
                            }
                            return None;
                        }
                        let entry = (P::from_i32(next), dist + 1, copy_positions(&new_spots));
                        queue.push(entry);
                        proof {
                            assert(queue_view(queue@) =~= qv.push((qn, dist + 1, values(new_spots@))));
                            lemma_src_push(walls, n, goal, qv, head as int, dists_view(dists@), (qn, dist + 1, values(new_spots@)), dir);
                            lemma_queue_push(walls, n, goal, qv, head as int, dists_view(dists@), qn, values(new_spots@), dir);
                        }
                    }
                    proof {
                        let qv2 = queue_view(queue@);
                        let cells2 = queue_cells(qv2);
                        assert forall|c: int| cells0.contains(c) implies cells2.contains(c) by {
                            if !found {
                                crate::game::lemma_seq_push_contains(cells0, qn, c);
                            }
                        }
                        assert(cells2.contains(qn)) by {
                            if !found {
                                crate::game::lemma_seq_push_contains(cells0, qn, qn);
                            }
                        }
                        assert forall|j: int| 0 <= j < head - 1 implies #[trigger] entry_closed(walls, n, qv2, j) by {
                            assert(entry_closed(walls, n, qv0, j));
                            lemma_queue_cell(qv0, j);
                            lemma_queue_cell(qv2, j);
                            lemma_closed_same_cells(walls, n, qv0, qv2, j);
                        }
                        assert forall|c: int|
                            #[trigger] on_path(walls, Seq::empty(), n, fi, dir, c) && !beyond(qn, dir, c)
                                implies cells2.contains(c) by {
                            if beyond(t, dir, c) {
                                lemma_next_cell(walls, n, fi, dir, t, c);
                            }
                        }
                        lemma_queue_facts(walls, n, goal, qv2, head as int, dists_view(dists@));
                        let cand = values(new_spots@).len() as int;
                        assert(qv0.len() <= qv2.len());
                        assert(shrinks(qv0, qv2)) by {
                            assert forall|i: int| 0 <= i < qv0.len() implies #[trigger] qv2[i].0 == qv0[i].0
                                && qv2[i].1 == qv0[i].1 && qv2[i].2.len() <= qv0[i].2.len() by {
                                lemma_queue_cell(qv0, i);
                                lemma_queue_cell(qv2, i);
                            }
                        }
                        assert forall|i: int| 0 <= i < head implies #[trigger] qv2[i] == qv0[i] by {}
                        if !found {
                            assert(!cells0.contains(qn));
                        }
                        assert forall|j: int| 0 <= j < head - 1 implies #[trigger] entry_min(walls, n, goal, qv2, j, 4) by {
                            assert(entry_min(walls, n, goal, qv0, j, 4));
                            assert(entry_closed(walls, n, qv0, j));
                            lemma_queue_cell(qv0, j);
                            assert forall|dd: Direction, i: int| qv0.len() <= i < qv2.len() && dir_rank(dd) < 4
                                implies !#[trigger] offered(walls, n, goal, qv2, j, dd, i) by {
                                if offered(walls, n, goal, qv2, j, dd, i) {
                                    assert(qv2[i].0 == qn);
                                    assert(on_path(walls, Seq::empty(), n, qv0[j].0, dd, qn));
                                }
                            }
                            lemma_min_keep(walls, n, goal, qv0, qv2, j, 4);
                        }
                        assert(entry_min(walls, n, goal, qv2, head - 1, k as int)) by {
                            assert forall|dd: Direction, i: int| qv0.len() <= i < qv2.len() && dir_rank(dd) < k
                                implies !#[trigger] offered(walls, n, goal, qv2, head - 1, dd, i) by {
                                if offered(walls, n, goal, qv2, head - 1, dd, i) {
                                    assert(qv2[i].0 == qn);
                                    assert(on_path(walls, Seq::empty(), n, fi, dd, qn));
                                }
                            }
                            lemma_min_keep(walls, n, goal, qv0, qv2, head - 1, k as int);
                        }
                        assert forall|i: int|
                            head <= i < qv2.len() && #[trigger] on_path(walls, Seq::empty(), n, fi, dir, qv2[i].0)
                                && !beyond(qn, dir, qv2[i].0) implies qv2[i].2.len() <= cand by {
                            if i < qv0.len() && !beyond(t, dir, qv2[i].0) {
                                assert(on_path(walls, Seq::empty(), n, fi, dir, qv0[i].0));
                            } else {
                                if i < qv0.len() {
                                    lemma_next_cell(walls, n, fi, dir, t, qv2[i].0);
                                }
                                assert(qv2[i].0 == qn);
                                lemma_queue_cell(qv2, i);
                                if found {
                                    lemma_queue_cell(qv2, fidx);
                                    assert(i == fidx);
                                } else {
                                    assert(i == qv0.len()) by {
                                        if i < qv0.len() {
                                            lemma_queue_cell(qv0, i);
                                        }
                                    }
                                }
                            }
                        }
                        t = qn;
                    }
                    next = next + di;
                    proof {
                        lemma_within_step(len as int, n, fi, t, dir);
                    }
                }
                proof {
                    let qv = queue_view(queue@);
                    let cells = queue_cells(qv);
                    lemma_within_step(len as int, n, fi, t, dir);
                    lemma_queue_facts(walls, n, goal, qv, head as int, dists_view(dists@));
                    assert forall|c: int| #[trigger] on_path(walls, Seq::empty(), n, fi, dir, c) implies cells.contains(c) by {
                        if beyond(t, dir, c) {
                            if t != fi {
                                lemma_on_path_suffix(walls, Seq::empty(), n, fi, dir, t, c);
                                lemma_on_path_beyond(walls, Seq::empty(), n, fi, dir, t);
                            }
                            assert(on_path(walls, Seq::empty(), n, t, dir, c));
                            let x = step(len as int, n, t, dir)->0;
                            assert(x == next);
                            assert(!walls[x]);
                            assert(beyond(fi, dir, x));
                            assert(dists_view(dists@)[x].0 != UNREACHED);
                            assert(cells.take(head as int).contains(x));
                            let j = choose|j: int| 0 <= j < head && cells.take(head as int)[j] == x;
                            lemma_queue_cell(qv, j);
                            assert(cells.take(head as int)[j] == cells[j]);
                            assert(j != head - 1);
                            assert(entry_closed(walls, n, qv, j));
                            if x != c {
                                assert(on_path(walls, Seq::empty(), n, x, dir, c));
                            }
                        }
                    }
                }
                proof {
                    let qv = queue_view(queue@);
                    let cells = queue_cells(qv);
                    let cand = values(new_spots@).len() as int;
                    let l = dist as int;
                    lemma_within_step(len as int, n, fi, t, dir);
                    lemma_queue_facts(walls, n, goal, qv, head as int, dists_view(dists@));
                    assert forall|dd: Direction, i: int|
                        dir_rank(dd) < k + 1 && #[trigger] offered(walls, n, goal, qv, head - 1, dd, i)
                            implies qv[i].2.len() <= offer(walls, n, qv[head - 1].0, qv[head - 1].2, dd) by {
                        if dir_rank(dd) == k {
                            assert(dd == dir);
                            let c = qv[i].0;
                            if i < head {
                                assert(qv[i].1 <= qv[head - 1].1);
                            }
                            if beyond(t, dir, c) {
                                if t != fi {
                                    lemma_on_path_suffix(walls, Seq::empty(), n, fi, dir, t, c);
                                }
                                assert(on_path(walls, Seq::empty(), n, t, dir, c));
                                let x = step(len as int, n, t, dir)->0;
                                assert(x == next);
                                assert(!walls[x]);
                                assert(dists_view(dists@)[x].0 != UNREACHED);
                                assert(cells.take(head as int).contains(x));
                                let m = choose|m: int| 0 <= m < head && cells.take(head as int)[m] == x;
                                lemma_queue_cell(qv, m);
                                lemma_queue_cell(qv, i);
                                assert(cells.take(head as int)[m] == cells[m]);
                                assert(qv[m].1 <= qv[head - 1].1);
                                if x == c {
                                    assert(m == i);
                                } else {
                                    assert(on_path(walls, Seq::empty(), n, x, dir, c));
                                    lemma_on_path_beyond(walls, Seq::empty(), n, x, dir, c);
                                    lemma_on_path_extend(walls, Seq::empty(), n, fi, dir, t, x);
                                    assert(at_level(walls, n, goal, x, l + 1));
                                    assert(at_level(walls, n, goal, qv[m].0, qv[m].1));
                                    lemma_level_unique(walls, n, goal, x, l + 1, qv[m].1);
                                }
                            }
                            assert(on_path(walls, Seq::empty(), n, fi, dir, qv[i].0));
                        }
                    }
                }
                k = k + 1;
            }
            proof {
                let qv = queue_view(queue@);
                assert(entry_closed(walls, n, qv, head - 1)) by {
                    assert forall|dir: Direction, c: int| #[trigger] on_path(walls, Seq::empty(), n, qv[head - 1].0, dir, c)
                        implies queue_cells(qv).contains(c) by {
                        assert(dir_rank(dir) < 4);
                    }
                }
            }
        }
        proof {
            lemma_queue_facts(walls, n, goal, queue_view(queue@), head as int, dists_view(dists@));
            assert(head == queue_view(queue@).len());
            lemma_queue_done(walls, n, goal, queue_view(queue@), dists_view(dists@));
        }
        Some(dists)
    }
}

} // verus!
