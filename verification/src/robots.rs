use vstd::prelude::*;

use vstd::relations::{sorted_by, total_ordering};
use vstd::seq_lib::lemma_sorted_unique;

use crate::position::Position;
use crate::symmetry::{others, same_up_to_order};

verus! {

/// The board indices held by a sequence of positions.
pub open spec fn values<P: Position>(s: Seq<P>) -> Seq<int> {
    s.map_values(|p: P| p.pos_value() as int)
}

/// Whether `s` is in ascending order.
pub open spec fn ascending(s: Seq<int>) -> bool {
    forall|a: int, b: int| 0 <= a <= b < s.len() ==> s[a] <= s[b]
}

/// The canonical form of a placement: robot 0 stays where it is, the other
/// robots, which play interchangeable roles, are listed in ascending order.
pub open spec fn is_canonical_of(c: Seq<int>, s: Seq<int>) -> bool {
    &&& c.len() == s.len()
    &&& (s.len() > 0 ==> c[0] == s[0])
    &&& (s.len() > 0 ==> ascending(c.subrange(1, c.len() as int)))
    &&& (s.len() > 0 ==> c.subrange(1, c.len() as int).to_multiset() =~= s.subrange(
        1,
        s.len() as int,
    ).to_multiset())
}

/// Placements that differ only in the order of the robots other than robot
/// 0 have one canonical form: `symmetric` gives them equal results.
pub proof fn lemma_canonical_unique(c1: Seq<int>, c2: Seq<int>, s1: Seq<int>, s2: Seq<int>)
    requires
        is_canonical_of(c1, s1),
        is_canonical_of(c2, s2),
        same_up_to_order(s1, s2),
    ensures
        c1 == c2,
{
    let leq = |a: int, b: int| a <= b;
    let r1 = c1.subrange(1, c1.len() as int);
    let r2 = c2.subrange(1, c2.len() as int);
    assert(sorted_by(r1, leq)) by {
        assert forall|i: int, j: int| 0 <= i < j < r1.len() implies #[trigger] leq(r1[i], r1[j]) by {
            assert(ascending(r1));
        }
    }
    assert(sorted_by(r2, leq)) by {
        assert forall|i: int, j: int| 0 <= i < j < r2.len() implies #[trigger] leq(r2[i], r2[j]) by {
            assert(ascending(r2));
        }
    }
    assert(total_ordering(leq));
    assert(others(s1) =~= s1.subrange(1, s1.len() as int));
    assert(r1.to_multiset() == r2.to_multiset());
    lemma_sorted_unique(r1, r2, leq);
    assert(c1 =~= seq![c1[0]] + r1);
    assert(c2 =~= seq![c2[0]] + r2);
}

/// A copy of a vector of positions.
pub fn copy_positions<P: Position>(v: &Vec<P>) -> (r: Vec<P>)
    ensures
        r@ == v@,
{
    let mut out: Vec<P> = Vec::new();
    let mut i: usize = 0;
    while i < v.len()
        invariant
            i <= v@.len(),
            out@ =~= v@.take(i as int),
        decreases v@.len() - i,
    {
        out.push(v[i]);
        i = i + 1;
    }
    proof {
        assert(out@ =~= v@);
    }
    out
}

/// The positions of all robots; robot `i` stands at index `i`.
pub struct Robots<P> {
    positions: Vec<P>,
}

impl<P: Position> View for Robots<P> {
    type V = Seq<int>;

    closed spec fn view(&self) -> Seq<int> {
        values(self.positions@)
    }
}

impl<P: Position> Robots<P> {
    /// Robots standing at the given positions.
    pub fn new(positions: Vec<P>) -> (r: Self)
        ensures
            r@ == values(positions@),
    {
        Robots { positions }
    }

    /// `n` robots, all at index 0.
    pub fn default(n: usize) -> (r: Self)
        ensures
            r@ == Seq::new(n as nat, |i: int| 0int),
    {
        let mut positions: Vec<P> = Vec::new();
        let mut i: usize = 0;
        proof {
            P::lemma_pos_max();
        }
        while i < n
            invariant
                i <= n,
                positions@.len() == i,
                values(positions@) =~= Seq::new(i as nat, |j: int| 0int),
            decreases n - i,
        {
            let z = P::from_usize(0);
            let ghost before = positions@;
            positions.push(z);
            proof {
                assert(positions@ =~= before.push(z));
                assert(values(positions@)[i as int] == 0);
                assert forall|j: int| 0 <= j < i implies values(positions@)[j] == 0 by {
                    assert(values(positions@)[j] == before[j].pos_value());
                    assert(values(before)[j] == before[j].pos_value());
                    assert(Seq::new(i as nat, |k: int| 0int)[j] == 0);
                }
                assert(values(positions@) =~= Seq::new((i + 1) as nat, |j: int| 0int));
            }
            i = i + 1;
        }
        Robots { positions }
    }

    /// The positions as a vector.
    pub fn positions(&self) -> (r: &Vec<P>)
        ensures
            values(r@) == self@,
    {
        &self.positions
    }

    /// The positions, giving up the placement.
    pub fn into_positions(self) -> (r: Vec<P>)
        ensures
            values(r@) == self@,
    {
        self.positions
    }

    /// The number of robots.
    pub fn len(&self) -> (r: usize)
        ensures
            r == self@.len(),
    {
        self.positions.len()
    }

    /// Where robot `i` stands.
    pub fn get(&self, i: usize) -> (r: P)
        requires
            i < self@.len(),
        ensures
            r.pos_value() == self@[i as int],
    {
        self.positions[i]
    }

    /// Put robot `i` at `p`.
    pub fn set(&mut self, i: usize, p: P)
        requires
            i < old(self)@.len(),
        ensures
            final(self)@ == old(self)@.update(i as int, p.pos_value() as int),
    {
        self.positions.set(i, p);
        proof {
            assert(values(self.positions@) =~= old(self)@.update(i as int, p.pos_value() as int));
        }
    }

    /// Whether some robot stands at `p`.
    pub fn contains(&self, p: &P) -> (r: bool)
        ensures
            r == self@.contains(p.pos_value() as int),
    {
        let target = p.to_usize();
        let mut i: usize = 0;
        while i < self.positions.len()
            invariant
                i <= self.positions@.len(),
                target == p.pos_value(),
                forall|j: int| 0 <= j < i ==> self@[j] != target,
            decreases self.positions@.len() - i,
        {
            if self.positions[i].to_usize() == target {
                proof {
                    assert(self@[i as int] == target);
                }
                return true;
            }
            i = i + 1;
        }
        false
    }

    /// A copy of this placement.
    pub fn duplicate(&self) -> (r: Self)
        ensures
            r@ == self@,
    {
        let mut positions: Vec<P> = Vec::new();
        let mut i: usize = 0;
        while i < self.positions.len()
            invariant
                i <= self.positions@.len(),
                positions@ =~= self.positions@.take(i as int),
            decreases self.positions@.len() - i,
        {
            positions.push(self.positions[i]);
            i = i + 1;
        }
        proof {
            assert(positions@ =~= self.positions@);
        }
        Robots { positions }
    }

    /// The canonical form of this placement: robot 0 in place, the others
    /// sorted by position.
    pub fn symmetric(self) -> (r: Self)
        ensures
            is_canonical_of(r@, self@),
    {
        let ghost orig = self@;
        let mut positions = self.positions;
        let n = positions.len();
        if n == 0 {
            return Robots { positions };
        }
        // insertion sort of positions[1..n]
        let mut i: usize = 1;
        while i < n
            invariant
                1 <= i <= n,
                n == positions@.len(),
                values(positions@).len() == orig.len(),
                values(positions@)[0] == orig[0],
                forall|a: int, b: int|
                    1 <= a <= b < i ==> values(positions@)[a] <= values(positions@)[b],
                values(positions@).subrange(1, n as int).to_multiset() =~= orig.subrange(
                    1,
                    n as int,
                ).to_multiset(),
            decreases n - i,
        {
            let mut j: usize = i;
            while j > 1 && positions[j - 1].to_usize() > positions[j].to_usize()
                invariant
                    1 <= j <= i < n,
                    n == positions@.len(),
                    values(positions@).len() == orig.len(),
                    values(positions@)[0] == orig[0],
                    forall|a: int, b: int|
                        1 <= a <= b < j ==> values(positions@)[a] <= values(positions@)[b],
                    forall|a: int, b: int|
                        j <= a <= b <= i ==> values(positions@)[a] <= values(positions@)[b],
                    forall|a: int, b: int|
                        1 <= a < j && j < b <= i ==> values(positions@)[a] <= values(
                            positions@,
                        )[b],
                    values(positions@).subrange(1, n as int).to_multiset() =~= orig.subrange(
                        1,
                        n as int,
                    ).to_multiset(),
                decreases j,
            {
                let a = positions[j - 1];
                let b = positions[j];
                let ghost before = values(positions@);
                positions.set(j - 1, b);
                positions.set(j, a);
                proof {
                    assert(values(positions@) =~= before.update(j - 1, before[j as int]).update(
                        j as int,
                        before[j - 1],
                    ));
                    lemma_swap_multiset(
                        before,
                        values(positions@),
                        (j - 1) as int,
                        j as int,
                        n as int,
                    );
                }
                j = j - 1;
            }
            proof {
                let v = values(positions@);
                assert forall|a: int, b: int| 1 <= a <= b < i + 1 implies v[a] <= v[b] by {
                    if a < j && b >= j {
                        if b > j {
                        } else {
                            assert(v[a] <= v[j - 1]);
                        }
                    }
                }
            }
            i = i + 1;
        }
        proof {
            let v = values(positions@);
            assert(ascending(v.subrange(1, n as int)));
        }
        Robots { positions }
    }
}

/// Swapping two neighbouring entries of `1..n` keeps the multiset of that range.
proof fn lemma_swap_multiset(s: Seq<int>, t: Seq<int>, a: int, b: int, n: int)
    requires
        1 <= a,
        b == a + 1,
        b < n,
        s.len() == n,
        t == s.update(a, s[b]).update(b, s[a]),
    ensures
        t.subrange(1, n).to_multiset() =~= s.subrange(1, n).to_multiset(),
{
    let s1 = s.subrange(1, n);
    let t1 = t.subrange(1, n);
    let u1 = s1.update(a - 1, s1[b - 1]);
    assert(t1 =~= u1.update(b - 1, s1[a - 1]));
    vstd::seq_lib::to_multiset_update(s1, a - 1, s1[b - 1]);
    vstd::seq_lib::to_multiset_update(u1, b - 1, s1[a - 1]);
    broadcast use vstd::multiset::group_multiset_axioms, vstd::seq_lib::group_to_multiset_ensures;

    let x = s1[b - 1];
    let y = s1[a - 1];
    assert(s1.contains(y));
    assert(s1.to_multiset().count(y) > 0);
    assert(u1[b - 1] == x);
    assert forall|v: int| t1.to_multiset().count(v) == s1.to_multiset().count(v) by {}
    assert(t1.to_multiset() =~= s1.to_multiset());
}

} // verus!
