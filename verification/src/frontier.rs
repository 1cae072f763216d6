//! A priority queue for small integer priorities: one bucket per priority.
use vstd::prelude::*;

verus! {

/// The number of items in all buckets together.
pub open spec fn total<T>(s: Seq<Vec<T>>) -> nat
    decreases s.len(),
{
    if s.len() == 0 {
        0
    } else {
        total(s.drop_last()) + s.last()@.len()
    }
}

/// Replacing one bucket changes the total by the difference in sizes.
proof fn lemma_total_update<T>(s: Seq<Vec<T>>, b: int, x: Vec<T>)
    requires
        0 <= b < s.len(),
    ensures
        total(s.update(b, x)) == total(s) - s[b]@.len() + x@.len(),
    decreases s.len(),
{
    if b < s.len() - 1 {
        assert(s.update(b, x).drop_last() =~= s.drop_last().update(b, x));
        lemma_total_update(s.drop_last(), b, x);
    } else {
        assert(s.update(b, x).drop_last() =~= s.drop_last());
    }
}

/// The total counts every bucket.
proof fn lemma_total_ge<T>(s: Seq<Vec<T>>, b: int)
    requires
        0 <= b < s.len(),
    ensures
        total(s) >= s[b]@.len(),
    decreases s.len(),
{
    if b < s.len() - 1 {
        lemma_total_ge(s.drop_last(), b);
    }
}

/// Empty buckets hold nothing in total.
proof fn lemma_total_empty<T>(s: Seq<Vec<T>>)
    requires
        forall|b: int| 0 <= b < s.len() ==> (#[trigger] s[b])@.len() == 0,
    ensures
        total(s) == 0,
    decreases s.len(),
{
    if s.len() > 0 {
        lemma_total_empty(s.drop_last());
    }
}

/// The items of bucket `c`, or none past the last bucket.
pub open spec fn bucket_at<T>(s: Seq<Vec<T>>, c: int) -> Seq<T> {
    if 0 <= c < s.len() {
        s[c]@
    } else {
        Seq::empty()
    }
}

/// Items kept by an integer priority, the lowest taken first.
pub struct Frontier<T> {
    buckets: Vec<Vec<T>>,
    low: usize,
    count: usize,
}

impl<T> Frontier<T> {
    /// The items waiting with priority `c`, oldest first.
    pub closed spec fn at(&self, c: int) -> Seq<T> {
        bucket_at(self.buckets@, c)
    }

    /// The number of items waiting.
    pub closed spec fn size(&self) -> nat {
        self.count as nat
    }

    /// The buckets below `low` are empty and `count` is their total.
    pub closed spec fn wf(&self) -> bool {
        &&& self.low <= self.buckets@.len()
        &&& forall|b: int| 0 <= b < self.low ==> (#[trigger] self.buckets@[b])@.len() == 0
        &&& self.count == total(self.buckets@)
    }

    /// An empty frontier.
    pub fn new() -> (r: Self)
        ensures
            r.wf(),
            r.size() == 0,
            forall|c: int| #[trigger] r.at(c) == Seq::<T>::empty(),
    {
        let r = Frontier { buckets: Vec::new(), low: 0, count: 0 };
        proof {
            assert forall|c: int| #[trigger] r.at(c) == Seq::<T>::empty() by {}
        }
        r
    }

    /// Add `x` with priority `cost`.
    pub fn push(&mut self, cost: usize, x: T)
        requires
            old(self).wf(),
            old(self).size() < usize::MAX,
            cost < usize::MAX,
        ensures
            final(self).wf(),
            final(self).size() == old(self).size() + 1,
            forall|c: int|
                #[trigger] final(self).at(c) == if c == cost {
                    old(self).at(c).push(x)
                } else {
                    old(self).at(c)
                },
    {
        let ghost old_b = self.buckets@;
        while self.buckets.len() <= cost
            invariant
                self.wf(),
                self.count == old(self).count,
                old_b == old(self).buckets@,
                forall|c: int| #[trigger] bucket_at(self.buckets@, c) == bucket_at(old_b, c),
                cost < usize::MAX,
            decreases cost + 1 - self.buckets@.len(),
        {
            let ghost before = self.buckets@;
            self.buckets.push(Vec::new());
            proof {
                assert(self.buckets@.drop_last() =~= before);
                assert forall|c: int| #[trigger] bucket_at(self.buckets@, c) == bucket_at(old_b, c) by {
                    assert(bucket_at(before, c) == bucket_at(old_b, c));
                    if c == before.len() {
                        assert(bucket_at(self.buckets@, c) =~= Seq::<T>::empty());
                    }
                }
            }
        }
        let ghost before = self.buckets@;
        self.buckets[cost].push(x);
        proof {
            assert(self.buckets@ =~= before.update(cost as int, self.buckets@[cost as int]));
            lemma_total_update(before, cost as int, self.buckets@[cost as int]);
        }
        self.count = self.count + 1;
        if cost < self.low {
            self.low = cost;
        }
        proof {
            assert forall|c: int|
                #[trigger] self.at(c) == if c == cost {
                    old(self).at(c).push(x)
                } else {
                    old(self).at(c)
                } by {
                assert(bucket_at(before, c) == bucket_at(old_b, c));
                if c != cost && 0 <= c < before.len() {
                    assert(self.buckets@[c] == before[c]);
                }
            }
        }
    }

    /// Take out an item of the lowest priority: the one added last among them.
    pub fn pop(&mut self) -> (r: Option<(usize, T)>)
        requires
            old(self).wf(),
        ensures
            final(self).wf(),
            match r {
                None => old(self).size() == 0 && final(self).size() == 0 && forall|c: int|
                    #[trigger] old(self).at(c).len() == 0 && final(self).at(c) == old(self).at(c),
                Some((cost, x)) => {
                    &&& old(self).size() > 0
                    &&& final(self).size() == old(self).size() - 1
                    &&& old(self).at(cost as int).len() > 0
                    &&& x == old(self).at(cost as int).last()
                    &&& forall|c: int| 0 <= c < cost ==> #[trigger] old(self).at(c).len() == 0
                    &&& forall|c: int|
                        #[trigger] final(self).at(c) == if c == cost {
                            old(self).at(c).drop_last()
                        } else {
                            old(self).at(c)
                        }
                },
            },
    {
        if self.count == 0 {
            proof {
                assert forall|c: int| #[trigger] old(self).at(c).len() == 0 by {
                    if 0 <= c < self.buckets@.len() {
                        lemma_total_ge(self.buckets@, c);
                    }
                }
            }
            return None;
        }
        let mut b = self.low;
        while b < self.buckets.len() && self.buckets[b].len() == 0
            invariant
                self.wf(),
                self.count > 0,
                self.low <= b <= self.buckets@.len(),
                forall|c: int| 0 <= c < b ==> (#[trigger] self.buckets@[c])@.len() == 0,
                self.buckets@ == old(self).buckets@,
                self.count == old(self).count,
            decreases self.buckets@.len() - b,
        {
            b = b + 1;
        }
        if b == self.buckets.len() {
            proof {
                lemma_total_empty(self.buckets@);
            }
            return None;
        }
        let ghost before = self.buckets@;
        let x = self.buckets[b].pop().unwrap();
        proof {
            assert(self.buckets@ =~= before.update(b as int, self.buckets@[b as int]));
            lemma_total_update(before, b as int, self.buckets@[b as int]);
        }
        self.count = self.count - 1;
        self.low = b;
        proof {
            assert forall|c: int| 0 <= c < b implies #[trigger] old(self).at(c).len() == 0 by {
                assert(before[c]@.len() == 0);
            }
            assert forall|c: int|
                #[trigger] self.at(c) == if c == b {
                    old(self).at(c).drop_last()
                } else {
                    old(self).at(c)
                } by {
                if c != b && 0 <= c < before.len() {
                    assert(self.buckets@[c] == before[c]);
                }
            }
        }
        Some((b, x))
    }
}

} // verus!
