//! A hash map from robot placements to values, hashed with FNV-1a.
use vstd::prelude::*;

use crate::fnv::{FnvHasher, FNV_OFFSET, fnv_fold};
use crate::position::Position;
use crate::robots::values;

verus! {

/// The number of buckets.
pub const BUCKETS: usize = 65536;

/// The four bytes, least significant first, of an index below 2^32.
pub open spec fn index_bytes(v: int) -> Seq<u8> {
    seq![
        (v % 256) as u8,
        ((v / 256) % 256) as u8,
        ((v / 65536) % 256) as u8,
        ((v / 16777216) % 256) as u8,
    ]
}

/// The FNV-1a hash of a placement: the bytes of each index in turn.
pub open spec fn placement_hash(s: Seq<int>) -> u64
    decreases s.len(),
{
    if s.len() == 0 {
        FNV_OFFSET
    } else {
        fnv_fold(placement_hash(s.drop_last()), index_bytes(s.last()))
    }
}

/// The bucket a placement goes in.
pub open spec fn bucket_of(s: Seq<int>) -> int {
    (placement_hash(s) % (BUCKETS as u64)) as int
}

/// Hash a placement with `FnvHasher`.
pub fn hash_placement<P: Position>(key: &Vec<P>) -> (r: u64)
    ensures
        r == placement_hash(values(key@)),
{
    let mut hasher = FnvHasher::default();
    let mut i: usize = 0;
    while i < key.len()
        invariant
            i <= key@.len(),
            hasher.state() == placement_hash(values(key@).take(i as int)),
        decreases key@.len() - i,
    {
        proof {
            assert(values(key@).take(0) =~= Seq::<int>::empty());
        }
        let v = key[i].to_usize();
        proof {
            key[i as int].lemma_pos_bounds();
            P::lemma_pos_max();
        }
        let bytes: [u8; 4] = [
            (v % 256) as u8,
            ((v / 256) % 256) as u8,
            ((v / 65536) % 256) as u8,
            ((v / 16777216) % 256) as u8,
        ];
        proof {
            assert(bytes@ =~= index_bytes(v as int));
            let t = values(key@).take(i + 1);
            assert(t.drop_last() =~= values(key@).take(i as int));
            assert(t.last() == v);
        }
        hasher.write(&bytes);
        i = i + 1;
    }
    proof {
        assert(values(key@).take(key@.len() as int) =~= values(key@));
    }
    hasher.finish()
}

/// Whether two placements hold the same indices.
fn same_placement<P: Position>(a: &Vec<P>, b: &Vec<P>) -> (r: bool)
    ensures
        r == (values(a@) == values(b@)),
{
    if a.len() != b.len() {
        proof {
            assert(values(a@).len() != values(b@).len());
        }
        return false;
    }
    let mut i: usize = 0;
    while i < a.len()
        invariant
            a@.len() == b@.len(),
            i <= a@.len(),
            forall|j: int| 0 <= j < i ==> values(a@)[j] == values(b@)[j],
        decreases a@.len() - i,
    {
        if a[i].to_usize() != b[i].to_usize() {
            proof {
                assert(values(a@)[i as int] != values(b@)[i as int]);
            }
            return false;
        }
        i = i + 1;
    }
    proof {
        assert(values(a@) =~= values(b@));
    }
    true
}

/// A map from robot placements to values.
pub struct StateMap<P, V> {
    buckets: Vec<Vec<(Vec<P>, V)>>,
    contents: Ghost<Map<Seq<int>, V>>,
}

impl<P: Position, V: Copy> StateMap<P, V> {
    /// The placements stored and their values.
    pub closed spec fn view(&self) -> Map<Seq<int>, V> {
        self.contents@
    }

    /// Every entry sits in the bucket of its placement and agrees with the
    /// map, each placement is stored once, and every placement of the map is stored.
    pub closed spec fn wf(&self) -> bool {
        &&& self.buckets@.len() == BUCKETS
        &&& self.contents@.dom().finite()
        &&& forall|b: int, j: int|
            0 <= b < BUCKETS && 0 <= j < self.buckets@[b]@.len() ==> {
                let e = #[trigger] self.buckets@[b]@[j];
                &&& bucket_of(values(e.0@)) == b
                &&& self.contents@.contains_key(values(e.0@))
                &&& self.contents@[values(e.0@)] == e.1
            }
        &&& forall|b: int, j1: int, j2: int|
            0 <= b < BUCKETS && 0 <= j1 < self.buckets@[b]@.len() && 0 <= j2
                < self.buckets@[b]@.len() && j1 != j2 ==> values(
                (#[trigger] self.buckets@[b]@[j1]).0@,
            ) != values((#[trigger] self.buckets@[b]@[j2]).0@)
        &&& forall|k: Seq<int>|
            #[trigger] self.contents@.contains_key(k) ==> exists|j: int|
                0 <= j < self.buckets@[bucket_of(k)]@.len() && values(
                    (#[trigger] self.buckets@[bucket_of(k)]@[j]).0@,
                ) == k
    }

    /// The placements stored form a finite set.
    pub proof fn lemma_finite(&self)
        requires
            self.wf(),
        ensures
            self@.dom().finite(),
    {
    }

    /// An empty map.
    pub fn new() -> (r: Self)
        ensures
            r.wf(),
            r@ == Map::<Seq<int>, V>::empty(),
    {
        let mut buckets: Vec<Vec<(Vec<P>, V)>> = Vec::new();
        let mut i: usize = 0;
        while i < BUCKETS
            invariant
                i <= BUCKETS,
                buckets@.len() == i,
                forall|b: int| 0 <= b < i ==> (#[trigger] buckets@[b])@.len() == 0,
            decreases BUCKETS - i,
        {
            buckets.push(Vec::new());
            i = i + 1;
        }
        StateMap { buckets, contents: Ghost(Map::empty()) }
    }

    /// Where `key` is stored in its bucket, if it is.
    fn find(&self, b: usize, key: &Vec<P>) -> (r: Option<usize>)
        requires
            self.wf(),
            b == bucket_of(values(key@)),
        ensures
            match r {
                Some(j) => j < self.buckets@[b as int]@.len() && values(
                    self.buckets@[b as int]@[j as int].0@,
                ) == values(key@),
                None => !self@.contains_key(values(key@)),
            },
    {
        let bucket = &self.buckets[b];
        let mut j: usize = 0;
        while j < bucket.len()
            invariant
                self.wf(),
                b == bucket_of(values(key@)),
                bucket == self.buckets@[b as int],
                j <= bucket@.len(),
                forall|i: int| 0 <= i < j ==> values(bucket@[i].0@) != values(key@),
            decreases bucket@.len() - j,
        {
            if same_placement(&bucket[j].0, key) {
                return Some(j);
            }
            j = j + 1;
        }
        proof {
            if self@.contains_key(values(key@)) {
                let k = values(key@);
                let jj = choose|jj: int|
                    0 <= jj < self.buckets@[bucket_of(k)]@.len() && values(
                        (#[trigger] self.buckets@[bucket_of(k)]@[jj]).0@,
                    ) == k;
                assert(values(bucket@[jj].0@) == k);
            }
        }
        None
    }

    /// The value stored for `key`, if any.
    pub fn get(&self, key: &Vec<P>) -> (r: Option<V>)
        requires
            self.wf(),
        ensures
            r == if self@.contains_key(values(key@)) {
                Some(self@[values(key@)])
            } else {
                None
            },
    {
        let h = hash_placement(key);
        let b = (h % (BUCKETS as u64)) as usize;
        match self.find(b, key) {
            Some(j) => {
                proof {
                    let e = self.buckets@[b as int]@[j as int];
                    assert(self.contents@.contains_key(values(e.0@)));
                }
                Some(self.buckets[b][j].1)
            },
            None => None,
        }
    }

    /// Whether `key` is stored.
    pub fn contains(&self, key: &Vec<P>) -> (r: bool)
        requires
            self.wf(),
        ensures
            r == self@.contains_key(values(key@)),
    {
        match self.get(key) {
            Some(_) => true,
            None => false,
        }
    }

    /// Store `v` for `key`, replacing what was stored for it.
    pub fn insert(&mut self, key: Vec<P>, v: V)
        requires
            old(self).wf(),
        ensures
            final(self).wf(),
            final(self)@ == old(self)@.insert(values(key@), v),
    {
        let h = hash_placement(&key);
        let b = (h % (BUCKETS as u64)) as usize;
        let ghost k = values(key@);
        let ghost old_buckets = self.buckets@;
        let ghost old_contents = self.contents@;
        let ghost jk: int;
        match self.find(b, &key) {
            Some(j) => {
                proof {
                    jk = j as int;
                }
                self.buckets[b].set(j, (key, v));
            },
            None => {
                proof {
                    jk = old_buckets[b as int]@.len() as int;
                }
                self.buckets[b].push((key, v));
            },
        }
        proof {
            self.contents@ = old_contents.insert(k, v);
            assert(self.buckets@.len() == BUCKETS);
            assert(values(self.buckets@[b as int]@[jk].0@) == k);
            assert forall|b2: int, j: int|
                0 <= b2 < BUCKETS && 0 <= j < self.buckets@[b2]@.len() implies {
                let e = #[trigger] self.buckets@[b2]@[j];
                &&& bucket_of(values(e.0@)) == b2
                &&& self.contents@.contains_key(values(e.0@))
                &&& self.contents@[values(e.0@)] == e.1
            } by {
                if b2 != b {
                    assert(self.buckets@[b2] == old_buckets[b2]);
                    let e = old_buckets[b2]@[j];
                    assert(old_contents.contains_key(values(e.0@)));
                    assert(values(e.0@) != k);
                } else if j != jk {
                    assert(self.buckets@[b2]@[j] == old_buckets[b2]@[j]);
                    let e = old_buckets[b2]@[j];
                    assert(old_contents.contains_key(values(e.0@)));
                    if old_contents.contains_key(k) {
                        assert(values(old_buckets[b2]@[jk].0@) == k);
                        assert(values(e.0@) != k);
                    } else {
                        assert(values(e.0@) != k);
                    }
                }
            }
            assert forall|b2: int, j1: int, j2: int|
                0 <= b2 < BUCKETS && 0 <= j1 < self.buckets@[b2]@.len() && 0 <= j2
                    < self.buckets@[b2]@.len() && j1 != j2 implies values(
                (#[trigger] self.buckets@[b2]@[j1]).0@,
            ) != values((#[trigger] self.buckets@[b2]@[j2]).0@) by {
                if b2 != b {
                    assert(self.buckets@[b2] == old_buckets[b2]);
                } else {
                    if j1 != jk && j2 != jk {
                        assert(self.buckets@[b2]@[j1] == old_buckets[b2]@[j1]);
                        assert(self.buckets@[b2]@[j2] == old_buckets[b2]@[j2]);
                    } else {
                        let jo = if j1 == jk { j2 } else { j1 };
                        let e = old_buckets[b2]@[jo];
                        assert(self.buckets@[b2]@[jo] == e);
                        assert(old_contents.contains_key(values(e.0@)));
                        if old_contents.contains_key(k) {
                            assert(values(old_buckets[b2]@[jk].0@) == k);
                        }
                    }
                }
            }
            assert forall|kk: Seq<int>| #[trigger] self.contents@.contains_key(kk) implies exists|
                j: int,
            |
                0 <= j < self.buckets@[bucket_of(kk)]@.len() && values(
                    (#[trigger] self.buckets@[bucket_of(kk)]@[j]).0@,
                ) == kk by {
                if kk == k {
                    assert(values(self.buckets@[bucket_of(kk)]@[jk].0@) == kk);
                } else {
                    let bb = bucket_of(kk);
                    assert(old_contents.contains_key(kk));
                    let j = choose|j: int|
                        0 <= j < old_buckets[bb]@.len() && values(
                            (#[trigger] old_buckets[bb]@[j]).0@,
                        ) == kk;
                    if bb == b {
                        assert(j != jk);
                    }
                    assert(self.buckets@[bb]@[j] == old_buckets[bb]@[j]);
                }
            }
        }
    }
}

} // verus!
