use vstd::prelude::*;

verus! {

/// The FNV-1a offset basis for 64-bit hashes.
pub const FNV_OFFSET: u64 = 0xcbf29ce484222325u64;

/// The FNV-1a prime for 64-bit hashes.
pub const FNV_PRIME: u64 = 0x100000001b3u64;

/// One FNV-1a round: mix in one byte, then multiply by the prime modulo 2^64.
pub open spec fn fnv_round(h: u64, b: u8) -> u64 {
    vstd::wrapping::u64_specs::wrapping_mul(h ^ (b as u64), FNV_PRIME)
}

/// The hash state after feeding `bytes`, in order, into state `h`.
pub open spec fn fnv_fold(h: u64, bytes: Seq<u8>) -> u64
    decreases bytes.len(),
{
    if bytes.len() == 0 {
        h
    } else {
        fnv_round(fnv_fold(h, bytes.drop_last()), bytes.last())
    }
}

/// Feeding bytes in two pieces gives the state that feeding them at once
/// gives: `write(a)` then `write(b)` hashes as `write(a ++ b)`.
pub proof fn lemma_fnv_pieces(h: u64, a: Seq<u8>, b: Seq<u8>)
    ensures
        fnv_fold(fnv_fold(h, a), b) == fnv_fold(h, a + b),
    decreases b.len(),
{
    if b.len() == 0 {
        assert(a + b =~= a);
    } else {
        lemma_fnv_pieces(h, a, b.drop_last());
        assert((a + b).drop_last() =~= a + b.drop_last());
        assert((a + b).last() == b.last());
    }
}

/// The Fowler–Noll–Vo hash function, FNV-1a with 64-bit state.
pub struct FnvHasher(u64);

impl FnvHasher {
    /// The current hash state.
    pub closed spec fn state(&self) -> u64 {
        self.0
    }

    /// A hasher in its initial state, the offset basis.
    pub fn default() -> (r: FnvHasher)
        ensures
            r.state() == FNV_OFFSET,
    {
        FnvHasher(FNV_OFFSET)
    }

    /// The hash of everything written so far.
    pub fn finish(&self) -> (r: u64)
        ensures
            r == self.state(),
    {
        self.0
    }

    /// Feed `bytes` into the hash, one byte at a time.
    pub fn write(&mut self, bytes: &[u8])
        ensures
            final(self).state() == fnv_fold(old(self).state(), bytes@),
    {
        let FnvHasher(mut hash) = *self;
        let ghost h0 = hash;
        let mut i: usize = 0;
        while i < bytes.len()
            invariant
                i <= bytes@.len(),
                hash == fnv_fold(h0, bytes@.take(i as int)),
            decreases bytes@.len() - i,
        {
            let b = bytes[i];
            proof {
                assert(bytes@.take(i + 1).drop_last() =~= bytes@.take(i as int));
            }
            hash = hash ^ (b as u64);
            hash = hash.wrapping_mul(FNV_PRIME);
            i = i + 1;
        }
        proof {
            assert(bytes@.take(bytes@.len() as int) =~= bytes@);
        }
        *self = FnvHasher(hash);
    }
}

} // verus!
