//! The FNV-1a hash of a tag key.

use vstd::prelude::*;
use std::hash::Hasher;

verus! {

/// The state that FNV-1a starts from.
pub const FNV_OFFSET: u64 = 14695981039346656037;

/// The prime that FNV-1a multiplies by.
pub const FNV_PRIME: u64 = 1099511628211;

/// One step of FNV-1a: the byte is mixed in, then the state is multiplied.
pub open spec fn fnv1a_step(state: u64, byte: u8) -> u64 {
    (state ^ (byte as u64)).wrapping_mul(FNV_PRIME)
}

/// The state of FNV-1a after `bytes`, from `state`.
pub open spec fn fnv1a(state: u64, bytes: Seq<u8>) -> u64
    decreases bytes.len(),
{
    if bytes.len() == 0 {
        state
    } else {
        fnv1a(fnv1a_step(state, bytes[0]), bytes.drop_first())
    }
}

/// A hasher for the keys of [`crate::tags::Tags`]: 64-bit FNV-1a.
pub struct TagsHasher(u64);

impl View for TagsHasher {
    type V = u64;

    closed spec fn view(&self) -> u64 {
        self.0
    }
}

impl Default for TagsHasher {
    fn default() -> (r: TagsHasher)
        ensures
            r@ == FNV_OFFSET,
    {
        TagsHasher(FNV_OFFSET)
    }
}

impl Hasher for TagsHasher {
    fn finish(&self) -> (r: u64)
        ensures
            r == self@,
    {
        self.0
    }

    fn write(&mut self, bytes: &[u8])
        ensures
            final(self)@ == fnv1a(old(self)@, bytes@),
    {
        let mut hash: u64 = self.0;
        let mut i: usize = 0;
        assert(bytes@.subrange(0, bytes@.len() as int) =~= bytes@);
        while i < bytes.len()
            invariant
                i <= bytes.len(),
                fnv1a(hash, bytes@.subrange(i as int, bytes@.len() as int)) == fnv1a(
                    old(self)@,
                    bytes@,
                ),
            decreases bytes.len() - i,
        {
            proof {
                let rest = bytes@.subrange(i as int, bytes@.len() as int);
                assert(rest.drop_first() =~= bytes@.subrange(i + 1, bytes@.len() as int));
            }
            hash = (hash ^ (bytes[i] as u64)).wrapping_mul(FNV_PRIME);
            i += 1;
        }
        self.0 = hash;
    }
}

/// The FNV-1a hash of `bytes`.
pub fn hash_bytes(bytes: &[u8]) -> (r: u64)
    ensures
        r == fnv1a(FNV_OFFSET, bytes@),
{
    let mut hasher = TagsHasher::default();
    hasher.write(bytes);
    hasher.finish()
}

} // verus!
