//! Hashing of keys: a deterministic hash that depends on a key's view alone.

use vstd::prelude::*;
use vstd::utf8::encode_utf8;

verus! {

/// Seed of the djb2 string hash.
pub const DJB2_SEED: usize = 5381;

/// The djb2 hash of a byte sequence: start from the seed and, for each byte,
/// multiply by 33 and add the byte, wrapping around on overflow.
pub open spec fn djb2(bytes: Seq<u8>) -> usize
    decreases bytes.len(),
{
    if bytes.len() == 0 {
        DJB2_SEED
    } else {
        djb2(bytes.drop_last()).wrapping_mul(33).wrapping_add(bytes.last() as usize)
    }
}

/// A key type usable in the table: it has a hash that is a function of the
/// key's view, and an equality test that agrees with equality of views.
/// Keys with equal views therefore always hash alike.
pub trait Hashable: View + Sized {
    /// The hash of a key with the given view.
    spec fn spec_hash(k: Self::V) -> usize;

    fn hash(&self) -> (r: usize)
        ensures
            r == Self::spec_hash(self@),
    ;

    fn key_eq(&self, other: &Self) -> (r: bool)
        ensures
            r == (self@ == other@),
    ;
}

/// Hashes the UTF-8 bytes of a string with djb2.
pub fn djb2_bytes(bytes: &[u8]) -> (r: usize)
    ensures
        r == djb2(bytes@),
{
    let mut result: usize = DJB2_SEED;
    let mut i: usize = 0;
    while i < bytes.len()
        invariant
            i <= bytes@.len(),
            result == djb2(bytes@.subrange(0, i as int)),
        decreases bytes@.len() - i,
    {
        assert(bytes@.subrange(0, i as int + 1).drop_last() =~= bytes@.subrange(0, i as int));
        result = result.wrapping_mul(33).wrapping_add(bytes[i] as usize);
        i = i + 1;
    }
    assert(bytes@.subrange(0, i as int) =~= bytes@);
    result
}

impl Hashable for String {
    open spec fn spec_hash(k: Seq<char>) -> usize {
        djb2(encode_utf8(k))
    }

    fn hash(&self) -> (r: usize) {
        djb2_bytes(self.as_str().as_bytes())
    }

    fn key_eq(&self, other: &Self) -> (r: bool) {
        *self == *other
    }
}

impl Hashable for usize {
    open spec fn spec_hash(k: usize) -> usize {
        k
    }

    fn hash(&self) -> (r: usize) {
        *self
    }

    fn key_eq(&self, other: &Self) -> (r: bool) {
        *self == *other
    }
}

} // verus!
