//! The deterministic 64-bit key hash that names a bucket.
//!
//! A Fowler–Noll–Vo fold over the characters of the key: the same key always
//! maps to the same bucket within one build, which is all the layout asks of
//! it (stability across builds is deliberately not promised).

use vstd::prelude::*;

verus! {

pub const FNV_OFFSET: u64 = 0xcbf29ce484222325;

pub const FNV_PRIME: u64 = 0x100000001b3;

/// One fold step: mix character `c` into state `h`.
pub open spec fn hash_step(h: u64, c: char) -> u64 {
    vstd::wrapping::u64_specs::wrapping_mul(h ^ (c as u64), FNV_PRIME)
}

/// The fold over `s` starting from state `h`.
pub open spec fn hash_fold(s: Seq<char>, h: u64) -> u64
    decreases s.len(),
{
    if s.len() == 0 {
        h
    } else {
        hash_fold(s.drop_first(), hash_step(h, s[0]))
    }
}

/// The bucket hash of a key.
pub open spec fn spec_hash(s: Seq<char>) -> u64 {
    hash_fold(s, FNV_OFFSET)
}

/// Computes the bucket hash of a key.
pub fn bucket_hash(key: &str) -> (r: u64)
    ensures
        r == spec_hash(key@),
{
    let len = key.unicode_len();
    let mut h: u64 = FNV_OFFSET;
    let mut i: usize = 0;
    proof {
        assert(key@.subrange(0, len as int) =~= key@);
    }
    while i < len
        invariant
            i <= len,
            len == key@.len(),
            spec_hash(key@) == hash_fold(key@.subrange(i as int, len as int), h),
        decreases len - i,
    {
        let c = key.get_char(i);
        proof {
            let rest = key@.subrange(i as int, len as int);
            assert(rest[0] == c);
            assert(rest.drop_first() =~= key@.subrange(i + 1, len as int));
        }
        h = (h ^ (c as u64)).wrapping_mul(FNV_PRIME);
        i = i + 1;
    }
    proof {
        assert(key@.subrange(len as int, len as int) =~= Seq::<char>::empty());
    }
    h
}

} // verus!
