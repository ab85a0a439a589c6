//! Key routing: a Fowler–Noll–Vo hash over a key's UTF-8 bytes, reduced
//! modulo the bucket count.
//!
//! The hash is an ordinary function of the key's characters, so the same
//! key routes to the same bucket on every call for the lifetime of a map —
//! the one property routing needs. It is not cryptographic and no stability
//! across releases is promised.
use vstd::prelude::*;

verus! {

/// FNV-1a offset basis for 64-bit hashes.
pub const FNV_OFFSET_BASIS: u64 = 0xcbf2_9ce4_8422_2325;

/// FNV-1a prime for 64-bit hashes.
pub const FNV_PRIME: u64 = 0x0000_0100_0000_01b3;

/// One FNV-1a round: fold `byte` into the accumulator.
pub open spec fn fnv_step(acc: u64, byte: u8) -> u64 {
    (acc ^ (byte as u64)).wrapping_mul(FNV_PRIME)
}

/// FNV-1a over `bytes`, starting from accumulator `acc`.
pub open spec fn fnv_acc(bytes: Seq<u8>, acc: u64) -> u64
    decreases bytes.len(),
{
    if bytes.len() == 0 {
        acc
    } else {
        fnv_acc(bytes.drop_first(), fnv_step(acc, bytes.first()))
    }
}

/// The hash of a key, as a function of its UTF-8 encoding.
pub open spec fn key_hash(k: Seq<char>) -> u64 {
    fnv_acc(vstd::utf8::encode_utf8(k), FNV_OFFSET_BASIS)
}

/// The bucket a key routes to in a map of `n` buckets.
pub open spec fn bucket_index(k: Seq<char>, n: int) -> int {
    key_hash(k) as int % n
}

/// A map with at least one bucket has a slot for every key.
pub proof fn lemma_bucket_index_range(k: Seq<char>, n: int)
    requires
        n >= 1,
    ensures
        0 <= bucket_index(k, n) < n,
{
    vstd::arithmetic::div_mod::lemma_mod_bound(key_hash(k) as int, n);
}

/// Hashes `key` with FNV-1a over its UTF-8 bytes.
pub fn hash_key(key: &str) -> (h: u64)
    ensures
        h == key_hash(key@),
{
    let bytes = key.as_bytes();
    let mut h: u64 = FNV_OFFSET_BASIS;
    let mut i: usize = 0;
    proof {
        assert(bytes@.skip(0) =~= bytes@);
    }
    while i < bytes.len()
        invariant
            0 <= i <= bytes@.len(),
            fnv_acc(bytes@.skip(i as int), h) == fnv_acc(bytes@, FNV_OFFSET_BASIS),
        decreases bytes@.len() - i,
    {
        let b = bytes[i];
        proof {
            assert(bytes@.skip(i as int).drop_first() =~= bytes@.skip(i as int + 1));
            assert(bytes@.skip(i as int).first() == bytes@[i as int]);
        }
        h = (h ^ (b as u64)).wrapping_mul(FNV_PRIME);
        i = i + 1;
    }
    proof {
        assert(bytes@.skip(i as int) =~= Seq::<u8>::empty());
    }
    h
}

/// Routes `key` to its bucket in a map of `n` buckets.
pub fn slot_for(key: &str, n: usize) -> (i: usize)
    requires
        n >= 1,
    ensures
        i == bucket_index(key@, n as int),
        i < n,
{
    let h = hash_key(key);
    (h % (n as u64)) as usize
}

} // verus!
