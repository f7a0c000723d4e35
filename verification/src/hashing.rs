//! Hashing: a 64-bit full hash derived from a configurable hash builder,
//! decorrelated by a fixed avalanche mixing step, and the 8-bit partial hash
//! stored with each entry as a cheap filter.

use std::collections::hash_map::DefaultHasher;
use std::hash::Hasher;
use vstd::prelude::*;
use vstd::std_specs::hash::DefaultHasherAdditionalSpecFns;

verus! {

/// The low eight bits of a full hash: the partial-hash filter value that is
/// stored beside every entry to avoid full key comparisons.
pub open spec fn low8(h: u64) -> u8 {
    (h & 0xff) as u8
}

/// Right rotation of a 64-bit word by `n` bits, `0 < n < 64`.
pub open spec fn rot_r(h: u64, n: u64) -> u64
    recommends
        0 < n < 64,
{
    (h >> n) | (h << ((64 - n) as u64))
}

/// The avalanche mixing step applied to the builder-derived hash: two
/// rotate-xor steps interleaved with two odd 64-bit multiplications, then a
/// final shift-xor. It decorrelates the low bits (used for cell indexing and
/// the partial hash) from the raw hash.
pub open spec fn mix64(h: u64) -> u64 {
    let a = h ^ (rot_r(h, 25) ^ rot_r(h, 50));
    let b = a.wrapping_mul(0xA24BAED4963EE407u64);
    let c = b ^ (rot_r(b, 24) ^ rot_r(b, 49));
    let d = c.wrapping_mul(0x9FB21C651E98DF25u64);
    d ^ (d >> 28)
}

/// Computes the mixed full hash and the partial hash from a builder-derived
/// 64-bit hash. Deterministic: the result is a function of `h` alone.
pub fn bit_mix(h: u64) -> (r: (u64, u8))
    ensures
        r.0 == mix64(h),
        r.1 == low8(r.0),
{
    let a = h ^ (((h >> 25) | (h << 39)) ^ ((h >> 50) | (h << 14)));
    let b = a.wrapping_mul(0xA24BAED4963EE407u64);
    let c = b ^ (((b >> 24) | (b << 40)) ^ ((b >> 49) | (b << 15)));
    let d = c.wrapping_mul(0x9FB21C651E98DF25u64);
    let full = d ^ (d >> 28);
    assert(a == h ^ (rot_r(h, 25) ^ rot_r(h, 50)));
    assert(c == b ^ (rot_r(b, 24) ^ rot_r(b, 49)));
    (full, (full & 0xff) as u8)
}

/// A key type usable by the index.
///
/// The two methods give executable counterparts, with stated meaning, to
/// mathematical equality and duplication; the index needs both to compare
/// stored keys against a probe and to hand entries out of a traversal.
pub trait IndexKey: Sized {
    /// Executable equality, agreeing with mathematical equality of the values.
    fn key_eq(&self, other: &Self) -> (r: bool)
        ensures
            r == (self == other),
    ;

    /// An exact copy of the key.
    fn clone_key(&self) -> (r: Self)
        ensures
            r == self,
    ;
}

/// A value type usable by the index: one that can be duplicated exactly, so
/// that a traversal can hand values out without disturbing the stored ones.
pub trait IndexValue: Sized {
    /// An exact copy of the value.
    fn clone_value(&self) -> (r: Self)
        ensures
            r == self,
    ;
}

/// The hash-builder role: derives the raw 64-bit hash of a key.
///
/// `spec_hash` is the mathematical statement of what the builder computes;
/// `hash_key` is its executable counterpart. A builder's hash is a function
/// of the builder value and the key alone, so for one builder equal keys
/// always receive equal hashes.
pub trait IndexHasher<K>: Sized {
    /// The raw 64-bit hash that this builder assigns to `key`.
    spec fn spec_hash(&self, key: &K) -> u64;

    /// Computes the raw hash of `key`.
    fn hash_key(&self, key: &K) -> (r: u64)
        ensures
            r == self.spec_hash(key),
    ;
}

impl IndexKey for u64 {
    fn key_eq(&self, other: &Self) -> (r: bool) {
        *self == *other
    }

    fn clone_key(&self) -> (r: Self) {
        *self
    }
}

impl IndexKey for u32 {
    fn key_eq(&self, other: &Self) -> (r: bool) {
        *self == *other
    }

    fn clone_key(&self) -> (r: Self) {
        *self
    }
}

impl IndexKey for usize {
    fn key_eq(&self, other: &Self) -> (r: bool) {
        *self == *other
    }

    fn clone_key(&self) -> (r: Self) {
        *self
    }
}

impl IndexValue for u64 {
    fn clone_value(&self) -> (r: Self) {
        *self
    }
}

impl IndexValue for u32 {
    fn clone_value(&self) -> (r: Self) {
        *self
    }
}

impl IndexValue for usize {
    fn clone_value(&self) -> (r: Self) {
        *self
    }
}

impl IndexValue for bool {
    fn clone_value(&self) -> (r: Self) {
        *self
    }
}

/// The little-endian bytes of a 64-bit key, as fed to the hasher.
pub open spec fn u64_le_bytes(k: u64) -> Seq<u8> {
    seq![
        (k & 0xff) as u8,
        ((k >> 8) & 0xff) as u8,
        ((k >> 16) & 0xff) as u8,
        ((k >> 24) & 0xff) as u8,
        ((k >> 32) & 0xff) as u8,
        ((k >> 40) & 0xff) as u8,
        ((k >> 48) & 0xff) as u8,
        ((k >> 56) & 0xff) as u8,
    ]
}

/// The default hash builder: hashes the key's little-endian bytes with std's
/// `DefaultHasher` in one write. Deterministic for a given key.
#[derive(Clone)]
pub struct DefaultHashBuilder {
    pub seed: u64,
}

impl DefaultHashBuilder {
    /// Creates the default builder.
    pub fn new() -> (r: Self)
        ensures
            r.seed == 0u64,
    {
        DefaultHashBuilder { seed: 0u64 }
    }
}

impl IndexHasher<u64> for DefaultHashBuilder {
    open spec fn spec_hash(&self, key: &u64) -> u64 {
        DefaultHasher::spec_finish(seq![u64_le_bytes(*key ^ self.seed)])
    }

    fn hash_key(&self, key: &u64) -> (r: u64) {
        let k = *key ^ self.seed;
        let mut bytes: Vec<u8> = Vec::new();
        bytes.push((k & 0xff) as u8);
        bytes.push(((k >> 8) & 0xff) as u8);
        bytes.push(((k >> 16) & 0xff) as u8);
        bytes.push(((k >> 24) & 0xff) as u8);
        bytes.push(((k >> 32) & 0xff) as u8);
        bytes.push(((k >> 40) & 0xff) as u8);
        bytes.push(((k >> 48) & 0xff) as u8);
        bytes.push(((k >> 56) & 0xff) as u8);
        let mut h = DefaultHasher::new();
        assert(bytes@ =~= u64_le_bytes(k));
        h.write(bytes.as_slice());
        assert(h@ =~= seq![u64_le_bytes(k)]);
        h.finish()
    }
}

impl IndexHasher<u32> for DefaultHashBuilder {
    open spec fn spec_hash(&self, key: &u32) -> u64 {
        DefaultHasher::spec_finish(seq![u64_le_bytes((*key as u64) ^ self.seed)])
    }

    fn hash_key(&self, key: &u32) -> (r: u64) {
        let wide: u64 = *key as u64;
        let b = DefaultHashBuilder { seed: self.seed };
        b.hash_key(&wide)
    }
}

impl IndexHasher<usize> for DefaultHashBuilder {
    open spec fn spec_hash(&self, key: &usize) -> u64 {
        DefaultHasher::spec_finish(seq![u64_le_bytes((*key as u64) ^ self.seed)])
    }

    fn hash_key(&self, key: &usize) -> (r: u64) {
        let wide: u64 = *key as u64;
        let b = DefaultHashBuilder { seed: self.seed };
        b.hash_key(&wide)
    }
}

} // verus!
