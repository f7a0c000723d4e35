use hash_index::hashindex::HashIndex;
use hash_index::policy::{next_capacity, next_pow2, DEFAULT_CAPACITY};
use hash_index::hashing::{bit_mix, DefaultHashBuilder};

fn new_index(capacity: usize) -> HashIndex<u64, u64, DefaultHashBuilder> {
    HashIndex::new(capacity, DefaultHashBuilder::new())
}

#[test]
fn insert_then_read() {
    let mut idx = new_index(64);
    assert!(idx.insert(1, 10).is_ok());
    assert_eq!(idx.read(&1, |_k, v| *v), Some(10));
    assert_eq!(idx.read(&2, |_k, v| *v), None);
}

#[test]
fn duplicate_insert_fails_and_returns_pair() {
    let mut idx = new_index(64);
    assert!(idx.insert(1, 0).is_ok());
    let result = idx.insert(1, 1);
    match result {
        Err((key, value)) => {
            assert_eq!(key, 1);
            assert_eq!(value, 1);
        }
        Ok(()) => panic!("duplicate insert must fail"),
    }
    // The first value is still the stored one.
    assert_eq!(idx.read(&1, |_k, v| *v), Some(0));
}

#[test]
fn remove_then_absent() {
    let mut idx = new_index(64);
    assert!(idx.insert(7, 70).is_ok());
    assert!(idx.remove(&7));
    assert_eq!(idx.read(&7, |_k, v| *v), None);
    assert!(!idx.remove(&7));
    // Reinsertion works after removal.
    assert!(idx.insert(7, 71).is_ok());
    assert_eq!(idx.read(&7, |_k, v| *v), Some(71));
}

#[test]
fn insert_remove_cycle_leaves_no_residue() {
    let mut idx = new_index(64);
    for _ in 0..1000 {
        assert!(idx.insert(42, 1).is_ok());
        assert!(idx.remove(&42));
    }
    assert_eq!(idx.read(&42, |_k, v| *v), None);
    assert_eq!(idx.len(|n| n), 0);
}

#[test]
fn grows_under_load_and_keeps_every_key() {
    let mut idx = new_index(64);
    for k in 1..=100000u64 {
        assert!(idx.insert(k, 1).is_ok());
    }
    assert!(idx.capacity() > 64);
    assert!(idx.capacity().is_power_of_two());
    for k in 1..=100000u64 {
        assert_eq!(idx.read(&k, |_k, v| *v), Some(1), "key {} lost", k);
    }
    // Sampling every cell counts exactly.
    assert_eq!(idx.len(|n| n), 100000);
    // The traversal delivers every key exactly once.
    let mut visitor = idx.iter();
    let mut count = 0u64;
    while let Some((k, v)) = visitor.next() {
        assert!((1..=100000).contains(&k));
        assert_eq!(v, 1);
        count += 1;
    }
    assert_eq!(count, 100000);
}

#[test]
fn retain_keeps_even_values() {
    let mut idx = new_index(64);
    for k in 0..100u64 {
        assert!(idx.insert(k, k).is_ok());
    }
    let (remaining, removed) = idx.retain(|_k, v| *v % 2 == 0);
    assert_eq!((remaining, removed), (50, 50));
    let mut visitor = idx.iter();
    let mut seen = Vec::new();
    while let Some((k, v)) = visitor.next() {
        assert_eq!(k, v);
        assert_eq!(v % 2, 0);
        seen.push(k);
    }
    seen.sort();
    seen.dedup();
    assert_eq!(seen.len(), 50);
}

#[test]
fn retain_all_loses_nothing() {
    // Resizes triggered along the way lose nothing and fabricate nothing.
    let mut idx = new_index(64);
    for k in 0..3000u64 {
        assert!(idx.insert(k, k + 7).is_ok());
    }
    let (remaining, removed) = idx.retain(|_k, _v| true);
    assert_eq!((remaining, removed), (3000, 0));
    for k in 0..3000u64 {
        assert_eq!(idx.read(&k, |_k, v| *v), Some(k + 7));
    }
}

#[test]
fn clear_empties_the_index() {
    let mut idx = new_index(64);
    for k in 0..500u64 {
        assert!(idx.insert(k, k + 1).is_ok());
    }
    assert_eq!(idx.clear(), 500);
    assert_eq!(idx.len(|n| n), 0);
    assert_eq!(idx.read(&3, |_k, v| *v), None);
}

#[test]
fn capacity_floor_and_rounding() {
    let idx = new_index(0);
    assert_eq!(idx.capacity(), DEFAULT_CAPACITY);
    let idx2 = new_index(100);
    assert_eq!(idx2.capacity(), 128);
    let idx3 = new_index(1 << 20);
    assert_eq!(idx3.capacity(), 1 << 20);
}

#[test]
fn default_index_works() {
    let mut idx: HashIndex<u64, u32, _> = Default::default();
    assert_eq!(idx.capacity(), 64);
    assert!(idx.insert(5, 50).is_ok());
    assert_eq!(idx.read(&5, |_k, v| *v), Some(50));
    let _ = idx.hasher();
}

#[test]
fn next_capacity_exact_values() {
    // Marginal overflow doubles: estimate 56 is exactly 7/8 of 64.
    assert_eq!(next_capacity(64, 56, 64), 128);
    // Large overflow jumps to twice the next power of two over the estimate.
    assert_eq!(next_capacity(1024, 2000, 64), 4096);
    // Low load shrinks to fit, never below the minimum.
    assert_eq!(next_capacity(1024, 100, 64), 128);
    assert_eq!(next_capacity(1024, 2, 64), 64);
    // Moderate load leaves the capacity alone.
    assert_eq!(next_capacity(1024, 500, 64), 1024);
}

#[test]
fn next_pow2_values() {
    assert_eq!(next_pow2(0), 1);
    assert_eq!(next_pow2(1), 1);
    assert_eq!(next_pow2(2), 2);
    assert_eq!(next_pow2(3), 4);
    assert_eq!(next_pow2(1000), 1024);
    assert_eq!(next_pow2(1024), 1024);
}

#[test]
fn partial_hash_is_low_byte_of_full_hash() {
    for h in [0u64, 1, 0xdead_beef, u64::MAX] {
        let (full, partial) = bit_mix(h);
        assert_eq!(partial as u64, full & 0xff);
    }
    // The mix is deterministic.
    assert_eq!(bit_mix(12345).0, bit_mix(12345).0);
}

#[test]
fn visitor_on_empty_index() {
    let idx = new_index(64);
    let mut visitor = idx.iter();
    assert!(visitor.next().is_none());
}

#[test]
fn usize_and_u32_keys() {
    let mut idx: HashIndex<usize, bool, DefaultHashBuilder> =
        HashIndex::new(64, DefaultHashBuilder::new());
    assert!(idx.insert(3usize, true).is_ok());
    assert_eq!(idx.read(&3usize, |_k, v| *v), Some(true));
    let mut idx2: HashIndex<u32, u32, DefaultHashBuilder> =
        HashIndex::new(64, DefaultHashBuilder::new());
    assert!(idx2.insert(9u32, 90).is_ok());
    assert!(idx2.remove(&9u32));
}
