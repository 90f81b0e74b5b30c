use bloom_filter::hashing::{hash_with_seed, probe_at};
use bloom_filter::HashIter;
use std::collections::hash_map::DefaultHasher;
use std::hash::Hasher;

fn collect(mut it: HashIter) -> Vec<u64> {
    let mut values = Vec::new();
    while let Some(h) = it.next() {
        values.push(h);
    }
    values
}

#[test]
fn probe_sequence_adds_the_second_hash_each_time() {
    assert_eq!(collect(HashIter::from_hashes(3, 5, 4)), vec![3, 8, 13, 18]);
    assert_eq!(collect(HashIter::from_hashes(7, 0, 3)), vec![7, 7, 7]);
}

#[test]
fn probe_sequence_has_exactly_the_wanted_length() {
    assert_eq!(collect(HashIter::from_hashes(1, 1, 0)).len(), 0);
    assert_eq!(collect(HashIter::from_hashes(1, 1, 2)).len(), 2);
    assert_eq!(collect(HashIter::from_hashes(1, 1, 200)).len(), 200);
    assert_eq!(collect(HashIter::new(b"value", 7, 1, 2)).len(), 7);
}

#[test]
fn used_up_sequence_stays_used_up() {
    let mut it = HashIter::from_hashes(3, 5, 1);
    assert_eq!(it.next(), Some(3));
    assert_eq!(it.next(), None);
    assert_eq!(it.next(), None);
}

#[test]
fn addition_wraps() {
    assert_eq!(collect(HashIter::from_hashes(u64::MAX, 2, 3)), vec![u64::MAX, 1, 3]);
    assert_eq!(probe_at(u64::MAX, 1, 1), 0);
}

#[test]
fn multiplication_wraps() {
    let half = 1u64 << 63;
    // 2 * 2^63 = 2^64 = 0 modulo 2^64.
    assert_eq!(collect(HashIter::from_hashes(9, half, 4)), vec![9, 9 + half, 9, 9 + half]);
    // 3 * (2^64 - 1) = -3 modulo 2^64.
    assert_eq!(probe_at(10, u64::MAX, 3), 7);
    assert_eq!(probe_at(0, u64::MAX, u32::MAX), u64::MAX - (u32::MAX as u64) + 1);
}

#[test]
fn probe_at_matches_modular_arithmetic() {
    let cases = [
        (0u64, 0u64, 0u32),
        (1, 2, 3),
        (0xdead_beef_dead_beef, 0x1234_5678_9abc_def0, 199),
        (u64::MAX, u64::MAX, u32::MAX),
    ];
    for (h1, h2, i) in cases {
        let wide = (h1 as u128 + (i as u128) * (h2 as u128)) % (1u128 << 64);
        assert_eq!(probe_at(h1, h2, i), wide as u64);
    }
}

#[test]
fn sequences_of_one_value_are_equal_and_independent() {
    let mut first = HashIter::new(b"value", 3, 11, 22);
    let a = first.next();
    // A second sequence starts at the beginning, wherever the first one is.
    let second = HashIter::new(b"value", 3, 11, 22);
    let rest = collect(first);
    let all = collect(second);
    assert_eq!(all.len(), 3);
    assert_eq!(Some(all[0]), a);
    assert_eq!(&all[1..], &rest[..]);
}

#[test]
fn base_hashes_come_from_the_default_hasher() {
    let mut hasher = DefaultHasher::new();
    hasher.write(&77u64.to_le_bytes());
    hasher.write(b"value");
    let expected = hasher.finish();
    assert_eq!(hash_with_seed(77, b"value"), expected);

    let h1 = hash_with_seed(11, b"value");
    let h2 = hash_with_seed(22, b"value");
    assert_eq!(
        collect(HashIter::new(b"value", 3, 11, 22)),
        vec![h1, h1.wrapping_add(h2), h1.wrapping_add(h2.wrapping_mul(2))]
    );
}

#[test]
fn seed_and_value_both_enter_the_hash() {
    assert_ne!(hash_with_seed(1, b"value"), hash_with_seed(2, b"value"));
    assert_ne!(hash_with_seed(1, b"value"), hash_with_seed(1, b"other"));
    assert_eq!(hash_with_seed(1, b"value"), hash_with_seed(1, b"value"));
}
