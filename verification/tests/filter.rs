use bloom_filter::{BloomFilter, ConfigError, Rate};

const SEED_ONE: u64 = 0x0123_4567_89ab_cdef;
const SEED_TWO: u64 = 0xfedc_ba98_7654_3210;

fn bytes_of(value: i32) -> [u8; 4] {
    value.to_le_bytes()
}

fn filter(num: u64, den: u64, items: u32) -> BloomFilter {
    BloomFilter::new(Rate::new(num, den).unwrap(), items, SEED_ONE, SEED_TWO).unwrap()
}

#[test]
fn simple() {
    let mut filter = filter(1, 100, 100);
    filter.insert(&bytes_of(10));
    assert!(filter.contains(&bytes_of(10)));
    assert!(!filter.contains(&bytes_of(20)));
    filter.clear();

    assert!(!filter.contains(&bytes_of(10)));
}

#[test]
fn it_works() {
    let mut filter = filter(1, 100, 100);
    filter.insert(&bytes_of(10));
    println!("{}", filter.contains(&bytes_of(10)));
    println!("{}", filter.contains(&bytes_of(20)));
}

#[test]
fn new_filter_is_sized_by_the_estimators_and_empty() {
    let filter = filter(1, 100, 100);
    assert_eq!(filter.num_bits(), 959);
    assert_eq!(filter.num_hash_fn(), 7);
    for value in 0..1000 {
        assert!(!filter.contains(&bytes_of(value)));
    }
}

#[test]
fn new_refuses_a_filter_for_no_items() {
    let rate = Rate::new(1, 100).unwrap();
    let refused = BloomFilter::new(rate, 0, SEED_ONE, SEED_TWO);
    assert_eq!(refused.err(), Some(ConfigError::NoExpectedItems));
}

#[test]
fn smallest_filter_has_one_bit_and_two_probes() {
    let mut filter = filter(9, 10, 1);
    assert_eq!(filter.num_bits(), 1);
    assert_eq!(filter.num_hash_fn(), 2);
    assert!(!filter.contains(b"a"));
    filter.insert(b"a");
    assert!(filter.contains(b"a"));
    // The single bit is set, so every value is now reported.
    assert!(filter.contains(b"b"));
}

#[test]
fn inserted_values_are_always_found() {
    let mut filter = filter(1, 100, 500);
    for value in 0..500 {
        filter.insert(&bytes_of(value));
        assert!(filter.contains(&bytes_of(value)));
    }
    for value in 0..500 {
        assert!(filter.contains(&bytes_of(value)));
    }
    // Going over the expected number of items costs precision, never a value.
    for value in 500..5000 {
        filter.insert(&bytes_of(value));
    }
    for value in 0..5000 {
        assert!(filter.contains(&bytes_of(value)));
    }
}

#[test]
fn second_insert_changes_no_answer() {
    let mut once = filter(1, 20, 50);
    let mut twice = filter(1, 20, 50);
    for value in 0..50 {
        once.insert(&bytes_of(value));
        twice.insert(&bytes_of(value));
        twice.insert(&bytes_of(value));
    }
    for query in -2000..2000 {
        assert_eq!(once.contains(&bytes_of(query)), twice.contains(&bytes_of(query)));
    }
}

#[test]
fn clear_forgets_every_value_and_keeps_the_shape() {
    let mut filter = filter(1, 100, 100);
    for value in 0..100 {
        filter.insert(&bytes_of(value));
    }
    let bits = filter.num_bits();
    let probes = filter.num_hash_fn();
    filter.clear();
    assert_eq!(filter.num_bits(), bits);
    assert_eq!(filter.num_hash_fn(), probes);
    for value in -1000..1000 {
        assert!(!filter.contains(&bytes_of(value)));
    }
    filter.insert(&bytes_of(7));
    assert!(filter.contains(&bytes_of(7)));
}

#[test]
fn insert_keeps_the_shape() {
    let mut filter = filter(1, 100, 100);
    filter.insert(b"value");
    assert_eq!(filter.num_bits(), 959);
    assert_eq!(filter.num_hash_fn(), 7);
}

#[test]
fn false_positives_stay_near_the_wanted_rate() {
    let mut filter = filter(1, 100, 1000);
    for value in 0..1000 {
        filter.insert(&bytes_of(value));
    }
    let unseen = 100_000;
    let mut reported = 0;
    for value in 1000..1000 + unseen {
        if filter.contains(&bytes_of(value)) {
            reported += 1;
        }
    }
    // Wanted: 1 in 100. Twice that is the tolerance.
    assert!(reported * 50 <= unseen, "{} of {} unseen values reported", reported, unseen);
}

#[test]
fn hashes_select_bits_modulo_the_length() {
    // 14 bits and 2 probes.
    let mut filter = filter(1, 2, 10);
    assert_eq!(filter.num_bits(), 14);
    assert_eq!(filter.num_hash_fn(), 2);
    assert!(!filter.contains_hashes(3, 5));
    // Sets bit 3 and bit 8.
    filter.insert_hashes(3, 5);
    assert!(filter.contains_hashes(3, 5));
    // 17 and 22 select the same two bits: a false positive.
    assert!(filter.contains_hashes(17, 5));
    // 8 and 3 (from 8 + 9 = 17).
    assert!(filter.contains_hashes(8, 9));
    // Bit 3 is set, bit 4 is not.
    assert!(!filter.contains_hashes(3, 1));
    // Bit 4 is not set, the search stops there.
    assert!(!filter.contains_hashes(4, 4));
    // Bit 8 twice.
    assert!(filter.contains_hashes(8, 14));
    filter.clear();
    assert!(!filter.contains_hashes(3, 5));
    assert!(!filter.contains_hashes(8, 14));
}

#[test]
fn probes_wrap_before_they_are_reduced() {
    // 14 bits and 2 probes: the second probe is u64::MAX + 2 = 1 modulo 2^64.
    let mut filter = filter(1, 2, 10);
    filter.insert_hashes(u64::MAX, 2);
    // u64::MAX = 18446744073709551615 = 14 * 1317624576693539401 + 1.
    assert!(filter.contains_hashes(1, 0));
    assert!(filter.contains_hashes(1, 14));
    assert!(!filter.contains_hashes(1, 1));
    assert!(!filter.contains_hashes(0, 1));
}

#[test]
fn seeds_decide_which_bits_a_value_sets() {
    let rate = Rate::new(1, 100).unwrap();
    let mut first = BloomFilter::new(rate, 1000, 1, 2).unwrap();
    let mut same = BloomFilter::new(rate, 1000, 1, 2).unwrap();
    let mut other = BloomFilter::new(rate, 1000, 3, 4).unwrap();
    for value in 0..1000 {
        first.insert(&bytes_of(value));
        same.insert(&bytes_of(value));
        other.insert(&bytes_of(value));
    }
    let mut differs = false;
    for query in 1000..50_000 {
        let q = bytes_of(query);
        // Equal seeds: equal answers, false positives included.
        assert_eq!(first.contains(&q), same.contains(&q));
        if first.contains(&q) != other.contains(&q) {
            differs = true;
        }
    }
    // Other seeds: other false positives.
    assert!(differs);
    for value in 0..1000 {
        assert!(other.contains(&bytes_of(value)));
    }
}
