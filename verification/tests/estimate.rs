use bloom_filter::{estimate_bits, estimate_hash, ConfigError, Rate};

fn rate(num: u64, den: u64) -> Rate {
    Rate::new(num, den).unwrap()
}

/// The sizing formula in floating point.
fn closed_form_bits(num: u64, den: u64, items: u32) -> f64 {
    let f = num as f64 / den as f64;
    let ln2 = std::f64::consts::LN_2;
    items as f64 * (1.0 / f).ln() / (ln2 * ln2)
}

fn closed_form_hash(no_bits: usize, items: u32) -> f64 {
    no_bits as f64 / items as f64 * std::f64::consts::LN_2
}

#[test]
fn bits_for_one_in_a_hundred_and_a_hundred_items() {
    assert_eq!(estimate_bits(rate(1, 100), 100), 959);
    assert_eq!(closed_form_bits(1, 100, 100).round(), 959.0);
}

#[test]
fn probes_for_959_bits_and_a_hundred_items() {
    assert_eq!(estimate_hash(959, 100), 7);
    assert_eq!(closed_form_hash(959, 100).round(), 7.0);
}

#[test]
fn bits_agree_with_the_closed_form() {
    let rates = [
        (1u64, 2u64),
        (1, 3),
        (1, 10),
        (1, 100),
        (1, 1000),
        (1, 1_000_000),
        (3, 4),
        (9, 10),
        (99, 100),
        (5, 1000),
        (1, 1 << 20),
        (1, u64::MAX),
        (u64::MAX - 1, u64::MAX),
        (12345, 67891),
    ];
    let counts = [1u32, 2, 3, 10, 100, 1000, 12345, 1_000_000];
    for (num, den) in rates {
        for items in counts {
            let exact = closed_form_bits(num, den, items);
            let got = estimate_bits(rate(num, den), items) as f64;
            let wanted = exact.round().max(1.0);
            // Both computations are good to some nine decimal places, which
            // can move a value that lies next to a half.
            let off_half = (exact - exact.floor() - 0.5).abs() > 0.01;
            if off_half {
                assert_eq!(got, wanted, "{}/{} and {} items", num, den, items);
            } else {
                assert!((got - wanted).abs() <= 1.0, "{}/{} and {} items", num, den, items);
            }
        }
    }
}

#[test]
fn logarithm_of_a_power_of_two_is_exact() {
    let unit = 1u64 << 32;
    assert_eq!(rate(1, 2).inverse_log2(), unit);
    assert_eq!(rate(1, 4).inverse_log2(), 2 * unit);
    assert_eq!(rate(3, 24).inverse_log2(), 3 * unit);
    assert_eq!(rate(1, 1 << 63).inverse_log2(), 63 * unit);
    assert_eq!(rate(1 << 62, 1 << 63).inverse_log2(), unit);
}

#[test]
fn logarithm_lies_within_two_units_below_the_true_one() {
    let unit = (1u64 << 32) as f64;
    let rates = [
        (1u64, 3u64),
        (1, 10),
        (1, 100),
        (2, 3),
        (9, 10),
        (999, 1000),
        (1, 1_000_000_007),
        (12345, 67891),
        (1, u64::MAX),
        (u64::MAX - 1, u64::MAX),
        (u64::MAX / 3, u64::MAX),
    ];
    for (num, den) in rates {
        let got = rate(num, den).inverse_log2() as f64;
        let exact = (den as f64 / num as f64).log2() * unit;
        // The floating-point value itself is good to a few units here.
        let float_slack = 1.0 + exact * 1e-15 * 8.0;
        assert!(got <= exact + float_slack, "{}/{}: {} above {}", num, den, got, exact);
        assert!(exact < got + 2.0 + float_slack, "{}/{}: {} below {}", num, den, got, exact);
    }
}

#[test]
fn logarithm_of_one_in_a_hundred() {
    // log2(100) = 6.643856189774724..., times 2^32 = 28535145054.4...
    assert_eq!(rate(1, 100).inverse_log2(), 28_535_145_054);
}

#[test]
fn bits_for_powers_of_two_are_exact() {
    // log2(1 / rate) is a whole number: items * k / ln 2.
    assert_eq!(estimate_bits(rate(1, 2), 10), 14);
    assert_eq!(estimate_bits(rate(1, 2), 1), 1);
    assert_eq!(estimate_bits(rate(1, 4), 1000), 2885);
    assert_eq!(estimate_bits(rate(1, 1 << 32), 1_000_000), 46_166_241);
    assert_eq!(estimate_bits(rate(2, 16), 1000), 4328);
}

#[test]
fn bits_depend_on_the_rate_not_on_how_it_is_written() {
    for items in [1u32, 10, 1000] {
        assert_eq!(estimate_bits(rate(1, 100), items), estimate_bits(rate(7, 700), items));
        assert_eq!(estimate_bits(rate(3, 4), items), estimate_bits(rate(300, 400), items));
    }
}

#[test]
fn bits_are_at_least_one_where_items_are_expected() {
    assert_eq!(closed_form_bits(9, 10, 1).round(), 0.0);
    assert_eq!(estimate_bits(rate(9, 10), 1), 1);
    assert_eq!(estimate_bits(rate(u64::MAX - 1, u64::MAX), 1), 1);
    assert_eq!(estimate_bits(rate(u64::MAX - 1, u64::MAX), u32::MAX), 1);
    assert_eq!(estimate_bits(rate(1, 100), 0), 0);
}

#[test]
fn bits_grow_with_the_items() {
    let r = rate(1, 100);
    let mut last = 0;
    for items in 0..5000u32 {
        let bits = estimate_bits(r, items);
        assert!(bits >= last);
        last = bits;
    }
    assert!(estimate_bits(r, u32::MAX) >= estimate_bits(r, u32::MAX - 1));
    assert!(estimate_bits(r, 5000) > estimate_bits(r, 100));
}

#[test]
fn bits_grow_as_the_rate_falls() {
    let mut last = 0;
    for den in 2..3000u64 {
        let bits = estimate_bits(rate(1, den), 1000);
        assert!(bits >= last, "1/{}", den);
        last = bits;
    }
    let mut last = usize::MAX;
    for num in 1..1000u64 {
        let bits = estimate_bits(rate(num, 1000), 1000);
        assert!(bits <= last, "{}/1000", num);
        last = bits;
    }
    assert!(estimate_bits(rate(1, 1000), 1000) > estimate_bits(rate(1, 10), 1000));
}

#[test]
fn largest_request_fits() {
    let bits = estimate_bits(rate(1, u64::MAX), u32::MAX);
    let exact = closed_form_bits(1, u64::MAX, u32::MAX);
    assert!((bits as f64 - exact).abs() <= exact * 1e-6);
}

#[test]
fn probes_agree_with_the_closed_form() {
    for items in [1u32, 2, 3, 7, 10, 100, 1000, 99_999] {
        for no_bits in [0usize, 1, 2, 3, 5, 10, 14, 100, 959, 1000, 9585, 100_000, 10_000_000] {
            let exact = closed_form_hash(no_bits, items);
            let off_half = (exact - exact.floor() - 0.5).abs() > 1e-6;
            if off_half {
                let wanted = exact.round().clamp(2.0, 200.0) as u32;
                assert_eq!(estimate_hash(no_bits, items), wanted, "{} bits, {} items", no_bits, items);
            }
        }
    }
}

#[test]
fn probes_stay_between_2_and_200() {
    assert_eq!(estimate_hash(0, 1), 2);
    assert_eq!(estimate_hash(1, 1), 2);
    assert_eq!(estimate_hash(1, u32::MAX), 2);
    assert_eq!(estimate_hash(3, 1), 2);
    assert_eq!(estimate_hash(4, 1), 3);
    assert_eq!(estimate_hash(287, 1), 199);
    assert_eq!(estimate_hash(288, 1), 200);
    assert_eq!(estimate_hash(289, 1), 200);
    assert_eq!(estimate_hash(usize::MAX, 1), 200);
    assert_eq!(estimate_hash(usize::MAX, u32::MAX), 200);
    for items in 1..200u32 {
        for no_bits in 0..2000usize {
            let k = estimate_hash(no_bits, items);
            assert!((2..=200).contains(&k));
        }
    }
}

#[test]
fn probes_without_expected_items() {
    assert_eq!(estimate_hash(0, 0), 2);
    assert_eq!(estimate_hash(1, 0), 200);
    assert_eq!(estimate_hash(959, 0), 200);
}

#[test]
fn rate_must_lie_strictly_between_0_and_1() {
    assert_eq!(Rate::new(0, 100).err(), Some(ConfigError::InvalidRate));
    assert_eq!(Rate::new(100, 100).err(), Some(ConfigError::InvalidRate));
    assert_eq!(Rate::new(101, 100).err(), Some(ConfigError::InvalidRate));
    assert_eq!(Rate::new(1, 0).err(), Some(ConfigError::InvalidRate));
    assert_eq!(Rate::new(0, 0).err(), Some(ConfigError::InvalidRate));
    let rate = Rate::new(1, 100).unwrap();
    assert_eq!((rate.num(), rate.den()), (1, 100));
    assert!(Rate::new(u64::MAX - 1, u64::MAX).is_ok());
}
