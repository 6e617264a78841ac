use nse_scraper::arith::integer_sqrt;

#[test]
fn integer_sqrt_rounds_down() {
    assert_eq!(integer_sqrt(0), 0);
    assert_eq!(integer_sqrt(1), 1);
    assert_eq!(integer_sqrt(2), 1);
    assert_eq!(integer_sqrt(3), 1);
    assert_eq!(integer_sqrt(4), 2);
    assert_eq!(integer_sqrt(8), 2);
    assert_eq!(integer_sqrt(9), 3);
    assert_eq!(integer_sqrt(99), 9);
    assert_eq!(integer_sqrt(100), 10);
    assert_eq!(integer_sqrt(20_000), 141);
    assert_eq!(integer_sqrt(1_000_000_000_000), 1_000_000);
    assert_eq!(integer_sqrt(999_999_999_999), 999_999);
}

#[test]
fn integer_sqrt_of_the_largest_numbers() {
    assert_eq!(integer_sqrt(u128::MAX), u64::MAX);
    assert_eq!(integer_sqrt(u64::MAX as u128 * u64::MAX as u128), u64::MAX);
    assert_eq!(integer_sqrt(u64::MAX as u128 * u64::MAX as u128 - 1), u64::MAX - 1);
    assert_eq!(integer_sqrt(1u128 << 64), 1u64 << 32);
    assert_eq!(integer_sqrt((1u128 << 64) - 1), (1u64 << 32) - 1);
}

#[test]
fn integer_sqrt_brackets_every_small_number() {
    for value in 0u128..100_000 {
        let root = integer_sqrt(value) as u128;
        assert!(root * root <= value && value < (root + 1) * (root + 1), "{}", value);
    }
}
