use datagen::math::{
    divisor_sum, is_pal_string, is_pal_u64, is_pandigital, is_pandigital_u64,
    is_pandigital_u64_default, is_perm, count_digits, power_of_ten,
};

#[test]
fn test_is_perm() {
    assert_eq!(is_perm(1, 2), false);
    assert_eq!(is_perm(23, 32), true);
    assert_eq!(is_perm(12345, 54123), true);
    assert_eq!(is_perm(1222, 2221), true);
    assert_eq!(is_perm(222, 222), true);
    assert_eq!(is_perm(222, 2222), false);
}

#[test]
fn test_is_pal_u64() {
    assert_eq!(is_pal_u64(0), true);
    assert_eq!(is_pal_u64(121), true);
    assert_eq!(is_pal_u64(1231), false);
    assert_eq!(is_pal_u64(777), true);
    assert_eq!(is_pal_u64(1), true);
    assert_eq!(is_pal_u64(100001), true);
    assert_eq!(is_pal_u64(1221), true);
    assert_eq!(is_pal_u64(134), false);
}

#[test]
fn test_is_pal_string_empty() {
    assert!(is_pal_string("".to_string()));
}

#[test]
fn test_is_pal_string_ascii() {
    assert!(is_pal_string("a".to_string()));
    assert!(is_pal_string("aa".to_string()));
    assert!(is_pal_string("aba".to_string()));
    assert!(is_pal_string("abba".to_string()));
    assert!(!is_pal_string("abc".to_string()));
}

#[test]
fn test_is_pal_string_unicode() {
    assert!(is_pal_string("中".to_string()));
    assert!(is_pal_string("中中".to_string()));
    assert!(is_pal_string("a中a".to_string()));
    assert!(is_pal_string("ab中ba".to_string()));
    assert!(!is_pal_string("a中b".to_string()));
}

#[test]
fn test_s9_valid() {
    assert!(is_pandigital("123456789", 9));
}

#[test]
fn test_s9_invalid() {
    assert!(!is_pandigital("123456788", 9));
    assert!(!is_pandigital("12345678", 9));
    assert!(!is_pandigital("012345678", 9));
}

#[test]
fn test_s10_valid() {
    assert!(is_pandigital("0123456789", 10));
    assert!(is_pandigital("1023456789", 10));
}

#[test]
fn test_s10_invalid() {
    assert!(!is_pandigital("1123456789", 10));
    assert!(!is_pandigital("123456789", 10));
}

#[test]
fn test_edge_cases() {
    assert!(is_pandigital("", 0));
    assert!(!is_pandigital("1", 0));
    assert!(!is_pandigital("123", 11));
}

#[test]
fn test_u64_s9_valid() {
    assert!(is_pandigital_u64(123456789, 9));
    assert!(is_pandigital_u64(918273645, 9));
    assert!(is_pandigital_u64_default(123456789));
}

#[test]
fn test_u64_s9_invalid() {
    assert!(!is_pandigital_u64(123456788, 9));
    assert!(!is_pandigital_u64(12345678, 9));
    assert!(!is_pandigital_u64(102345678, 9));
    assert!(!is_pandigital_u64_default(0));
}

#[test]
fn test_u64_s10_valid() {
    assert!(is_pandigital_u64(1023456789, 10));
    assert!(is_pandigital_u64(9081726354, 10));
}

#[test]
fn test_u64_s10_invalid() {
    assert!(!is_pandigital_u64(1123456789, 10));
    assert!(!is_pandigital_u64(123456789, 10));
    assert!(!is_pandigital_u64(12345678900, 10));
}

#[test]
fn test_u64_edge_cases() {
    assert!(!is_pandigital_u64(0, 0));
    assert!(!is_pandigital_u64(0, 1));
    assert!(!is_pandigital_u64(1, 11));
    assert!(is_pandigital_u64(1, 1));
    assert!(!is_pandigital_u64(10, 2));
    assert!(!is_pandigital_u64(10, 2));
}

#[test]
fn test_divisor_sum_zero() {
    assert_eq!(divisor_sum(0), 0);
}

#[test]
fn test_divisor_sum_one() {
    assert_eq!(divisor_sum(1), 1);
}

#[test]
fn test_divisor_sum_prime() {
    assert_eq!(divisor_sum(5), 6);
}

#[test]
fn test_divisor_sum_perfect_square() {
    assert_eq!(divisor_sum(16), 31);
}

#[test]
fn test_divisor_sum_non_square() {
    assert_eq!(divisor_sum(12), 28);
}

#[test]
fn test_divisor_sum_large_number() {
    assert_eq!(divisor_sum(100), 217);
}

#[test]
fn divisor_sum_of_a_large_prime_square() {
    // 4294967291 is the largest prime below 2^32.
    let p: u64 = 4294967291;
    assert_eq!(divisor_sum(p * p), 1 + p + p * p);
}

#[test]
fn divisor_sum_of_a_perfect_number() {
    assert_eq!(divisor_sum(8128), 2 * 8128);
}

#[test]
fn is_perm_takes_zero_for_a_number_without_digits() {
    assert!(is_perm(0, 0));
    assert!(!is_perm(0, 7));
    assert!(!is_perm(7, 0));
    assert!(!is_perm(10, 1));
    assert!(is_perm(100, 10_0));
}

#[test]
fn is_perm_tells_long_numbers_apart() {
    assert!(is_perm(u64::MAX, u64::MAX));
    assert!(is_perm(9_999_999_999_999_999, 9_999_999_999_999_999));
    assert!(!is_perm(99_999_999_999_999_999, 9_999_999_999_999_999));
    assert!(!is_perm(100_000_000_000_000_001, 99_999_999_999_999_999));
}

#[test]
fn count_digits_counts_each_digit() {
    assert_eq!(count_digits(0), [0; 10]);
    assert_eq!(count_digits(1_223_334_444), [0, 1, 2, 3, 4, 0, 0, 0, 0, 0]);
    assert_eq!(count_digits(9_000), [3, 0, 0, 0, 0, 0, 0, 0, 0, 1]);
}

#[test]
fn is_pal_u64_rejects_trailing_zeros() {
    assert!(!is_pal_u64(10));
    assert!(!is_pal_u64(1210));
    assert!(is_pal_u64(1_234_554_321));
    assert!(!is_pal_u64(u64::MAX));
    assert!(is_pal_u64(9_999_999_999_999_999_999));
}

#[test]
fn power_of_ten_gives_the_powers() {
    assert_eq!(power_of_ten(0), 1);
    assert_eq!(power_of_ten(3), 1_000);
    assert_eq!(power_of_ten(10), 10_000_000_000);
}

#[test]
fn is_pandigital_wants_the_digits_of_its_size() {
    assert!(is_pandigital("1", 1));
    assert!(!is_pandigital("0", 1));
    assert!(!is_pandigital("2", 1));
    assert!(is_pandigital("4213", 4));
    assert!(!is_pandigital("4215", 4));
    assert!(!is_pandigital("42a3", 4));
    assert!(!is_pandigital("中1", 4));
    assert!(!is_pandigital("12345678901", 11));
}

#[test]
fn is_pandigital_u64_wants_the_digits_of_its_size() {
    assert!(is_pandigital_u64(4213, 4));
    assert!(!is_pandigital_u64(4215, 4));
    assert!(!is_pandigital_u64(4013, 4));
    assert!(!is_pandigital_u64(4413, 4));
    assert!(!is_pandigital_u64(u64::MAX, 10));
    assert!(is_pandigital_u64_default(987654321));
    assert!(!is_pandigital_u64_default(987654320));
    assert!(!is_pandigital_u64_default(1023456789));
}
