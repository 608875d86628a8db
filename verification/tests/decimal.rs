use euler::decimal::count_decimal_digits;
use euler::{is_palindrome, POWERS_OF_10};

fn is_palindrome_slow(num: i64) -> bool {
    let s1 = num.to_string();
    let rev = s1.chars().rev().collect::<String>();
    s1 == rev
}

#[test]
fn test_is_palindrome() {
    for num in 0..99_999 {
        assert_eq!(is_palindrome(num), is_palindrome_slow(num), "{}", num);
    }
}

#[test]
fn test_count_digits() {
    for i in 0..10 {
        assert_eq!(count_decimal_digits(i), 1, "count_decimal_digits({})", i);
    }
    for i in 10..100 {
        assert_eq!(count_decimal_digits(i), 2, "count_decimal_digits({})", i);
    }
    for i in 100..1000 {
        assert_eq!(count_decimal_digits(i), 3, "count_decimal_digits({})", i);
    }
    for i in 1000..10_000 {
        assert_eq!(count_decimal_digits(i), 4, "count_decimal_digits({})", i);
    }

    assert_eq!(count_decimal_digits(1234567890), 10);
}

#[test]
fn test_palindrome_examples() {
    for n in [9, 99, 999, 909, 101, 111, 121, 1001, 1111, 1221, 12321, 123321, 9223372036302733229] {
        assert!(is_palindrome(n), "{}", n);
    }
    for n in [91, 19, 100, 110, 123, 1000, 1002, 1232, 10_000, 10_110, -1, -11, -10, i64::MAX, i64::MIN] {
        assert!(!is_palindrome(n), "{}", n);
    }
}

#[test]
fn test_count_digits_edges() {
    assert_eq!(count_decimal_digits(0), 1);
    assert_eq!(count_decimal_digits(-5), 0);
    assert_eq!(count_decimal_digits(i64::MIN), 0);
    assert_eq!(count_decimal_digits(i64::MAX), 19);
    assert_eq!(count_decimal_digits(999_999_999_999), 12);
    assert_eq!(count_decimal_digits(1_000_000_000_000), 13);
}

#[test]
fn test_powers_of_10() {
    let mut p: u64 = 1;
    for k in 0..13 {
        assert_eq!(POWERS_OF_10[k], p);
        p *= 10;
    }
}
