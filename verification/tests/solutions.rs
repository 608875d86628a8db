use euler::isqrt;
use euler::solutions::p008_series_product::{digit_product, read_digits};
use euler::solutions::p097_non_mersenne::{binary_exp, mul, p097};
use euler::solutions::p206_concealed_square::{is_solution, p206};
use euler::solutions::p719_number_splitting::{is_splittable, p719};
use euler::solutions::{p015, p1, p10, p15, p2, p3, p4, p5, p6, p7, p8, p9};

#[test]
fn test_p1() {
    assert_eq!(p1(), 233168);
}

#[test]
fn test_p2() {
    assert_eq!(p2(), 4613732);
}

#[test]
fn test_p3() {
    assert_eq!(p3(), 6857);
}

#[test]
fn test_p4() {
    assert_eq!(p4(), 906609);
}

#[test]
fn test_p5() {
    assert_eq!(p5(), 232792560);
}

#[test]
fn test_p6() {
    assert_eq!(p6(), 25164150);
}

#[test]
fn test_p7() {
    assert_eq!(p7(), 104743);
}

#[test]
fn test_p8_small_texts() {
    assert_eq!(p8("1111111111111"), 1);
    assert_eq!(p8("9999999999999"), 2541865828329);
    assert_eq!(p8("12345678912345"), 1 * 2 * 3 * 4 * 5 * 6 * 7 * 8 * 9 * 1 * 2 * 3 * 4 * 5 / 1);
    assert_eq!(p8("1234567891234\n05"), 0 + 1 * 2 * 3 * 4 * 5 * 6 * 7 * 8 * 9 * 1 * 2 * 3 * 4);
    assert_eq!(p8("00000000000001234567891234"), 1 * 2 * 3 * 4 * 5 * 6 * 7 * 8 * 9 * 1 * 2 * 3 * 4);
    assert_eq!(p8("73167 17653 13306\r\n24919 22511 96744"), {
        let ds: Vec<u64> = "731671765313306249192251196744".bytes().map(|b| (b - b'0') as u64).collect();
        ds.windows(13).map(|w| w.iter().product::<u64>()).max().unwrap()
    });
}

#[test]
fn test_read_digits() {
    assert_eq!(read_digits(""), Vec::<u64>::new());
    assert_eq!(read_digits("a1b2\n3 "), vec![1, 2, 3]);
    assert_eq!(read_digits("0x9/:"), vec![0, 9]);
    assert_eq!(digit_product(&[]), 1);
    assert_eq!(digit_product(&[2, 3, 7]), 42);
    assert_eq!(digit_product(&[9; 20]), 12157665459056928801);
}

#[test]
fn test_p9() {
    assert_eq!(p9(), 31875000);
}

#[test]
fn test_p10() {
    assert_eq!(p10(), 142913828922);
}

#[test]
fn test_p15() {
    assert_eq!(p15(), 137846528820);
    assert_eq!(p015(), 137846528820);
}

#[test]
fn test_p097() {
    assert_eq!(p097(), 8739992577);
    assert_eq!(binary_exp(2, 10), 1024);
    assert_eq!(binary_exp(2, 1), 2);
    assert_eq!(binary_exp(2, 0), 2);
    assert_eq!(binary_exp(7, 2), 49);
    assert_eq!(binary_exp(10, 10), 0);
    assert_eq!(binary_exp(3, 40), 12157665459056928801u128.rem_euclid(10_000_000_000) as u64);
    assert_eq!(mul(99_999, 100_001), 9_999_999_999);
    assert_eq!(mul(100_000, 100_000), 0);
    assert_eq!(mul(u64::MAX, u64::MAX), ((u64::MAX as u128 * u64::MAX as u128) % 10_000_000_000) as u64);
}

#[test]
fn test_p206() {
    assert_eq!(p206(), 1389019170);
    assert!(is_solution(1929374254627488900));
    assert!(is_solution(1020304050607080900));
    assert!(is_solution(1929394959697989990));
    assert!(!is_solution(1929374254627478900));
    assert!(!is_solution(2929374254627488900));
    assert!(!is_solution(0));
}

#[test]
fn test_isqrt() {
    assert_eq!(isqrt(0), 0);
    assert_eq!(isqrt(1), 1);
    assert_eq!(isqrt(15), 3);
    assert_eq!(isqrt(16), 4);
    assert_eq!(isqrt(17), 4);
    assert_eq!(isqrt(102030405060708), 10101010);
    assert_eq!(isqrt(u64::MAX), 4294967295);
}

#[test]
fn test_is_splittable() {
    assert!(is_splittable(9, 81));
    assert!(is_splittable(82, 6724));
    assert!(is_splittable(91, 8281));
    assert!(is_splittable(99, 9801));
    assert!(is_splittable(5, 5));
    assert!(is_splittable(10, 100));
    assert!(!is_splittable(11, 121));
    assert!(!is_splittable(8, 64));
    assert!(!is_splittable(7, 3));
    assert!(is_splittable(1, 1));
    assert!(!is_splittable(1, 100));
    assert!(!is_splittable(1, 10));
    assert!(is_splittable(2, 11));
}

#[test]
fn test_p719() {
    assert_eq!(p719(), 128088830547982);
}
