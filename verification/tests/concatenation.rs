use euler::solutions::p751_concatenation::{
    fixed_point, generate, mul, p751, push_decimal, same_text, step, Fixed, LENGTH, SCALE,
};

#[test]
fn test_p751() {
    assert_eq!(p751(), Some("2.223561019313554106173177".to_string()));
}

#[test]
fn parse_pads_the_places_with_zeros() {
    assert_eq!(Fixed::parse(2, b"5").map(|f| f.z), Some(2_500_000_000_000_000_000_000_000_000_000));
    assert_eq!(Fixed::parse(2, b"").map(|f| f.z), Some(2 * SCALE));
    assert_eq!(Fixed::parse(0, b"000000000000000000000000000001").map(|f| f.z), Some(1));
    assert_eq!(
        Fixed::parse(7, b"123456789012345678901234567890").map(|f| f.z),
        Some(7_123_456_789_012_345_678_901_234_567_890)
    );
}

#[test]
fn parse_refuses_what_is_no_number() {
    assert!(Fixed::parse(2, b"1234567890123456789012345678901").is_none());
    assert!(Fixed::parse(2, b"12a").is_none());
    assert!(Fixed::parse(2, b"+12").is_none());
    assert!(Fixed::parse(2, b"1.2").is_none());
}

#[test]
fn parse_refuses_what_does_not_fit() {
    assert_eq!(
        Fixed::parse(340_282_366, b"920938463463374607431768211455").map(|f| f.z),
        Some(u128::MAX)
    );
    assert!(Fixed::parse(340_282_366, b"920938463463374607431768211456").is_none());
    assert!(Fixed::parse(340_282_367, b"").is_none());
    assert!(Fixed::parse(u64::MAX, b"0").is_none());
}

#[test]
fn the_parts_of_a_number() {
    let b = Fixed::parse(12, b"75").unwrap();
    assert_eq!(b.whole(), 12);
    assert_eq!(b.floor().z, 12 * SCALE);
    assert_eq!(b.replace_int_with_one().z, SCALE + 3 * SCALE / 4);
    let small = Fixed { z: 5 };
    assert_eq!(small.whole(), 0);
    assert_eq!(small.floor().z, 0);
    assert_eq!(small.replace_int_with_one().z, SCALE + 5);
    assert_eq!(Fixed { z: u128::MAX }.whole(), 340_282_366);
}

#[test]
fn mul_rounds_down_to_thirty_places() {
    let x = Fixed::parse(2, b"5").unwrap();
    let y = Fixed::parse(1, b"5").unwrap();
    assert_eq!(mul(x, y).map(|f| f.z), Some(3 * SCALE + 3 * SCALE / 4));
    let tiny = Fixed { z: 1 };
    let half = Fixed { z: SCALE / 2 };
    assert_eq!(mul(tiny, half).map(|f| f.z), Some(0));
    let third = Fixed::parse(0, b"333333333333333333333333333333").unwrap();
    let three = Fixed::parse(3, b"").unwrap();
    assert_eq!(mul(third, three).map(|f| f.z), Some(SCALE - 1));
}

#[test]
fn mul_goes_beyond_a_u128_on_the_way() {
    let x = Fixed { z: u128::MAX };
    let one = Fixed { z: SCALE };
    assert_eq!(mul(x, one).map(|f| f.z), Some(u128::MAX));
    let big = Fixed::parse(1_000_000, b"").unwrap();
    let other = Fixed::parse(300, b"5").unwrap();
    assert_eq!(mul(big, other).map(|f| f.z), Some(300_500_000 * SCALE));
}

#[test]
fn mul_gives_none_where_the_product_does_not_fit() {
    let x = Fixed { z: u128::MAX };
    let y = Fixed { z: SCALE + 1 };
    assert!(mul(x, y).is_none());
    let big = Fixed::parse(100_000, b"").unwrap();
    let other = Fixed::parse(100_000, b"").unwrap();
    assert!(mul(big, other).is_none());
}

#[test]
fn step_multiplies_the_floor_by_one_and_the_rest() {
    let b = Fixed::parse(2, b"5").unwrap();
    assert_eq!(step(b).map(|f| f.z), Some(3 * SCALE));
    let b = Fixed::parse(3, b"").unwrap();
    assert_eq!(step(b).map(|f| f.z), Some(3 * SCALE));
    let b = Fixed { z: SCALE / 2 };
    assert_eq!(step(b).map(|f| f.z), Some(0));
}

#[test]
fn push_decimal_writes_behind_what_is_there() {
    let mut out = b"2.".to_vec();
    push_decimal(0, &mut out);
    push_decimal(7, &mut out);
    push_decimal(10, &mut out);
    push_decimal(u64::MAX, &mut out);
    assert_eq!(out, b"2.071018446744073709551615".to_vec());
}

#[test]
fn same_text_compares_byte_by_byte() {
    assert!(same_text(b"2.2", b"2.2"));
    assert!(!same_text(b"2.2", b"2.3"));
    assert!(!same_text(b"2.2", b"2.22"));
    assert!(same_text(b"", b""));
}

#[test]
fn generate_writes_the_integer_parts() {
    assert_eq!(generate(b"2.2"), Some(b"2.223478111315242424242424".to_vec()));
    assert_eq!(generate(b"2."), Some(b"2.222222222222222222222222".to_vec()));
    assert_eq!(generate(b"2.956938891377988"), Some(b"2.3581321345589144233377603".to_vec()));
    assert_eq!(
        generate(b"2.999999999999999999999999999999"),
        Some(b"2.35917336512925751310252049".to_vec())
    );
}

#[test]
fn generate_may_go_beyond_the_length() {
    assert_eq!(generate(b"2.2").map(|t| t.len()), Some(LENGTH));
    assert_eq!(generate(b"2.956938891377988").map(|t| t.len()), Some(LENGTH + 1));
}

#[test]
fn generate_refuses_other_starts() {
    assert!(generate(b"").is_none());
    assert!(generate(b"2").is_none());
    assert!(generate(b"3.2").is_none());
    assert!(generate(b"22.2").is_none());
    assert!(generate(b"2.2.2").is_none());
    assert!(generate(b"2.1234567890123456789012345678901").is_none());
}

#[test]
fn the_answer_gives_itself() {
    let answer = b"2.223561019313554106173177";
    assert_eq!(generate(answer), Some(answer.to_vec()));
    assert_eq!(fixed_point(answer, 1), Some(answer.to_vec()));
}

#[test]
fn fixed_point_needs_its_rounds() {
    assert_eq!(fixed_point(b"2.2", 5), Some(b"2.223561019313554106173177".to_vec()));
    assert_eq!(fixed_point(b"2.2", 4), None);
    assert_eq!(fixed_point(b"2.2", 0), None);
    assert_eq!(fixed_point(b"3.2", 10), None);
}
