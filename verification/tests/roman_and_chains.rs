use euler::runner::{check_answer, Rating};
use euler::bounds::square_below;
use euler::bounds::product_below;
use euler::solutions::p013_large_sum::split_lines;
use euler::solutions::p085_rectangles::p085;
use euler::solutions::p087_prime_power_triples::{gen_lists, p087};
use euler::solutions::p089_roman::{
    emit_roman, emit_roman_letters, p089, parse_roman, saving, symbol,
};
use euler::solutions::p092_square_digit_chains::{
    gen_loop_types, loop_type, p092, square_digit_sum,
};

#[test]
fn test_parse_roman() {
    assert_eq!(parse_roman(""), Some(0));
    assert_eq!(parse_roman("I"), Some(1));
    assert_eq!(parse_roman("IIII"), Some(4));
    assert_eq!(parse_roman("IV"), Some(4));
    assert_eq!(parse_roman("XIX"), Some(19));
    assert_eq!(parse_roman("XVIIII"), Some(19));
    assert_eq!(parse_roman("MCMXCIV"), Some(1994));
    assert_eq!(parse_roman("MMMMDCLXXII"), Some(4672));
    assert_eq!(parse_roman("MCCCCCCVI"), Some(1606));
    assert_eq!(parse_roman("IM"), Some(1001));
    assert_eq!(parse_roman("A"), None);
    assert_eq!(parse_roman("XIIA"), None);
    assert_eq!(parse_roman("x"), None);
    assert_eq!(parse_roman(&"M".repeat(65)), Some(65000));
    assert_eq!(parse_roman(&"M".repeat(66)), None);
}

#[test]
fn test_emit_roman() {
    assert_eq!(emit_roman(0), "");
    assert_eq!(emit_roman(1), "I");
    assert_eq!(emit_roman(4), "IV");
    assert_eq!(emit_roman(9), "IX");
    assert_eq!(emit_roman(14), "XIV");
    assert_eq!(emit_roman(49), "XLIX");
    assert_eq!(emit_roman(1994), "MCMXCIV");
    assert_eq!(emit_roman(1606), "MDCVI");
    assert_eq!(emit_roman(4672), "MMMMDCLXXII");
    assert_eq!(emit_roman(3888), "MMMDCCCLXXXVIII");
    assert_eq!(emit_roman_letters(944), b"CMXLIV".to_vec());
    assert_eq!(symbol(0), (1000, b"M".to_vec()));
    assert_eq!(symbol(1), (900, b"CM".to_vec()));
    assert_eq!(symbol(11), (4, b"IV".to_vec()));
    assert_eq!(symbol(12), (1, b"I".to_vec()));
}

#[test]
fn test_roman_round_trip() {
    for n in 0..5000u16 {
        assert_eq!(parse_roman(&emit_roman(n)), Some(n));
    }
    assert_eq!(parse_roman(&emit_roman(u16::MAX)), Some(u16::MAX));
}

#[test]
fn test_roman_saving() {
    assert_eq!(saving("IIII"), Some(2));
    assert_eq!(saving("XVIIII"), Some(3));
    assert_eq!(saving("MCCCCCCVI"), Some(4));
    assert_eq!(saving("MMMMDCLXXII"), Some(0));
    assert_eq!(saving(""), Some(0));
    assert_eq!(saving("IIX"), Some(2));
    assert_eq!(saving("IM"), Some(0));
    assert_eq!(saving("MMXYZ"), None);
    assert_eq!(p089("IIII\nXVIIII\r\nMCCCCCCVI\nMMMMDCLXXII\n"), Some(9));
    assert_eq!(p089("IIII\n\nVIIII"), Some(5));
    assert_eq!(p089(""), Some(0));
    assert_eq!(p089("IIII\nfour"), None);
    assert_eq!(p089("IIII\r"), None);
}

#[test]
fn test_split_lines() {
    let lines = |text: &str| -> Vec<String> {
        split_lines(text.as_bytes()).into_iter().map(|l| String::from_utf8(l).unwrap()).collect()
    };
    for text in ["", "a", "a\n", "a\nb", "a\r\nb\r\n", "\n", "\n\n", "a\n\nb", "a\r", "\r\n", "a\r\r\n", "x\ry\n"] {
        let expected: Vec<String> = text.lines().map(|l| l.to_string()).collect();
        assert_eq!(lines(text), expected, "{:?}", text);
    }
}

#[test]
fn test_square_digit_sum() {
    assert_eq!(square_digit_sum(0), 0);
    assert_eq!(square_digit_sum(44), 32);
    assert_eq!(square_digit_sum(85), 89);
    assert_eq!(square_digit_sum(9_999_999), 567);
    assert_eq!(square_digit_sum(usize::MAX), usize::MAX.to_string().bytes().map(|b| ((b - b'0') as usize).pow(2)).sum::<usize>());
}

#[test]
fn test_loop_type() {
    assert_eq!(loop_type(0), 0);
    assert_eq!(loop_type(1), 1);
    assert_eq!(loop_type(89), 89);
    assert_eq!(loop_type(44), 1);
    assert_eq!(loop_type(85), 89);
    assert_eq!(loop_type(145), 89);
    assert_eq!(loop_type(7), 1);
    assert_eq!(loop_type(usize::MAX), loop_type(square_digit_sum(usize::MAX)));
    let types = gen_loop_types();
    assert_eq!(types[0], 0);
    for n in 1..600 {
        assert!(types[n] == 1 || types[n] == 89);
        assert_eq!(types[n], loop_type(n));
    }
    assert_eq!(types.iter().filter(|&&t| t == 1).count(), (1..600).filter(|&n| loop_type(n) == 1).count());
}

#[test]
fn test_p092() {
    assert_eq!(p092(), 8_581_146);
}

#[test]
fn test_p087() {
    assert_eq!(p087(), 1097343);
}

#[test]
fn test_gen_lists() {
    let (squares, cubes, fourths) = gen_lists(50);
    assert_eq!(squares, vec![4, 9, 25, 49]);
    assert_eq!(cubes, vec![8, 27]);
    assert_eq!(fourths, vec![16]);
    let (squares, cubes, fourths) = gen_lists(0);
    assert!(squares.is_empty() && cubes.is_empty() && fourths.is_empty());
    let (squares, _, _) = gen_lists(4);
    assert!(squares.is_empty());
    let (squares, cubes, fourths) = gen_lists(17);
    assert_eq!((squares, cubes, fourths), (vec![4, 9], vec![8], vec![16]));
    assert!(square_below(7, 50));
    assert!(!square_below(7, 49));
    assert!(!square_below(usize::MAX, usize::MAX));
}

#[test]
fn test_check_answer() {
    assert_eq!(check_answer::<u32>(None, &Some(3)), Rating::Panicked);
    assert_eq!(check_answer::<u32>(None, &None), Rating::Panicked);
    assert_eq!(check_answer(Some(7), &None), Rating::Answered("7".to_string()));
    assert_eq!(check_answer(Some(7), &Some(7)), Rating::CorrectAnswer);
    assert_eq!(
        check_answer(Some(7), &Some(8)),
        Rating::WrongAnswer { actual: "7".to_string(), expected: "8".to_string() }
    );
    assert_eq!(check_answer(Some("a".to_string()), &Some("a".to_string())), Rating::CorrectAnswer);
}

#[test]
fn test_p085() {
    assert_eq!(p085(), 2772);
    assert!(product_below(3, 5, 16));
    assert!(!product_below(3, 5, 15));
    assert!(!product_below(u64::MAX, u64::MAX, u64::MAX));
    assert!(product_below(0, u64::MAX, 1));
}
