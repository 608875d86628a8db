use euler::solutions::p099_base_exp::{greatest_line, read_pair, read_pairs};

fn logexp((a, b): (u32, u32)) -> i64 {
    (f64::from(a).ln() * f64::from(b)) as i64
}

#[test]
fn read_pair_reads_base_and_exponent() {
    assert_eq!(read_pair(b"519432,525806"), Some((519432, 525806)));
    assert_eq!(read_pair(b"+2,007"), Some((2, 7)));
    assert_eq!(read_pair(b"4294967295,0"), Some((u32::MAX, 0)));
}

#[test]
fn read_pair_refuses_what_is_no_pair() {
    assert_eq!(read_pair(b"519432"), None);
    assert_eq!(read_pair(b""), None);
    assert_eq!(read_pair(b"1,2,3"), None);
    assert_eq!(read_pair(b"1,"), None);
    assert_eq!(read_pair(b",2"), None);
    assert_eq!(read_pair(b"1, 2"), None);
    assert_eq!(read_pair(b"-1,2"), None);
    assert_eq!(read_pair(b"4294967296,1"), None);
    assert_eq!(read_pair(b"1,4294967296"), None);
    assert_eq!(read_pair(b"1,99999999999999999999999999"), None);
}

#[test]
fn read_pairs_passes_over_lines_without_a_comma() {
    assert_eq!(read_pairs("2,11\n\nno pair here\n3,7\n"), Some(vec![(2, 11), (3, 7)]));
    assert_eq!(read_pairs(""), Some(vec![]));
    assert_eq!(read_pairs("\n\n"), Some(vec![]));
}

#[test]
fn read_pairs_refuses_a_line_that_spells_no_pair() {
    assert_eq!(read_pairs("2,11\n3,x\n4,5"), None);
    assert_eq!(read_pairs("2,11,\n"), None);
    assert_eq!(read_pairs("2,11\r\n3,7\r\n"), None);
}

#[test]
fn greatest_line_counts_from_one() {
    assert_eq!(greatest_line(&[5]), Some(1));
    assert_eq!(greatest_line(&[1, 9, 3]), Some(2));
    assert_eq!(greatest_line(&[-7, -9, -8]), Some(1));
    assert_eq!(greatest_line(&[]), None);
}

#[test]
fn greatest_line_takes_the_last_of_equals() {
    assert_eq!(greatest_line(&[4, 9, 9, 1]), Some(3));
    assert_eq!(greatest_line(&[2, 2, 2]), Some(3));
    assert_eq!(greatest_line(&[i64::MAX, i64::MIN, i64::MAX]), Some(3));
}

#[test]
fn the_greater_power_wins() {
    let pairs = read_pairs("519432,525806\n632382,518061").unwrap();
    let values: Vec<i64> = pairs.into_iter().map(logexp).collect();
    assert_eq!(greatest_line(&values), Some(2));
    let pairs = read_pairs("2,11\n3,7").unwrap();
    let values: Vec<i64> = pairs.into_iter().map(logexp).collect();
    assert_eq!(values, vec![7, 7]);
    assert_eq!(greatest_line(&values), Some(2));
}
