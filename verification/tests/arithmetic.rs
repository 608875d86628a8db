use euler::solutions::p093_arithmetic::{best_set, lowest_unreachable, sorted, REACH};

#[test]
fn sorted_puts_four_numbers_in_ascending_order() {
    assert_eq!(sorted([4, 2, 3, 1]), Some([1, 2, 3, 4]));
    assert_eq!(sorted([1, 2, 3, 4]), Some([1, 2, 3, 4]));
    assert_eq!(sorted([8, -1, 100, 0]), Some([-1, 0, 8, 100]));
    assert_eq!(sorted([i32::MAX, i32::MIN, 0, 1]), Some([i32::MIN, 0, 1, i32::MAX]));
}

#[test]
fn sorted_refuses_equal_numbers() {
    assert_eq!(sorted([1, 2, 3, 1]), None);
    assert_eq!(sorted([2, 2, 3, 4]), None);
    assert_eq!(sorted([5, 4, 4, 1]), None);
    assert_eq!(sorted([7, 7, 7, 7]), None);
    assert_eq!(sorted([1, 9, 3, 9]), None);
}

#[test]
fn lowest_unreachable_is_the_first_gap_from_one_on() {
    assert_eq!(lowest_unreachable(&[1, 2, 3, 5, 6]), Some(4));
    assert_eq!(lowest_unreachable(&[3, 1, 2, 2, 1]), Some(4));
    assert_eq!(lowest_unreachable(&[]), Some(1));
    assert_eq!(lowest_unreachable(&[0]), Some(1));
    assert_eq!(lowest_unreachable(&[2, 3, 4]), Some(1));
    assert_eq!(lowest_unreachable(&[REACH - 1, 1]), Some(2));
}

#[test]
fn lowest_unreachable_gives_none_where_all_is_reached() {
    let all: Vec<usize> = (1..REACH).collect();
    assert_eq!(lowest_unreachable(&all), None);
    let nearly: Vec<usize> = (1..REACH - 1).collect();
    assert_eq!(lowest_unreachable(&nearly), Some(REACH - 1));
}

#[test]
fn best_set_takes_the_last_of_the_greatest() {
    assert_eq!(best_set(&[29, 52, 11]), Some(1));
    assert_eq!(best_set(&[29, 52, 11, 52]), Some(3));
    assert_eq!(best_set(&[7]), Some(0));
    assert_eq!(best_set(&[0, 0]), Some(1));
    assert_eq!(best_set(&[]), None);
}

#[test]
fn the_digits_one_to_four_reach_twenty_eight() {
    // every whole number that 1, 2, 3 and 4 give, up to the first gap
    let reached: Vec<usize> = (1..=28).chain([30, 32, 36]).collect();
    assert_eq!(lowest_unreachable(&reached), Some(29));
}
