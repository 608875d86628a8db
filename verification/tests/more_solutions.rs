use euler::solutions::p087_prime_power_triples::primes_with_square_below;
use euler::solutions::p011_grid_product::{line_cell, max_4prod, p011, Line};
use euler::solutions::p013_large_sum::{large_sum, p13, read_digit_lines};
use euler::solutions::p076_sum_partition::{euler_p, p76};
use euler::solutions::p084_monopoly::{
    build_stochastic_matrix, gen_cc, gen_chance, next_railroad, next_utility, sim, Card,
};
use euler::solutions::p012_triangle_divisors::count_divisors;
use euler::solutions::p051_digit_replacement::pattern;
use euler::solutions::p014_collatz::calc_collatz;
use euler::solutions::p127_abc_hits::p127;
use euler::solutions::p357_prime_generating_ints::p357;
use euler::solutions::{p12, p14, p50, p51, p78};

#[test]
fn test_p50() {
    assert_eq!(p50(), 997651);
}

#[test]
fn test_p76() {
    assert_eq!(p76(), 190569291);
    let expected = [1usize, 1, 2, 3, 5, 7, 11, 15, 22, 30, 42];
    for (n, p) in expected.iter().enumerate() {
        assert_eq!(euler_p(n), Some(*p));
    }
    assert_eq!(euler_p(100), Some(190569292));
    assert_eq!(euler_p(200), Some(3972999029388));
}

#[test]
fn test_p78() {
    assert_eq!(p78(), Some(55374));
}

#[test]
fn test_large_sum() {
    let text = "9999999999\n0000000001\n";
    assert_eq!(p13(text), Some(1000000000));
    assert_eq!(p13("12345678901234\n00000000000001\r\n10000000000000"), Some(2234567890));
    assert_eq!(p13("99999999999\n99999999999\n99999999999"), Some(2999999999));
    assert_eq!(p13("123\n456"), None);
    assert_eq!(p13(""), None);
    assert_eq!(p13("1234567890123\n12"), None);
    assert_eq!(p13("1234567890123\n12x4567890123"), None);
    assert_eq!(p13("1234567890123\n\n1234567890123"), None);
    assert_eq!(p13("0000000000000\n0999999999"), None);
    assert_eq!(read_digit_lines("12\n345\r\n\n6"), Some(vec![vec![2, 1], vec![5, 4, 3], vec![], vec![6]]));
    assert_eq!(read_digit_lines("12\r"), None);
    assert_eq!(read_digit_lines("1 2"), None);
    assert_eq!(read_digit_lines(""), Some(vec![]));
    assert_eq!(large_sum(&vec![vec![9; 12], vec![1; 12]]), Some(1111111111));
    assert_eq!(large_sum(&vec![vec![1, 2, 3]]), None);
}

#[test]
fn test_large_sum_of_a_hundred_numbers() {
    let rows: Vec<String> = (0..100u128).map(|i| format!("{:050}", (i + 37) * 1_000_000_007_123_456_789)).collect();
    let total: u128 = (0..100u128).map(|i| (i + 37) * 1_000_000_007_123_456_789).sum();
    let digits = total.to_string();
    let expected: u64 = digits[..10].parse().unwrap();
    assert_eq!(p13(&rows.join("\n")), Some(expected));
}

fn grid_20(f: impl Fn(usize, usize) -> i64) -> Vec<i64> {
    let mut g = vec![];
    for y in 0..20 {
        for x in 0..20 {
            g.push(f(x, y));
        }
    }
    g
}

#[test]
fn test_grid_product() {
    let ones = grid_20(|_, _| 1);
    assert_eq!(p011(&ones), 1);
    // a run of four on a row
    let row = grid_20(|x, y| if y == 7 && (3..7).contains(&x) { 5 } else { 1 });
    assert_eq!(max_4prod(&row, 20, Line::Hor), 625);
    assert_eq!(max_4prod(&row, 20, Line::Ver), 5);
    assert_eq!(p011(&row), 625);
    // a run of four on a column
    let col = grid_20(|x, y| if x == 19 && (16..20).contains(&y) { 3 } else { 1 });
    assert_eq!(max_4prod(&col, 20, Line::Ver), 81);
    assert_eq!(p011(&col), 81);
    // a diagonal down and to the right, below the main diagonal
    let d1 = grid_20(|x, y| if y == x + 2 && x < 4 { 7 } else { 1 });
    assert_eq!(max_4prod(&d1, 20, Line::D1b), 2401);
    assert_eq!(p011(&d1), 2401);
    // a diagonal down and to the left, above the main anti-diagonal
    let d2 = grid_20(|x, y| if x + y == 10 && y < 4 { 2 } else { 1 });
    assert_eq!(max_4prod(&d2, 20, Line::D2b), 16);
    assert_eq!(p011(&d2), 16);
    // the rows searched by the families named D1a and D2a
    assert_eq!(max_4prod(&row, 20, Line::D1a), 1);
    assert_eq!(max_4prod(&row, 20, Line::D2a), 625);
    let late = grid_20(|x, y| if y == 7 && (9..13).contains(&x) { 5 } else { 1 });
    assert_eq!(max_4prod(&late, 20, Line::D1a), 625);
    assert_eq!(max_4prod(&late, 20, Line::D2a), 625);
    let last_rows = grid_20(|_, y| if y >= 17 { 3 } else { 1 });
    assert_eq!(max_4prod(&last_rows, 20, Line::Hor), 81);
    assert_eq!(max_4prod(&last_rows, 20, Line::D1a), 1);
    let negative = grid_20(|_, _| -2);
    assert_eq!(p011(&negative), 16);
    let small = vec![2i64; 16];
    assert_eq!(max_4prod(&small, 4, Line::Hor), 16);
    assert_eq!(max_4prod(&small, 4, Line::D2b), 16);
}

#[test]
fn test_line_cells() {
    assert_eq!(line_cell(Line::Hor, 3, 5, 20), (3, 5));
    assert_eq!(line_cell(Line::Ver, 3, 5, 20), (5, 3));
    assert_eq!(line_cell(Line::D1a, 3, 5, 20), (8, 5));
    assert_eq!(line_cell(Line::D1b, 3, 5, 20), (3, 8));
    assert_eq!(line_cell(Line::D2a, 3, 5, 20), (11, 5));
    assert_eq!(line_cell(Line::D2b, 3, 5, 20), (11, 3));
}

#[test]
fn test_monopoly_cards() {
    let chance = gen_chance();
    let chest = gen_cc();
    assert!(matches!(chance[0], Card::Go(0)));
    assert!(matches!(chance[1], Card::Go(10)));
    assert!(matches!(chance[5], Card::Go(5)));
    assert!(matches!(chance[6], Card::Railroad));
    assert!(matches!(chance[8], Card::Utility));
    assert!(matches!(chance[9], Card::BackThree));
    assert!(matches!(chance[10], Card::Other));
    assert!(matches!(chest[1], Card::Go(10)));
    assert!(matches!(chest[2], Card::Other));
    assert_eq!(next_railroad(7), 15);
    assert_eq!(next_railroad(22), 25);
    assert_eq!(next_railroad(36), 5);
    assert_eq!(next_utility(7), 12);
    assert_eq!(next_utility(22), 28);
    assert_eq!(next_utility(36), 12);
}

#[test]
fn test_monopoly_sim() {
    let other = Card::Other;
    assert_eq!(sim(0, 0, &other, &other, 1, 2), 3);
    assert_eq!(sim(38, 0, &other, &other, 2, 2), 2);
    assert_eq!(sim(28, 0, &other, &other, 1, 1), 10);
    assert_eq!(sim(0, 2, &other, &other, 3, 3), 10);
    assert_eq!(sim(0, 1, &other, &other, 3, 3), 6);
    assert_eq!(sim(5, 0, &Card::Go(39), &other, 1, 1), 39);
    assert_eq!(sim(5, 0, &Card::Railroad, &other, 1, 1), 15);
    assert_eq!(sim(5, 0, &Card::Utility, &other, 1, 1), 12);
    assert_eq!(sim(5, 0, &Card::BackThree, &other, 1, 1), 4);
    assert_eq!(sim(34, 0, &Card::BackThree, &Card::Go(0), 1, 1), 0);
    assert_eq!(sim(34, 0, &Card::BackThree, &other, 1, 1), 33);
    assert_eq!(sim(0, 0, &other, &Card::Go(10), 1, 1), 10);
}

#[test]
fn test_monopoly_matrix() {
    let moves = build_stochastic_matrix();
    for row in moves.iter() {
        assert_eq!(row.iter().sum::<usize>(), 8192);
        assert_eq!(row[30], 0);
    }
    // from Go, a roll of two with a pair of ones: 512 of the 8192 cases
    // reach Community Chest 1, where 2 of 16 cards move on.
    assert_eq!(moves[0][2], 512 * 14 / 16);
    assert_eq!(moves[0][3], 1024);
    assert_eq!(moves[0][1], 0);
    assert_eq!(moves[0][8], 512);
}

#[test]
fn test_p12() {
    assert_eq!(p12(), 76576500);
    assert_eq!(count_divisors(&vec![]), Some(1));
    assert_eq!(count_divisors(&vec![(2, 2), (7, 1)]), Some(6));
    assert_eq!(count_divisors(&vec![(2, 2), (3, 2), (5, 3), (7, 1), (11, 1), (17, 1)]), Some(288));
    assert_eq!(count_divisors(&vec![(2, usize::MAX)]), None);
    assert_eq!(count_divisors(&vec![(2, usize::MAX / 2), (3, 2)]), None);
}

#[test]
fn test_p51() {
    assert_eq!(p51(), Some(121313));
    assert_eq!(pattern(0), (2, 1));
    assert_eq!(pattern(5), (4, 3));
    assert_eq!(pattern(9), (5, 4));
}

#[test]
fn test_p14() {
    assert_eq!(p14(), Some(837799));
}

#[test]
fn test_calc_collatz() {
    let mut lengths = vec![0u32; 30];
    assert_eq!(calc_collatz(1, &mut lengths, 0), Some(1));
    assert_eq!(calc_collatz(2, &mut lengths, 5), Some(2));
    assert_eq!(calc_collatz(13, &mut lengths, 100), Some(10));
    assert_eq!(lengths[13], 10);
    assert_eq!(lengths[20], 8);
    assert_eq!(lengths[16], 5);
    assert_eq!(lengths[3], 0);
    let mut none: Vec<u32> = vec![];
    assert_eq!(calc_collatz(6, &mut none, 100), Some(9));
    assert_eq!(calc_collatz(27, &mut none, 110), None);
    assert_eq!(calc_collatz(27, &mut none, 111), Some(112));
    assert_eq!(calc_collatz(27, &mut lengths, 111), Some(112));
    assert_eq!(calc_collatz(27, &mut lengths, 0), Some(112));
    assert_eq!(calc_collatz(u64::MAX, &mut lengths, 100), None);
}

#[test]
fn test_p357() {
    assert_eq!(p357(), 1739023853137);
}

#[test]
fn test_p127() {
    assert_eq!(p127(), 18407904);
}

#[test]
fn euler_p_gives_none_once_a_sum_leaves_the_range() {
    if usize::BITS == 64 {
        assert_eq!(euler_p(406), Some(9725512513742021729));
        assert_eq!(euler_p(407), None);
    }
    assert_eq!(euler_p(1000), None);
    assert_eq!(euler_p(0), Some(1));
    assert_eq!(euler_p(1), Some(1));
}

#[test]
fn p14_fails_only_with_a_chain_that_outruns_the_budget() {
    // the longest chain below a million has 525 terms, far within the budget
    let mut none: Vec<u32> = Vec::new();
    assert_eq!(calc_collatz(837799, &mut none, 10_000), Some(525));
    assert_eq!(calc_collatz(837799, &mut none, 523), None);
    assert_eq!(calc_collatz(837799, &mut none, 524), Some(525));
}

#[test]
fn primes_with_square_below_stops_at_the_square() {
    assert_eq!(primes_with_square_below(0), Vec::<usize>::new());
    assert_eq!(primes_with_square_below(4), Vec::<usize>::new());
    assert_eq!(primes_with_square_below(5), vec![2]);
    assert_eq!(primes_with_square_below(49), vec![2, 3, 5]);
    assert_eq!(primes_with_square_below(50), vec![2, 3, 5, 7]);
    assert_eq!(primes_with_square_below(10_000).len(), 25);
}
