use euler::solutions::p081_path_sum::{
    min_path_sum, p081_solve, p082_solve, p083_solve, read_numbers, Dir, Matrix,
};
use euler::solutions::{p81, p82, p83};

fn test_matrix() -> Matrix {
    let data = [
        "131,673,234,103,18",
        "201,96,342,965,150",
        "630,803,746,422,111",
        "537,699,497,121,956",
        "805,732,524,37,331",
    ]
    .join("\n");
    Matrix::read(&data, 5)
}

#[test]
fn p081_small() {
    assert_eq!(p081_solve(test_matrix()), 2427);
}

#[test]
fn p082_small() {
    assert_eq!(p082_solve(test_matrix()), 994);
}

#[test]
fn p083_small() {
    assert_eq!(p083_solve(test_matrix()), 2297);
}

#[test]
fn matrix_get() {
    let m = test_matrix();
    assert_eq!(m.get(0, 0), 131);
    assert_eq!(m.get(4, 0), 18);
    assert_eq!(m.get(0, 4), 805);
    assert_eq!(m.get(3, 1), 965);
    let n = Matrix::new(vec![1, 2, 3, 4], 2);
    assert_eq!(n.get(1, 0), 2);
    assert_eq!(n.get(0, 1), 3);
}

#[test]
fn matrix_text() {
    assert_eq!(read_numbers(""), Some(vec![]));
    assert_eq!(read_numbers("1,2\n3,4\n"), Some(vec![1, 2, 3, 4]));
    assert_eq!(read_numbers("1,2\r\n3,4"), Some(vec![1, 2, 3, 4]));
    assert_eq!(read_numbers(" 1 , +2 \n\t3,04"), Some(vec![1, 2, 3, 4]));
    assert_eq!(read_numbers("1,,2"), None);
    assert_eq!(read_numbers("1,2\n\n3"), None);
    assert_eq!(read_numbers("1,2,"), None);
    assert_eq!(read_numbers("1,2,\n"), None);
    assert_eq!(read_numbers(",1"), None);
    assert_eq!(read_numbers("1 2"), None);
    assert_eq!(read_numbers("-1"), None);
    assert_eq!(read_numbers("+"), None);
    assert_eq!(read_numbers("1+"), None);
    assert_eq!(read_numbers("x"), None);
    assert_eq!(read_numbers(" "), None);
    assert_eq!(read_numbers("\n"), None);
    assert_eq!(read_numbers(&usize::MAX.to_string()), Some(vec![usize::MAX]));
    assert_eq!(read_numbers(&format!("{}0", usize::MAX)), None);
    assert_eq!(read_numbers("99999999999999999999999999"), None);
    assert!(Matrix::try_read("1,2\n3,4", 2).is_some());
    assert!(Matrix::try_read("1,2\n3,4", 3).is_none());
    assert!(Matrix::try_read("1,2\n3", 2).is_none());
    assert!(Matrix::try_read("", 0).is_some());
    assert!(Matrix::try_read("1,2\n3,x", 2).is_none());
}

#[test]
fn try_move() {
    assert_eq!(Dir::N.try_move(&(2, 2), 5), Some((2, 1)));
    assert_eq!(Dir::E.try_move(&(2, 2), 5), Some((3, 2)));
    assert_eq!(Dir::S.try_move(&(2, 2), 5), Some((2, 3)));
    assert_eq!(Dir::W.try_move(&(2, 2), 5), Some((1, 2)));
    assert_eq!(Dir::N.try_move(&(2, 0), 5), None);
    assert_eq!(Dir::W.try_move(&(0, 2), 5), None);
    assert_eq!(Dir::E.try_move(&(4, 2), 5), None);
    assert_eq!(Dir::S.try_move(&(2, 4), 5), None);
    assert_eq!(Dir::E.try_move(&(usize::MAX, 0), usize::MAX), None);
    assert_eq!(Dir::N.try_move(&(7, 3), 5), None);
}

#[test]
fn min_path_sum_edges() {
    let one = Matrix::new(vec![7], 1);
    assert_eq!(min_path_sum(one, &[Dir::E, Dir::S], &[(0, 0)], &[(0, 0)]), 7);
    let m = Matrix::new(vec![1, 2, 3, 4], 2);
    assert_eq!(min_path_sum(m, &[Dir::E], &[(0, 0)], &[(1, 1)]), usize::MAX);
    let m = Matrix::new(vec![1, 2, 3, 4], 2);
    assert_eq!(min_path_sum(m, &[], &[(0, 0), (1, 1)], &[(1, 0), (1, 1)]), 4);
    let m = Matrix::new(vec![1, 2, 3, 4], 2);
    assert_eq!(min_path_sum(m, &[Dir::W, Dir::N], &[(1, 1)], &[(0, 0)]), 4 + 2 + 1);
    let big = Matrix::new(vec![usize::MAX, 1, 1, 1], 2);
    assert_eq!(min_path_sum(big, &[Dir::E, Dir::S], &[(0, 0)], &[(1, 1)]), usize::MAX);
}

#[test]
fn path_sums_of_a_flat_matrix() {
    let row = vec!["1"; 80].join(",");
    let text = vec![row; 80].join("\n");
    assert_eq!(p81(&text), 159);
    assert_eq!(p82(&text), 80);
    assert_eq!(p83(&text), 159);
}
