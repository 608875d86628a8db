use euler::solutions::p107_network::{
    network_edges, p107, parse_word, read_network, read_row, redundant_weight, split, Edge,
};

const SMALL_NETWORK: &str = "-,16,12,21,-,-,-
16,-,-,17,20,-,-
12,-,-,28,-,31,-
21,17,28,-,18,19,23
-,20,-,18,-,-,11
-,-,31,19,-,-,27
-,-,-,23,11,27,-";

#[test]
fn split_gives_the_pieces_between_separators() {
    assert_eq!(split(b"a,bc,,d", b','), vec![b"a".to_vec(), b"bc".to_vec(), vec![], b"d".to_vec()]);
    assert_eq!(split(b"", b','), vec![Vec::<u8>::new()]);
    assert_eq!(split(b",", b','), vec![Vec::<u8>::new(), Vec::<u8>::new()]);
    assert_eq!(split(b"abc", b','), vec![b"abc".to_vec()]);
}

#[test]
fn parse_word_reads_decimal_numbers_only() {
    assert_eq!(parse_word(b"16"), Some(16));
    assert_eq!(parse_word(b"+16"), Some(16));
    assert_eq!(parse_word(b"007"), Some(7));
    assert_eq!(parse_word(b"0"), Some(0));
    assert_eq!(parse_word(b"-"), None);
    assert_eq!(parse_word(b""), None);
    assert_eq!(parse_word(b"+"), None);
    assert_eq!(parse_word(b"-5"), None);
    assert_eq!(parse_word(b"1 2"), None);
    assert_eq!(parse_word(b"12a"), None);
}

#[test]
fn parse_word_stops_at_the_largest_number() {
    let largest = usize::MAX.to_string();
    assert_eq!(parse_word(largest.as_bytes()), Some(usize::MAX));
    let beyond = format!("{}0", largest);
    assert_eq!(parse_word(beyond.as_bytes()), None);
    let next = (usize::MAX as u128 + 1).to_string();
    assert_eq!(parse_word(next.as_bytes()), None);
}

#[test]
fn read_row_reads_each_word() {
    assert_eq!(read_row(b"-,16,12,x,"), vec![None, Some(16), Some(12), None, None]);
    assert_eq!(read_row(b""), vec![None]);
}

#[test]
fn read_network_reads_one_row_to_a_line() {
    let matrix = read_network("-,1\n1,-\n");
    assert_eq!(matrix, vec![vec![None, Some(1)], vec![Some(1), None], vec![None]]);
}

#[test]
fn network_edges_lists_what_is_below_the_diagonal() {
    let matrix = read_network("-,10,1\n10,-,1\n1,1,-");
    let edges = network_edges(&matrix);
    let plain: Vec<(usize, usize, usize)> = edges.iter().map(|e| (e.u, e.v, e.weight)).collect();
    assert_eq!(plain, vec![(0, 1, 10), (0, 2, 1), (1, 2, 1)]);
}

#[test]
fn network_edges_reads_short_and_long_rows() {
    let matrix = vec![vec![Some(5), Some(6)], vec![], vec![Some(7), None, Some(8), Some(9)]];
    let edges = network_edges(&matrix);
    let plain: Vec<(usize, usize, usize)> = edges.iter().map(|e| (e.u, e.v, e.weight)).collect();
    assert_eq!(plain, vec![(0, 2, 7)]);
}

#[test]
fn redundant_weight_takes_the_edges_in_their_order() {
    let edges = vec![Edge::new(0, 1, 10), Edge::new(0, 2, 1), Edge::new(1, 2, 1)];
    assert_eq!(redundant_weight(3, &edges), Some(1));
    let edges = vec![Edge::new(0, 2, 1), Edge::new(1, 2, 1), Edge::new(0, 1, 10)];
    assert_eq!(redundant_weight(3, &edges), Some(10));
    assert_eq!(redundant_weight(3, &Vec::new()), Some(0));
}

#[test]
fn redundant_weight_counts_loops_and_doubled_edges() {
    let edges = vec![Edge::new(1, 1, 4), Edge::new(0, 1, 2), Edge::new(1, 0, 3)];
    assert_eq!(redundant_weight(2, &edges), Some(7));
}

#[test]
fn redundant_weight_gives_none_beyond_usize() {
    let edges = vec![
        Edge::new(0, 1, 1),
        Edge::new(0, 1, usize::MAX),
        Edge::new(0, 1, 1),
    ];
    assert_eq!(redundant_weight(2, &edges), None);
    let edges = vec![Edge::new(0, 1, 1), Edge::new(0, 1, usize::MAX)];
    assert_eq!(redundant_weight(2, &edges), Some(usize::MAX));
}

#[test]
fn p107_sorts_the_edges_by_weight() {
    assert_eq!(p107("-,10,1\n10,-,1\n1,1,-"), Some(10));
}

#[test]
fn p107_on_the_small_network() {
    assert_eq!(p107(SMALL_NETWORK), Some(150));
}

#[test]
fn p107_on_a_network_without_edges() {
    assert_eq!(p107(""), Some(0));
    assert_eq!(p107("-,-\n-,-"), Some(0));
}
