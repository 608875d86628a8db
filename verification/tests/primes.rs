use euler::primes::{all_primes, primes_upto, primes_upto_with, Sieve30};
use euler::wheel::{build_deltas, build_residues, npp_slow, WheelTables};

#[test]
fn list_primes_upto_20() {
    let xs = primes_upto(20).collect();
    assert_eq!(xs, [2, 3, 5, 7, 11, 13, 17, 19]);
}

#[test]
fn count_primes_upto_1000() {
    assert_eq!(primes_upto(1000).count(), 168);
}

#[test]
fn count_primes_upto_10k() {
    assert_eq!(primes_upto(10_000).count(), 1229);
}

#[test]
fn next_possible_prime() {
    let sieve = Sieve30::new(0);
    for p in [7, 11, 13, 17, 19, 23, 29, 31] {
        let mut n = 61;
        let mut ps1 = vec![n];
        let mut ps2 = vec![n];
        let mut ps3 = vec![];
        for _ in 1..30 {
            n = npp_slow(n, p);
            ps1.push(n);
        }
        let mut n = 61;
        for _ in 1..30 {
            let n2 = sieve.next_possible_prime(n, p);
            let delta = n2 - n;
            n = n2;
            ps2.push(n);
            ps3.push(delta / p);
        }
        assert_eq!(ps1, ps2);
        println!("{:4} {:3}: {:?}", p, (p * p) % 30, ps3);
    }
}

fn is_prime_slow(n: usize) -> bool {
    n >= 2 && (2..n).all(|d| n % d != 0)
}

#[test]
fn primes_upto_matches_trial_division() {
    for bound in 0..400usize {
        let expected: Vec<i64> = (2..bound).filter(|&n| is_prime_slow(n)).map(|n| n as i64).collect();
        assert_eq!(primes_upto(bound).collect(), expected, "bound {}", bound);
        assert_eq!(primes_upto(bound).count(), expected.len());
    }
}

#[test]
fn primes_upto_boundaries() {
    assert_eq!(primes_upto(0).collect(), Vec::<i64>::new());
    assert_eq!(primes_upto(1).collect(), Vec::<i64>::new());
    assert_eq!(primes_upto(2).collect(), Vec::<i64>::new());
    assert_eq!(primes_upto(3).collect(), vec![2]);
    assert_eq!(primes_upto(4).collect(), vec![2, 3]);
    assert_eq!(primes_upto(5).collect(), vec![2, 3]);
    assert_eq!(primes_upto(6).collect(), vec![2, 3, 5]);
    assert_eq!(primes_upto(7).collect(), vec![2, 3, 5]);
    assert_eq!(primes_upto(8).collect(), vec![2, 3, 5, 7]);
    assert_eq!(primes_upto(49).collect().last(), Some(&47));
    assert_eq!(primes_upto(50).collect().last(), Some(&47));
}

#[test]
fn primes_upto_is_strictly_increasing() {
    let xs = primes_upto(5000).collect();
    for w in xs.windows(2) {
        assert!(w[0] < w[1]);
    }
}

#[test]
fn primes_upto_is_lazy_and_single_pass() {
    let mut it = primes_upto(30);
    assert_eq!(it.next(), Some(2));
    assert_eq!(it.next(), Some(3));
    assert_eq!(it.next(), Some(5));
    assert_eq!(it.next(), Some(7));
    assert_eq!(it.next(), Some(11));
    assert_eq!(it.collect(), vec![13, 17, 19, 23, 29]);
}

#[test]
fn sieve_yields_wheel_primes() {
    let mut sieve = Sieve30::new(60);
    let mut got = vec![];
    while let Some(p) = sieve.next() {
        got.push(p);
    }
    assert_eq!(got, vec![7, 11, 13, 17, 19, 23, 29, 31, 37, 41, 43, 47, 53, 59]);
    assert_eq!(sieve.next(), None);
}

#[test]
fn positions_round_trip() {
    let sieve = Sieve30::new(0);
    for n in 0..3000usize {
        if [1, 7, 11, 13, 17, 19, 23, 29].contains(&(n % 30)) {
            assert_eq!(Sieve30::from_pos(sieve.to_pos(n)), n);
        }
    }
    for i in 0..800usize {
        assert_eq!(sieve.to_pos(Sieve30::from_pos(i)), i);
    }
    assert_eq!(sieve.to_pos(1), 0);
    assert_eq!(sieve.to_pos(7), 1);
    assert_eq!(sieve.to_pos(31), 8);
    assert_eq!(Sieve30::from_pos(15), 59);
}

#[test]
fn tables_are_rebuilt_identically() {
    assert_eq!(build_deltas(), build_deltas());
    let a = build_residues();
    let b = build_residues();
    for r in 0..30 {
        match (a[r], b[r]) {
            (None, None) => assert!(![1, 7, 11, 13, 17, 19, 23, 29].contains(&r)),
            (Some(x), Some(y)) => {
                assert_eq!(x.index, y.index);
                assert_eq!(x.delta, y.delta);
            }
            _ => panic!("tables differ at {}", r),
        }
    }
    let t = WheelTables::new();
    let u = WheelTables::new();
    for i in 0..30 {
        for j in 0..30 {
            assert_eq!(t.delta(i, j), u.delta(i, j));
        }
    }
}

#[test]
fn residue_table_values() {
    let z30 = build_residues();
    let expected = [(1, 0, 6), (7, 1, 4), (11, 2, 2), (13, 3, 4), (17, 4, 2), (19, 5, 4), (23, 6, 6), (29, 7, 2)];
    for (r, index, delta) in expected {
        let entry = z30[r].unwrap();
        assert_eq!(entry.index, index);
        assert_eq!(entry.delta, delta);
    }
    assert!(z30[0].is_none());
    assert!(z30[15].is_none());
}

#[test]
fn delta_table_values() {
    let deltas = build_deltas();
    // prime residue 7, candidate residue 19 (49 -> 77 -> 91): two steps of 2.
    assert_eq!(deltas[7 + 30 * 19], 4);
    assert_eq!(deltas[7 + 30 * 17], 2);
    assert_eq!(deltas[1 + 30 * 1], 6);
    assert_eq!(deltas[0], 0);
    assert_eq!(deltas[2 + 30 * 7], 0);
    for i in [1, 7, 11, 13, 17, 19, 23, 29] {
        for j in [1, 7, 11, 13, 17, 19, 23, 29] {
            assert!(deltas[i + 30 * j] != 0);
        }
    }
    assert_eq!(npp_slow(49, 7), 77);
    assert_eq!(npp_slow(77, 7), 91);
}

#[test]
fn all_primes_start() {
    let mut it = all_primes();
    let mut got = vec![];
    for _ in 0..15 {
        got.push(it.next().unwrap());
    }
    assert_eq!(got, vec![2, 3, 5, 7, 11, 13, 17, 19, 23, 29, 31, 37, 41, 43, 47]);
}

#[test]
fn one_set_of_tables_serves_many_sieves() {
    let tables = WheelTables::new();
    assert_eq!(primes_upto_with(20, tables).collect(), vec![2, 3, 5, 7, 11, 13, 17, 19]);
    assert_eq!(primes_upto_with(1000, tables).count(), 168);
    assert_eq!(primes_upto_with(2, tables).count(), 0);
    let mut sieve = Sieve30::with_tables(50, tables);
    let mut found = Vec::new();
    while let Some(p) = sieve.next() {
        found.push(p);
    }
    assert_eq!(found, vec![7, 11, 13, 17, 19, 23, 29, 31, 37, 41, 43, 47]);
}
