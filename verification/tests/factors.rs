use euler::factors;

#[test]
fn test_121() {
    assert_eq!(factors(121).collect(), [11, 11])
}

#[test]
fn test_big_prime() {
    let p: i64 = 137438953481;
    assert_eq!(factors(p).collect(), [p]);
}

#[test]
fn test_many_factors() {
    let n: i64 = 2 * 3 * 5 * 7 * 7 * 11 * 13 * 17 * 19;
    assert_eq!(factors(n).collect(), [2, 3, 5, 7, 7, 11, 13, 17, 19]);
}

#[test]
fn test_f5() {
    let n: i64 = (1 << 32) + 1;
    assert_eq!(factors(n).collect(), [641, 6700417]);
}

#[test]
fn test_factors_step_by_step() {
    let mut f = factors(12);
    assert_eq!(f.next(), Some(2));
    assert_eq!(f.next(), Some(2));
    assert_eq!(f.next(), Some(3));
    assert_eq!(f.next(), None);
    assert_eq!(f.next(), None);
    assert_eq!(factors(1).next(), None);
    assert_eq!(factors(1).collect(), Vec::<i64>::new());
    assert_eq!(factors(1).last(), None);
    assert_eq!(factors(2).collect(), [2]);
    assert_eq!(factors(97).last(), Some(97));
    assert_eq!(factors(600851475143).last(), Some(6857));
}

#[test]
fn test_factors_multiply_back() {
    for n in 1..3000i64 {
        let xs = factors(n).collect();
        assert_eq!(xs.iter().product::<i64>(), n);
        for w in xs.windows(2) {
            assert!(w[0] <= w[1]);
        }
        for &q in &xs {
            assert!(q >= 2 && (2..q).all(|d| q % d != 0));
        }
    }
    let big = i64::MAX;
    assert_eq!(factors(big).collect().iter().product::<i64>(), big);
}
