use euler::partitions::partitions3 as partitions3_in_module;
use euler::windows::windows;
use euler::{fibs, partitions3};

#[test]
fn test_partition3() {
    let mut p5 = partitions3(5);
    assert!(p5.next().is_none());

    let mut p6 = partitions3(6);
    assert_eq!(p6.next().unwrap(), (1, 2, 3));
    assert!(p6.next().is_none());

    let mut p7 = partitions3(7);
    assert_eq!(p7.next().unwrap(), (1, 2, 4));
    assert!(p7.next().is_none());

    let mut p8 = partitions3(8);
    assert_eq!(p8.next().unwrap(), (1, 2, 5));
    assert_eq!(p8.next().unwrap(), (1, 3, 4));
    assert!(p8.next().is_none());

    let mut p11 = partitions3(11);
    assert_eq!(p11.next().unwrap(), (1, 2, 8));
    assert_eq!(p11.next().unwrap(), (1, 3, 7));
    assert_eq!(p11.next().unwrap(), (1, 4, 6));
    assert_eq!(p11.next().unwrap(), (2, 3, 6));
    assert_eq!(p11.next().unwrap(), (2, 4, 5));
    assert!(p11.next().is_none());
}

#[test]
fn test_partition3_is_complete() {
    for n in [-5i64, 0, 1, 5, 6, 12, 30, 61] {
        let mut expected = vec![];
        for a in 1..n {
            for b in (a + 1)..n {
                let c = n - a - b;
                if b < c {
                    expected.push((a, b, c));
                }
            }
        }
        let mut got = vec![];
        let mut it = partitions3_in_module(n);
        while let Some(t) = it.next() {
            got.push(t);
        }
        assert_eq!(got, expected, "n = {}", n);
        assert!(it.next().is_none());
    }
    assert!(partitions3(i64::MIN).next().is_none());
}

#[test]
fn test_fibs() {
    let mut f = fibs(1, 2);
    let mut got = vec![];
    for _ in 0..10 {
        got.push(f.next().unwrap());
    }
    assert_eq!(got, vec![1, 2, 3, 5, 8, 13, 21, 34, 55, 89]);
    let mut g = fibs(0, 1);
    assert_eq!(g.next(), Some(0));
    assert_eq!(g.next(), Some(1));
    assert_eq!(g.next(), Some(1));
    assert_eq!(g.next(), Some(2));
}

#[test]
fn test_fibs_ends_before_overflow() {
    let mut f = fibs(1, 2);
    let mut last = 0;
    let mut count = 0;
    while let Some(x) = f.next() {
        assert!(x > last);
        last = x;
        count += 1;
    }
    assert_eq!(count, 89);
    assert_eq!(last, 2880067194370816120);
    assert_eq!(f.next(), None);
    let mut g = fibs(i64::MAX, 1);
    assert_eq!(g.next(), None);
    let mut h = fibs(i64::MIN, -1);
    assert_eq!(h.next(), None);
}

#[test]
fn test_windows() {
    let xs = [1, 2, 3, 4, 5];
    let mut w = windows(&xs, 3);
    assert_eq!(w.next(), Some(&xs[0..3]));
    assert_eq!(w.next(), Some(&xs[1..4]));
    assert_eq!(w.next(), Some(&xs[2..5]));
    assert_eq!(w.next(), None);
    assert_eq!(w.next(), None);

    let mut all = windows(&xs, 5);
    assert_eq!(all.next(), Some(&xs[..]));
    assert_eq!(all.next(), None);

    let mut too_wide = windows(&xs, 6);
    assert_eq!(too_wide.next(), None);

    let empty: [u8; 0] = [];
    let mut none = windows(&empty, 1);
    assert_eq!(none.next(), None);

    let mut zero = windows(&xs, 0);
    for _ in 0..6 {
        assert_eq!(zero.next(), Some(&xs[0..0]));
    }
    assert_eq!(zero.next(), None);
}
