//! Find the positive integer whose square has the form
//! `1_2_3_4_5_6_7_8_9_0`, where each `_` is a single digit.

use crate::sieves::isqrt;
use vstd::prelude::*;

verus! {

/// The least square of the form, were every free digit 0.
pub const MIN_SQUARE: u64 = 1020304050607080900;

/// The greatest number of the form, with every free digit 9.
pub const MAX_SQUARE: u64 = 1929394959697989990;

/// The digits of `n` in its places 4, 6, .., 18 (from the right, counting
/// from 0) are 8, 7, .., 1, and nothing stands above them.
pub open spec fn upper_form(n: int) -> bool {
    &&& (n / 10_000) % 10 == 8
    &&& (n / 1_000_000) % 10 == 7
    &&& (n / 100_000_000) % 10 == 6
    &&& (n / 10_000_000_000) % 10 == 5
    &&& (n / 1_000_000_000_000) % 10 == 4
    &&& (n / 100_000_000_000_000) % 10 == 3
    &&& (n / 10_000_000_000_000_000) % 10 == 2
    &&& n / 1_000_000_000_000_000_000 == 1
}

/// `n` has the form `1_2_3_4_5_6_7_8_9_0`.
pub open spec fn concealed_form(n: int) -> bool {
    &&& n % 10 == 0
    &&& (n / 100) % 10 == 9
    &&& upper_form(n)
}

/// Does `n` have the form `1_2_3_4_5_6_7_8`, followed by four digits that
/// are not looked at?
pub fn is_solution(n: u64) -> (yes: bool)
    ensures
        yes == upper_form(n as int),
{
    let mut n = n / 10_000;
    if n % 10 != 8 {
        return false;
    }
    n = n / 100;
    if n % 10 != 7 {
        return false;
    }
    n = n / 100;
    if n % 10 != 6 {
        return false;
    }
    n = n / 100;
    if n % 10 != 5 {
        return false;
    }
    n = n / 100;
    if n % 10 != 4 {
        return false;
    }
    n = n / 100;
    if n % 10 != 3 {
        return false;
    }
    n = n / 100;
    if n % 10 != 2 {
        return false;
    }
    n = n / 100;
    n == 1
}

/// The square of 1389019170 has the form.
proof fn lemma_known_square()
    ensures
        1389019170 * 1389019170 == 1929374254627488900,
        upper_form(1929374254627488900),
        13890191 * 13890191 == 192937406016481,
        13890192 * 13890192 == 192937433796864,
{
    assert(1389019170 * 1389019170 == 1929374254627488900) by (nonlinear_arith);
    assert(13890191 * 13890191 == 192937406016481) by (nonlinear_arith);
    assert(13890192 * 13890192 == 192937433796864) by (nonlinear_arith);
}

/// Concealed square: a positive integer whose square has the form
/// `1_2_3_4_5_6_7_8_9_0`. The square must end in 900, so the integer ends in
/// 30 or 70; the search takes the hundreds in ascending order.
pub fn p206() -> (n: u64)
    ensures
        n * n <= u64::MAX,
        concealed_form(n * n),
{
    let min = isqrt(MIN_SQUARE / 10_000);
    let max = isqrt(MAX_SQUARE / 10_000);
    proof {
        lemma_known_square();
        assert(min <= 13890191) by (nonlinear_arith)
            requires
                min * min <= 102030405060708,
                13890191 * 13890191 == 192937406016481,
        ;
        assert(13890191 < max) by (nonlinear_arith)
            requires
                (max + 1) * (max + 1) > 192939495969798,
                13890192 * 13890192 == 192937433796864,
        ;
        assert(max <= 13890267) by (nonlinear_arith)
            requires
                max * max <= 192939495969798,
        ;
    }
    let mut i = min;
    while i < max
        invariant
            min <= i <= max,
            min <= 13890191 < max <= 13890267,
            i <= 13890191,
        decreases max - i,
    {
        let i1 = i * 100 + 30;
        let i2 = i * 100 + 70;
        proof {
            assert(i1 * i1 <= 1389026730 * 1389026730 && i2 * i2 <= 1389026770 * 1389026770)
                by (nonlinear_arith)
                requires
                    0 <= i1 <= 1389026730,
                    0 <= i2 <= 1389026770,
            ;
            assert(1389026770 * 1389026770 == 1929395367776632900) by (nonlinear_arith);
            assert(1389026730 * 1389026730 <= 1929395367776632900) by (nonlinear_arith);
            lemma_square_ends(i as int);
        }
        if is_solution(i1 * i1) {
            return i1;
        }
        if is_solution(i2 * i2) {
            return i2;
        }
        proof {
            if i == 13890191 {
                lemma_known_square();
                assert(i2 == 1389019170);
                assert(false);
            }
        }
        i += 1;
    }
    proof {
        assert(false);
    }
    0
}

/// The square of an integer that ends in 30 or 70 ends in 900.
proof fn lemma_square_ends(i: int)
    requires
        0 <= i,
    ensures
        ((i * 100 + 30) * (i * 100 + 30)) % 10 == 0,
        (((i * 100 + 30) * (i * 100 + 30)) / 100) % 10 == 9,
        ((i * 100 + 70) * (i * 100 + 70)) % 10 == 0,
        (((i * 100 + 70) * (i * 100 + 70)) / 100) % 10 == 9,
{
    assert((i * 100 + 30) * (i * 100 + 30) == 1000 * (10 * (i * i) + 6 * i) + 900)
        by (nonlinear_arith);
    assert((i * 100 + 70) * (i * 100 + 70) == 1000 * (10 * (i * i) + 14 * i + 4) + 900)
        by (nonlinear_arith);
}

} // verus!
