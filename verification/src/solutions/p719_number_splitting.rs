//! Numbers whose square can be split into pieces that add up to the number.

use vstd::prelude::*;

verus! {

/// The distance from `b` up to `n`, or 0 where `b` has passed `n`.
pub open spec fn room(n: int, b: int) -> int {
    if b < n {
        n - b
    } else {
        0
    }
}

/// Can `s` be made as the sum of the pieces of some split of the decimal
/// digits of `n`? The digits may be left whole, or cut in one or more
/// places; each piece counts as the number it spells. A cut is made at a
/// power of ten below the number only, so a power of ten itself, such as
/// 100, is never cut behind its leading 1.
pub open spec fn splittable(s: int, n: int) -> bool
    decreases n, 1int, 0int,
{
    if s == n {
        true
    } else if s > n || n <= 0 {
        false
    } else {
        split_from(s, n, 10)
    }
}

/// Can `s` be made by cutting the last piece off `n` at the power of ten
/// `b` or at a greater one, and splitting what is left further?
pub open spec fn split_from(s: int, n: int, b: int) -> bool
    decreases n, 0int, room(n, b),
{
    if b >= n || b < 10 {
        false
    } else {
        (n % b <= s && 0 <= n / b < n && splittable(s - n % b, n / b)) || split_from(s, n, b * 10)
    }
}

/// Can `s` be made from sums of the digits of `n`?
///
/// The split works from the right side: for each power of ten `b`, the last
/// piece is `n % b`, and the rest of `s` must come from `n / b`.
pub fn is_splittable(s: u64, n: u64) -> (yes: bool)
    ensures
        yes == splittable(s as int, n as int),
    decreases n,
{
    if s == n {
        return true;
    }
    if s > n {
        return false;
    }
    // b will iterate through powers of 10
    let mut b: u64 = 10;
    while b < n
        invariant
            s < n,
            10 <= b,
            splittable(s as int, n as int) == split_from(s as int, n as int, b as int),
        decreases room(n as int, b as int),
    {
        let d = n % b;
        if s < d {
            proof {
                vstd::arithmetic::div_mod::lemma_mod_self_0(b as int);
                lemma_longer_piece(s as int, n as int, b as int, b as int);
            }
            return false;
        }
        assert(0 <= n / b < n) by (nonlinear_arith)
            requires
                10 <= b < n,
        ;
        if is_splittable(s - d, n / b) {
            return true;
        }
        if b > u64::MAX / 10 {
            assert(!split_from(s as int, n as int, b * 10));
            return false;
        }
        b = b * 10;
    }
    false
}

/// The last piece grows with the power of ten that cuts it off: once it is
/// greater than `s`, no later cut can help.
proof fn lemma_longer_piece(s: int, n: int, b: int, c: int)
    requires
        10 <= b <= c,
        0 <= s < n % b,
        c % b == 0,
        0 <= n,
    ensures
        !split_from(s, n, c),
    decreases room(n, c),
{
    if c < n {
        // n % c >= n % b, since b divides c
        let k = c / b;
        assert(c == b * k) by {
            vstd::arithmetic::div_mod::lemma_fundamental_div_mod(c, b);
        }
        vstd::arithmetic::div_mod::lemma_fundamental_div_mod(n, c);
        let q = n / c;
        let r = n % c;
        assert(n == b * (k * q) + r) by (nonlinear_arith)
            requires
                n == c * q + r,
                c == b * k,
        ;
        vstd::arithmetic::div_mod::lemma_mod_multiples_vanish(k * q, r, b);
        assert(r % b == n % b);
        vstd::arithmetic::div_mod::lemma_mod_decreases(r as nat, b as nat);
        assert(n % c >= n % b);
        assert((c * 10) % b == 0) by {
            assert(c * 10 == b * (k * 10)) by (nonlinear_arith)
                requires
                    c == b * k,
            ;
            vstd::arithmetic::div_mod::lemma_mod_multiples_basic(k * 10, b);
        }
        lemma_longer_piece(s, n, b, c * 10);
    }
}

/// The sum, over the integers from `lo` to `hi`, of the squares that can be
/// split into pieces adding up to their root.
pub open spec fn split_square_sum(lo: int, hi: int) -> int
    decreases hi - lo + 1,
{
    if hi < lo {
        0
    } else {
        split_square_sum(lo, hi - 1) + if splittable(hi, hi * hi) {
            hi * hi
        } else {
            0
        }
    }
}

/// Splitting keeps the remainder by 9: a number and what its pieces add up
/// to leave the same remainder.
pub proof fn lemma_split_mod_9(s: int, n: int)
    requires
        0 <= s,
        splittable(s, n),
    ensures
        s % 9 == n % 9,
    decreases n, 1int, 0int,
{
    if s != n {
        lemma_split_from_mod_9(s, n, 10);
    }
}

/// The same, for the cuts from the power of ten `b` on.
proof fn lemma_split_from_mod_9(s: int, n: int, b: int)
    requires
        0 <= s,
        0 < n,
        b % 9 == 1,
        split_from(s, n, b),
    ensures
        s % 9 == n % 9,
    decreases n, 0int, room(n, b),
{
    if n % b <= s && 0 <= n / b < n && splittable(s - n % b, n / b) {
        lemma_split_mod_9(s - n % b, n / b);
        vstd::arithmetic::div_mod::lemma_fundamental_div_mod(n, b);
        let q = n / b;
        let d = n % b;
        let t = b / 9;
        assert(b == 9 * t + 1);
        assert(n == 9 * (t * q) + (q + d)) by (nonlinear_arith)
            requires
                n == b * q + d,
                b == 9 * t + 1,
        ;
        vstd::arithmetic::div_mod::lemma_mod_multiples_vanish(t * q, q + d, 9);
    } else {
        lemma_split_from_mod_9(s, n, b * 10);
    }
}

/// Number splitting: the sum of the squares up to ten to the twelfth that
/// can be split into two or more pieces adding up to their root. The square
/// of 1 does not count: it cannot be cut.
pub fn p719() -> (sum: u64)
    ensures
        sum == split_square_sum(9, 1_000_000),
{
    let mut sum: u64 = 0;
    let mut n: u64 = 9;
    while n <= 1_000_000
        invariant
            9 <= n <= 1_000_001,
            sum == split_square_sum(9, n - 1),
            sum <= (n - 1) * 1_000_000_000_000,
        decreases 1_000_001 - n,
    {
        assert(n * n <= 1_000_000_000_000) by (nonlinear_arith)
            requires
                n <= 1_000_000,
        ;
        assert((n - 1) * 1_000_000_000_000 + 1_000_000_000_000 <= 1_000_000
            * 1_000_000_000_000) by (nonlinear_arith)
            requires
                n <= 1_000_000,
        ;
        // Splitting digits preserves the digit sum, so n == n^2 (mod 9)
        // is needed.
        let square = n * n;
        if n % 9 <= 1 {
            if is_splittable(n, square) {
                sum += square;
            }
        } else {
            proof {
                if splittable(n as int, n * n) {
                    lemma_split_mod_9(n as int, n * n);
                    lemma_square_mod_9(n as int);
                }
            }
        }
        n += 1;
    }
    sum
}

/// A number that leaves the same remainder by 9 as its square leaves 0 or 1.
proof fn lemma_square_mod_9(n: int)
    requires
        0 <= n,
        n % 9 == (n * n) % 9,
    ensures
        n % 9 <= 1,
{
    let r = n % 9;
    let q = n / 9;
    assert(n * n == 9 * (q * (9 * q + 2 * r)) + r * r) by (nonlinear_arith)
        requires
            n == 9 * q + r,
    ;
    vstd::arithmetic::div_mod::lemma_mod_multiples_vanish(q * (9 * q + 2 * r), r * r, 9);
    assert((n * n) % 9 == (r * r) % 9);
    if r == 2 {
        assert(r * r == 4) by (nonlinear_arith)
            requires
                r == 2,
        ;
    } else if r == 3 {
        assert(r * r == 9) by (nonlinear_arith)
            requires
                r == 3,
        ;
    } else if r == 4 {
        assert(r * r == 16) by (nonlinear_arith)
            requires
                r == 4,
        ;
    } else if r == 5 {
        assert(r * r == 25) by (nonlinear_arith)
            requires
                r == 5,
        ;
    } else if r == 6 {
        assert(r * r == 36) by (nonlinear_arith)
            requires
                r == 6,
        ;
    } else if r == 7 {
        assert(r * r == 49) by (nonlinear_arith)
            requires
                r == 7,
        ;
    } else if r == 8 {
        assert(r * r == 64) by (nonlinear_arith)
            requires
                r == 8,
        ;
    }
}

} // verus!
