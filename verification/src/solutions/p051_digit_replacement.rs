//! Prime digit replacements: families of numbers that differ in three equal
//! digits, and the primes among them.
//!
//! There are 10 possible digit replacements, and none of them can be
//! divisible by 3. So if we are to get 8 primes, there must be a multiple of
//! 3 replaced digits: for numbers under 1,000,000, exactly 3 repeated
//! digits, with three fixed digits around them. The final digit cannot be in
//! the repeating group, since half of those numbers are even; that leaves 10
//! places for the other two fixed digits.

use crate::best::Best;
use crate::decimal::POWERS_OF_10;
use crate::divisibility::is_prime;
use crate::sieves::{sieve_is_prime, sieve_new, sieve_reach};
use vstd::prelude::*;

verus! {

/// Ten to the power of `k`, for `k` up to 5.
pub open spec fn ten_power(k: int) -> int {
    if k == 0 {
        1
    } else if k == 1 {
        10
    } else if k == 2 {
        100
    } else if k == 3 {
        1000
    } else if k == 4 {
        10_000
    } else {
        100_000
    }
}

/// The higher of the two places of fixed digits of the `m`-th pattern.
pub open spec fn high_place(m: int) -> int {
    if m == 0 {
        2
    } else if m == 1 || m == 2 {
        3
    } else if m == 3 || m == 4 || m == 5 {
        4
    } else {
        5
    }
}

/// The lower of the two places of fixed digits of the `m`-th pattern.
pub open spec fn low_place(m: int) -> int {
    if m == 0 || m == 1 || m == 3 || m == 6 {
        1
    } else if m == 2 || m == 4 || m == 7 {
        2
    } else if m == 5 || m == 8 {
        3
    } else {
        4
    }
}

/// The fixed digits of the family of `n` in the `m`-th pattern, at their
/// places: the hundreds digit of `n` at the lower place, its tens digit at
/// the higher place, and its units digit as the units.
pub open spec fn fixed_digits(n: int, m: int) -> int {
    (n / 100) * ten_power(low_place(m)) + ((n / 10) % 10) * ten_power(high_place(m)) + n % 10
}

/// A one at each of the three places of the repeated digit of the `m`-th
/// pattern.
pub open spec fn repeat_mask(m: int) -> int {
    111_111 - (ten_power(low_place(m)) + ten_power(high_place(m)) + 1)
}

/// The member of the family of `n` in the `m`-th pattern with the repeated
/// digit `j`.
pub open spec fn member(n: int, m: int, j: int) -> int {
    fixed_digits(n, m) + j * repeat_mask(m)
}

/// A member counts if it is a prime of six digits.
pub open spec fn counts(x: int) -> bool {
    x > 100_000 && is_prime(x)
}

/// How many of the members with a repeated digit below `j` count.
pub open spec fn family_count(n: int, m: int, j: int) -> int
    decreases j,
{
    if j <= 0 {
        0
    } else {
        family_count(n, m, j - 1) + if counts(member(n, m, j - 1)) {
            1int
        } else {
            0int
        }
    }
}

/// The least of the members with a repeated digit below `j` that count.
pub open spec fn family_least(n: int, m: int, j: int) -> Option<int>
    decreases j,
{
    if j <= 0 {
        None
    } else {
        match family_least(n, m, j - 1) {
            Some(x) => Some(x),
            None => if counts(member(n, m, j - 1)) {
                Some(member(n, m, j - 1))
            } else {
                None
            },
        }
    }
}

/// The family of `n` in the `m`-th pattern is searched, and holds eight
/// primes at least. A family is searched if its last digit is 1, 3, 7 or 9.
pub open spec fn eight_primes(n: int, m: int) -> bool {
    &&& 0 <= n < 1000
    &&& 0 <= m < 10
    &&& (n % 10 == 1 || n % 10 == 3 || n % 10 == 7 || n % 10 == 9)
    &&& family_count(n, m, 10) >= 8
}

/// The two places of fixed digits of the `m`-th pattern, higher first.
pub fn pattern(m: usize) -> (places: (usize, usize))
    requires
        m < 10,
    ensures
        places.0 == high_place(m as int),
        places.1 == low_place(m as int),
{
    if m == 0 {
        (2, 1)  // ***abc
    } else if m == 1 {
        (3, 1)  // **a*bc
    } else if m == 2 {
        (3, 2)  // **ab*c
    } else if m == 3 {
        (4, 1)  // *a**bc
    } else if m == 4 {
        (4, 2)  // *a*b*c
    } else if m == 5 {
        (4, 3)  // *ab**c
    } else if m == 6 {
        (5, 1)  // a***bc
    } else if m == 7 {
        (5, 2)  // a**b*c
    } else if m == 8 {
        (5, 3)  // a*b**c
    } else {
        (5, 4)  // ab***c
    }
}

/// Offers `x` to the least so far.
fn keep_least(least: &mut Best<usize>, x: usize)
    ensures
        final(least)@ == match old(least)@ {
            Some(current) => if x >= current {
                Some(current)
            } else {
                Some(x)
            },
            None => Some(x),
        },
{
    least.min(x);
}

/// The members of a family count up with the repeated digit, and stay
/// below a million.
pub proof fn lemma_member(n: int, m: int, j: int)
    requires
        0 <= n < 1000,
        0 <= m < 10,
        0 <= j < 10,
    ensures
        0 <= member(n, m, j) < 1_000_000,
        0 < repeat_mask(m),
        0 <= fixed_digits(n, m),
        member(n, m, j + 1) == member(n, m, j) + repeat_mask(m),
{
    let a = n / 100;
    let b = (n / 10) % 10;
    let c = n % 10;
    let lo = ten_power(low_place(m));
    let hi = ten_power(high_place(m));
    assert(0 <= a * lo <= 9 * lo && 0 <= b * hi <= 9 * hi) by (nonlinear_arith)
        requires
            0 <= a <= 9,
            0 <= b <= 9,
            0 < lo,
            0 < hi,
    ;
    let mask = repeat_mask(m);
    assert(0 <= j * mask <= 9 * mask && (j + 1) * mask == j * mask + mask) by (nonlinear_arith)
        requires
            0 <= j <= 9,
            0 < mask,
    ;
}

/// The least member that counts is among the members, and no member that
/// counts is less.
pub proof fn lemma_family_least(n: int, m: int, j: int)
    requires
        0 <= n < 1000,
        0 <= m < 10,
        0 <= j <= 10,
    ensures
        family_count(n, m, j) >= 0,
        family_count(n, m, j) > 0 <==> family_least(n, m, j) is Some,
        family_least(n, m, j) matches Some(x) ==> counts(x) && x < 1_000_000,
    decreases j,
{
    if j > 0 {
        lemma_family_least(n, m, j - 1);
        lemma_member(n, m, j - 1);
    }
}

/// Prime digit replacements: the least prime of the searched families with
/// eight primes at least; `None` if there is no such family.
#[verifier::rlimit(40)]
pub fn p51() -> (found: Option<usize>)
    ensures
        match found {
            Some(p) => {
                &&& exists|n: int, m: int|
                    #[trigger] eight_primes(n, m) && family_least(n, m, 10) == Some(p as int)
                &&& forall|n: int, m: int|
                    #[trigger] eight_primes(n, m) ==> (family_least(n, m, 10) matches Some(x) && p
                        <= x)
            },
            None => forall|n: int, m: int| !#[trigger] eight_primes(n, m),
        },
{
    let sieve = sieve_new(1_000_000);
    let mut min: Best<usize> = Best::new();
    for n in 0..1000usize
        invariant
            sieve_reach(sieve) >= 1_000_000,
            min@ matches Some(p) ==> exists|x: int, y: int|
                #[trigger] eight_primes(x, y) && family_least(x, y, 10) == Some(p as int),
            forall|x: int, y: int|
                #[trigger] eight_primes(x, y) && x < n ==> (min@ matches Some(p) && family_least(
                    x,
                    y,
                    10,
                ) matches Some(least) && p <= least),
    {
        let (a, b, c) = (n / 100, (n / 10) % 10, n % 10);
        // Quick optimization: if c, the final fixed digit, is 0, 2, 4, 5, 6, or 8,
        // then none of the generated numbers are going to be prime.
        if c == 1 || c == 3 || c == 7 || c == 9 {
            for m in 0..10usize
                invariant
                    sieve_reach(sieve) >= 1_000_000,
                    0 <= n < 1000,
                    a == n / 100,
                    b == (n / 10) % 10,
                    c == n % 10,
                    c == 1 || c == 3 || c == 7 || c == 9,
                    min@ matches Some(p) ==> exists|x: int, y: int|
                        #[trigger] eight_primes(x, y) && family_least(x, y, 10) == Some(p as int),
                    forall|x: int, y: int|
                        #[trigger] eight_primes(x, y) && (x < n || (x == n && y < m)) ==> (
                        min@ matches Some(p) && family_least(x, y, 10) matches Some(least) && p
                            <= least),
            {
                let (k2, k1) = pattern(m);
                let low = POWERS_OF_10[k1] as usize;
                let high = POWERS_OF_10[k2] as usize;
                assert(low == ten_power(k1 as int) && high == ten_power(k2 as int));
                assert(a * low <= 9 * low && b * high <= 9 * high) by (nonlinear_arith)
                    requires
                        0 <= a <= 9,
                        0 <= b <= 9,
                        0 < low,
                        0 < high,
                ;
                let fixed_digits = a * low + b * high + c;
                let mask = 111_111 - (low + high + 1);
                let mut count: usize = 0;
                let mut first_prime: Best<usize> = Best::new();
                for j in 0..10usize
                    invariant
                        sieve_reach(sieve) >= 1_000_000,
                        0 <= n < 1000,
                        0 <= m < 10,
                        fixed_digits == crate::solutions::p051_digit_replacement::fixed_digits(
                            n as int,
                            m as int,
                        ),
                        mask == repeat_mask(m as int),
                        count == family_count(n as int, m as int, j as int),
                        count <= j,
                        first_prime@ == match family_least(n as int, m as int, j as int) {
                            Some(x) => Some(x as usize),
                            None => None,
                        },
                {
                    proof {
                        lemma_member(n as int, m as int, j as int);
                        lemma_family_least(n as int, m as int, j as int);
                    }
                    let num = fixed_digits + j * mask;
                    assert(num == member(n as int, m as int, j as int));
                    if num > 100_000 && sieve_is_prime(&sieve, num) {
                        count += 1;
                        proof {
                            if family_least(n as int, m as int, j as int) is Some {
                                lemma_least_below(n as int, m as int, j as int, j as int);
                            }
                        }
                        keep_least(&mut first_prime, num);
                    }
                }
                if count >= 8 {
                    proof {
                        lemma_family_least(n as int, m as int, 10);
                        assert(eight_primes(n as int, m as int));
                    }
                    let least = match first_prime.into_inner() {
                        Some(least) => least,
                        None => 0,
                    };
                    keep_least(&mut min, least);
                }
            }
        }
    }
    min.into_inner()
}

/// The least member that counts among the first `j` is a member with a
/// repeated digit below `j`, and so below the member with the digit `k`.
pub proof fn lemma_least_below(n: int, m: int, j: int, k: int)
    requires
        0 <= n < 1000,
        0 <= m < 10,
        0 <= j <= k < 10,
        family_least(n, m, j) is Some,
    ensures
        family_least(n, m, j)->0 < member(n, m, k),
    decreases j,
{
    if j > 0 {
        if family_least(n, m, j - 1) is Some {
            lemma_least_below(n, m, j - 1, k);
        } else {
            lemma_member_order(n, m, j - 1, k);
        }
    }
}

/// Members count up with the repeated digit.
pub proof fn lemma_member_order(n: int, m: int, i: int, k: int)
    requires
        0 <= n < 1000,
        0 <= m < 10,
        0 <= i < k < 10,
    ensures
        member(n, m, i) < member(n, m, k),
{
    let mask = repeat_mask(m);
    lemma_member(n, m, i);
    assert(i * mask < k * mask) by (nonlinear_arith)
        requires
            0 <= i < k,
            0 < mask,
    ;
}

} // verus!
