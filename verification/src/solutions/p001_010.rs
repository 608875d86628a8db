//! The first ten puzzles.

use crate::decimal::{is_palindrome, is_palindromic};
use crate::divisibility::{
    divides, is_prime, lemma_cofactor, lemma_divides_product, lemma_divides_quotient,
    lemma_divides_trans, lemma_needed_prime,
};
use crate::factors::factors;
use crate::fibs::fibs;
use crate::partitions::{is_partition3, pair_before, partitions3};
use vstd::prelude::*;

verus! {

/// The sum of the positive integers below `n` that are multiples of 3 or 5.
pub open spec fn sum_of_multiples(n: nat) -> int
    decreases n,
{
    if n <= 1 {
        0
    } else {
        sum_of_multiples((n - 1) as nat) + if (n - 1) % 3 == 0 || (n - 1) % 5 == 0 {
            n - 1
        } else {
            0
        }
    }
}

/// Multiples of 3 or 5: their sum below 1000.
pub fn p1() -> (sum: i64)
    ensures
        sum == sum_of_multiples(1000),
{
    let mut sum: i64 = 0;
    let mut x: i64 = 1;
    while x < 1000
        invariant
            1 <= x <= 1000,
            sum == sum_of_multiples(x as nat),
            0 <= sum <= 1000 * x,
        decreases 1000 - x,
    {
        if x % 3 == 0 || x % 5 == 0 {
            sum += x;
        }
        x += 1;
    }
    sum
}

/// The sum of the even terms below `limit` of the Fibonacci-like sequence
/// that starts with `a`, `b`, for `0 < a < b`.
pub open spec fn even_fib_sum(a: int, b: int, limit: int) -> int
    decreases limit - a,
{
    if a >= limit || a <= 0 || b <= a {
        0
    } else {
        (if b < limit {
            even_fib_sum(b, a + b, limit)
        } else {
            0
        }) + if a % 2 == 0 {
            a
        } else {
            0
        }
    }
}

/// Even Fibonacci numbers: the sum of the even terms below four million of
/// the sequence 1, 2, 3, 5, 8, ...
pub fn p2() -> (sum: i64)
    ensures
        sum == even_fib_sum(1, 2, 4_000_000),
{
    let mut seq = fibs(1, 2);
    let mut sum: i64 = 0;
    let ghost total = even_fib_sum(1, 2, 4_000_000);
    loop
        invariant
            0 < seq@.0 < seq@.1 <= 2 * seq@.0,
            seq@.0 <= 3 * 4_000_000,
            0 <= sum <= seq@.1 - 2,
            total == even_fib_sum(1, 2, 4_000_000),
            sum + even_fib_sum(seq@.0, seq@.1, 4_000_000) == total,
        decreases 3 * 4_000_000 - seq@.0,
    {
        match seq.next() {
            Some(x) => {
                if x >= 4_000_000 {
                    return sum;
                }
                if x % 2 == 0 {
                    sum += x;
                }
            },
            None => {
                return sum;
            },
        }
    }
}

/// The number whose greatest prime factor the third puzzle asks for.
pub const P3_NUMBER: i64 = 600851475143;

/// Largest prime factor: the greatest prime that divides 600851475143.
pub fn p3() -> (factor: i64)
    ensures
        is_prime(factor as int),
        divides(factor as int, P3_NUMBER as int),
        forall|p: int| is_prime(p) && #[trigger] divides(p, P3_NUMBER as int) ==> p <= factor,
{
    match factors(P3_NUMBER).last() {
        Some(q) => q,
        None => 1,
    }
}

/// The product of two integers.
pub open spec fn product_of(a: int, b: int) -> int {
    a * b
}

/// `n` is a palindrome and the product of two three-digit numbers.
pub open spec fn palindrome_product(n: int) -> bool {
    exists|a: int, b: int|
        100 <= a < 1000 && 100 <= b < 1000 && n == #[trigger] product_of(a, b) && is_palindromic(n)
}

/// Largest palindrome product: the greatest palindrome that is the product
/// of two three-digit numbers.
#[verifier::rlimit(40)]
pub fn p4() -> (best: i64)
    ensures
        palindrome_product(best as int),
        forall|a: int, b: int|
            100 <= a < 1000 && 100 <= b < 1000 && is_palindromic(#[trigger] product_of(a, b))
                ==> product_of(a, b) <= best,
{
    let mut best: i64 = 10201;
    proof {
        assert(10201 == product_of(101, 101));
        lemma_10201_is_palindromic();
    }
    let mut a: i64 = 100;
    while a < 1000
        invariant
            100 <= a <= 1000,
            0 <= best < 1_000_000,
            palindrome_product(best as int),
            forall|x: int, y: int|
                100 <= x < a && 100 <= y < 1000 && is_palindromic(#[trigger] product_of(x, y))
                    ==> product_of(x, y) <= best,
        decreases 1000 - a,
    {
        let mut b: i64 = 100;
        while b < 1000
            invariant
                100 <= a < 1000,
                100 <= b <= 1000,
                0 <= best < 1_000_000,
                palindrome_product(best as int),
                forall|x: int, y: int|
                    100 <= x < a && 100 <= y < 1000 && is_palindromic(#[trigger] product_of(x, y))
                        ==> product_of(x, y) <= best,
                forall|y: int|
                    100 <= y < b && is_palindromic(#[trigger] product_of(a as int, y))
                        ==> product_of(a as int, y) <= best,
            decreases 1000 - b,
        {
            assert(0 <= a * b < 1_000_000) by (nonlinear_arith)
                requires
                    100 <= a < 1000,
                    100 <= b < 1000,
            ;
            let n = a * b;
            assert(n == product_of(a as int, b as int));
            if is_palindrome(n) && n > best {
                best = n;
            }
            b += 1;
        }
        a += 1;
    }
    best
}

/// 10201, the square of 101, reads the same from both ends.
proof fn lemma_10201_is_palindromic()
    ensures
        is_palindromic(10201),
{
    reveal_with_fuel(crate::decimal::digits, 6);
    let ds = crate::decimal::digits(10201);
    assert(ds =~= seq![1int, 0, 2, 0, 1]);
    assert(ds.reverse() =~= ds);
}

/// The product of the integers from 1 to `n`.
pub open spec fn factorial(n: nat) -> int
    decreases n,
{
    if n == 0 {
        1
    } else {
        n * factorial((n - 1) as nat)
    }
}

/// Factorials are positive.
pub proof fn lemma_factorial_positive(n: nat)
    ensures
        1 <= factorial(n),
    decreases n,
{
    if n > 0 {
        lemma_factorial_positive((n - 1) as nat);
        assert(n * factorial((n - 1) as nat) >= 1) by (nonlinear_arith)
            requires
                n >= 1,
                factorial((n - 1) as nat) >= 1,
        ;
    }
}

/// Factorials grow, and that of 20 fits an `i64`.
pub proof fn lemma_factorial(n: nat)
    requires
        n <= 20,
    ensures
        1 <= factorial(n) <= 2432902008176640000,
    decreases 20 - n,
{
    assert(factorial(20) == 2432902008176640000) by {
        reveal_with_fuel(factorial, 6);
        assert(factorial(5) == 120);
        assert(factorial(10) == 3628800);
        assert(factorial(15) == 1307674368000);
    }
    lemma_factorial_positive(n);
    if n < 20 {
        lemma_factorial(n + 1);
        assert(factorial(n) <= factorial(n + 1)) by (nonlinear_arith)
            requires
                factorial(n + 1) == (n + 1) * factorial(n),
                factorial(n) >= 1,
        ;
    }
}

/// `m` is a positive multiple of every integer from 1 to `k`.
pub open spec fn common_multiple(m: int, k: int) -> bool {
    m > 0 && forall|j: int| 1 <= j <= k ==> #[trigger] divides(j, m)
}

/// `n` is the least common multiple of the integers from 1 to `k`: a
/// common multiple that divides every common multiple.
pub open spec fn least_common_multiple(n: int, k: int) -> bool {
    common_multiple(n, k) && forall|m: int| #[trigger] common_multiple(m, k) ==> divides(n, m)
}

/// `m` is a positive multiple of both `a` and `b`.
pub open spec fn joint_multiple(m: int, a: int, b: int) -> bool {
    m > 0 && divides(a, m) && divides(b, m)
}

/// Every joint multiple of `a` and `b` is a multiple of `x`.
pub open spec fn in_every_multiple(x: int, a: int, b: int) -> bool {
    forall|m: int| #[trigger] joint_multiple(m, a, b) ==> divides(x, m)
}

/// A prime that cannot be spared stays: where `a` is in every joint
/// multiple of `base` and `k`, and `k` divides `a * q * p` but not `a * q`,
/// `a * p` is in every joint multiple too.
proof fn lemma_keep_prime(base: int, k: int, a: int, q: int, p: int)
    requires
        base > 0,
        k > 0,
        a > 0,
        q > 0,
        is_prime(p),
        in_every_multiple(a, base, k),
        divides(k, a * q * p),
        !divides(k, a * q),
    ensures
        in_every_multiple(a * p, base, k),
{
    assert forall|m: int| #[trigger] joint_multiple(m, base, k) implies divides(a * p, m) by {
        assert(divides(a, m));
        lemma_divides_quotient(a, m);
        let c = m / a;
        assert(c > 0) by (nonlinear_arith)
            requires
                m == a * c,
                m > 0,
                a > 0,
        ;
        lemma_needed_prime(k, a, q, p, c);
        lemma_divides_quotient(p, c);
        let e = c / p;
        assert(m == (a * p) * e) by (nonlinear_arith)
            requires
                m == a * c,
                c == p * e,
        ;
        assert(a * p > 0) by (nonlinear_arith)
            requires
                a > 0,
                p >= 2,
        ;
        lemma_divides_product(a * p, e);
    }
}

/// Smallest multiple: the least common multiple of the integers from 1 to
/// 20, that is the least positive number that all of them divide.
///
/// For each `k` the number is multiplied by `k`, and then divided by every
/// prime factor of `k` that it can spare.
#[verifier::rlimit(40)]
pub fn p5() -> (n: i64)
    ensures
        least_common_multiple(n as int, 20),
{
    let mut n: i64 = 1;
    let mut k: i64 = 2;
    proof {
        reveal_with_fuel(factorial, 2);
        assert forall|m: int| #[trigger] common_multiple(m, 1) implies divides(1, m) by {
            assert(divides(1, m));
        }
        assert(divides(1, 1));
    }
    while k <= 20
        invariant
            2 <= k <= 21,
            1 <= n <= factorial((k - 1) as nat),
            least_common_multiple(n as int, k - 1),
        decreases 21 - k,
    {
        let ghost base = n as int;
        proof {
            lemma_factorial(k as nat);
            assert(n * k <= factorial(k as nat)) by (nonlinear_arith)
                requires
                    1 <= n <= factorial((k - 1) as nat),
                    factorial(k as nat) == k * factorial((k - 1) as nat),
                    k >= 2,
            ;
            assert(n * k >= 1) by (nonlinear_arith)
                requires
                    n >= 1,
                    k >= 2,
            ;
            lemma_divides_product(k as int, base);
        }
        n = n * k;
        let mut f = factors(k);
        let ghost mut kept: int = 1;
        proof {
            assert(base * 1 * k == base * k) by (nonlinear_arith);
            assert(base * 1 == base);
            assert(in_every_multiple(base * kept, base, k as int));
        }
        loop
            invariant
                f.wf(),
                2 <= k <= 20,
                1 <= base,
                1 <= kept,
                1 <= n <= factorial(k as nat),
                n == base * kept * f.rest(),
                divides(k as int, n as int),
                divides(f.rest(), k as int),
                factorial(k as nat) <= 2432902008176640000,
                in_every_multiple(base * kept, base, k as int),
            ensures
                f.rest() == 1,
            decreases f.rest(),
        {
            let ghost rest = f.rest();
            match f.next() {
                Some(p) => {
                    let ghost rest2 = f.rest();
                    proof {
                        lemma_divides_trans(p as int, rest, k as int);
                        lemma_divides_trans(p as int, k as int, n as int);
                        lemma_cofactor(p as int, rest);
                        lemma_divides_trans(rest2, rest, k as int);
                        assert(n == (base * kept * rest2) * p) by (nonlinear_arith)
                            requires
                                n == base * kept * rest,
                                rest2 * p == rest,
                        ;
                        vstd::arithmetic::div_mod::lemma_div_multiples_vanish(
                            base * kept * rest2,
                            p as int,
                        );
                        assert(n as int / p as int == base * kept * rest2);
                        assert(1 <= base * kept * rest2 <= n) by (nonlinear_arith)
                            requires
                                n == (base * kept * rest2) * p,
                                p >= 2,
                                n >= 1,
                                base >= 1,
                                kept >= 1,
                                rest2 >= 0,
                        ;
                        assert(rest2 < rest) by (nonlinear_arith)
                            requires
                                rest2 * p == rest,
                                p >= 2,
                                rest >= 1,
                        ;
                    }
                    if (n / p) % k == 0 {
                        n = n / p;
                    } else {
                        proof {
                            assert(base * (kept * p) * rest2 == (base * kept * rest2) * p)
                                by (nonlinear_arith);
                            assert(kept * p >= 1) by (nonlinear_arith)
                                requires
                                    kept >= 1,
                                    p >= 2,
                            ;
                            assert(base * kept >= 1 && rest2 >= 1) by (nonlinear_arith)
                                requires
                                    base >= 1,
                                    kept >= 1,
                                    rest2 * p == rest,
                                    rest >= 1,
                                    p >= 2,
                                    rest2 >= 0,
                            ;
                            lemma_keep_prime(base, k as int, base * kept, rest2, p as int);
                            assert((base * kept) * p == base * (kept * p)) by (nonlinear_arith);
                            kept = kept * p;
                        }
                    }
                },
                None => {
                    break;
                },
            }
        }
        proof {
            assert(n == base * kept) by (nonlinear_arith)
                requires
                    n == base * kept * f.rest(),
                    f.rest() == 1,
            ;
            lemma_divides_product(base, kept);
            assert forall|j: int| 1 <= j <= k implies #[trigger] divides(j, n as int) by {
                if j < k {
                    assert(divides(j, base));
                    lemma_divides_trans(j, base, n as int);
                }
            }
            assert forall|m: int| #[trigger] common_multiple(m, k as int) implies divides(
                n as int,
                m,
            ) by {
                assert(common_multiple(m, k - 1)) by {
                    assert forall|j: int| 1 <= j <= k - 1 implies #[trigger] divides(j, m) by {
                    }
                }
                assert(divides(base, m));
                assert(divides(k as int, m));
                assert(joint_multiple(m, base, k as int));
            }
        }
        k += 1;
    }
    n
}

/// The sum of the integers from 1 to `n`.
pub open spec fn sum_to(n: nat) -> int
    decreases n,
{
    if n == 0 {
        0
    } else {
        sum_to((n - 1) as nat) + n
    }
}

/// The sum of the squares of the integers from 1 to `n`.
pub open spec fn sum_of_squares_to(n: nat) -> int
    decreases n,
{
    if n == 0 {
        0
    } else {
        sum_of_squares_to((n - 1) as nat) + n * n
    }
}

/// The closed forms of the two sums.
pub proof fn lemma_sum_formulas(n: nat)
    ensures
        2 * sum_to(n) == n * (n + 1),
        6 * sum_of_squares_to(n) == n * (n + 1) * (2 * n + 1),
    decreases n,
{
    if n > 0 {
        let k = (n - 1) as nat;
        lemma_sum_formulas(k);
        let s = sum_to(k);
        let q = sum_of_squares_to(k);
        assert(2 * (s + n) == n * (n + 1)) by (nonlinear_arith)
            requires
                k == n - 1,
                2 * s == k * (k + 1),
        ;
        assert(6 * (q + n * n) == n * (n + 1) * (2 * n + 1)) by (nonlinear_arith)
            requires
                k == n - 1,
                6 * q == k * (k + 1) * (2 * k + 1),
        ;
    } else {
        assert(n * (n + 1) == 0 && n * (n + 1) * (2 * n + 1) == 0) by (nonlinear_arith)
            requires
                n == 0,
        ;
    }
}

/// Squares a number.
fn square(n: u32) -> (sq: u32)
    requires
        n <= 65535,
    ensures
        sq == n * n,
{
    assert(n * n <= 65535 * 65535) by (nonlinear_arith)
        requires
            n <= 65535,
    ;
    n * n
}

/// Sum-square difference: the square of the sum of 1 to 100, less the sum
/// of their squares.
pub fn p6() -> (difference: u32)
    ensures
        difference == sum_to(100) * sum_to(100) - sum_of_squares_to(100),
        difference == 25164150,
{
    let mut sum_of_squares: u32 = 0;
    let mut sum: u32 = 0;
    let mut k: u32 = 1;
    while k <= 100
        invariant
            1 <= k <= 101,
            sum == sum_to((k - 1) as nat),
            sum_of_squares == sum_of_squares_to((k - 1) as nat),
            sum <= 101 * k,
            sum_of_squares <= 10201 * k,
        decreases 101 - k,
    {
        let sq = square(k);
        assert(sq <= 10201) by (nonlinear_arith)
            requires
                sq == k * k,
                k <= 100,
        ;
        sum_of_squares += sq;
        sum += k;
        k += 1;
    }
    proof {
        lemma_sum_formulas(100);
        assert(sum == 5050);
        assert(sum_of_squares == 338350) by {
            assert(100 * (100 + 1) * (2 * 100 + 1) == 2030100) by (nonlinear_arith);
        }
        assert(5050 * 5050 == 25502500) by (nonlinear_arith);
    }
    let square_of_sum = square(sum);
    square_of_sum - sum_of_squares
}

/// `(a, b, 1000 - a - b)` is a Pythagorean triple in ascending order.
pub open spec fn special_triple(a: int, b: int) -> bool {
    is_partition3(1000, a, b) && a * a + b * b == (1000 - a - b) * (1000 - a - b)
}

/// The product of the triple that starts with `a`, `b` and adds up to 1000.
pub open spec fn triple_product(a: int, b: int) -> int {
    a * b * (1000 - a - b)
}

/// Special Pythagorean triplet: the product of the Pythagorean triple that
/// adds up to 1000; the greatest product, were there several such triples.
#[verifier::rlimit(40)]
pub fn p9() -> (best: i64)
    ensures
        exists|a: int, b: int| #[trigger] special_triple(a, b) && best == triple_product(a, b),
        forall|a: int, b: int| #[trigger] special_triple(a, b) ==> triple_product(a, b) <= best,
{
    let mut parts = partitions3(1000);
    let mut best: Option<i64> = None;
    loop
        invariant
            parts.wf(),
            parts.total() == 1000,
            parts.at().0 <= 1000,
            parts.at().1 <= 1001,
            forall|a: int, b: int|
                #[trigger] special_triple(a, b) && pair_before(a, b, parts.at().0, parts.at().1)
                    ==> best is Some && triple_product(a, b) <= best->0,
            best is Some ==> exists|a: int, b: int|
                #[trigger] special_triple(a, b) && best->0 == triple_product(a, b),
        decreases 1000 - parts.at().0, 1001 - parts.at().1,
    {
        let ghost at = parts.at();
        proof {
            parts.lemma_wf();
        }
        match parts.next() {
            Some((a, b, c)) => {
                assert(0 < a * a <= 1_000_000 && 0 < b * b <= 1_000_000 && 0 < c * c <= 1_000_000
                    && 0 < a * b <= 1_000_000 && 0 < a * b * c <= 1_000_000_000)
                    by (nonlinear_arith)
                    requires
                        0 < a < 1000,
                        0 < b < 1000,
                        0 < c < 1000,
                ;
                if a * a + b * b == c * c {
                    let n = a * b * c;
                    assert(special_triple(a as int, b as int));
                    assert(n == triple_product(a as int, b as int));
                    let better = match best {
                        Some(m) => n > m,
                        None => true,
                    };
                    if better {
                        best = Some(n);
                    }
                }
                proof {
                    assert forall|x: int, y: int|
                        #[trigger] special_triple(x, y) && pair_before(
                            x,
                            y,
                            parts.at().0,
                            parts.at().1,
                        ) implies best is Some && triple_product(x, y) <= best->0 by {
                        assert(is_partition3(1000, x, y));
                        if pair_before(a as int, b as int, x, y) {
                            assert(false);
                        }
                    }
                }
            },
            None => {
                proof {
                    assert(special_triple(200, 375)) by (nonlinear_arith);
                    assert(is_partition3(1000, 200, 375));
                    lemma_no_partition_after(at.0, at.1, 200, 375);
                    assert forall|x: int, y: int| #[trigger] special_triple(x, y) implies best is Some
                        && triple_product(x, y) <= best->0 by {
                        lemma_no_partition_after(at.0, at.1, x, y);
                    }
                }
                return best.unwrap();
            },
        }
    }
}

/// Once a pair of parts can no longer start a triple, no later pair can:
/// every triple comes before it.
proof fn lemma_no_partition_after(a: int, b: int, x: int, y: int)
    requires
        1 <= a < b,
        !is_partition3(1000, a, b),
        is_partition3(1000, x, y),
        b == a + 1,
    ensures
        pair_before(x, y, a, b),
{
}

} // verus!
