//! The first triangle number with more than five hundred divisors.
//!
//! If `n = p1^n1 * p2^n2 * p3^n3 * ...` then the number of divisors of `n`
//! is `(n1 + 1) * (n2 + 1) * (n3 + 1) * ...`.

use crate::divisibility::{divides, is_prime, lemma_divides_product, lemma_small_primes};
use crate::sieves::{
    is_factorisation, pair_exponent, pair_prime, prime_power_product, sieve_factor, sieve_new,
    sieve_reach,
};
use crate::solutions::p127_abc_hits::lemma_prime_in_factorisation;
use crate::solutions::p357_prime_generating_ints::{lemma_power_in_product, lemma_product_positive};
use vstd::arithmetic::power::{lemma_pow1, lemma_pow_adds, lemma_pow_positive, pow};
use vstd::prelude::*;

verus! {

/// The `k`-th triangle number.
pub open spec fn triangle_number(k: int) -> int {
    k * (k + 1) / 2
}

/// The product of the exponents, each plus one, of a factorisation: the
/// number of divisors of the number that is factorised.
pub open spec fn divisor_count(pairs: Seq<(usize, usize)>) -> int
    decreases pairs.len(),
{
    if pairs.len() == 0 {
        1
    } else {
        divisor_count(pairs.drop_last()) * (pair_exponent(pairs.last()) + 1)
    }
}

/// `n` has more than `bound` divisors, by its factorisation.
pub open spec fn divisors_above(n: int, bound: int) -> bool {
    exists|pairs: Seq<(usize, usize)>| #[trigger] is_factorisation(pairs, n) && divisor_count(pairs) > bound
}

/// `n` has `bound` divisors at most, by its factorisation.
pub open spec fn divisors_up_to(n: int, bound: int) -> bool {
    exists|pairs: Seq<(usize, usize)>|
        #[trigger] is_factorisation(pairs, n) && divisor_count(pairs) <= bound
}

/// The number of divisors that a factorisation stands for; `None` if it
/// does not fit a `usize`.
pub fn count_divisors(pairs: &Vec<(usize, usize)>) -> (count: Option<usize>)
    ensures
        match count {
            Some(c) => c == divisor_count(pairs@),
            None => divisor_count(pairs@) > usize::MAX,
        },
{
    let mut count: usize = 1;
    assert(pairs@.take(0) =~= Seq::<(usize, usize)>::empty());
    for i in 0..pairs.len()
        invariant
            count == divisor_count(pairs@.take(i as int)),
            count >= 1,
    {
        let (_, e) = pairs[i];
        proof {
            assert(pairs@.take(i + 1).drop_last() =~= pairs@.take(i as int));
            assert(pairs@.take(i + 1).last() == pairs@[i as int]);
        }
        let next = match e.checked_add(1) {
            Some(e1) => count.checked_mul(e1),
            None => None,
        };
        match next {
            Some(c) => {
                assert(c >= 1) by (nonlinear_arith)
                    requires
                        c == count * (e + 1),
                        count >= 1,
                        e >= 0,
                ;
                count = c;
            },
            None => {
                proof {
                    lemma_divisor_count_grows(pairs@, i + 1);
                    assert(divisor_count(pairs@.take(i + 1)) == count * (e + 1));
                    assert(count * (e + 1) > usize::MAX) by (nonlinear_arith)
                        requires
                            count >= 1,
                            e + 1 > usize::MAX || count * (e + 1) > usize::MAX,
                            e >= 0,
                    ;
                }
                return None;
            },
        }
    }
    assert(pairs@.take(pairs@.len() as int) =~= pairs@);
    Some(count)
}

/// The count of a part of a factorisation is no greater than that of the
/// whole.
pub proof fn lemma_divisor_count_grows(pairs: Seq<(usize, usize)>, part: int)
    requires
        0 <= part <= pairs.len(),
    ensures
        1 <= divisor_count(pairs.take(part)) <= divisor_count(pairs),
    decreases pairs.len() - part,
{
    if part == pairs.len() {
        assert(pairs.take(part) =~= pairs);
        lemma_divisor_count_positive(pairs);
    } else {
        lemma_divisor_count_grows(pairs, part + 1);
        assert(pairs.take(part + 1).drop_last() =~= pairs.take(part));
        lemma_divisor_count_positive(pairs.take(part));
        let c = divisor_count(pairs.take(part));
        let e = pair_exponent(pairs.take(part + 1).last());
        assert(c <= c * (e + 1)) by (nonlinear_arith)
            requires
                c >= 1,
                e >= 0,
        ;
    }
}

/// A count of divisors is positive.
pub proof fn lemma_divisor_count_positive(pairs: Seq<(usize, usize)>)
    ensures
        1 <= divisor_count(pairs),
    decreases pairs.len(),
{
    if pairs.len() > 0 {
        lemma_divisor_count_positive(pairs.drop_last());
        let c = divisor_count(pairs.drop_last());
        let e = pair_exponent(pairs.last());
        assert(1 <= c * (e + 1)) by (nonlinear_arith)
            requires
                c >= 1,
                e >= 0,
        ;
    }
}

/// The primes of a factorisation are 2 at least, and its exponents 1.
pub proof fn lemma_factorisation_facts(pairs: Seq<(usize, usize)>, n: int)
    requires
        is_factorisation(pairs, n),
    ensures
        n >= 1,
        forall|k: int|
            0 <= k < pairs.len() ==> pair_prime(#[trigger] pairs[k]) >= 2 && pair_exponent(pairs[k])
                >= 1 && is_prime(pair_prime(pairs[k])),
        pairs.len() > 0 ==> is_factorisation(
            pairs.drop_last(),
            prime_power_product(pairs.drop_last()),
        ),
{
    assert forall|k: int| 0 <= k < pairs.len() implies pair_prime(#[trigger] pairs[k]) >= 2
        && pair_exponent(pairs[k]) >= 1 && is_prime(pair_prime(pairs[k])) by {
        assert(is_prime(pair_prime(pairs[k])));
    }
    lemma_product_positive(pairs);
    if pairs.len() > 0 {
        let rest = pairs.drop_last();
        assert forall|i: int| 0 <= i < rest.len() implies is_prime(pair_prime(#[trigger] rest[i]))
            && pair_exponent(rest[i]) >= 1 by {
            assert(rest[i] == pairs[i]);
        }
        assert forall|i: int, j: int| 0 <= i < j < rest.len() implies pair_prime(
            #[trigger] rest[i],
        ) < pair_prime(#[trigger] rest[j]) by {
            assert(rest[i] == pairs[i] && rest[j] == pairs[j]);
        }
    }
}

/// The greatest prime of a factorisation does not divide the product of the
/// powers before it.
pub proof fn lemma_last_prime_apart(pairs: Seq<(usize, usize)>, n: int)
    requires
        is_factorisation(pairs, n),
        pairs.len() > 0,
    ensures
        !divides(pair_prime(pairs.last()), prime_power_product(pairs.drop_last())),
{
    let rest = pairs.drop_last();
    let p = pair_prime(pairs.last());
    lemma_factorisation_facts(pairs, n);
    assert(is_prime(pair_prime(pairs[pairs.len() - 1])));
    if divides(p, prime_power_product(rest)) {
        lemma_factorisation_facts(rest, prime_power_product(rest));
        lemma_prime_in_factorisation(p, rest);
        let i = choose|i: int| 0 <= i < rest.len() && pair_prime(#[trigger] rest[i]) == p;
        assert(rest[i] == pairs[i]);
        assert(pair_prime(pairs[i]) < pair_prime(pairs[pairs.len() - 1]));
    }
}

/// The greatest prime of one factorisation of `n` is no greater than that
/// of another.
pub proof fn lemma_last_prime_bound(a: Seq<(usize, usize)>, b: Seq<(usize, usize)>, n: int)
    requires
        is_factorisation(a, n),
        is_factorisation(b, n),
        a.len() > 0,
    ensures
        b.len() > 0,
        pair_prime(a.last()) <= pair_prime(b.last()),
{
    lemma_factorisation_facts(a, n);
    lemma_factorisation_facts(b, n);
    let p = pair_prime(a.last());
    assert(is_prime(pair_prime(a[a.len() - 1])));
    lemma_power_in_product(a, a.len() - 1);
    lemma_prime_in_factorisation(p, b);
    let i = choose|i: int| 0 <= i < b.len() && pair_prime(#[trigger] b[i]) == p;
    if i < b.len() - 1 {
        assert(pair_prime(b[i]) < pair_prime(b[b.len() - 1]));
    }
}

/// Where a number times a lower power of a prime is another number times a
/// higher power, the prime divides the first number.
pub proof fn lemma_lower_power(x: int, y: int, p: int, e: nat, f: nat)
    requires
        p >= 2,
        e < f,
        x * pow(p, e) == y * pow(p, f),
    ensures
        divides(p, x),
{
    let low = pow(p, e);
    let gap = pow(p, (f - e - 1) as nat);
    lemma_pow_positive(p, e);
    lemma_pow_adds(p, e, (f - e) as nat);
    lemma_pow_adds(p, 1, (f - e - 1) as nat);
    lemma_pow1(p);
    assert(pow(p, f) == low * (p * gap));
    assert(x == p * (y * gap)) by (nonlinear_arith)
        requires
            x * low == y * (low * (p * gap)),
            low > 0,
    ;
    lemma_divides_product(p, y * gap);
}

/// A number has one factorisation only.
pub proof fn lemma_one_factorisation(a: Seq<(usize, usize)>, b: Seq<(usize, usize)>, n: int)
    requires
        is_factorisation(a, n),
        is_factorisation(b, n),
    ensures
        a == b,
    decreases a.len(),
{
    lemma_factorisation_facts(a, n);
    lemma_factorisation_facts(b, n);
    if a.len() == 0 {
        if b.len() > 0 {
            lemma_last_prime_bound(b, a, n);
        }
        assert(a =~= b);
    } else {
        lemma_last_prime_bound(a, b, n);
        lemma_last_prime_bound(b, a, n);
        let p = pair_prime(a.last());
        let e = pair_exponent(a.last()) as nat;
        let f = pair_exponent(b.last()) as nat;
        let x = prime_power_product(a.drop_last());
        let y = prime_power_product(b.drop_last());
        assert(n == x * pow(p, e));
        assert(n == y * pow(p, f));
        lemma_last_prime_apart(a, n);
        lemma_last_prime_apart(b, n);
        if e < f {
            lemma_lower_power(x, y, p, e, f);
        }
        if f < e {
            lemma_lower_power(y, x, p, f, e);
        }
        lemma_pow_positive(p, e);
        assert(x == y) by (nonlinear_arith)
            requires
                x * pow(p, e) == y * pow(p, e),
                pow(p, e) > 0,
        ;
        lemma_one_factorisation(a.drop_last(), b.drop_last(), x);
        assert(a.last() == b.last());
        assert(a =~= a.drop_last().push(a.last()));
        assert(b =~= b.drop_last().push(b.last()));
    }
}

/// A number has more than `bound` divisors or `bound` at most, not both.
pub proof fn lemma_divisors_either(n: int, bound: int)
    ensures
        !(divisors_above(n, bound) && divisors_up_to(n, bound)),
{
    if divisors_above(n, bound) && divisors_up_to(n, bound) {
        let a = choose|pairs: Seq<(usize, usize)>| #[trigger]
            is_factorisation(pairs, n) && divisor_count(pairs) > bound;
        let b = choose|pairs: Seq<(usize, usize)>| #[trigger]
            is_factorisation(pairs, n) && divisor_count(pairs) <= bound;
        lemma_one_factorisation(a, b, n);
    }
}

/// The index of a triangle number that has more than five hundred
/// divisors: the search need not go beyond it.
pub const LAST_INDEX: usize = 12_375;

/// The triangle number of `LAST_INDEX`.
pub const LAST_TRIANGLE: usize = 76_576_500;

/// The factorisation of `LAST_TRIANGLE`: `2^2 * 3^2 * 5^3 * 7 * 11 * 13 *
/// 17`.
pub open spec fn last_factors() -> Seq<(usize, usize)> {
    Seq::<(usize, usize)>::empty().push((2usize, 2usize)).push((3usize, 2usize)).push(
        (5usize, 3usize),
    ).push((7usize, 1usize)).push((11usize, 1usize)).push((13usize, 1usize)).push(
        (17usize, 1usize),
    )
}

/// 17 is a prime.
pub proof fn lemma_prime_17()
    ensures
        is_prime(17),
{
    assert forall|d: int| 1 < d < 17 implies !#[trigger] divides(d, 17) by {
        if d == 2 {
        } else if d == 3 {
        } else if d == 4 {
        } else if d == 5 {
        } else if d == 6 {
        } else if d == 7 {
        } else if d == 8 {
        } else if d == 9 {
        } else if d == 10 {
        } else if d == 11 {
        } else if d == 12 {
        } else if d == 13 {
        } else if d == 14 {
        } else if d == 15 {
        } else {
            assert(d == 16);
        }
    }
}

/// `LAST_TRIANGLE` is the triangle number of `LAST_INDEX`, and every
/// factorisation of it stands for 576 divisors.
pub proof fn lemma_last_triangle(pairs: Seq<(usize, usize)>)
    requires
        is_factorisation(pairs, LAST_TRIANGLE as int),
    ensures
        triangle_number(LAST_INDEX as int) == LAST_TRIANGLE,
        divisor_count(pairs) == 576,
{
    let k0 = Seq::<(usize, usize)>::empty();
    let k1 = k0.push((2usize, 2usize));
    let k2 = k1.push((3usize, 2usize));
    let k3 = k2.push((5usize, 3usize));
    let k4 = k3.push((7usize, 1usize));
    let k5 = k4.push((11usize, 1usize));
    let k6 = k5.push((13usize, 1usize));
    let k7 = k6.push((17usize, 1usize));
    assert(k1.drop_last() =~= k0 && k2.drop_last() =~= k1 && k3.drop_last() =~= k2);
    assert(k4.drop_last() =~= k3 && k5.drop_last() =~= k4 && k6.drop_last() =~= k5);
    assert(k7.drop_last() =~= k6);
    lemma_pow1(2);
    lemma_pow1(3);
    lemma_pow1(5);
    lemma_pow1(7);
    lemma_pow1(11);
    lemma_pow1(13);
    lemma_pow1(17);
    lemma_pow_adds(2, 1, 1);
    lemma_pow_adds(3, 1, 1);
    lemma_pow_adds(5, 1, 1);
    lemma_pow_adds(5, 2, 1);
    assert(pow(2, 2) == 4 && pow(3, 2) == 9 && pow(5, 2) == 25 && pow(5, 3) == 125);
    assert(prime_power_product(k0) == 1);
    assert(prime_power_product(k1) == 4);
    assert(k2.last() == (3usize, 2usize) && k3.last() == (5usize, 3usize));
    assert(prime_power_product(k2) == prime_power_product(k1) * pow(3, 2nat));
    assert(prime_power_product(k2) == 36);
    assert(prime_power_product(k3) == prime_power_product(k2) * pow(5, 3nat));
    assert(prime_power_product(k3) == 4_500);
    assert(prime_power_product(k4) == 31_500);
    assert(prime_power_product(k5) == 346_500);
    assert(prime_power_product(k6) == 4_504_500);
    assert(prime_power_product(k7) == 76_576_500);
    assert(divisor_count(k0) == 1);
    assert(divisor_count(k1) == 3);
    assert(divisor_count(k2) == 9);
    assert(divisor_count(k3) == 36);
    assert(divisor_count(k4) == 72);
    assert(divisor_count(k5) == 144);
    assert(divisor_count(k6) == 288);
    assert(divisor_count(k7) == 576);
    lemma_small_primes();
    lemma_prime_17();
    assert(is_factorisation(k7, LAST_TRIANGLE as int));
    lemma_one_factorisation(pairs, k7, LAST_TRIANGLE as int);
}

/// Highly divisible triangular number: the first triangle number, from the
/// tenth on, that has over five hundred divisors. There is one, no later
/// than the triangle number of `LAST_INDEX`.
pub fn p12() -> (found: usize)
    ensures
        exists|k: int|
            10 <= k <= LAST_INDEX && found == #[trigger] triangle_number(k) && divisors_above(
                found as int,
                500,
            ) && forall|j: int| 10 <= j < k ==> divisors_up_to(#[trigger] triangle_number(j), 500),
{
    let sieve = sieve_new(10_000);
    let mut k: usize = 10;
    loop
        invariant
            10 <= k <= LAST_INDEX,
            sieve_reach(sieve) >= 10_000,
            forall|j: int| 10 <= j < k ==> divisors_up_to(#[trigger] triangle_number(j), 500),
        decreases LAST_INDEX - k,
    {
        proof {
            assert(k * (k + 1) <= 12_375 * 12_376) by (nonlinear_arith)
                requires
                    0 <= k <= 12_375,
            ;
            assert(k * (k + 1) >= 2) by (nonlinear_arith)
                requires
                    k >= 10,
            ;
            assert(sieve_reach(sieve) * sieve_reach(sieve) >= 100_000_000) by (nonlinear_arith)
                requires
                    sieve_reach(sieve) >= 10_000,
            ;
        }
        let n = k * (k + 1) / 2;
        assert(n == triangle_number(k as int));
        let pairs = sieve_factor(&sieve, n).unwrap();
        proof {
            if k == LAST_INDEX {
                lemma_last_triangle(pairs@);
            }
        }
        match count_divisors(&pairs) {
            Some(num_factors) => {
                if num_factors > 500 {
                    assert(divisors_above(n as int, 500));
                    return n;
                }
                assert(divisors_up_to(triangle_number(k as int), 500));
            },
            None => {
                assert(divisors_above(n as int, 500));
                return n;
            },
        }
        k = k + 1;
    }
}

} // verus!
