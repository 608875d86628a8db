//! Contracts for the prime sieve and the sequence of all primes of the
//! `primal` crate, for the integer square root of the `integer-sqrt` crate
//! and for the greatest common divisor of the `gcd` crate.
//!
//! Nothing in this file is proved: each function states what the crate
//! documents of the call in its body, in terms of this library's own
//! definition of a prime.

use crate::divisibility::{divides, is_prime};
use integer_sqrt::IntegerSquareRoot;
use primal::{Primes, Sieve, StreamingSieve};
use vstd::prelude::*;

verus! {

#[verifier::external_type_specification]
#[verifier::external_body]
pub struct ExSieve(primal::Sieve);

/// The largest number that a sieve knows about.
pub uninterp spec fn sieve_reach(sieve: Sieve) -> nat;

/// `primal::Sieve::new`: a sieve of the primes up to `limit`. It reaches at
/// least as far as `limit`, and perhaps a little farther.
#[verifier::external_body]
pub(crate) fn sieve_new(limit: usize) -> (sieve: Sieve)
    ensures
        sieve_reach(sieve) >= limit,
{
    Sieve::new(limit)
}

/// `primal::Sieve::is_prime`: whether `n` is a prime number. The method
/// panics beyond the reach of the sieve, which the precondition excludes.
#[verifier::external_body]
pub(crate) fn sieve_is_prime(sieve: &Sieve, n: usize) -> (prime: bool)
    requires
        n <= sieve_reach(*sieve),
    ensures
        prime == is_prime(n as int),
{
    sieve.is_prime(n)
}

/// `primal::Sieve::primes_from`, collected: the primes from `n`, inclusive,
/// to the end of the sieve, in ascending order. The method panics when `n`
/// lies beyond the reach of the sieve, which the precondition excludes. It
/// hands out 2, 3 and 5 whatever the reach of the sieve is; the precondition
/// leaves out the sieves that do not reach as far as 5.
#[verifier::external_body]
pub(crate) fn sieve_primes_from(sieve: &Sieve, n: usize) -> (primes: Vec<usize>)
    requires
        n <= sieve_reach(*sieve),
        5 <= sieve_reach(*sieve),
    ensures
        forall|i: int|
            0 <= i < primes@.len() ==> is_prime(#[trigger] primes@[i] as int) && n <= primes@[i]
                <= sieve_reach(*sieve),
        forall|i: int, j: int| 0 <= i < j < primes@.len() ==> primes@[i] < primes@[j],
        forall|p: int|
            n <= p <= sieve_reach(*sieve) && is_prime(p) ==> exists|i: int|
                0 <= i < primes@.len() && #[trigger] primes@[i] == p,
{
    sieve.primes_from(n).collect()
}

/// The prime of a pair of prime and exponent.
pub open spec fn pair_prime(pair: (usize, usize)) -> int {
    let (p, _) = pair;
    p as int
}

/// The exponent of a pair of prime and exponent.
pub open spec fn pair_exponent(pair: (usize, usize)) -> int {
    let (_, e) = pair;
    e as int
}

/// The product of the prime powers of a list of pairs of prime and
/// exponent.
pub open spec fn prime_power_product(pairs: Seq<(usize, usize)>) -> int
    decreases pairs.len(),
{
    if pairs.len() == 0 {
        1
    } else {
        prime_power_product(pairs.drop_last()) * vstd::arithmetic::power::pow(
            pair_prime(pairs.last()),
            pair_exponent(pairs.last()) as nat,
        )
    }
}

/// `pairs` is the factorisation of `n` into prime powers: the primes are in
/// strictly ascending order, the exponents are positive, and the product of
/// the powers is `n`.
pub open spec fn is_factorisation(pairs: Seq<(usize, usize)>, n: int) -> bool {
    &&& forall|i: int|
        0 <= i < pairs.len() ==> is_prime(pair_prime(#[trigger] pairs[i])) && pair_exponent(pairs[i])
            >= 1
    &&& forall|i: int, j: int|
        0 <= i < j < pairs.len() ==> pair_prime(#[trigger] pairs[i]) < pair_prime(#[trigger] pairs[j])
    &&& prime_power_product(pairs) == n
}

/// `primal::Sieve::factor`: the factorisation of `n` into pairs of prime and
/// exponent, or `None` where the sieve is too small for the prime factors of
/// `n`, and for `n == 0`. The crate documents that a number fails exactly
/// where its prime factors are too large for the sieve, and that none of a
/// positive number up to the square of the reach of the sieve are.
#[verifier::external_body]
pub(crate) fn sieve_factor(sieve: &Sieve, n: usize) -> (pairs: Option<Vec<(usize, usize)>>)
    ensures
        match pairs {
            Some(ps) => is_factorisation(ps@, n as int),
            None => true,
        },
        1 <= n <= sieve_reach(*sieve) * sieve_reach(*sieve) ==> pairs is Some,
{
    sieve.factor(n).ok()
}

/// `primal::StreamingSieve::nth_prime`: the `n`-th prime, where 2 is the
/// first. The function panics for `n == 0`, which the precondition excludes
/// together with the `n` whose prime may not fit a `usize` of 32 bits.
#[verifier::external_body]
pub(crate) fn nth_prime(n: usize) -> (p: usize)
    requires
        0 < n <= 1_000_000,
    ensures
        is_prime(p as int),
        crate::divisibility::primes_below(p as int).len() == n - 1,
{
    StreamingSieve::nth_prime(n)
}

#[verifier::external_type_specification]
#[verifier::external_body]
pub struct ExPrimes(primal::Primes);

/// The greatest prime that a sequence of all primes has handed out; 0 before
/// the first.
pub uninterp spec fn primes_passed(primes: Primes) -> nat;

/// `primal::Primes::all`: the sequence of all primes, `2, 3, 5, 7, 11, ...`,
/// before its first item.
#[verifier::external_body]
pub(crate) fn primes_all() -> (primes: Primes)
    ensures
        primes_passed(primes) == 0,
{
    Primes::all()
}

/// `Iterator::next` of `primal::Primes`: the next prime, that is the least
/// prime above the one handed out last. The crate documents that the
/// sequence goes on as far as a `usize` permits; of its end no more is
/// stated here than that no prime is left whose square fits a `usize`.
#[verifier::external_body]
pub(crate) fn primes_next(primes: &mut Primes) -> (next: Option<usize>)
    ensures
        match next {
            Some(p) => is_prime(p as int) && primes_passed(*old(primes)) < p && primes_passed(
                *final(primes),
            ) == p && forall|m: int|
                primes_passed(*old(primes)) < m < p ==> !#[trigger] is_prime(m),
            None => primes_passed(*final(primes)) == primes_passed(*old(primes)) && forall|m: int|
                primes_passed(*old(primes)) < m && m * m <= usize::MAX ==> !#[trigger] is_prime(m),
        },
{
    primes.next()
}

/// `gcd::binary_usize`: the greatest common divisor of two positive
/// numbers.
#[verifier::external_body]
pub(crate) fn greatest_common_divisor(a: usize, b: usize) -> (g: usize)
    requires
        a >= 1,
        b >= 1,
    ensures
        g >= 1,
        divides(g as int, a as int),
        divides(g as int, b as int),
        forall|d: int| d >= 1 && #[trigger] divides(d, a as int) && divides(d, b as int) ==> d <= g,
{
    gcd::binary_usize(a, b)
}

/// `IntegerSquareRoot::integer_sqrt` on a `u64`: the square root of `t`,
/// rounded down.
#[verifier::external_body]
pub fn isqrt(t: u64) -> (root: u64)
    ensures
        root * root <= t < (root + 1) * (root + 1),
{
    t.integer_sqrt()
}

} // verus!
