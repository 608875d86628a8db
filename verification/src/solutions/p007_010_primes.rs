//! Puzzles that count and add up primes.

use crate::divisibility::{is_prime, primes_below};
use crate::sieves::{nth_prime, sieve_new, sieve_primes_from, sieve_reach};
use vstd::prelude::*;

verus! {

/// 10,001st prime: the prime that has ten thousand primes below it.
pub fn p7() -> (p: usize)
    ensures
        is_prime(p as int),
        primes_below(p as int).len() == 10_000,
{
    nth_prime(10_001)
}

/// The sum of the primes below `n`.
pub open spec fn prime_sum(n: nat) -> int
    decreases n,
{
    if n == 0 {
        0
    } else {
        prime_sum((n - 1) as nat) + if is_prime(n - 1) {
            n - 1
        } else {
            0
        }
    }
}

/// Where an interval holds no prime, the sum of the primes does not grow
/// over it.
pub proof fn lemma_prime_sum_gap(a: nat, b: nat)
    requires
        a <= b,
        forall|m: int| a <= m < b ==> !#[trigger] is_prime(m),
    ensures
        prime_sum(b) == prime_sum(a),
    decreases b - a,
{
    if a < b {
        assert(!is_prime(b - 1));
        lemma_prime_sum_gap(a, (b - 1) as nat);
    }
}

/// Summation of primes: the sum of all the primes below two million.
pub fn p10() -> (sum: i64)
    ensures
        sum == prime_sum(2_000_000),
{
    let limit: usize = 2_000_000;
    let sieve = sieve_new(limit);
    let primes = sieve_primes_from(&sieve, 2);
    let mut sum: u64 = 0;
    let ghost mut covered: nat = 2;
    proof {
        crate::divisibility::lemma_small_primes();
        reveal_with_fuel(prime_sum, 3);
    }
    for i in 0..primes.len()
        invariant
            limit == 2_000_000,
            sieve_reach(sieve) >= limit,
            2 <= covered <= limit,
            sum == prime_sum(covered),
            sum <= covered * 2_000_000,
            i > 0 ==> (covered == limit && primes@[i - 1] >= limit - 1) || (covered == primes@[i - 1]
                + 1),
            i == 0 ==> covered == 2,
            forall|k: int|
                0 <= k < primes@.len() ==> is_prime(#[trigger] primes@[k] as int) && 2 <= primes@[k],
            forall|k: int, j: int| 0 <= k < j < primes@.len() ==> primes@[k] < primes@[j],
            forall|p: int|
                2 <= p <= sieve_reach(sieve) && is_prime(p) ==> exists|k: int|
                    0 <= k < primes@.len() && #[trigger] primes@[k] == p,
    {
        let p = primes[i];
        proof {
            if covered < limit {
                let stop = if p < limit {
                    p as int
                } else {
                    limit as int
                };
                assert forall|m: int| covered <= m < stop implies !#[trigger] is_prime(m) by {
                    if is_prime(m) {
                        let k = choose|k: int| 0 <= k < primes@.len() && #[trigger] primes@[k] == m;
                        if k < i {
                            if k < i - 1 {
                                assert(primes@[k] < primes@[i - 1]);
                            }
                        } else if k > i {
                            assert(primes@[i as int] < primes@[k]);
                        }
                    }
                }
                lemma_prime_sum_gap(covered, stop as nat);
            }
        }
        if p < limit {
            proof {
                assert(covered <= p) by {
                    if i > 0 {
                        assert(primes@[i - 1] < primes@[i as int]);
                    }
                }
                assert(covered * 2_000_000 + p <= (p + 1) * 2_000_000) by (nonlinear_arith)
                    requires
                        covered <= p,
                        p < 2_000_000,
                ;
                assert((p + 1) * 2_000_000 <= 2_000_000 * 2_000_000) by (nonlinear_arith)
                    requires
                        p < 2_000_000,
                ;
                covered = (p + 1) as nat;
            }
            sum += p as u64;
        } else {
            proof {
                covered = limit as nat;
            }
        }
    }
    proof {
        if covered < limit {
            assert forall|m: int| covered <= m < limit implies !#[trigger] is_prime(m) by {
                if is_prime(m) {
                    let k = choose|k: int| 0 <= k < primes@.len() && #[trigger] primes@[k] == m;
                    if primes@.len() > 0 {
                        if k < primes@.len() - 1 {
                            assert(primes@[k] < primes@[primes@.len() - 1]);
                        }
                    }
                }
            }
            lemma_prime_sum_gap(covered, limit as nat);
        }
        assert(2_000_000 * 2_000_000 == 4_000_000_000_000) by (nonlinear_arith);
    }
    sum as i64
}

} // verus!
