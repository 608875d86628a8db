//! The first partition number that a million divides.
//!
//! The partition numbers soon leave every machine integer behind, so the
//! recurrence is run on remainders by a million.

use crate::solutions::p076_sum_partition::{
    lemma_pentagonal, lemma_terms_end, partition_terms, partitions,
};
use vstd::prelude::*;

verus! {

/// The modulus of the search.
pub const MILLION: i64 = 1_000_000;

/// The greatest number that the search looks at.
pub const SEARCH_LIMIT: i64 = 100_000;

/// `a` and `b` leave the same remainder by a million.
pub open spec fn same_remainder(a: int, b: int) -> bool {
    (a - b) % 1_000_000 == 0
}

/// Coin partitions: the least `n` from 2 on whose partition number is
/// divisible by a million; `None` if there is none up to a hundred
/// thousand.
pub fn p78() -> (found: Option<i64>)
    ensures
        match found {
            Some(n) => {
                &&& 2 <= n <= SEARCH_LIMIT
                &&& partitions(n as int) % 1_000_000 == 0
                &&& forall|m: int| 2 <= m < n ==> #[trigger] partitions(m) % 1_000_000 != 0
            },
            None => forall|m: int|
                2 <= m <= SEARCH_LIMIT ==> #[trigger] partitions(m) % 1_000_000 != 0,
        },
{
    let mut p: Vec<i64> = Vec::new();
    p.push(1);
    p.push(1);
    let mut n: i64 = 2;
    loop
        invariant
            2 <= n <= SEARCH_LIMIT,
            p@.len() == n,
            forall|i: int| 0 <= i < n ==> #[trigger] p@[i] == partitions(i) % 1_000_000,
            forall|m: int| 2 <= m < n ==> #[trigger] partitions(m) % 1_000_000 != 0,
        decreases SEARCH_LIMIT - n,
    {
        let mut sum: i64 = 0;
        let mut k: i64 = 1;
        while k < n
            invariant
                1 <= k <= n,
                2 <= n <= SEARCH_LIMIT,
                p@.len() == n,
                forall|i: int| 0 <= i < n ==> #[trigger] p@[i] == partitions(i) % 1_000_000,
                same_remainder(sum + partition_terms(n as int, k as int), partitions(n as int)),
                k == n ==> partition_terms(n as int, k as int) == 0,
                -2_000_000 * k <= sum <= 2_000_000 * k,
            ensures
                same_remainder(sum as int, partitions(n as int)),
                -2_000_000 * n <= sum <= 2_000_000 * n,
            decreases n - k,
        {
            proof {
                lemma_pentagonal(k as int);
                assert(k * (3 * k - 1) <= 100_000 * 300_000 && k * (3 * k + 1) <= 100_000 * 300_001)
                    by (nonlinear_arith)
                    requires
                        1 <= k <= 100_000,
                ;
            }
            let n1 = n - k * (3 * k - 1) / 2;
            let n2 = n - k * (3 * k + 1) / 2;
            // If n1 is negative, then so is n2, and we can just stop counting now.
            if n1 < 0 {
                proof {
                    lemma_terms_end(n as int, k as int);
                }
                break;
            }
            let ghost first = partitions(n1 as int);
            let ghost second = if n2 >= 0 {
                partitions(n2 as int)
            } else {
                0
            };
            let mut t = p[n1 as usize];
            if n2 >= 0 {
                t += p[n2 as usize]
            }
            assert(same_remainder(t as int, first + second));
            let adding = k % 2 == 1;
            if adding {
                sum += t;
            } else {
                sum -= t;
            }
            k += 1;
            proof {
                if k == n {
                    lemma_pentagonal(k as int);
                    assert(k * (3 * k - 1) >= 4 * k) by (nonlinear_arith)
                        requires
                            k >= 2,
                    ;
                    lemma_terms_end(n as int, k as int);
                }
            }
        }
        let remainder = if sum >= 0 {
            sum % MILLION
        } else {
            let back = (-sum) % MILLION;
            if back == 0 {
                0
            } else {
                MILLION - back
            }
        };
        assert(remainder == partitions(n as int) % 1_000_000);
        if remainder == 0 {
            return Some(n);
        }
        p.push(remainder);
        if n == SEARCH_LIMIT {
            return None;
        }
        n += 1;
    }
}

} // verus!
