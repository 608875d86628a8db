//! Counting the ways to write a number as a sum, by Euler's recurrence over
//! the pentagonal numbers.

use crate::solutions::partition_rows::{first_partition, lemma_first_partitions};
use vstd::prelude::*;

verus! {

/// The `k`-th pentagonal number, `k * (3 * k - 1) / 2`.
pub open spec fn pentagonal(k: int) -> int {
    k * (3 * k - 1) / 2
}

/// The `k`-th pentagonal number of the second kind, `k * (3 * k + 1) / 2`.
pub open spec fn pentagonal2(k: int) -> int {
    k * (3 * k + 1) / 2
}

/// The partition numbers, by the recurrence of Hardy and Wright, section
/// 19.10: `p(n)` is the alternating sum of `p(n - g)` over the pentagonal
/// numbers `g` of both kinds up to `n`.
pub open spec fn partitions(n: int) -> int
    decreases n, n + 2,
{
    if n <= 1 {
        1
    } else {
        partition_terms(n, 1)
    }
}

/// The terms of the recurrence for `p(n)` from the `k`-th pair of pentagonal
/// numbers on.
pub open spec fn partition_terms(n: int, k: int) -> int
    decreases n, n - k + 1,
{
    if k < 1 || k > n || pentagonal(k) > n || pentagonal(k) < 1 {
        0
    } else {
        let pair = partitions(n - pentagonal(k)) + if 1 <= pentagonal2(k) <= n {
            partitions(n - pentagonal2(k))
        } else {
            0
        };
        (if k % 2 == 1 {
            pair
        } else {
            -pair
        }) + partition_terms(n, k + 1)
    }
}

/// Pentagonal numbers grow with their index, and the second kind is the
/// greater.
pub proof fn lemma_pentagonal(k: int)
    requires
        1 <= k,
    ensures
        k <= pentagonal(k) < pentagonal2(k) < pentagonal(k + 1),
        pentagonal2(k) == pentagonal(k) + k,
{
    assert(k * (3 * k + 1) == k * (3 * k - 1) + 2 * k) by (nonlinear_arith);
    assert((k + 1) * (3 * (k + 1) - 1) == k * (3 * k - 1) + 6 * k + 2) by (nonlinear_arith);
    assert(k * (3 * k - 1) >= 2 * k) by (nonlinear_arith)
        requires
            k >= 1,
    ;
    let product = k * (3 * k - 1);
    if k % 2 == 0 {
        let j = k / 2;
        let half = j * (3 * k - 1);
        assert(product == 2 * half) by (nonlinear_arith)
            requires
                product == k * (3 * k - 1),
                half == j * (3 * k - 1),
                k == 2 * j,
        ;
    } else {
        let j = (3 * k - 1) / 2;
        let half = k * j;
        assert(product == 2 * half) by (nonlinear_arith)
            requires
                product == k * (3 * k - 1),
                half == k * j,
                3 * k - 1 == 2 * j,
        ;
    }
    assert(product % 2 == 0);
}

/// The `k`-th term of the recurrence for `p(n)`, without its sign: the
/// partition numbers at the two pentagonal numbers of index `k` below `n`,
/// as far as these are not beyond `n`.
pub open spec fn pair_term(n: int, k: int) -> int {
    (if pentagonal(k) <= n {
        partitions(n - pentagonal(k))
    } else {
        0
    }) + if pentagonal2(k) <= n {
        partitions(n - pentagonal2(k))
    } else {
        0
    }
}

/// The sum of the terms of the recurrence for `p(n)` before the `k`-th.
pub open spec fn head(n: int, k: int) -> int {
    partitions(n) - partition_terms(n, k)
}

/// The `k`-th step of the sum for `p(n)` stays in the range of `usize`: the
/// term does, and so does the sum with the term added or taken away.
pub open spec fn step_fits(n: int, k: int) -> bool {
    pair_term(n, k) <= usize::MAX && 0 <= head(n, k + 1) <= usize::MAX
}

/// Every step of the sums for the partition numbers from `p(2)` to `p(n)`
/// stays in the range of `usize`.
pub open spec fn sums_fit(n: int) -> bool {
    forall|m: int, k: int| 2 <= m <= n && 1 <= k <= m ==> #[trigger] step_fits(m, k)
}

/// The sum before the term after the `k`-th is the sum before the `k`-th
/// with the `k`-th term added, for odd `k`, or taken away, for even `k`.
pub proof fn lemma_head_step(n: int, k: int)
    requires
        2 <= n,
        1 <= k <= n,
    ensures
        head(n, k + 1) == head(n, k) + if k % 2 == 1 {
            pair_term(n, k)
        } else {
            -pair_term(n, k)
        },
{
    lemma_pentagonal(k);
    if pentagonal(k) > n {
        lemma_terms_end(n, k);
        lemma_terms_end(n, k + 1);
    }
}

/// The partition number of `n`, computed bottom-up in a table. `None`
/// exactly if a sum on the way leaves the range of `usize`, or goes below
/// zero.
pub fn euler_p(n: usize) -> (p: Option<usize>)
    requires
        n <= 10_000,
    ensures
        match p {
            Some(v) => v == partitions(n as int) && sums_fit(n as int),
            None => !sums_fit(n as int),
        },
{
    let mut table: Vec<usize> = Vec::new();
    table.push(1);
    table.push(1);
    let mut m: usize = 2;
    while m <= n
        invariant
            2 <= m <= n + 1 || (n < 2 && m == 2),
            n <= 10_000,
            table@.len() == m,
            forall|i: int| 0 <= i < m ==> #[trigger] table@[i] == partitions(i),
            sums_fit(m - 1),
        decreases n + 1 - m,
    {
        let mut sum: usize = 0;
        let mut k: usize = 1;
        while k <= m
            invariant
                1 <= k <= m + 1,
                2 <= m <= n <= 10_000,
                table@.len() == m,
                forall|i: int| 0 <= i < m ==> #[trigger] table@[i] == partitions(i),
                sum == head(m as int, k as int),
                forall|j: int| 1 <= j < k ==> #[trigger] step_fits(m as int, j),
            decreases m + 1 - k,
        {
            proof {
                lemma_pentagonal(k as int);
                lemma_head_step(m as int, k as int);
                assert(k * (3 * k - 1) <= 10_000 * 30_000 && k * (3 * k + 1) <= 10_000 * 30_001)
                    by (nonlinear_arith)
                    requires
                        1 <= k <= 10_000,
                ;
            }
            let mut t: usize = 0;
            let d1 = k * (3 * k - 1) / 2;
            if m >= d1 {
                t = table[m - d1];
            }
            let d2 = k * (3 * k + 1) / 2;
            if m >= d2 {
                t = match t.checked_add(table[m - d2]) {
                    Some(t) => t,
                    None => {
                        assert(!step_fits(m as int, k as int));
                        return None;
                    },
                };
            }
            assert(t == pair_term(m as int, k as int));
            if k % 2 == 1 {
                sum = match sum.checked_add(t) {
                    Some(s) => s,
                    None => {
                        assert(!step_fits(m as int, k as int));
                        return None;
                    },
                };
            } else {
                sum = match sum.checked_sub(t) {
                    Some(s) => s,
                    None => {
                        assert(!step_fits(m as int, k as int));
                        return None;
                    },
                };
            }
            assert(step_fits(m as int, k as int));
            k += 1;
        }
        proof {
            lemma_terms_end(m as int, m + 1);
            assert forall|a: int, b: int| 2 <= a <= m && 1 <= b <= a implies #[trigger] step_fits(
                a,
                b,
            ) by {
                if a < m {
                    assert(sums_fit(m - 1));
                }
            }
        }
        table.push(sum);
        m += 1;
    }
    proof {
        if n < 2 {
            assert(sums_fit(n as int));
        }
    }
    Some(table[n])
}

/// Past the pentagonal numbers up to `n`, no term is left.
pub proof fn lemma_terms_end(n: int, k: int)
    requires
        1 <= k,
        pentagonal(k) > n || k > n,
    ensures
        partition_terms(n, k) == 0,
{
}

/// Counting summations: the number of ways to write 100 as a sum of two or
/// more positive integers, that is one less than the partition number of
/// 100.
pub fn p76() -> (ways: usize)
    ensures
        ways == partitions(100) - 1,
        partitions(100) == 190_569_292,
{
    proof {
        lemma_first_partitions();
        assert(partitions(100) == first_partition(100));
    }
    euler_p(100).unwrap() - 1
}

} // verus!
