//! The start below a million of the longest Collatz chain.
//!
//! Nobody knows whether every chain ends. The lengths are therefore found
//! with a budget of steps, and a chain that outruns it, or that leaves 64
//! bits, ends the search without an answer.

use vstd::prelude::*;

verus! {

/// The starts below this bound are searched.
pub const UPTO: usize = 1_000_000;

/// The steps that one chain may take beyond the lengths that are known.
pub const BUDGET: u32 = 10_000;

/// The term after `n` in its chain: the half of an even number, and three
/// times an odd number plus one.
pub open spec fn collatz_next(n: int) -> int {
    if n % 2 == 0 {
        n / 2
    } else {
        3 * n + 1
    }
}

/// The number of terms of the chain from `n` down to 1, both included, if
/// the chain gets to 1 within `fuel` steps.
pub open spec fn chain_terms(n: int, fuel: nat) -> Option<int>
    decreases fuel,
{
    if n == 1 {
        Some(1)
    } else if n < 1 || fuel == 0 {
        None
    } else {
        match chain_terms(collatz_next(n), (fuel - 1) as nat) {
            Some(l) => Some(l + 1),
            None => None,
        }
    }
}

/// The chain from `n` gets to 1 and has `l` terms.
pub open spec fn has_length(n: int, l: int) -> bool {
    exists|fuel: nat| #[trigger] chain_terms(n, fuel) == Some(l)
}

/// More fuel does not change the length of a chain that gets to 1.
pub proof fn lemma_more_fuel(n: int, fuel: nat, more: nat)
    requires
        fuel <= more,
        chain_terms(n, fuel) is Some,
    ensures
        chain_terms(n, more) == chain_terms(n, fuel),
        chain_terms(n, fuel)->0 >= 1,
    decreases fuel,
{
    if n != 1 && n >= 1 && fuel > 0 {
        lemma_more_fuel(collatz_next(n), (fuel - 1) as nat, (more - 1) as nat);
    }
}

/// A chain has one length at most.
pub proof fn lemma_one_length(n: int, a: int, b: int)
    requires
        has_length(n, a),
        has_length(n, b),
    ensures
        a == b,
        a >= 1,
{
    let f = choose|fuel: nat| #[trigger] chain_terms(n, fuel) == Some(a);
    let g = choose|fuel: nat| #[trigger] chain_terms(n, fuel) == Some(b);
    if f <= g {
        lemma_more_fuel(n, f, g);
    } else {
        lemma_more_fuel(n, g, f);
    }
    lemma_more_fuel(n, f, f);
}

/// The chain of `n` is one term longer than the chain of the term after
/// `n`.
pub proof fn lemma_length_step(n: int, l: int)
    requires
        n > 1,
        has_length(collatz_next(n), l),
    ensures
        has_length(n, l + 1),
{
    let f = choose|fuel: nat| #[trigger] chain_terms(collatz_next(n), fuel) == Some(l);
    assert(chain_terms(n, f + 1) == Some(l + 1));
}

/// The lengths in the table are right: an entry above zero is the number of
/// terms of the chain of its index.
pub open spec fn lengths_right(lengths: Seq<u32>) -> bool {
    forall|k: int| 0 <= k < lengths.len() && lengths[k] > 0 ==> has_length(k, #[trigger] lengths[k] as int)
}

/// The table knows the length of the chain of `n`.
pub open spec fn known(lengths: Seq<u32>, n: int) -> bool {
    0 <= n < lengths.len() && lengths[n] > 0
}

/// What a walk along the chain of `n` finds with the table given: the
/// length from the table where `n` is known, 1 for 1, and else one more than
/// what the walk from the next term finds. `None` if the walk takes more
/// than `budget` steps to get to a known length, if a term leaves 64 bits,
/// or if the length leaves 32 bits.
pub open spec fn walk(lengths: Seq<u32>, n: int, budget: nat) -> Option<int>
    decreases budget,
{
    if known(lengths, n) {
        Some(lengths[n] as int)
    } else if n == 1 {
        Some(1)
    } else if budget == 0 || (n % 2 != 0 && 3 * n + 1 > u64::MAX) {
        None
    } else {
        match walk(lengths, collatz_next(n), (budget - 1) as nat) {
            Some(l) => if l < u32::MAX {
                Some(l + 1)
            } else {
                None
            },
            None => None,
        }
    }
}

/// The number of terms of the chain of `i`, from the table where it is
/// known, and entered there where there is room. `None` if the chain takes
/// more than `budget` steps to get to a known length, or leaves 64 bits, or
/// its length 32 bits: the result is what [`walk`] finds.
pub fn calc_collatz(i: u64, lengths: &mut Vec<u32>, budget: u32) -> (length: Option<u32>)
    requires
        i >= 1,
        lengths_right(old(lengths)@),
    ensures
        lengths_right(final(lengths)@),
        final(lengths)@.len() == old(lengths)@.len(),
        forall|k: int|
            0 <= k < old(lengths)@.len() && old(lengths)@[k] > 0 ==> #[trigger] final(lengths)@[k]
                == old(lengths)@[k],
        match length {
            Some(l) => has_length(i as int, l as int) && l >= 1 && (i < final(lengths)@.len()
                ==> final(lengths)@[i as int] == l) && walk(old(lengths)@, i as int, budget as nat)
                == Some(l as int),
            None => walk(old(lengths)@, i as int, budget as nat) is None,
        },
    decreases budget,
{
    // If it's cached, return the cached value
    if i < lengths.len() as u64 && lengths[i as usize] > 0 {
        proof {
            lemma_one_length(i as int, lengths@[i as int] as int, lengths@[i as int] as int);
        }
        return Some(lengths[i as usize]);
    }
    if i == 1 {
        assert(chain_terms(1, 0) == Some(1int));
        if lengths.len() > 1 {
            let ghost before = lengths@;
            lengths.set(1, 1);
            proof {
                assert forall|k: int| 0 <= k < lengths@.len() && lengths@[k] > 0 implies has_length(
                    k,
                    #[trigger] lengths@[k] as int,
                ) by {
                    if k != 1 {
                        assert(lengths@[k] == before[k]);
                    }
                }
            }
        }
        return Some(1);
    }
    if budget == 0 {
        return None;
    }
    // Otherwise, recurse.
    let next = if i % 2 == 0 {
        i / 2
    } else {
        if i > (u64::MAX - 1) / 3 {
            return None;
        }
        3 * i + 1
    };
    let len = match calc_collatz(next, lengths, budget - 1) {
        Some(len) => len,
        None => {
            return None;
        },
    };
    if len == u32::MAX {
        return None;
    }
    proof {
        lemma_length_step(i as int, len as int);
    }
    if i < lengths.len() as u64 {
        let ghost before = lengths@;
        lengths.set(i as usize, len + 1);
        proof {
            assert forall|k: int| 0 <= k < lengths@.len() && lengths@[k] > 0 implies has_length(
                k,
                #[trigger] lengths@[k] as int,
            ) by {
                if k != i {
                    assert(lengths@[k] == before[k]);
                }
            }
        }
    }
    Some(len + 1)
}

/// The number of terms of the chain from `n` down to 1, both included, if
/// the chain gets to 1 within `budget` steps and none of its terms leaves 64
/// bits.
pub open spec fn bounded_terms(n: int, budget: nat) -> Option<int>
    decreases budget,
{
    if n == 1 {
        Some(1)
    } else if n < 1 || budget == 0 || (n % 2 != 0 && 3 * n + 1 > u64::MAX) {
        None
    } else {
        match bounded_terms(collatz_next(n), (budget - 1) as nat) {
            Some(l) => Some(l + 1),
            None => None,
        }
    }
}

/// A chain that gets to 1 within the budget and within 64 bits has the
/// length counted, which is no more than the budget and one.
pub proof fn lemma_bounded_terms(n: int, budget: nat)
    requires
        bounded_terms(n, budget) is Some,
    ensures
        chain_terms(n, budget) == bounded_terms(n, budget),
        1 <= bounded_terms(n, budget)->0 <= budget + 1,
    decreases budget,
{
    if n != 1 {
        lemma_bounded_terms(collatz_next(n), (budget - 1) as nat);
    }
}

/// Where the chain of `n` gets to 1 within the budget and within 64 bits,
/// the walk finds its length, whatever right lengths the table holds.
pub proof fn lemma_walk_finds(lengths: Seq<u32>, n: int, budget: nat)
    requires
        lengths_right(lengths),
        bounded_terms(n, budget) is Some,
        budget + 1 < u32::MAX,
    ensures
        walk(lengths, n, budget) == bounded_terms(n, budget),
    decreases budget,
{
    let l = bounded_terms(n, budget)->0;
    lemma_bounded_terms(n, budget);
    if known(lengths, n) {
        assert(has_length(n, lengths[n] as int));
        assert(has_length(n, l));
        lemma_one_length(n, lengths[n] as int, l);
    } else if n != 1 {
        let next = collatz_next(n);
        lemma_walk_finds(lengths, next, (budget - 1) as nat);
        lemma_bounded_terms(next, (budget - 1) as nat);
    }
}

/// The chain of `m` is no longer than `l` terms, and shorter if `m` is
/// greater than `n`.
pub open spec fn no_longer(m: int, n: int, l: int) -> bool {
    exists|k: int| #[trigger] has_length(m, k) && k <= l && (m > n ==> k < l)
}

/// `n` is the start below `bound` of the longest chain; the greatest such
/// start, where several chains are the longest.
pub open spec fn longest_start(n: int, bound: int) -> bool {
    exists|l: int|
        #[trigger] has_length(n, l) && 1 <= n < bound && forall|m: int|
            1 <= m < bound ==> #[trigger] no_longer(m, n, l)
}

/// Longest Collatz sequence: the start below one million of the longest
/// chain. `None` only if the chain of a start below one million outruns the
/// budget of steps, or leaves 64 bits.
pub fn p14() -> (start: Option<usize>)
    ensures
        match start {
            Some(n) => longest_start(n as int, UPTO as int),
            None => exists|i: int|
                1 <= i < UPTO && #[trigger] bounded_terms(i, BUDGET as nat) is None,
        },
{
    let upto = UPTO;
    let mut lengths: Vec<u32> = Vec::new();
    while lengths.len() < upto
        invariant
            upto == UPTO,
            lengths@.len() <= upto,
            forall|k: int| 0 <= k < lengths@.len() ==> lengths@[k] == 0,
        decreases upto - lengths@.len(),
    {
        lengths.push(0);
    }
    lengths.set(1, 1);
    proof {
        assert(chain_terms(1, 0) == Some(1int));
        assert(has_length(1, 1));
    }
    for i in 1..upto
        invariant
            upto == UPTO,
            lengths@.len() == upto,
            lengths_right(lengths@),
            forall|k: int| 1 <= k < i ==> #[trigger] lengths@[k] > 0,
    {
        let ghost before = lengths@;
        match calc_collatz(i as u64, &mut lengths, BUDGET) {
            Some(_) => {
                proof {
                    assert forall|k: int| 1 <= k < i + 1 implies #[trigger] lengths@[k] > 0 by {
                        if k < i {
                            assert(before[k] > 0);
                        }
                    }
                }
            },
            None => {
                proof {
                    if bounded_terms(i as int, BUDGET as nat) is Some {
                        lemma_walk_finds(before, i as int, BUDGET as nat);
                    }
                    assert(bounded_terms(i as int, BUDGET as nat) is None);
                }
                return None;
            },
        }
    }
    let mut best: usize = 1;
    for n in 2..upto
        invariant
            upto == UPTO,
            lengths@.len() == upto,
            1 <= best < n,
            forall|m: int|
                1 <= m < n ==> #[trigger] lengths@[m] <= lengths@[best as int] && (m > best
                    ==> lengths@[m] < lengths@[best as int]),
    {
        if lengths[n] >= lengths[best] {
            best = n;
        }
    }
    proof {
        let l = lengths@[best as int] as int;
        assert(lengths@[best as int] > 0);
        assert(has_length(best as int, l));
        assert forall|m: int| 1 <= m < UPTO implies #[trigger] no_longer(m, best as int, l) by {
            assert(lengths@[m] > 0);
            assert(has_length(m, lengths@[m] as int));
        }
    }
    Some(best)
}

} // verus!
