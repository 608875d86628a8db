//! A prime that is the sum of many consecutive primes.

use crate::best::{Best, CountOf};
use crate::divisibility::{
    is_prime, lemma_primes_between_gap, lemma_primes_between_props, primes_between,
};
use crate::sieves::{sieve_is_prime, sieve_new, sieve_primes_from, sieve_reach};
use vstd::prelude::*;

verus! {

/// The sum of the items of a sequence.
pub open spec fn sum_of(s: Seq<int>) -> int
    decreases s.len(),
{
    if s.len() == 0 {
        0
    } else {
        sum_of(s.drop_last()) + s.last()
    }
}

/// `n` is the sum of `count` consecutive primes.
pub open spec fn consecutive_prime_sum(n: int, count: int) -> bool {
    exists|lo: int, hi: int|
        #[trigger] primes_between(lo, hi).len() == count && sum_of(primes_between(lo, hi)) == n
}

/// A record of the search: a prime below the limit that is the sum of as
/// many consecutive primes as its count says.
pub open spec fn is_record(hit: CountOf<usize>, limit: int) -> bool {
    &&& is_prime(hit.data as int)
    &&& hit.data < limit
    &&& hit.count >= 1
    &&& consecutive_prime_sum(hit.data as int, hit.count as int)
}

/// The count of the record so far; 0 where there is none.
pub open spec fn record_count(best: Option<CountOf<usize>>) -> int {
    match best {
        Some(hit) => hit.count as int,
        None => 0,
    }
}

/// The run of consecutive primes `run` is no record breaker: it has
/// `count` primes at most, unless its sum is no prime below a million.
pub open spec fn no_record(run: Seq<int>, count: int) -> bool {
    is_prime(sum_of(run)) && sum_of(run) < 1_000_000 ==> run.len() <= count
}

/// A run of consecutive primes is the run from its first prime on.
pub proof fn lemma_run_from_first(lo: int, hi: int)
    requires
        primes_between(lo, hi).len() >= 1,
    ensures
        primes_between(lo, hi) == primes_between(primes_between(lo, hi)[0] - 1, hi),
        is_prime(primes_between(lo, hi)[0]),
        lo < primes_between(lo, hi)[0] < hi,
    decreases hi - lo,
{
    let run = primes_between(lo, hi);
    let q = run[0];
    lemma_primes_between_props(lo, hi);
    if is_prime(hi - 1) {
        let before = primes_between(lo, hi - 1);
        if before.len() >= 1 {
            lemma_run_from_first(lo, hi - 1);
            assert(before[0] == q);
        } else {
            assert(q == hi - 1);
            assert(primes_between(q - 1, hi - 1) =~= Seq::<int>::empty());
        }
    } else {
        lemma_run_from_first(lo, hi - 1);
    }
}

/// A longer stretch holds a longer run with a greater sum, and runs of one
/// length from one start are one run.
pub proof fn lemma_run_grows(lo: int, h1: int, h2: int)
    requires
        h1 <= h2,
    ensures
        primes_between(lo, h1).len() <= primes_between(lo, h2).len(),
        0 <= sum_of(primes_between(lo, h1)) <= sum_of(primes_between(lo, h2)) || lo < 0,
        primes_between(lo, h1).len() == primes_between(lo, h2).len() ==> primes_between(lo, h1)
            == primes_between(lo, h2),
    decreases h2 - h1,
{
    lemma_run_sum_nonnegative(lo, h1);
    if h1 < h2 {
        lemma_run_grows(lo, h1, h2 - 1);
        if h2 > lo + 1 && is_prime(h2 - 1) {
            assert(primes_between(lo, h2).drop_last() =~= primes_between(lo, h2 - 1));
        }
    }
}

/// The sum of a run of primes is not negative, and at least its length
/// times a lower bound of its primes.
pub proof fn lemma_run_sum_nonnegative(lo: int, hi: int)
    ensures
        lo >= 0 ==> sum_of(primes_between(lo, hi)) >= primes_between(lo, hi).len() * (lo + 1),
        lo >= 0 ==> sum_of(primes_between(lo, hi)) >= 0,
    decreases hi - lo,
{
    if hi > lo + 1 {
        lemma_run_sum_nonnegative(lo, hi - 1);
        let before = primes_between(lo, hi - 1);
        if is_prime(hi - 1) {
            assert(primes_between(lo, hi).drop_last() =~= before);
            assert((before.len() + 1) * (lo + 1) == before.len() * (lo + 1) + (lo + 1))
                by (nonlinear_arith);
        }
        if lo >= 0 {
            assert(before.len() * (lo + 1) >= 0) by (nonlinear_arith)
                requires
                    before.len() >= 0,
                    lo >= 0,
            ;
        }
    } else {
        assert(primes_between(lo, hi).len() * (lo + 1) == 0) by (nonlinear_arith)
            requires
                primes_between(lo, hi).len() == 0,
        ;
    }
}

/// A run from the prime `p0` that is no shorter than the run from `p0` up to
/// `top` has no lesser sum, and is that run if it has the same length.
pub proof fn lemma_longer_run(p0: int, top: int, lo: int, hi: int)
    requires
        p0 >= 1,
        primes_between(lo, hi).len() >= 1,
        primes_between(lo, hi)[0] == p0,
        primes_between(lo, hi).len() >= primes_between(p0 - 1, top).len(),
    ensures
        sum_of(primes_between(lo, hi)) >= sum_of(primes_between(p0 - 1, top)),
        primes_between(lo, hi).len() == primes_between(p0 - 1, top).len() ==> primes_between(lo, hi)
            == primes_between(p0 - 1, top),
{
    lemma_run_from_first(lo, hi);
    if hi <= top {
        lemma_run_grows(p0 - 1, hi, top);
    } else {
        lemma_run_grows(p0 - 1, top, hi);
    }
}

/// The sum of a run of primes is no less than any prime of the run.
pub proof fn lemma_sum_at_least_member(lo: int, hi: int, m: int)
    requires
        0 <= lo < m < hi,
        is_prime(m),
    ensures
        sum_of(primes_between(lo, hi)) >= m,
    decreases hi - lo,
{
    lemma_run_sum_nonnegative(lo, hi - 1);
    if m == hi - 1 {
        assert(primes_between(lo, hi).drop_last() =~= primes_between(lo, hi - 1));
    } else {
        lemma_sum_at_least_member(lo, hi - 1, m);
        if is_prime(hi - 1) {
            assert(primes_between(lo, hi).drop_last() =~= primes_between(lo, hi - 1));
        }
    }
}

/// Whether a run of one prime more than `count`, none of them less than
/// `p0`, must go beyond `size`.
fn run_too_long(p0: usize, count: usize, size: usize) -> (too_long: bool)
    requires
        p0 >= 1,
    ensures
        too_long == (p0 * (count + 1) > size),
{
    match count.checked_add(1) {
        Some(longer) => match p0.checked_mul(longer) {
            Some(least) => least > size,
            None => true,
        },
        None => {
            assert(p0 * (count + 1) > size) by (nonlinear_arith)
                requires
                    p0 >= 1,
                    count + 1 > usize::MAX,
                    size <= usize::MAX,
            ;
            true
        },
    }
}

/// Offers a hit to the record, which is kept unless the hit has a greater
/// count.
fn offer_record(best: &mut Best<CountOf<usize>>, hit: CountOf<usize>)
    requires
        is_record(hit, 1_000_000),
        old(best)@ is Some ==> is_record(old(best)@->0, 1_000_000),
    ensures
        final(best)@ is Some,
        is_record(final(best)@->0, 1_000_000),
        record_count(final(best)@) >= record_count(old(best)@),
        record_count(final(best)@) >= hit.count,
{
    best.max(hit);
}

/// Consecutive prime sum: the prime below one million that is the sum of
/// the most consecutive primes; the first that the search finds, were there
/// several. The search starts a run at every prime from 2 on, for as long
/// as a run of one prime more than the record could stay below one million.
#[verifier::rlimit(40)]
pub fn p50() -> (prime: usize)
    ensures
        is_prime(prime as int),
        prime < 1_000_000,
        exists|count: int|
            count >= 1 && #[trigger] consecutive_prime_sum(prime as int, count) && forall|
                lo: int,
                hi: int,
            | no_record(#[trigger] primes_between(lo, hi), count),
{
    let size: usize = 1_000_000;
    let sieve = sieve_new(size);
    let mut best = Best::<CountOf<usize>>::new();
    let starts = sieve_primes_from(&sieve, 2);
    proof {
        crate::divisibility::lemma_small_primes();
        let k = choose|k: int| 0 <= k < starts@.len() && #[trigger] starts@[k] == 2;
        if k > 0 {
            assert(starts@[0] < starts@[k]);
            assert(is_prime(starts@[0] as int));
        }
        assert(starts@[0] == 2);
        assert forall|lo: int, hi: int|
            primes_between(lo, hi).len() >= 1 && primes_between(lo, hi)[0] < starts@[0] implies no_record(
            #[trigger] primes_between(lo, hi),
            0,
        ) by {
            lemma_run_from_first(lo, hi);
        }
    }
    let mut i: usize = 0;
    while i < starts.len()
        invariant
            size == 1_000_000,
            sieve_reach(sieve) >= size,
            starts@.len() >= 1,
            starts@[0] == 2,
            0 <= i <= starts@.len(),
            forall|k: int|
                0 <= k < starts@.len() ==> is_prime(#[trigger] starts@[k] as int) && starts@[k]
                    <= sieve_reach(sieve),
            i > 0 ==> best@ is Some,
            best@ is Some ==> is_record(best@->0, size as int),
            forall|k: int, l: int| 0 <= k < l < starts@.len() ==> starts@[k] < starts@[l],
            forall|p: int|
                2 <= p <= sieve_reach(sieve) && is_prime(p) ==> exists|k: int|
                    0 <= k < starts@.len() && #[trigger] starts@[k] == p,
            forall|lo: int, hi: int|
                primes_between(lo, hi).len() >= 1 && (i == starts@.len() || primes_between(
                    lo,
                    hi,
                )[0] < starts@[i as int]) ==> no_record(
                    #[trigger] primes_between(lo, hi),
                    record_count(best@),
                ),
        ensures
            best@ is Some,
            is_record(best@->0, size as int),
            forall|lo: int, hi: int|
                primes_between(lo, hi).len() >= 1 ==> no_record(
                    #[trigger] primes_between(lo, hi),
                    record_count(best@),
                ),
        decreases starts@.len() - i,
    {
        let p0 = starts[i];
        let stop = match &*best {
            Some(hit) => run_too_long(p0, hit.count, size),
            None => false,
        };
        if stop {
            // To make a record breaker, we'd need at least count + 1
            // primes, but that would take us over the limit. And the
            // same is true for subsequent primes.
            proof {
                let count = record_count(best@);
                assert forall|lo: int, hi: int| primes_between(lo, hi).len() >= 1 implies no_record(
                    #[trigger] primes_between(lo, hi),
                    count,
                ) by {
                    let run = primes_between(lo, hi);
                    if run[0] >= p0 && run.len() > count {
                        lemma_run_from_first(lo, hi);
                        lemma_run_sum_nonnegative(run[0] - 1, hi);
                        assert(run.len() * run[0] >= p0 * (count + 1)) by (nonlinear_arith)
                            requires
                                run.len() >= count + 1,
                                run[0] >= p0,
                                count >= 0,
                                p0 >= 0,
                        ;
                    }
                }
            }
            break;
        }
        // Form partial sums starting at p0, and record any record-breaking
        // results
        let run = sieve_primes_from(&sieve, p0);
        let mut sum: usize = 0;
        let mut count: usize = 0;
        proof {
            let k = choose|k: int| 0 <= k < run@.len() && #[trigger] run@[k] == p0;
            if k > 0 {
                assert(run@[0] < run@[k]);
            }
            assert(run@[0] == p0);
        }
        let mut j: usize = 0;
        loop
            invariant_except_break
                count == j,
                sum < size,
                j == 0 ==> sum == 0,
                j > 0 ==> primes_between(p0 - 1, run@[j - 1] + 1).len() == j,
                j > 0 ==> sum == sum_of(primes_between(p0 - 1, run@[j - 1] + 1)),
            invariant
                size == 1_000_000,
                sieve_reach(sieve) >= size,
                p0 >= 2,
                0 <= j <= run@.len(),
                run@.len() >= 1,
                run@[0] == p0,
                forall|k: int|
                    0 <= k < run@.len() ==> is_prime(#[trigger] run@[k] as int) && p0 <= run@[k]
                        <= sieve_reach(sieve),
                forall|k: int, l: int| 0 <= k < l < run@.len() ==> run@[k] < run@[l],
                forall|p: int|
                    p0 <= p <= sieve_reach(sieve) && is_prime(p) ==> exists|k: int|
                        0 <= k < run@.len() && #[trigger] run@[k] == p,
                i > 0 || j > 0 ==> best@ is Some,
                i == 0 ==> p0 == 2,
                best@ is Some ==> is_record(best@->0, size as int),
                forall|lo: int, hi: int|
                    primes_between(lo, hi).len() >= 1 && (primes_between(lo, hi)[0] < p0 || (
                    primes_between(lo, hi)[0] == p0 && primes_between(lo, hi).len() <= j))
                        ==> no_record(#[trigger] primes_between(lo, hi), record_count(best@)),
            ensures
                best@ is Some,
                is_record(best@->0, size as int),
                forall|lo: int, hi: int|
                    primes_between(lo, hi).len() >= 1 && primes_between(lo, hi)[0] <= p0
                        ==> no_record(#[trigger] primes_between(lo, hi), record_count(best@)),
            decreases run@.len() - j,
        {
            if j >= run.len() {
                proof {
                    // a longer run holds a prime beyond the sieve
                    let top = run@[j - 1] + 1;
                    assert forall|lo: int, hi: int|
                        primes_between(lo, hi).len() >= 1 && primes_between(lo, hi)[0]
                            <= p0 implies no_record(
                        #[trigger] primes_between(lo, hi),
                        record_count(best@),
                    ) by {
                        let r = primes_between(lo, hi);
                        if r[0] == p0 && r.len() > j {
                            lemma_run_from_first(lo, hi);
                            if hi <= top {
                                lemma_run_grows(p0 - 1, hi, top);
                            } else {
                                if forall|m: int| top <= m < hi ==> !#[trigger] is_prime(m) {
                                    lemma_primes_between_gap(p0 - 1, top, hi);
                                    assert(false);
                                }
                                let m = choose|m: int| top <= m < hi && #[trigger] is_prime(m);
                                if m <= sieve_reach(sieve) {
                                    let k = choose|k: int|
                                        0 <= k < run@.len() && #[trigger] run@[k] == m;
                                    if k < j - 1 {
                                        assert(run@[k] < run@[j - 1]);
                                    }
                                    assert(false);
                                }
                                lemma_sum_at_least_member(p0 - 1, hi, m);
                            }
                        }
                    }
                }
                break;
            }
            let p = run[j];
            let ghost top = p + 1;
            proof {
                let from: int = if j == 0 {
                    p0 as int
                } else {
                    run@[j - 1] + 1
                };
                if j > 0 {
                    assert(run@[j - 1] < run@[j as int]);
                }
                assert forall|m: int| from <= m < p implies !#[trigger] is_prime(m) by {
                    if is_prime(m) {
                        let k = choose|k: int| 0 <= k < run@.len() && #[trigger] run@[k] == m;
                        if k < j {
                            if k < j - 1 {
                                assert(run@[k] < run@[j - 1]);
                            }
                        } else if k > j {
                            assert(run@[j as int] < run@[k]);
                        }
                    }
                }
                lemma_primes_between_gap(p0 - 1, from, p as int);
                assert(is_prime(run@[j as int] as int));
                assert(primes_between(p0 - 1, p + 1) == primes_between(p0 - 1, p as int).push(
                    p as int,
                ));
                assert(primes_between(p0 - 1, p + 1).drop_last() =~= primes_between(
                    p0 - 1,
                    p as int,
                ));
                if j == 0 {
                    assert(primes_between(p0 - 1, p0 as int) =~= Seq::<int>::empty());
                    assert(sum_of(primes_between(p0 - 1, p0 as int)) == 0);
                }
                assert(sum_of(primes_between(p0 - 1, top)) == sum + p);
                assert(primes_between(p0 - 1, top).len() == j + 1);
            }
            let added = sum.checked_add(p);
            let over = match added {
                Some(s) => s >= size,
                None => true,
            };
            if over {
                proof {
                    assert(i > 0 || j > 0);
                    assert forall|lo: int, hi: int|
                        primes_between(lo, hi).len() >= 1 && primes_between(lo, hi)[0]
                            <= p0 implies no_record(
                        #[trigger] primes_between(lo, hi),
                        record_count(best@),
                    ) by {
                        let r = primes_between(lo, hi);
                        if r[0] == p0 && r.len() > j {
                            lemma_longer_run(p0 as int, top, lo, hi);
                        }
                    }
                }
                break;
            }
            sum = added.unwrap();
            count += 1;
            let ghost old_count = record_count(best@);
            let found = sieve_is_prime(&sieve, sum);
            if found {
                let hit = CountOf::new(count, sum);
                assert(primes_between(p0 - 1, top).len() == count && sum_of(
                    primes_between(p0 - 1, top),
                ) == sum);
                assert(is_record(hit, size as int));
                offer_record(&mut best, hit);
            }
            proof {
                if i == 0 && j == 0 {
                    crate::divisibility::lemma_small_primes();
                    assert(sum == 2);
                    assert(best@ is Some);
                }
                assert forall|lo: int, hi: int|
                    primes_between(lo, hi).len() >= 1 && (primes_between(lo, hi)[0] < p0 || (
                    primes_between(lo, hi)[0] == p0 && primes_between(lo, hi).len() <= j + 1))
                        implies no_record(
                    #[trigger] primes_between(lo, hi),
                    record_count(best@),
                ) by {
                    let r = primes_between(lo, hi);
                    if r[0] == p0 && r.len() == j + 1 {
                        lemma_longer_run(p0 as int, top, lo, hi);
                        assert(sum_of(r) == sum);
                    } else {
                        assert(no_record(r, old_count));
                    }
                }
            }
            j += 1;
        }
        proof {
            // the runs that start before the next start begin at this start
            // or before it, or beyond the sieve
            assert forall|lo: int, hi: int|
                primes_between(lo, hi).len() >= 1 && (i + 1 == starts@.len() || primes_between(
                    lo,
                    hi,
                )[0] < starts@[i + 1]) implies no_record(
                #[trigger] primes_between(lo, hi),
                record_count(best@),
            ) by {
                let r = primes_between(lo, hi);
                lemma_run_from_first(lo, hi);
                if r[0] > p0 {
                    if r[0] <= sieve_reach(sieve) {
                        let k = choose|k: int| 0 <= k < starts@.len() && #[trigger] starts@[k] == r[0];
                        if k < i {
                            assert(starts@[k] < starts@[i as int]);
                        } else if k > i + 1 {
                            assert(starts@[i + 1] < starts@[k]);
                        }
                        assert(false);
                    }
                    lemma_sum_at_least_member(r[0] - 1, hi, r[0]);
                }
            }
        }
        i += 1;
    }
    let hit = best.into_inner().unwrap();
    proof {
        assert(consecutive_prime_sum(hit.data as int, hit.count as int));
        assert forall|lo: int, hi: int| no_record(
            #[trigger] primes_between(lo, hi),
            hit.count as int,
        ) by {
            if primes_between(lo, hi).len() == 0 {
            }
        }
    }
    hit.data
}

} // verus!
