//! abc-hits: triples `a + b = c` of coprime numbers whose radicals multiply
//! to less than `c`.
//!
//! The radical of a number is the product of its prime divisors, taken from
//! the factorisation that the `primal` sieve gives. The search goes through
//! the numbers in ascending order of their radicals, so that for each `c` it
//! can stop at the first radical that is too large.

use crate::divisibility::{
    divides, is_prime, lemma_cofactor, lemma_divides_product, lemma_divides_quotient,
    lemma_divides_trans, lemma_euclid, lemma_prime_factor,
};
use crate::sieves::{
    greatest_common_divisor, is_factorisation, pair_exponent, pair_prime, prime_power_product,
    sieve_new, sieve_reach,
};
use crate::solutions::p357_prime_generating_ints::{
    ascending_primes, factor_in_reach, lemma_ascending_rest, lemma_power_in_product, lemma_prime_in_list,
    lemma_product_positive, list_product,
};
use crate::slices::{is_rearrangement, names_position, pair_in_order, rearranged, sort_pairs};
use vstd::arithmetic::power::pow;
use vstd::prelude::*;

verus! {

/// The product of the primes up to `k` that divide `n`.
pub open spec fn radical_upto(n: int, k: int) -> int
    decreases k,
{
    if k < 2 {
        1
    } else {
        radical_upto(n, k - 1) * if is_prime(k) && divides(k, n) {
            k
        } else {
            1
        }
    }
}

/// The radical of `n`: the product of the primes that divide `n`.
pub open spec fn radical(n: int) -> int {
    radical_upto(n, n)
}

/// `a` and `b` have no common divisor but 1.
pub open spec fn coprime(a: int, b: int) -> bool {
    forall|d: int| d >= 2 && #[trigger] divides(d, a) ==> !divides(d, b)
}

/// What the search needs to know of the radical of `n`: it is positive,
/// divides `n`, and has the prime divisors of `n`.
pub open spec fn radical_facts(n: int) -> bool {
    &&& radical(n) >= 1
    &&& divides(radical(n), n)
    &&& forall|q: int| is_prime(q) ==> (#[trigger] divides(q, radical(n)) <==> divides(q, n))
}

/// The list holds the primes up to `hi` that divide `n`.
pub open spec fn prime_divisors(items: Seq<usize>, n: int, hi: int) -> bool {
    &&& ascending_primes(items)
    &&& forall|i: int| 0 <= i < items.len() ==> #[trigger] items[i] <= hi && divides(items[i] as int, n)
    &&& forall|p: int|
        is_prime(p) && p <= hi && #[trigger] divides(p, n) ==> exists|i: int|
            0 <= i < items.len() && items[i] == p
}

/// The product of the primes up to `hi` that divide `n` is the product of
/// their list.
pub proof fn lemma_radical_upto(items: Seq<usize>, n: int, hi: int)
    requires
        prime_divisors(items, n, hi),
    ensures
        radical_upto(n, hi) == list_product(items),
    decreases hi,
{
    if hi < 2 {
        if items.len() > 0 {
            assert(is_prime(items[0] as int));
            assert(items[0] <= hi);
        }
    } else if is_prime(hi) && divides(hi, n) {
        let k = choose|k: int| 0 <= k < items.len() && items[k] == hi;
        if k < items.len() - 1 {
            assert(items[k] < items[items.len() - 1]);
            assert(items[items.len() - 1] <= hi);
        }
        let rest = items.drop_last();
        lemma_ascending_rest(items);
        assert(prime_divisors(rest, n, hi - 1)) by {
            assert forall|i: int| 0 <= i < rest.len() implies #[trigger] rest[i] <= hi - 1
                && divides(rest[i] as int, n) by {
                assert(rest[i] == items[i]);
                assert(items[i] < items[items.len() - 1]);
            }
            assert forall|p: int| is_prime(p) && p <= hi - 1 && #[trigger] divides(
                p,
                n,
            ) implies exists|i: int| 0 <= i < rest.len() && rest[i] == p by {
                let i = choose|i: int| 0 <= i < items.len() && items[i] == p;
                assert(rest[i] == p);
            }
        }
        lemma_radical_upto(rest, n, hi - 1);
    } else {
        assert(prime_divisors(items, n, hi - 1)) by {
            assert forall|i: int| 0 <= i < items.len() implies #[trigger] items[i] <= hi - 1
                && divides(items[i] as int, n) by {
                assert(is_prime(items[i] as int));
            }
        }
        lemma_radical_upto(items, n, hi - 1);
    }
}

/// A prime that divides a power of a prime is that prime.
pub proof fn lemma_prime_divides_power(p: int, q: int, e: nat)
    requires
        is_prime(p),
        is_prime(q),
        divides(p, pow(q, e)),
    ensures
        p == q,
    decreases e,
{
    if e == 0 {
        vstd::arithmetic::power::lemma_pow0(q);
        vstd::arithmetic::div_mod::lemma_small_mod(1, p as nat);
    } else {
        vstd::arithmetic::power::lemma_pow_adds(q, 1, (e - 1) as nat);
        vstd::arithmetic::power::lemma_pow1(q);
        vstd::arithmetic::power::lemma_pow_positive(q, (e - 1) as nat);
        lemma_euclid(p, q, pow(q, (e - 1) as nat));
        if divides(p, q) {
            if p > q {
                vstd::arithmetic::div_mod::lemma_small_mod(q as nat, p as nat);
            }
        } else {
            lemma_prime_divides_power(p, q, (e - 1) as nat);
        }
    }
}

/// A prime that divides a number is one of the primes of its
/// factorisation.
pub proof fn lemma_prime_in_factorisation(p: int, pairs: Seq<(usize, usize)>)
    requires
        is_prime(p),
        forall|k: int|
            0 <= k < pairs.len() ==> is_prime(pair_prime(#[trigger] pairs[k])) && pair_exponent(
                pairs[k],
            ) >= 1,
        divides(p, prime_power_product(pairs)),
    ensures
        exists|i: int| 0 <= i < pairs.len() && pair_prime(#[trigger] pairs[i]) == p,
    decreases pairs.len(),
{
    if pairs.len() == 0 {
        vstd::arithmetic::div_mod::lemma_small_mod(1, p as nat);
    } else {
        let rest = pairs.drop_last();
        let (q, e) = (pair_prime(pairs.last()), pair_exponent(pairs.last()));
        assert(is_prime(pair_prime(pairs[pairs.len() - 1])));
        assert forall|k: int| 0 <= k < rest.len() implies is_prime(pair_prime(#[trigger] rest[k]))
            && pair_exponent(rest[k]) >= 1 by {
            assert(rest[k] == pairs[k]);
        }
        assert forall|k: int| 0 <= k < rest.len() implies pair_prime(#[trigger] rest[k]) >= 2 by {
            assert(is_prime(pair_prime(rest[k])));
        }
        lemma_product_positive(rest);
        vstd::arithmetic::power::lemma_pow_positive(q, e as nat);
        lemma_euclid(p, prime_power_product(rest), pow(q, e as nat));
        if divides(p, pow(q, e as nat)) {
            lemma_prime_divides_power(p, q, e as nat);
            assert(pair_prime(pairs[pairs.len() - 1]) == p);
        } else {
            lemma_prime_in_factorisation(p, rest);
            let i = choose|i: int| 0 <= i < rest.len() && pair_prime(#[trigger] rest[i]) == p;
            assert(pairs[i] == rest[i]);
        }
    }
}

/// The product of primes that all divide `n` divides `n`.
pub proof fn lemma_list_divides(items: Seq<usize>, n: int)
    requires
        n >= 1,
        ascending_primes(items),
        forall|i: int| 0 <= i < items.len() ==> divides(#[trigger] items[i] as int, n),
    ensures
        divides(list_product(items), n),
        list_product(items) >= 1,
    decreases items.len(),
{
    lemma_ascending_rest(items);
    if items.len() == 0 {
        assert(divides(1, n));
    } else {
        let rest = items.drop_last();
        let q = items.last() as int;
        assert(divides(items[items.len() - 1] as int, n));
        assert forall|i: int| 0 <= i < rest.len() implies divides(#[trigger] rest[i] as int, n) by {
            assert(rest[i] == items[i]);
        }
        lemma_list_divides(rest, n);
        let whole = list_product(rest);
        lemma_divides_quotient(whole, n);
        let t = n / whole;
        assert(t >= 1) by (nonlinear_arith)
            requires
                n == whole * t,
                n >= 1,
                whole >= 1,
        ;
        if divides(q, whole) {
            lemma_prime_in_list(q, rest);
            let i = choose|i: int| 0 <= i < rest.len() && rest[i] == q;
            assert(items[i] < items[items.len() - 1]);
            assert(false);
        }
        lemma_euclid(q, whole, t);
        lemma_divides_quotient(q, t);
        let u = t / q;
        assert(n == (whole * q) * u) by (nonlinear_arith)
            requires
                n == whole * t,
                t == q * u,
        ;
        assert(whole * q >= 1) by (nonlinear_arith)
            requires
                whole >= 1,
                q >= 2,
        ;
        lemma_divides_product(whole * q, u);
    }
}

/// Each prime of a list divides the product of the list.
pub proof fn lemma_member_divides(items: Seq<usize>, i: int)
    requires
        ascending_primes(items),
        0 <= i < items.len(),
    ensures
        divides(items[i] as int, list_product(items)),
    decreases items.len(),
{
    lemma_ascending_rest(items);
    let rest = items.drop_last();
    let q = items.last() as int;
    lemma_ascending_rest(rest);
    if i == items.len() - 1 {
        lemma_divides_product(q, list_product(rest));
    } else {
        lemma_member_divides(rest, i);
        assert(rest[i] == items[i]);
        lemma_divides_product(list_product(rest), q);
        lemma_divides_trans(items[i] as int, list_product(rest), list_product(rest) * q);
    }
}

/// The radical of a number, from the primes that divide it.
pub proof fn lemma_radical_from_list(items: Seq<usize>, n: int)
    requires
        n >= 1,
        prime_divisors(items, n, n),
    ensures
        radical(n) == list_product(items),
        radical_facts(n),
{
    lemma_radical_upto(items, n, n);
    lemma_list_divides(items, n);
    assert forall|q: int| is_prime(q) implies (#[trigger] divides(q, radical(n)) <==> divides(
        q,
        n,
    )) by {
        if divides(q, radical(n)) {
            lemma_prime_in_list(q, items);
            let i = choose|i: int| 0 <= i < items.len() && items[i] == q;
            assert(divides(items[i] as int, n));
        }
        if divides(q, n) {
            if q > n {
                vstd::arithmetic::div_mod::lemma_small_mod(n as nat, q as nat);
            }
            let i = choose|i: int| 0 <= i < items.len() && items[i] == q;
            lemma_member_divides(items, i);
        }
    }
}

/// The sum of the items of a sequence.
pub open spec fn total_of(s: Seq<int>) -> int
    decreases s.len(),
{
    if s.len() == 0 {
        0
    } else {
        total_of(s.drop_last()) + s.last()
    }
}

/// Taking one item out of a sequence takes it out of the sum.
pub proof fn lemma_total_remove(s: Seq<int>, k: int)
    requires
        0 <= k < s.len(),
    ensures
        total_of(s) == s[k] + total_of(s.remove(k)),
    decreases s.len(),
{
    if k == s.len() - 1 {
        assert(s.remove(k) =~= s.drop_last());
    } else {
        assert(s.remove(k).drop_last() =~= s.drop_last().remove(k));
        assert(s.remove(k).last() == s.last());
        lemma_total_remove(s.drop_last(), k);
    }
}

/// The sum of a sequence does not depend on the order of its items.
pub proof fn lemma_rearranged_total(perm: Seq<int>, after: Seq<int>, before: Seq<int>)
    requires
        is_rearrangement(perm, after, before),
    ensures
        total_of(after) == total_of(before),
    decreases before.len(),
{
    if before.len() > 0 {
        let j = before.len() - 1;
        assert(names_position(perm, j));
        let k0 = choose|k: int| 0 <= k < perm.len() && #[trigger] perm[k] == j;
        let after2 = after.remove(k0);
        let before2 = before.drop_last();
        let perm2 = perm.remove(k0);
        assert(is_rearrangement(perm2, after2, before2)) by {
            assert forall|k: int| 0 <= k < perm2.len() implies 0 <= #[trigger] perm2[k]
                < before2.len() by {
                if k < k0 {
                    assert(perm2[k] == perm[k]);
                } else {
                    assert(perm2[k] == perm[k + 1]);
                }
            }
            assert forall|k: int, l: int| 0 <= k < l < perm2.len() implies perm2[k] != perm2[l] by {
                let k1 = if k < k0 {
                    k
                } else {
                    k + 1
                };
                let l1 = if l < k0 {
                    l
                } else {
                    l + 1
                };
                assert(perm2[k] == perm[k1] && perm2[l] == perm[l1]);
            }
            assert forall|i: int| 0 <= i < before2.len() implies #[trigger] names_position(
                perm2,
                i,
            ) by {
                assert(names_position(perm, i));
                let k = choose|k: int| 0 <= k < perm.len() && #[trigger] perm[k] == i;
                if k < k0 {
                    assert(perm2[k] == i);
                } else {
                    assert(perm2[k - 1] == i);
                }
            }
            assert forall|k: int| 0 <= k < after2.len() implies #[trigger] after2[k]
                == before2[perm2[k]] by {
                if k < k0 {
                    assert(after2[k] == after[k] && perm2[k] == perm[k]);
                } else {
                    assert(after2[k] == after[k + 1] && perm2[k] == perm[k + 1]);
                }
            }
        }
        lemma_rearranged_total(perm2, after2, before2);
        lemma_total_remove(after, k0);
    }
}

/// The numbers `c` below this bound are searched.
pub const MAX_C: usize = 120_000;

/// `(a, c - a, c)` is an abc-hit: `a` and `c - a` are coprime, and the
/// radicals of the three numbers multiply to less than `c`.
pub open spec fn is_hit(a: int, c: int) -> bool {
    1 <= a < c && coprime(a, c - a) && radical(a) * radical(c - a) * radical(c) < c
}

/// The search looks at `a = 1`, and at every `a` from 2 on that is less
/// than `c - a` by two at least.
pub open spec fn in_search(a: int, c: int) -> bool {
    a == 1 || (2 <= a && 2 * a + 1 < c)
}

/// 1 if `(a, c - a, c)` is an abc-hit that the search looks at, 0 if not.
pub open spec fn hit_score(a: int, c: int) -> int {
    if in_search(a, c) && is_hit(a, c) {
        1
    } else {
        0
    }
}

/// The number of `a` from 2 up to, but not including, `hi` that make a hit
/// with `c`.
pub open spec fn later_hits(c: int, hi: int) -> int
    decreases hi,
{
    if hi <= 2 {
        0
    } else {
        later_hits(c, hi - 1) + hit_score(hi - 1, c)
    }
}

/// The sum of the `c` from 3 up to, but not including, `bound` that make a
/// hit with `a = 1`.
pub open spec fn first_total(bound: int) -> int
    decreases bound,
{
    if bound <= 3 {
        0
    } else {
        first_total(bound - 1) + (bound - 1) * hit_score(1, bound - 1)
    }
}

/// The sum of the `c` from 3 up to, but not including, `bound`, each as
/// often as it makes a hit with an `a` from 2 on.
pub open spec fn later_total(bound: int) -> int
    decreases bound,
{
    if bound <= 3 {
        0
    } else {
        later_total(bound - 1) + (bound - 1) * later_hits(bound - 1, bound - 1)
    }
}

/// A divisor of a positive number is no greater than the number.
pub proof fn lemma_divisor_bound(d: int, n: int)
    requires
        d >= 1,
        n >= 1,
        divides(d, n),
    ensures
        d <= n,
{
    lemma_cofactor(d, n);
    let t = n / d;
    assert(d <= n) by (nonlinear_arith)
        requires
            n == d * t,
            t >= 1,
            d >= 1,
    ;
}

/// The radical of a number from 2 on is 2 at least.
pub proof fn lemma_radical_at_least_2(n: int)
    requires
        n >= 2,
        radical_facts(n),
    ensures
        radical(n) >= 2,
{
    let q = lemma_prime_factor(n);
    assert(divides(q, radical(n)));
    lemma_divisor_bound(q, radical(n));
}

/// Two numbers are coprime exactly if their radicals are.
pub proof fn lemma_coprime_radicals(a: int, b: int)
    requires
        a >= 1,
        b >= 1,
        radical_facts(a),
        radical_facts(b),
    ensures
        coprime(a, b) <==> coprime(radical(a), radical(b)),
{
    if !coprime(a, b) {
        let d = choose|d: int| d >= 2 && #[trigger] divides(d, a) && divides(d, b);
        let q = lemma_prime_factor(d);
        lemma_divides_trans(q, d, a);
        lemma_divides_trans(q, d, b);
        assert(divides(q, radical(a)) && divides(q, radical(b)));
    }
    if !coprime(radical(a), radical(b)) {
        let d = choose|d: int|
            d >= 2 && #[trigger] divides(d, radical(a)) && divides(d, radical(b));
        let q = lemma_prime_factor(d);
        lemma_divides_trans(q, d, radical(a));
        lemma_divides_trans(q, d, radical(b));
        assert(divides(q, a) && divides(q, b));
    }
}

/// Where six times the radical of `c` is beyond `c`, no `a` from 2 on makes
/// a hit: the radicals of two coprime numbers from 2 on multiply to 6 at
/// least.
pub proof fn lemma_no_later_hit(a: int, c: int)
    requires
        2 <= a,
        2 * a + 1 < c,
        radical_facts(a),
        radical_facts(c - a),
        radical_facts(c),
        radical(c) * 6 > c,
    ensures
        !is_hit(a, c),
{
    let (ra, rb, rc) = (radical(a), radical(c - a), radical(c));
    lemma_radical_at_least_2(a);
    lemma_radical_at_least_2(c - a);
    if coprime(a, c - a) {
        lemma_coprime_radicals(a, c - a);
        if ra == 2 && rb == 2 {
            assert(divides(2, ra) && divides(2, rb));
            assert(false);
        }
        assert(ra * rb * rc >= 6 * rc) by (nonlinear_arith)
            requires
                ra >= 2,
                rb >= 2,
                ra >= 3 || rb >= 3,
                rc >= 1,
        ;
    }
}

/// The test of the search for an `a` from 2 on is the test for a hit.
pub proof fn lemma_later_test(a: int, c: int, g: int)
    requires
        2 <= a,
        2 * a + 1 < c,
        radical_facts(a),
        radical_facts(c - a),
        radical_facts(c),
        g >= 1,
        divides(g, radical(a)),
        divides(g, radical(c - a)),
        forall|d: int|
            d >= 1 && #[trigger] divides(d, radical(a)) && divides(d, radical(c - a)) ==> d <= g,
    ensures
        is_hit(a, c) <==> (g == 1 && radical(a) * radical(c - a) < c / radical(c)),
{
    let (ra, rb, rc) = (radical(a), radical(c - a), radical(c));
    lemma_coprime_radicals(a, c - a);
    lemma_divides_quotient(rc, c);
    let over = c / rc;
    assert((ra * rb * rc < c) <==> (ra * rb < over)) by (nonlinear_arith)
        requires
            c == rc * over,
            rc >= 1,
    ;
    if g == 1 {
        assert(coprime(ra, rb));
    } else {
        assert(!coprime(ra, rb));
    }
}

/// From `c` on, no `a` makes a hit with `c`.
pub proof fn lemma_later_hits_end(c: int, hi: int)
    requires
        2 <= c <= hi,
    ensures
        later_hits(c, hi) == later_hits(c, c),
    decreases hi - c,
{
    if c < hi {
        lemma_later_hits_end(c, hi - 1);
    }
}

/// The scores of the numbers from 2 on, in their order.
pub open spec fn scores_in_order(c: int, count: int) -> Seq<int> {
    Seq::new(count as nat, |k: int| hit_score(k + 2, c))
}

/// The scores of the numbers from 2 on add up to the number of hits.
pub proof fn lemma_scores_in_order(c: int, count: int)
    requires
        0 <= count,
    ensures
        total_of(scores_in_order(c, count)) == later_hits(c, count + 2),
    decreases count,
{
    if count > 0 {
        lemma_scores_in_order(c, count - 1);
        assert(scores_in_order(c, count).drop_last() =~= scores_in_order(c, count - 1));
    }
}

/// The number of a pair of radical and number.
pub open spec fn pair_number(pair: (usize, usize)) -> int {
    let (_, n) = pair;
    n as int
}

/// The radical of a pair of radical and number.
pub open spec fn pair_radical(pair: (usize, usize)) -> int {
    let (r, _) = pair;
    r as int
}

/// The scores of the numbers of a list of pairs.
pub open spec fn scores_of(pairs: Seq<(usize, usize)>, c: int) -> Seq<int> {
    Seq::new(pairs.len(), |k: int| hit_score(pair_number(pairs[k]), c))
}

/// Where the scores from `k` on are all zero, the scores up to `k` add up to
/// the sum of all.
pub proof fn lemma_zero_tail(scores: Seq<int>, k: int)
    requires
        0 <= k <= scores.len(),
        forall|l: int| k <= l < scores.len() ==> #[trigger] scores[l] == 0,
    ensures
        total_of(scores) == total_of(scores.take(k)),
    decreases scores.len() - k,
{
    if k == scores.len() {
        assert(scores.take(k) =~= scores);
    } else {
        assert(scores.drop_last().take(k) =~= scores.take(k));
        lemma_zero_tail(scores.drop_last(), k);
    }
}

/// The radical of the number that `pairs` is the factorisation of: the
/// product of its primes.
#[verifier::rlimit(50)]
fn radical_of(pairs: &Vec<(usize, usize)>, Ghost(n): Ghost<int>) -> (r: usize)
    requires
        1 <= n <= usize::MAX,
        is_factorisation(pairs@, n),
    ensures
        r == radical(n),
        radical_facts(n),
        1 <= r <= n,
{
    let mut r: usize = 1;
    let ghost mut primes: Seq<usize> = Seq::empty();
    proof {
        assert forall|k: int| 0 <= k < pairs@.len() implies pair_prime(#[trigger] pairs@[k]) >= 2
            && pair_exponent(pairs@[k]) >= 1 by {
            assert(is_prime(pair_prime(pairs@[k])));
        }
    }
    for i in 0..pairs.len()
        invariant
            1 <= n <= usize::MAX,
            is_factorisation(pairs@, n),
            forall|k: int|
                0 <= k < pairs@.len() ==> pair_prime(#[trigger] pairs@[k]) >= 2 && pair_exponent(
                    pairs@[k],
                ) >= 1,
            primes.len() == i,
            forall|k: int| 0 <= k < i ==> #[trigger] primes[k] == pair_prime(pairs@[k]),
            ascending_primes(primes),
            r == list_product(primes),
            1 <= r <= n,
    {
        let (p, _) = pairs[i];
        let ghost longer = primes.push(p);
        proof {
            assert(is_prime(pair_prime(pairs@[i as int])));
            assert(ascending_primes(longer)) by {
                assert forall|k: int| 0 <= k < longer.len() implies is_prime(
                    #[trigger] longer[k] as int,
                ) by {
                    if k < i {
                        assert(longer[k] == primes[k]);
                    }
                }
                assert forall|k: int, l: int| 0 <= k < l < longer.len() implies longer[k]
                    < longer[l] by {
                    assert(pair_prime(pairs@[k]) < pair_prime(pairs@[l]));
                    assert(longer[k] == primes[k]);
                    if l < i {
                        assert(longer[l] == primes[l]);
                    }
                }
            }
            assert forall|k: int| 0 <= k < longer.len() implies divides(
                #[trigger] longer[k] as int,
                n,
            ) by {
                lemma_power_in_product(pairs@, k);
                if k < i {
                    assert(longer[k] == primes[k]);
                }
            }
            lemma_list_divides(longer, n);
            lemma_divisor_bound(list_product(longer), n);
            assert(longer.drop_last() =~= primes);
        }
        r = r * p;
        proof {
            primes = longer;
        }
    }
    proof {
        assert(prime_divisors(primes, n, n)) by {
            assert forall|k: int| 0 <= k < primes.len() implies #[trigger] primes[k] <= n
                && divides(primes[k] as int, n) by {
                lemma_power_in_product(pairs@, k);
                lemma_divisor_bound(primes[k] as int, n);
            }
            assert forall|p: int| is_prime(p) && p <= n && #[trigger] divides(
                p,
                n,
            ) implies exists|k: int| 0 <= k < primes.len() && primes[k] == p by {
                assert forall|k: int| 0 <= k < pairs@.len() implies is_prime(
                    pair_prime(#[trigger] pairs@[k]),
                ) && pair_exponent(pairs@[k]) >= 1 by {
                }
                lemma_prime_in_factorisation(p, pairs@);
                let k = choose|k: int|
                    0 <= k < pairs@.len() && pair_prime(#[trigger] pairs@[k]) == p;
                assert(primes[k] == p);
            }
        }
        lemma_radical_from_list(primes, n);
    }
    r
}

/// Where the radical of `a` is no less than `c` divided by its radical, `a`
/// makes no hit with `c`.
pub proof fn lemma_large_radical(a: int, c: int)
    requires
        1 <= a < c,
        radical_facts(a),
        radical_facts(c - a),
        radical_facts(c),
        radical(a) >= c / radical(c),
    ensures
        !is_hit(a, c),
{
    let (ra, rb, rc) = (radical(a), radical(c - a), radical(c));
    lemma_divides_quotient(rc, c);
    let over = c / rc;
    assert(ra * rc >= over * rc) by (nonlinear_arith)
        requires
            ra >= over,
            rc >= 1,
    ;
    assert(ra * rb * rc >= ra * rc) by (nonlinear_arith)
        requires
            ra >= 1,
            rb >= 1,
            rc >= 1,
    ;
    assert(over * rc == rc * over) by (nonlinear_arith);
}

/// Where no `a` from 2 up to `hi` makes a hit, their number is zero.
pub proof fn lemma_later_hits_zero(c: int, hi: int)
    requires
        forall|a: int| 2 <= a < hi ==> #[trigger] hit_score(a, c) == 0,
    ensures
        later_hits(c, hi) == 0,
    decreases hi,
{
    if hi > 2 {
        lemma_later_hits_zero(c, hi - 1);
    }
}

/// The scores of a list that holds the numbers from 2 on in some order add
/// up to the number of hits.
pub proof fn lemma_sorted_scores(sorted: Seq<(usize, usize)>, unsorted: Seq<(usize, usize)>, c: int)
    requires
        rearranged(sorted, unsorted),
        forall|k: int| 0 <= k < unsorted.len() ==> pair_number(#[trigger] unsorted[k]) == k + 2,
        2 <= c <= unsorted.len() + 2,
    ensures
        total_of(scores_of(sorted, c)) == later_hits(c, c),
{
    let perm = choose|perm: Seq<int>| #[trigger] is_rearrangement(perm, sorted, unsorted);
    let after = scores_of(sorted, c);
    let before = scores_of(unsorted, c);
    assert(is_rearrangement(perm, after, before));
    lemma_rearranged_total(perm, after, before);
    assert(before =~= scores_in_order(c, unsorted.len() as int));
    lemma_scores_in_order(c, unsorted.len() as int);
    lemma_later_hits_end(c, unsorted.len() as int + 2);
}

/// `rads[k]` is the radical of `k`.
pub open spec fn known_radical(rads: Seq<usize>, k: int) -> bool {
    rads[k] == radical(k) && radical_facts(k) && 1 <= rads[k] <= k
}

/// `rads` holds the radicals of the numbers from 1 up to its length.
pub open spec fn radicals_known(rads: Seq<usize>) -> bool {
    forall|k: int| 1 <= k < rads.len() ==> #[trigger] known_radical(rads, k)
}

/// The pair holds a number from 2 on and its radical as `rads` has it.
pub open spec fn listed(pair: (usize, usize), rads: Seq<usize>) -> bool {
    let (r, a) = pair;
    2 <= a < rads.len() && r == rads[a as int]
}

/// The number of the `a` in `sorted` that make a hit with `c`, found among
/// those whose radical is below `c` divided by its radical.
#[verifier::rlimit(50)]
fn count_later_hits(c: usize, rads: &Vec<usize>, sorted: &Vec<(usize, usize)>) -> (hits: usize)
    requires
        3 <= c < rads@.len() <= MAX_C,
        radicals_known(rads@),
        forall|k: int| 0 <= k < sorted@.len() ==> #[trigger] listed(sorted@[k], rads@),
        forall|k: int, l: int|
            0 <= k <= l < sorted@.len() ==> pair_in_order(
                #[trigger] sorted@[k],
                #[trigger] sorted@[l],
            ),
    ensures
        hits == total_of(scores_of(sorted@, c as int)),
        hits <= sorted@.len(),
{
    let radc: usize = rads[c];
    assert(known_radical(rads@, c as int));
    let c_over: usize = c / radc;
    let ghost scores = scores_of(sorted@, c as int);
    let mut hits: usize = 0;
    let mut k: usize = 0;
    loop
        invariant_except_break
            k <= sorted@.len(),
            hits == total_of(scores.take(k as int)),
        invariant
            3 <= c < rads@.len() <= MAX_C,
            radicals_known(rads@),
            forall|k: int| 0 <= k < sorted@.len() ==> #[trigger] listed(sorted@[k], rads@),
            forall|k: int, l: int|
                0 <= k <= l < sorted@.len() ==> pair_in_order(
                    #[trigger] sorted@[k],
                    #[trigger] sorted@[l],
                ),
            scores == scores_of(sorted@, c as int),
            radc == radical(c as int),
            radical_facts(c as int),
            c_over == c as int / radc as int,
            hits <= k <= sorted@.len(),
        ensures
            hits == total_of(scores),
        decreases sorted@.len() - k,
    {
        if k >= sorted.len() {
            proof {
                assert(scores.take(k as int) =~= scores);
            }
            break ;
        }
        let (rada, a) = sorted[k];
        assert(listed(sorted@[k as int], rads@));
        assert(known_radical(rads@, a as int));
        if rada >= c_over {
            proof {
                assert forall|l: int| k <= l < scores.len() implies #[trigger] scores[l] == 0 by {
                    let (r, x) = sorted@[l];
                    assert(pair_in_order(sorted@[k as int], sorted@[l]));
                    assert(listed(sorted@[l], rads@));
                    assert(known_radical(rads@, x as int));
                    if 2 * x + 1 < c {
                        assert(known_radical(rads@, c - x));
                        lemma_large_radical(x as int, c as int);
                    }
                }
                lemma_zero_tail(scores, k as int);
            }
            break ;
        }
        proof {
            assert(scores.take(k + 1).drop_last() =~= scores.take(k as int));
            assert(scores.take(k + 1).last() == hit_score(a as int, c as int));
        }
        if 2 <= a && a < c / 2 {
            let b: usize = c - a;
            let radb: usize = rads[b];
            assert(known_radical(rads@, b as int));
            let g: usize = greatest_common_divisor(rada, radb);
            proof {
                lemma_later_test(a as int, c as int, g as int);
            }
            if g == 1 {
                assert(rada * radb <= 120_000 * 120_000) by (nonlinear_arith)
                    requires
                        rada <= 120_000,
                        radb <= 120_000,
                ;
                let product: u64 = (rada as u64) * (radb as u64);
                if product < c_over as u64 {
                    hits = hits + 1;
                }
            }
        }
        k = k + 1;
    }
    hits
}

/// abc-hits: the sum of `c` over the abc-hits `(a, b, c)` with `c` below
/// `MAX_C` that the search looks at.
#[verifier::rlimit(50)]
pub fn p127() -> (sum: u64)
    ensures
        sum == first_total(MAX_C as int) + later_total(MAX_C as int),
{
    let max: usize = MAX_C;
    let sieve = sieve_new(max);
    let mut rads: Vec<usize> = Vec::new();
    let mut sorted_rads: Vec<(usize, usize)> = Vec::new();
    rads.push(0);
    rads.push(1);
    proof {
        reveal_with_fuel(radical_upto, 2);
        assert(radical(1) == 1);
        assert(divides(1, 1));
        assert(known_radical(rads@, 1));
    }
    let mut n: usize = 2;
    while n < max
        invariant
            max == MAX_C,
            sieve_reach(sieve) >= max,
            2 <= n <= max,
            rads@.len() == n,
            sorted_rads@.len() == n - 2,
            radicals_known(rads@),
            forall|k: int|
                0 <= k < sorted_rads@.len() ==> #[trigger] sorted_rads@[k] == (
                    rads@[k + 2],
                    (k + 2) as usize,
                ),
        decreases max - n,
    {
        let pairs = factor_in_reach(&sieve, n);
        let r: usize = radical_of(&pairs, Ghost(n as int));
        let ghost earlier = rads@;
        rads.push(r);
        sorted_rads.push((r, n));
        proof {
            assert forall|k: int| 1 <= k < rads@.len() implies #[trigger] known_radical(
                rads@,
                k,
            ) by {
                if k < n {
                    assert(known_radical(earlier, k));
                }
            }
        }
        n = n + 1;
    }
    let ghost unsorted = sorted_rads@;
    sort_pairs(&mut sorted_rads);
    proof {
        let perm = choose|perm: Seq<int>| #[trigger]
            is_rearrangement(perm, sorted_rads@, unsorted);
        assert forall|k: int| 0 <= k < sorted_rads@.len() implies #[trigger] listed(
            sorted_rads@[k],
            rads@,
        ) by {
            assert(sorted_rads@[k] == unsorted[perm[k]]);
        }
    }
    let mut sum: u64 = 0;
    let mut c: usize = 3;
    while c < max
        invariant
            max == MAX_C,
            3 <= c <= max,
            rads@.len() == max,
            radicals_known(rads@),
            sum == first_total(c as int),
            sum <= c * 120_000,
        decreases max - c,
    {
        let radb: u64 = rads[c - 1] as u64;
        let radc: u64 = rads[c] as u64;
        proof {
            assert(known_radical(rads@, c - 1));
            assert(known_radical(rads@, c as int));
            assert(known_radical(rads@, 1));
            assert(coprime(1, c - 1)) by {
                assert forall|d: int| d >= 2 && #[trigger] divides(d, 1) implies !divides(
                    d,
                    c - 1,
                ) by {
                    lemma_divisor_bound(d, 1);
                }
            }
            assert(radb * radc <= 120_000 * 120_000) by (nonlinear_arith)
                requires
                    radb <= 120_000,
                    radc <= 120_000,
            ;
            assert(1 * radical(c - 1) * radical(c as int) == radb * radc) by (nonlinear_arith)
                requires
                    radb == radical(c - 1),
                    radc == radical(c as int),
            ;
        }
        if radb * radc < c as u64 {
            sum = sum + c as u64;
        }
        c = c + 1;
    }
    let mut c: usize = 3;
    while c < max
        invariant
            max == MAX_C,
            3 <= c <= max,
            rads@.len() == max,
            radicals_known(rads@),
            sorted_rads@.len() == max - 2,
            rearranged(sorted_rads@, unsorted),
            unsorted.len() == max - 2,
            forall|k: int| 0 <= k < unsorted.len() ==> pair_number(#[trigger] unsorted[k]) == k + 2,
            forall|k: int| 0 <= k < sorted_rads@.len() ==> #[trigger] listed(sorted_rads@[k], rads@),
            forall|k: int, l: int|
                0 <= k <= l < sorted_rads@.len() ==> pair_in_order(
                    #[trigger] sorted_rads@[k],
                    #[trigger] sorted_rads@[l],
                ),
            sum == first_total(max as int) + later_total(c as int),
            sum <= 14_400_000_000 + c * 14_400_000_000,
        decreases max - c,
    {
        let radc: usize = rads[c];
        assert(known_radical(rads@, c as int));
        if radc * 6 <= c {
            let hits: usize = count_later_hits(c, &rads, &sorted_rads);
            proof {
                lemma_sorted_scores(sorted_rads@, unsorted, c as int);
                assert(c * hits <= 14_400_000_000) by (nonlinear_arith)
                    requires
                        c <= 120_000,
                        hits <= 120_000,
                ;
            }
            sum = sum + (c as u64) * (hits as u64);
        } else {
            proof {
                assert forall|a: int| 2 <= a < c implies #[trigger] hit_score(a, c as int) == 0 by {
                    if 2 * a + 1 < c {
                        assert(known_radical(rads@, a));
                        assert(known_radical(rads@, c - a));
                        lemma_no_later_hit(a, c as int);
                    }
                }
                lemma_later_hits_zero(c as int, c as int);
            }
        }
        c = c + 1;
    }
    sum
}

} // verus!
