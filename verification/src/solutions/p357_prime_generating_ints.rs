//! Prime generating integers: the numbers `n` for which `d + n / d` is a
//! prime for every divisor `d` of `n`.

use crate::adjacent::{sublist, subsets};
use crate::divisibility::{
    divides, is_prime, lemma_cancel_prime, lemma_cofactor, lemma_divides_product,
    lemma_divides_quotient, lemma_divides_trans, lemma_euclid, lemma_prime_factor,
    lemma_small_primes,
};
use crate::sieves::{
    is_factorisation, pair_exponent, pair_prime, prime_power_product, sieve_factor, sieve_is_prime,
    sieve_new, sieve_primes_from, sieve_reach,
};
use primal::Sieve;
use vstd::arithmetic::power::pow;
use vstd::prelude::*;

verus! {

/// The numbers up to this bound are searched.
pub const LIMIT: usize = 100_000_000;

/// `d + n / d` is a prime for every divisor `d` of `n`.
pub open spec fn generates(n: int) -> bool {
    n >= 1 && forall|d: int| 1 <= d <= n && #[trigger] divides(d, n) ==> is_prime(d + n / d)
}

/// The sum of the prime generating integers up to `limit`.
pub open spec fn generating_sum(limit: int) -> int
    decreases limit,
{
    if limit <= 0 {
        0
    } else {
        generating_sum(limit - 1) + if generates(limit) {
            limit
        } else {
            0
        }
    }
}

/// The product of the numbers of a list; 1 for the empty list.
pub open spec fn list_product(items: Seq<usize>) -> int
    decreases items.len(),
{
    if items.len() == 0 {
        1
    } else {
        list_product(items.drop_last()) * items.last()
    }
}

/// The numbers of the list are primes, in strictly ascending order.
pub open spec fn ascending_primes(items: Seq<usize>) -> bool {
    &&& forall|i: int| 0 <= i < items.len() ==> is_prime(#[trigger] items[i] as int)
    &&& forall|i: int, j: int| 0 <= i < j < items.len() ==> items[i] < items[j]
}

/// A list of ascending primes without its last prime is a list of ascending
/// primes, and its product is positive.
pub proof fn lemma_ascending_rest(items: Seq<usize>)
    requires
        ascending_primes(items),
    ensures
        list_product(items) >= 1,
        items.len() > 0 ==> ascending_primes(items.drop_last()) && is_prime(items.last() as int),
    decreases items.len(),
{
    if items.len() > 0 {
        let rest = items.drop_last();
        assert(ascending_primes(rest)) by {
            assert forall|i: int| 0 <= i < rest.len() implies is_prime(#[trigger] rest[i] as int) by {
                assert(rest[i] == items[i]);
            }
            assert forall|i: int, j: int| 0 <= i < j < rest.len() implies rest[i] < rest[j] by {
                assert(rest[i] == items[i] && rest[j] == items[j]);
            }
        }
        assert(is_prime(items[items.len() - 1] as int));
        lemma_ascending_rest(rest);
        assert(list_product(rest) * items.last() >= 1) by (nonlinear_arith)
            requires
                list_product(rest) >= 1,
                items.last() >= 2,
        ;
    }
}

/// The product of a selection of primes divides the product of all of them.
pub proof fn lemma_selection_divides(sub: Seq<usize>, items: Seq<usize>)
    requires
        ascending_primes(items),
        sublist(sub, items),
    ensures
        list_product(sub) >= 1,
        divides(list_product(sub), list_product(items)),
        list_product(sub) <= list_product(items),
    decreases items.len(),
{
    lemma_ascending_rest(items);
    if items.len() == 0 {
        assert(sub.len() == 0);
        assert(divides(1, 1));
    } else {
        let rest = items.drop_last();
        let p = items.last() as int;
        let whole = list_product(rest);
        if sublist(sub, rest) {
            lemma_selection_divides(sub, rest);
            lemma_divides_product(whole, p);
            lemma_divides_trans(list_product(sub), whole, whole * p);
        } else {
            let part = sub.drop_last();
            lemma_selection_divides(part, rest);
            let x = list_product(part);
            lemma_divides_quotient(x, whole);
            let t = whole / x;
            assert(whole * p == (x * p) * t) by (nonlinear_arith)
                requires
                    whole == x * t,
            ;
            assert(x * p >= 1) by (nonlinear_arith)
                requires
                    x >= 1,
                    p >= 2,
            ;
            lemma_divides_product(x * p, t);
        }
        lemma_cofactor(list_product(sub), list_product(items));
        let c = list_product(items) / list_product(sub);
        assert(list_product(sub) <= list_product(items)) by (nonlinear_arith)
            requires
                list_product(items) == list_product(sub) * c,
                c >= 1,
                list_product(sub) >= 1,
        ;
    }
}

/// A divisor of a product of primes is the product of a selection of them.
pub proof fn lemma_divisor_is_selection(d: int, items: Seq<usize>) -> (sub: Seq<usize>)
    requires
        ascending_primes(items),
        d >= 1,
        divides(d, list_product(items)),
    ensures
        sublist(sub, items),
        list_product(sub) == d,
    decreases items.len(),
{
    lemma_ascending_rest(items);
    if items.len() == 0 {
        if d > 1 {
            vstd::arithmetic::div_mod::lemma_small_mod(1, d as nat);
        }
        Seq::empty()
    } else {
        let rest = items.drop_last();
        let p = items.last() as int;
        let whole = list_product(rest);
        if divides(p, d) {
            lemma_divides_quotient(p, d);
            let e = d / p;
            lemma_divides_quotient(d, whole * p);
            let t = (whole * p) / d;
            assert(whole == e * t) by (nonlinear_arith)
                requires
                    whole * p == d * t,
                    d == p * e,
                    p >= 2,
            ;
            assert(e >= 1) by (nonlinear_arith)
                requires
                    d == p * e,
                    d >= 1,
                    p >= 2,
            ;
            lemma_divides_product(e, t);
            let part = lemma_divisor_is_selection(e, rest);
            let sub = part.push(items.last());
            assert(sub.drop_last() =~= part);
            assert(list_product(part) * p == p * e) by (nonlinear_arith)
                requires
                    list_product(part) == e,
            ;
            sub
        } else {
            lemma_ascending_rest(rest);
            lemma_cancel_prime(p, d, whole);
            lemma_divisor_is_selection(d, rest)
        }
    }
}

/// No prime divides a product of ascending primes twice.
pub proof fn lemma_square_free(p: int, items: Seq<usize>)
    requires
        ascending_primes(items),
        is_prime(p),
    ensures
        !divides(p * p, list_product(items)),
    decreases items.len(),
{
    lemma_ascending_rest(items);
    assert(p * p >= 4) by (nonlinear_arith)
        requires
            p >= 2,
    ;
    if items.len() == 0 {
        vstd::arithmetic::div_mod::lemma_small_mod(1, (p * p) as nat);
    } else {
        let rest = items.drop_last();
        let q = items.last() as int;
        let whole = list_product(rest);
        lemma_ascending_rest(rest);
        lemma_square_free(p, rest);
        if divides(p * p, whole * q) {
            if p == q {
                // p * p | whole * p, so p | whole, and p is one of the lesser primes
                lemma_divides_quotient(p * p, whole * p);
                let t = (whole * p) / (p * p);
                assert(whole == p * t) by (nonlinear_arith)
                    requires
                        whole * p == (p * p) * t,
                        p >= 2,
                ;
                lemma_divides_product(p, t);
                lemma_prime_in_list(p, rest);
                let i = choose|i: int| 0 <= i < rest.len() && rest[i] == p;
                assert(items[i] < items[items.len() - 1]);
                assert(false);
            } else {
                if divides(q, p * p) {
                    lemma_euclid(q, p, p);
                    assert(divides(q, p));
                    if q > p {
                        vstd::arithmetic::div_mod::lemma_small_mod(p as nat, q as nat);
                    }
                    assert(false);
                }
                lemma_cancel_prime(q, p * p, whole);
                assert(false);
            }
        }
    }
}

/// A prime that divides a product of primes is one of them.
pub proof fn lemma_prime_in_list(p: int, items: Seq<usize>)
    requires
        ascending_primes(items),
        is_prime(p),
        divides(p, list_product(items)),
    ensures
        exists|i: int| 0 <= i < items.len() && items[i] == p,
    decreases items.len(),
{
    lemma_ascending_rest(items);
    if items.len() == 0 {
        vstd::arithmetic::div_mod::lemma_small_mod(1, p as nat);
    } else {
        let rest = items.drop_last();
        let q = items.last() as int;
        lemma_ascending_rest(rest);
        lemma_euclid(p, list_product(rest), q);
        if divides(p, q) {
            if p != q {
                if p > q {
                    vstd::arithmetic::div_mod::lemma_small_mod(q as nat, p as nat);
                }
                assert(false);
            }
            assert(items[items.len() - 1] == p);
        } else {
            lemma_prime_in_list(p, rest);
            let i = choose|i: int| 0 <= i < rest.len() && rest[i] == p;
            assert(items[i] == p);
        }
    }
}

/// A number with a divisor `d` for which `d + n / d` is no prime does not
/// generate primes.
pub proof fn lemma_spoiled(n: int, d: int)
    requires
        1 <= d <= n,
        divides(d, n),
        !is_prime(d + n / d),
    ensures
        !generates(n),
{
}

/// A multiple of 4 does not generate primes: with 2 it gives an even sum.
pub proof fn lemma_multiple_of_4(n: int)
    requires
        n >= 4,
        n % 4 == 0,
    ensures
        !generates(n),
{
    assert(divides(2, n));
    assert(divides(2, 2 + n / 2));
    lemma_spoiled(n, 2);
}

/// A multiple of the square of a prime does not generate primes: with the
/// prime it gives a multiple of the prime.
pub proof fn lemma_square_spoils(n: int, p: int)
    requires
        n >= 1,
        is_prime(p),
        divides(p * p, n),
    ensures
        !generates(n),
{
    assert(p * p >= 4) by (nonlinear_arith)
        requires
            p >= 2,
    ;
    lemma_divides_quotient(p * p, n);
    let t = n / (p * p);
    assert(t >= 1 && n == p * (p * t) && p <= n) by (nonlinear_arith)
        requires
            n == (p * p) * t,
            n >= 1,
            p >= 2,
    ;
    lemma_divides_product(p, p * t);
    vstd::arithmetic::div_mod::lemma_div_multiples_vanish(p * t, p);
    assert((p * t) * p == n) by (nonlinear_arith)
        requires
            n == p * (p * t),
    ;
    assert(n / p == p * t);
    assert(p + p * t == p * (1 + t)) by (nonlinear_arith);
    lemma_divides_product(p, 1 + t);
    assert(p < p + n / p) by (nonlinear_arith)
        requires
            n / p == p * t,
            t >= 1,
            p >= 2,
    ;
    assert(divides(p, p + n / p));
    lemma_spoiled(n, p);
}

/// The power of a prime with an exponent of two or more is a multiple of
/// the square of the prime, and every power of the prime divides the
/// product it stands in.
pub proof fn lemma_power_in_product(pairs: Seq<(usize, usize)>, i: int)
    requires
        0 <= i < pairs.len(),
        forall|k: int|
            0 <= k < pairs.len() ==> pair_prime(#[trigger] pairs[k]) >= 2 && pair_exponent(pairs[k])
                >= 1,
    ensures
        prime_power_product(pairs) >= 1,
        divides(pair_prime(pairs[i]), prime_power_product(pairs)),
        pair_exponent(pairs[i]) >= 2 ==> divides(
            pair_prime(pairs[i]) * pair_prime(pairs[i]),
            prime_power_product(pairs),
        ),
    decreases pairs.len(),
{
    let rest = pairs.drop_last();
    let (p, e) = (pair_prime(pairs.last()), pair_exponent(pairs.last()));
    let whole = prime_power_product(rest);
    lemma_product_positive(rest);
    vstd::arithmetic::power::lemma_pow_positive(p, e as nat);
    let power = pow(p, e as nat);
    assert(whole * power >= 1) by (nonlinear_arith)
        requires
            whole >= 1,
            power >= 1,
    ;
    if i == pairs.len() - 1 {
        vstd::arithmetic::power::lemma_pow_adds(p, 1, (e - 1) as nat);
        vstd::arithmetic::power::lemma_pow1(p);
        let lower = pow(p, (e - 1) as nat);
        assert(whole * power == p * (lower * whole)) by (nonlinear_arith)
            requires
                power == p * lower,
        ;
        lemma_divides_product(p, lower * whole);
        if e >= 2 {
            vstd::arithmetic::power::lemma_pow_adds(p, 1, (e - 2) as nat);
            let lowest = pow(p, (e - 2) as nat);
            assert(whole * power == (p * p) * (lowest * whole)) by (nonlinear_arith)
                requires
                    power == p * lower,
                    lower == p * lowest,
            ;
            assert(p * p >= 1) by (nonlinear_arith)
                requires
                    p >= 2,
            ;
            lemma_divides_product(p * p, lowest * whole);
        }
    } else {
        assert(rest[i] == pairs[i]);
        assert forall|k: int| 0 <= k < rest.len() implies pair_prime(#[trigger] rest[k]) >= 2
            && pair_exponent(rest[k]) >= 1 by {
            assert(rest[k] == pairs[k]);
        }
        lemma_power_in_product(rest, i);
        let q = pair_prime(pairs[i]);
        lemma_divides_product(whole, power);
        lemma_divides_trans(q, whole, whole * power);
        if pair_exponent(pairs[i]) >= 2 {
            assert(q * q >= 1) by (nonlinear_arith)
                requires
                    q >= 2,
            ;
            lemma_divides_trans(q * q, whole, whole * power);
        }
    }
}

/// A product of powers of numbers from 2 on is positive.
pub proof fn lemma_product_positive(pairs: Seq<(usize, usize)>)
    requires
        forall|k: int| 0 <= k < pairs.len() ==> pair_prime(#[trigger] pairs[k]) >= 2,
    ensures
        prime_power_product(pairs) >= 1,
    decreases pairs.len(),
{
    if pairs.len() > 0 {
        let rest = pairs.drop_last();
        assert forall|k: int| 0 <= k < rest.len() implies pair_prime(#[trigger] rest[k]) >= 2 by {
            assert(rest[k] == pairs[k]);
        }
        lemma_product_positive(rest);
        let p = pair_prime(pairs.last());
        assert(pair_prime(pairs[pairs.len() - 1]) >= 2);
        vstd::arithmetic::power::lemma_pow_positive(p, pair_exponent(pairs.last()) as nat);
        assert(prime_power_product(rest) * pow(p, pair_exponent(pairs.last()) as nat) >= 1)
            by (nonlinear_arith)
            requires
                prime_power_product(rest) >= 1,
                pow(p, pair_exponent(pairs.last()) as nat) >= 1,
        ;
    }
}

/// Where `d + n / d` is a prime for the product `d` of each selection of
/// the prime factors of a square-free `n` with `d * d < n`, it is a prime
/// for every divisor of `n`.
pub proof fn lemma_generates(n: int, primes: Seq<usize>)
    requires
        n >= 2,
        ascending_primes(primes),
        list_product(primes) == n,
        forall|sub: Seq<usize>|
            #[trigger] sublist(sub, primes) && list_product(sub) * list_product(sub) < n
                ==> is_prime(list_product(sub) + n / list_product(sub)),
    ensures
        generates(n),
{
    assert forall|d: int| 1 <= d <= n && #[trigger] divides(d, n) implies is_prime(d + n / d) by {
        lemma_cofactor(d, n);
        let e = n / d;
        if d * d < n {
            let sub = lemma_divisor_is_selection(d, primes);
        } else if d * d == n {
            assert(d >= 2) by (nonlinear_arith)
                requires
                    d * d == n,
                    n >= 2,
                    d >= 1,
            ;
            let q = lemma_prime_factor(d);
            lemma_divides_quotient(q, d);
            let t = d / q;
            assert(n == (q * q) * (t * t)) by (nonlinear_arith)
                requires
                    n == d * d,
                    d == q * t,
            ;
            assert(q * q >= 1) by (nonlinear_arith)
                requires
                    q >= 2,
            ;
            lemma_divides_product(q * q, t * t);
            lemma_square_free(q, primes);
            assert(false);
        } else {
            assert(e * e < n) by (nonlinear_arith)
                requires
                    n == d * e,
                    d * d > n,
                    d >= 1,
                    e >= 1,
            ;
            let sub = lemma_divisor_is_selection(e, primes);
            lemma_cofactor(e, n);
            assert(n / e == d) by {
                vstd::arithmetic::div_mod::lemma_div_multiples_vanish(d, e);
                assert(d * e == n) by (nonlinear_arith)
                    requires
                        n == d * e,
                ;
            }
            assert(is_prime(e + n / e));
        }
    }
}

/// The numbers of a selection of primes are primes.
pub proof fn lemma_selection_members(sub: Seq<usize>, items: Seq<usize>)
    requires
        ascending_primes(items),
        sublist(sub, items),
    ensures
        forall|k: int| 0 <= k < sub.len() ==> is_prime(#[trigger] sub[k] as int),
    decreases items.len(),
{
    if items.len() > 0 {
        lemma_ascending_rest(items);
        let rest = items.drop_last();
        if sublist(sub, rest) {
            lemma_selection_members(sub, rest);
        } else {
            let part = sub.drop_last();
            lemma_selection_members(part, rest);
            assert forall|k: int| 0 <= k < sub.len() implies is_prime(#[trigger] sub[k] as int) by {
                if k < part.len() {
                    assert(part[k] == sub[k]);
                }
            }
        }
    }
}

/// The product of a selection of prime factors of `n`.
#[verifier::rlimit(50)]
fn selection_product(sub: &Vec<usize>, primes: &Vec<usize>) -> (d: usize)
    requires
        ascending_primes(primes@),
        sublist(sub@, primes@),
        list_product(primes@) <= usize::MAX,
    ensures
        d == list_product(sub@),
        1 <= d <= list_product(primes@),
{
    let mut d: usize = 1;
    proof {
        lemma_selection_divides(sub@, primes@);
        lemma_selection_members(sub@, primes@);
        assert(sub@.take(0) =~= Seq::<usize>::empty());
    }
    for i in 0..sub.len()
        invariant
            d == list_product(sub@.take(i as int)),
            1 <= list_product(sub@) <= usize::MAX,
            forall|k: int| 0 <= k < sub@.len() ==> #[trigger] sub@[k] >= 1,
    {
        proof {
            assert(sub@.take(i + 1).drop_last() =~= sub@.take(i as int));
            lemma_partial_product(sub@, i + 1);
        }
        d = d * sub[i];
    }
    assert(sub@.take(sub@.len() as int) =~= sub@);
    d
}

/// The product of the first items of a list of positive numbers is no
/// greater than the product of all.
pub proof fn lemma_partial_product(items: Seq<usize>, count: int)
    requires
        0 <= count <= items.len(),
        forall|k: int| 0 <= k < items.len() ==> #[trigger] items[k] >= 1,
    ensures
        1 <= list_product(items.take(count)) <= list_product(items),
    decreases items.len() - count,
{
    if count == items.len() {
        assert(items.take(count) =~= items);
        lemma_positive_product(items);
    } else {
        lemma_partial_product(items, count + 1);
        assert(items.take(count + 1).drop_last() =~= items.take(count));
        lemma_positive_product(items.take(count));
        let c = list_product(items.take(count));
        let x = items[count];
        assert(c <= c * x) by (nonlinear_arith)
            requires
                c >= 1,
                x >= 1,
        ;
    }
}

/// A product of positive numbers is positive.
pub proof fn lemma_positive_product(items: Seq<usize>)
    requires
        forall|k: int| 0 <= k < items.len() ==> #[trigger] items[k] >= 1,
    ensures
        list_product(items) >= 1,
    decreases items.len(),
{
    if items.len() > 0 {
        let rest = items.drop_last();
        assert forall|k: int| 0 <= k < rest.len() implies #[trigger] rest[k] >= 1 by {
            assert(rest[k] == items[k]);
        }
        lemma_positive_product(rest);
        assert(items[items.len() - 1] >= 1);
        assert(list_product(rest) * items.last() >= 1) by (nonlinear_arith)
            requires
                list_product(rest) >= 1,
                items.last() >= 1,
        ;
    }
}

/// The primes of a factorisation, if no prime occurs more than once: the
/// prime factors of a square-free number. `None` if an exponent is above 1.
#[verifier::rlimit(50)]
fn square_free_primes(pairs: &Vec<(usize, usize)>, Ghost(n): Ghost<int>) -> (primes: Option<
    Vec<usize>,
>)
    requires
        is_factorisation(pairs@, n),
        n >= 1,
    ensures
        match primes {
            Some(ps) => ascending_primes(ps@) && list_product(ps@) == n,
            None => !generates(n),
        },
{
    let mut primes: Vec<usize> = Vec::new();
    assert(pairs@.take(0) =~= Seq::<(usize, usize)>::empty());
    for i in 0..pairs.len()
        invariant
            is_factorisation(pairs@, n),
            n >= 1,
            primes@.len() == i,
            forall|k: int| 0 <= k < i ==> #[trigger] primes@[k] == pair_prime(pairs@[k]),
            list_product(primes@) == prime_power_product(pairs@.take(i as int)),
    {
        let (p, e) = pairs[i];
        proof {
            assert(is_prime(pair_prime(pairs@[i as int])));
            assert forall|k: int| 0 <= k < pairs@.len() implies pair_prime(#[trigger] pairs@[k])
                >= 2 && pair_exponent(pairs@[k]) >= 1 by {
                assert(is_prime(pair_prime(pairs@[k])));
            }
        }
        if e > 1 {
            proof {
                lemma_power_in_product(pairs@, i as int);
                lemma_square_spoils(n, p as int);
            }
            return None;
        }
        let ghost before = primes@;
        primes.push(p);
        proof {
            assert(primes@.drop_last() =~= before);
            assert(pairs@.take(i + 1).drop_last() =~= pairs@.take(i as int));
            vstd::arithmetic::power::lemma_pow1(p as int);
        }
    }
    proof {
        assert(pairs@.take(pairs@.len() as int) =~= pairs@);
        assert forall|a: int, b: int| 0 <= a < b < primes@.len() implies primes@[a] < primes@[b] by {
            assert(pair_prime(pairs@[a]) < pair_prime(pairs@[b]));
        }
        assert forall|a: int| 0 <= a < primes@.len() implies is_prime(#[trigger] primes@[a] as int) by {
            assert(is_prime(pair_prime(pairs@[a])));
        }
    }
    Some(primes)
}

/// The factorisation of a positive number within the reach of the sieve.
pub(crate) fn factor_in_reach(sieve: &Sieve, n: usize) -> (pairs: Vec<(usize, usize)>)
    requires
        1 <= n <= sieve_reach(*sieve),
    ensures
        is_factorisation(pairs@, n as int),
{
    assert(n <= sieve_reach(*sieve) * sieve_reach(*sieve)) by (nonlinear_arith)
        requires
            1 <= n <= sieve_reach(*sieve),
    ;
    sieve_factor(sieve, n).unwrap()
}

/// Whether `n`, which is one less than a prime, generates primes.
#[verifier::rlimit(100)]
fn is_generating(sieve: &Sieve, n: usize) -> (yes: bool)
    requires
        6 <= n < usize::MAX,
        n + 1 <= sieve_reach(*sieve),
        is_prime(n + 1),
    ensures
        yes == generates(n as int),
{
    if n % 4 != 2 {
        proof {
            if n % 2 == 1 {
                assert(divides(2, n + 1));
            }
            lemma_multiple_of_4(n as int);
        }
        return false;
    }
    // Since n = 4k+2, (2, n/2) will be a pair.
    if !sieve_is_prime(sieve, 2 + n / 2) {
        proof {
            assert(divides(2, n as int));
            lemma_spoiled(n as int, 2);
        }
        return false;
    }
    let pairs = factor_in_reach(sieve, n);
    let primes = match square_free_primes(&pairs, Ghost(n as int)) {
        Some(primes) => primes,
        None => {
            // n isn't squarefree. Reject!
            return false;
        },
    };
    let all = subsets(primes.as_slice());
    for j in 0..all.len()
        invariant
            6 <= n < usize::MAX,
            n + 1 <= sieve_reach(*sieve),
            ascending_primes(primes@),
            list_product(primes@) == n,
            forall|k: int| 0 <= k < all@.len() ==> sublist((#[trigger] all@[k])@, primes@),
            forall|k: int|
                0 <= k < j && list_product((#[trigger] all@[k])@) * list_product(all@[k]@) < n
                    ==> is_prime(list_product(all@[k]@) + n as int / list_product(all@[k]@)),
    {
        assert(sublist(all@[j as int]@, primes@));
        let d = selection_product(&all[j], &primes);
        proof {
            lemma_selection_divides(all@[j as int]@, primes@);
            lemma_cofactor(d as int, n as int);
            assert(d * d <= n * n && n * n <= usize::MAX * usize::MAX) by (nonlinear_arith)
                requires
                    1 <= d <= n,
                    n <= usize::MAX,
            ;
        }
        let small = match d.checked_mul(d) {
            Some(square) => square < n,
            None => false,
        };
        if small {
            assert(d + n / d <= n + 1) by (nonlinear_arith)
                requires
                    1 <= d <= n,
                    1 <= n / d <= n,
                    n == d * (n / d),
            ;
            if !sieve_is_prime(sieve, d + n / d) {
                proof {
                    lemma_spoiled(n as int, d as int);
                }
                return false;
            }
        }
    }
    proof {
        assert forall|sub: Seq<usize>|
            #[trigger] sublist(sub, primes@) && list_product(sub) * list_product(sub)
                < n implies is_prime(list_product(sub) + n as int / list_product(sub)) by {
            let k = choose|k: int| 0 <= k < all@.len() && (#[trigger] all@[k])@ == sub;
            assert(list_product(all@[k]@) == list_product(sub));
        }
        lemma_generates(n as int, primes@);
    }
    true
}

/// Where one more than each number of a stretch is no prime, the sum of
/// the prime generating integers does not grow over the stretch.
pub proof fn lemma_generating_gap(a: int, b: int)
    requires
        0 <= a <= b,
        forall|m: int| a < m <= b ==> !#[trigger] is_prime(m + 1),
    ensures
        generating_sum(b) == generating_sum(a),
    decreases b - a,
{
    if a < b {
        lemma_generating_gap(a, b - 1);
        assert(!is_prime(b + 1));
        if generates(b) {
            assert(divides(1, b));
            assert(b / 1 == b);
            assert(false);
        }
    }
}

/// The prime generating integers up to 5 are 1 and 2.
pub proof fn lemma_generating_start()
    ensures
        generating_sum(5) == 3,
{
    lemma_small_primes();
    reveal_with_fuel(generating_sum, 7);
    assert(generates(1)) by {
        assert forall|d: int| 1 <= d <= 1 && #[trigger] divides(d, 1) implies is_prime(d + 1int / d) by {
            assert(1int / 1 == 1);
        }
    }
    assert(generates(2)) by {
        assert forall|d: int| 1 <= d <= 2 && #[trigger] divides(d, 2) implies is_prime(d + 2int / d) by {
            assert(2int / 1 == 2 && 2int / 2 == 1);
        }
    }
    assert(!generates(3)) by {
        assert(divides(1, 3) && 3int / 1 == 3);
    }
    assert(!generates(4)) by {
        assert(divides(2, 4) && 4int / 2 == 2);
    }
    assert(!generates(5)) by {
        assert(divides(1, 5) && 5int / 1 == 5);
    }
}

/// Prime generating integers: the sum of the positive integers `n` up to a
/// hundred million for which `d + n / d` is a prime for every divisor `d` of
/// `n`.
///
/// `(1, n)` is a pair of divisors of any `n`, so `n` must be 1 below a
/// prime. Apart from 1, only numbers of the form `4 * k + 2` need a look:
/// odd numbers fail with 1, and multiples of 4 with 2. A number with a
/// square factor fails too.
#[verifier::rlimit(50)]
pub fn p357() -> (sum: u64)
    ensures
        sum == generating_sum(LIMIT as int),
{
    let sieve = sieve_new(LIMIT);
    let primes = sieve_primes_from(&sieve, 7);
    let mut sum: u64 = 3;
    let ghost mut covered: int = 5;
    proof {
        lemma_generating_start();
        lemma_small_primes();
    }
    for i in 0..primes.len()
        invariant
            sieve_reach(sieve) >= LIMIT,
            5 <= covered <= LIMIT,
            sum == generating_sum(covered),
            sum <= covered * LIMIT,
            i == 0 ==> covered == 5,
            i > 0 ==> (covered == LIMIT && primes@[i - 1] >= LIMIT) || covered == primes@[i - 1] - 1,
            forall|k: int|
                0 <= k < primes@.len() ==> is_prime(#[trigger] primes@[k] as int) && 7 <= primes@[k]
                    <= sieve_reach(sieve),
            forall|k: int, l: int| 0 <= k < l < primes@.len() ==> primes@[k] < primes@[l],
            forall|p: int|
                7 <= p <= sieve_reach(sieve) && is_prime(p) ==> exists|k: int|
                    0 <= k < primes@.len() && #[trigger] primes@[k] == p,
    {
        let q = primes[i];
        proof {
            assert(is_prime(primes@[i as int] as int));
            if i > 0 {
                assert(primes@[i - 1] < primes@[i as int]);
            }
            if covered < LIMIT {
                // no prime lies between the last prime and this one
                let stop: int = if q <= LIMIT {
                    q - 2
                } else {
                    LIMIT as int - 1
                };
                assert forall|m: int| covered < m <= stop implies !#[trigger] is_prime(m + 1) by {
                    if is_prime(m + 1) {
                        let k = choose|k: int| 0 <= k < primes@.len() && #[trigger] primes@[k] == m + 1;
                        if k < i {
                            if k < i - 1 {
                                assert(primes@[k] < primes@[i - 1]);
                            }
                        } else if k > i {
                            assert(primes@[i as int] < primes@[k]);
                        }
                    }
                }
                lemma_generating_gap(covered, stop);
            }
        }
        if q <= LIMIT {
            let n = q - 1;
            let found = is_generating(&sieve, n);
            proof {
                assert(covered <= n - 1);
                assert((n - 1) * LIMIT + n <= n * LIMIT) by (nonlinear_arith)
                    requires
                        n < LIMIT,
                ;
                assert(covered * LIMIT <= (n - 1) * LIMIT) by (nonlinear_arith)
                    requires
                        covered <= n - 1,
                        LIMIT >= 0,
                ;
                assert(n * LIMIT <= 100_000_000 * 100_000_000) by (nonlinear_arith)
                    requires
                        n <= 100_000_000,
                        LIMIT == 100_000_000,
                ;
                covered = n as int;
            }
            if found {
                sum += n as u64;
            }
        } else {
            proof {
                lemma_multiple_of_4(LIMIT as int);
                covered = LIMIT as int;
            }
        }
    }
    proof {
        if covered < LIMIT {
            assert forall|m: int| covered < m <= LIMIT - 1 implies !#[trigger] is_prime(m + 1) by {
                if is_prime(m + 1) {
                    let k = choose|k: int| 0 <= k < primes@.len() && #[trigger] primes@[k] == m + 1;
                    if primes@.len() > 0 && k < primes@.len() - 1 {
                        assert(primes@[k] < primes@[primes@.len() - 1]);
                    }
                }
            }
            lemma_generating_gap(covered, LIMIT - 1);
            lemma_multiple_of_4(LIMIT as int);
        }
    }
    sum
}

} // verus!
