//! Divisibility and primality as specifications, with the lemmas that the
//! sieves and the factoriser rest on.

use vstd::arithmetic::div_mod::{lemma_fundamental_div_mod, lemma_mod_multiples_basic};
use vstd::prelude::*;

verus! {

/// `d` divides `n`. Meant for positive `d`.
pub open spec fn divides(d: int, n: int) -> bool {
    n % d == 0
}

/// `n` is a prime number: at least 2, and no integer strictly between 1 and
/// `n` divides it. This is primality by trial division.
pub open spec fn is_prime(n: int) -> bool {
    n >= 2 && forall|d: int| 2 <= d < n ==> !#[trigger] divides(d, n)
}

/// `n` has no divisor from 2 up to and including `b`.
pub open spec fn rough(n: int, b: int) -> bool {
    forall|d: int| 2 <= d <= b ==> !#[trigger] divides(d, n)
}

/// The primes strictly between `lo` and `hi`, in ascending order.
pub open spec fn primes_between(lo: int, hi: int) -> Seq<int>
    decreases hi - lo,
{
    if hi <= lo + 1 {
        Seq::empty()
    } else if is_prime(hi - 1) {
        primes_between(lo, hi - 1).push(hi - 1)
    } else {
        primes_between(lo, hi - 1)
    }
}

/// The primes below `n`, in ascending order: what trial division of every
/// integer in `2..n` finds.
pub open spec fn primes_below(n: int) -> Seq<int> {
    primes_between(0, n)
}

/// A product is divisible by each factor.
pub proof fn lemma_divides_product(d: int, k: int)
    requires
        d > 0,
    ensures
        divides(d, d * k),
        divides(d, k * d),
{
    lemma_mod_multiples_basic(k, d);
    assert(d * k == k * d) by (nonlinear_arith);
}

/// A multiple of `d` is `d` times its quotient by `d`.
pub proof fn lemma_divides_quotient(d: int, n: int)
    requires
        d > 0,
        divides(d, n),
    ensures
        n == d * (n / d),
{
    lemma_fundamental_div_mod(n, d);
}

/// Divisibility is transitive.
pub proof fn lemma_divides_trans(a: int, b: int, c: int)
    requires
        a > 0,
        b > 0,
        divides(a, b),
        divides(b, c),
    ensures
        divides(a, c),
{
    lemma_divides_quotient(a, b);
    lemma_divides_quotient(b, c);
    let k1 = b / a;
    let k2 = c / b;
    assert(c == a * (k1 * k2)) by (nonlinear_arith)
        requires
            c == b * k2,
            b == a * k1,
    ;
    lemma_divides_product(a, k1 * k2);
}

/// The cofactor of a divisor is a divisor too, and lies in the same range.
pub proof fn lemma_cofactor(d: int, n: int)
    requires
        0 < d,
        0 < n,
        divides(d, n),
    ensures
        divides(n / d, n),
        1 <= n / d <= n,
        n == d * (n / d),
{
    lemma_divides_quotient(d, n);
    let k = n / d;
    assert(1 <= k <= n) by (nonlinear_arith)
        requires
            n == d * k,
            0 < d,
            0 < n,
    ;
    lemma_divides_product(k, d);
    assert(k * d == d * k) by (nonlinear_arith);
}

/// Roughness extends over a gap that holds no rough integer: if `n` has no
/// divisor up to `last`, and every integer strictly between `last` and `hi`
/// has one, then `n` has no divisor below `hi`.
pub proof fn lemma_rough_gap(n: int, last: int, hi: int)
    requires
        rough(n, last),
        forall|m: int| last < m < hi ==> !#[trigger] rough(m, last),
    ensures
        rough(n, hi - 1),
{
    assert forall|d: int| 2 <= d <= hi - 1 implies !#[trigger] divides(d, n) by {
        if d > last {
            assert(!rough(d, last));
            let e = choose|e: int| 2 <= e <= last && #[trigger] divides(e, d);
            if divides(d, n) {
                lemma_divides_trans(e, d, n);
            }
        }
    }
}

/// An integer with a divisor that is neither 1 nor itself is no prime.
pub proof fn lemma_not_rough_not_prime(m: int, last: int)
    requires
        last < m,
        !rough(m, last),
    ensures
        !is_prime(m),
{
    let e = choose|e: int| 2 <= e <= last && #[trigger] divides(e, m);
    assert(divides(e, m));
}

/// Where an interval holds no prime, the list of primes does not grow over
/// it.
pub proof fn lemma_primes_between_gap(lo: int, a: int, b: int)
    requires
        lo < a <= b,
        forall|m: int| a <= m < b ==> !#[trigger] is_prime(m),
    ensures
        primes_between(lo, b) == primes_between(lo, a),
    decreases b - a,
{
    if a < b {
        assert(!is_prime(b - 1));
        lemma_primes_between_gap(lo, a, b - 1);
    }
}

/// What the list of primes between two bounds holds: primes only, each
/// within the bounds, every such prime, and in strictly ascending order.
pub proof fn lemma_primes_between_props(lo: int, hi: int)
    ensures
        forall|i: int|
            0 <= i < primes_between(lo, hi).len() ==> is_prime(#[trigger] primes_between(lo, hi)[i])
                && lo < primes_between(lo, hi)[i] < hi,
        forall|i: int, j: int|
            0 <= i < j < primes_between(lo, hi).len() ==> primes_between(lo, hi)[i]
                < primes_between(lo, hi)[j],
        forall|p: int| lo < p < hi && is_prime(p) ==> primes_between(lo, hi).contains(p),
    decreases hi - lo,
{
    if hi <= lo + 1 {
    } else {
        lemma_primes_between_props(lo, hi - 1);
        let prev = primes_between(lo, hi - 1);
        let cur = primes_between(lo, hi);
        assert forall|p: int| lo < p < hi && is_prime(p) implies cur.contains(p) by {
            if p == hi - 1 {
                assert(cur[cur.len() - 1] == p);
            } else {
                assert(prev.contains(p));
                let i = choose|i: int| 0 <= i < prev.len() && prev[i] == p;
                assert(cur[i] == p);
            }
        }
    }
}

/// A sequence of machine integers, read as mathematical integers.
pub open spec fn as_ints(s: Seq<i64>) -> Seq<int> {
    s.map_values(|x: i64| x as int)
}

/// Every integer from 2 on has a prime divisor.
pub proof fn lemma_prime_factor(d: int) -> (q: int)
    requires
        d >= 2,
    ensures
        is_prime(q),
        divides(q, d),
        2 <= q <= d,
    decreases d,
{
    if is_prime(d) {
        assert(divides(d, d));
        d
    } else {
        let e = choose|e: int| 2 <= e < d && #[trigger] divides(e, d);
        let q = lemma_prime_factor(e);
        lemma_divides_trans(q, e, d);
        q
    }
}

/// 2, 3, 5, 7, 11 and 13 are the primes up to 13.
pub proof fn lemma_small_primes()
    ensures
        !is_prime(0),
        !is_prime(1),
        is_prime(2),
        is_prime(3),
        !is_prime(4),
        is_prime(5),
        !is_prime(6),
        is_prime(7),
        !is_prime(8),
        !is_prime(9),
        !is_prime(10),
        is_prime(11),
        !is_prime(12),
        is_prime(13),
{
    assert(divides(2, 4) && divides(2, 6) && divides(2, 8) && divides(3, 9) && divides(2, 10)
        && divides(2, 12));
    assert forall|d: int| 2 <= d < 13 implies (d < 5 ==> !#[trigger] divides(d, 5)) && (d < 7
        ==> !divides(d, 7)) && (d < 11 ==> !divides(d, 11)) && !divides(d, 13) by {
        if d == 2 {
        } else if d == 3 {
        } else if d == 4 {
        } else if d == 5 {
        } else if d == 6 {
        } else if d == 7 {
        } else if d == 8 {
        } else if d == 9 {
        } else if d == 10 {
        } else if d == 11 {
        } else {
            assert(d == 12);
        }
    }
    assert forall|d: int| 2 <= d < 5 implies !#[trigger] divides(d, 5) by {
        assert(d < 5 ==> !divides(d, 5));
    }
    assert forall|d: int| 2 <= d < 7 implies !#[trigger] divides(d, 7) by {
        assert(d < 5 ==> !divides(d, 5));
    }
    assert forall|d: int| 2 <= d < 11 implies !#[trigger] divides(d, 11) by {
        assert(d < 5 ==> !divides(d, 5));
    }
    assert forall|d: int| 2 <= d < 13 implies !#[trigger] divides(d, 13) by {
        assert(d < 5 ==> !divides(d, 5));
    }
}

/// `m` is positive and `p` divides `a * m`.
pub open spec fn annihilates(p: int, a: int, m: int) -> bool {
    m > 0 && divides(p, a * m)
}

/// Among the positive integers up to `bound` that `p` divides when
/// multiplied by `a`, there is a least one.
proof fn lemma_least_annihilator(p: int, a: int, bound: int) -> (least: int)
    requires
        p > 0,
        annihilates(p, a, bound),
    ensures
        annihilates(p, a, least),
        least <= bound,
        forall|m: int| 0 < m < least ==> !annihilates(p, a, m),
    decreases bound,
{
    if exists|m: int| 0 < m < bound && annihilates(p, a, m) {
        let m = choose|m: int| 0 < m < bound && annihilates(p, a, m);
        lemma_least_annihilator(p, a, m)
    } else {
        bound
    }
}

/// Euclid's lemma: a prime that divides a product divides one of the
/// factors.
pub proof fn lemma_euclid(p: int, a: int, b: int)
    requires
        is_prime(p),
        a > 0,
        b > 0,
        divides(p, a * b),
    ensures
        divides(p, a) || divides(p, b),
{
    if !divides(p, a) {
        // the least positive m with p | a * m divides both p and b
        assert(annihilates(p, a, p)) by {
            lemma_divides_product(p, a);
        }
        let m = lemma_least_annihilator(p, a, p);
        lemma_least_divides(p, a, m, p);
        lemma_least_divides(p, a, m, b);
        if m == 1 {
            assert(a * 1 == a);
            assert(false);
        }
        if m != p {
            assert(divides(m, p));
            assert(false);
        }
    }
}

/// The least positive `m` with `p | a * m` divides every positive `n` with
/// `p | a * n`.
proof fn lemma_least_divides(p: int, a: int, m: int, n: int)
    requires
        p > 0,
        a > 0,
        annihilates(p, a, m),
        forall|k: int| 0 < k < m ==> !annihilates(p, a, k),
        annihilates(p, a, n),
    ensures
        divides(m, n),
{
    let q = n / m;
    let r = n % m;
    lemma_fundamental_div_mod(n, m);
    vstd::arithmetic::div_mod::lemma_mod_pos_bound(n, m);
    if r != 0 {
        // a * r == a * n - q * (a * m) is a multiple of p
        lemma_divides_quotient(p, a * n);
        lemma_divides_quotient(p, a * m);
        let x = (a * n) / p;
        let y = (a * m) / p;
        assert(a * r == p * (x - q * y)) by (nonlinear_arith)
            requires
                n == m * q + r,
                a * n == p * x,
                a * m == p * y,
        ;
        lemma_divides_product(p, x - q * y);
        assert(annihilates(p, a, r));
        assert(false);
    }
}

/// A number that divides `q * p` for a prime `p` that does not divide it,
/// divides `q`.
pub proof fn lemma_cancel_prime(p: int, m: int, q: int)
    requires
        is_prime(p),
        m > 0,
        q > 0,
        divides(m, q * p),
        !divides(p, m),
    ensures
        divides(m, q),
{
    // the least positive x with m | q * x divides both p and m
    assert(annihilates(m, q, m)) by {
        lemma_divides_product(m, q);
    }
    let x = lemma_least_annihilator(m, q, m);
    lemma_least_divides(m, q, x, m);
    lemma_least_divides(m, q, x, p);
    if x != 1 {
        if x != p {
            assert(divides(x, p));
            assert(false);
        }
        assert(false);
    }
    assert(q * 1 == q);
}

/// Where `k` divides `a * q * p` for a prime `p`, but not `a * q`, every
/// `m` with `k | a * m` is a multiple of `p`.
pub proof fn lemma_needed_prime(k: int, a: int, q: int, p: int, m: int)
    requires
        k > 0,
        a > 0,
        q > 0,
        m > 0,
        is_prime(p),
        divides(k, a * q * p),
        !divides(k, a * q),
        divides(k, a * m),
    ensures
        divides(p, m),
{
    // the least positive x with k | a * x divides m and q * p, but not q
    let x = lemma_least_annihilator(k, a, m);
    lemma_least_divides(k, a, x, m);
    assert(a * (q * p) == a * q * p) by (nonlinear_arith);
    assert(q * p > 0) by (nonlinear_arith)
        requires
            q > 0,
            p >= 2,
    ;
    lemma_least_divides(k, a, x, q * p);
    if divides(x, q) {
        lemma_divides_quotient(x, q);
        lemma_divides_quotient(k, a * x);
        let t = q / x;
        let u = (a * x) / k;
        assert(a * q == k * (u * t)) by (nonlinear_arith)
            requires
                q == x * t,
                a * x == k * u,
        ;
        lemma_divides_product(k, u * t);
        assert(false);
    }
    if !divides(p, x) {
        lemma_cancel_prime(p, x, q);
        assert(false);
    }
    lemma_divides_trans(p, x, m);
}

/// A prime that divides a product of primes is one of them.
pub proof fn lemma_prime_divides_product(p: int, factors: Seq<int>)
    requires
        is_prime(p),
        forall|i: int| 0 <= i < factors.len() ==> is_prime(#[trigger] factors[i]),
        divides(p, seq_product(factors)),
    ensures
        factors.contains(p),
    decreases factors.len(),
{
    if factors.len() == 0 {
        vstd::arithmetic::div_mod::lemma_small_mod(1, p as nat);
        assert(false);
    } else {
        let rest = factors.drop_last();
        let q = factors.last();
        lemma_seq_product_positive(rest);
        assert(is_prime(factors[factors.len() - 1]));
        assert forall|i: int| 0 <= i < rest.len() implies is_prime(#[trigger] rest[i]) by {
            assert(rest[i] == factors[i]);
        }
        lemma_euclid(p, seq_product(rest), q);
        if divides(p, q) {
            if p != q {
                assert(2 <= p);
                assert(p <= q) by {
                    if p > q {
                        vstd::arithmetic::div_mod::lemma_small_mod(q as nat, p as nat);
                    }
                }
                assert(divides(p, q));
                assert(false);
            }
            assert(factors[factors.len() - 1] == p);
        } else {
            lemma_prime_divides_product(p, rest);
            let i = choose|i: int| 0 <= i < rest.len() && rest[i] == p;
            assert(factors[i] == p);
        }
    }
}

/// The product of the items of a sequence; 1 for the empty sequence.
pub open spec fn seq_product(s: Seq<int>) -> int
    decreases s.len(),
{
    if s.len() == 0 {
        1
    } else {
        seq_product(s.drop_last()) * s.last()
    }
}

/// A product of primes is positive.
pub proof fn lemma_seq_product_positive(s: Seq<int>)
    requires
        forall|i: int| 0 <= i < s.len() ==> is_prime(#[trigger] s[i]),
    ensures
        seq_product(s) >= 1,
    decreases s.len(),
{
    if s.len() > 0 {
        let rest = s.drop_last();
        assert forall|i: int| 0 <= i < rest.len() implies is_prime(#[trigger] rest[i]) by {
            assert(rest[i] == s[i]);
        }
        lemma_seq_product_positive(rest);
        assert(is_prime(s[s.len() - 1]));
        assert(seq_product(rest) * s.last() >= 1) by (nonlinear_arith)
            requires
                seq_product(rest) >= 1,
                s.last() >= 2,
        ;
    }
}

} // verus!
