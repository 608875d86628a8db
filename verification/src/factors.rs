//! Simple factorisation into primes, by trial division.

use crate::divisibility::{
    as_ints, divides, is_prime, lemma_cofactor, lemma_divides_trans, lemma_prime_divides_product,
    rough, seq_product,
};
use vstd::prelude::*;

verus! {

/// The product of the items of a sequence; 1 for the empty sequence.
pub open spec fn product(s: Seq<int>) -> int {
    seq_product(s)
}

/// The trial divisors are 2, 3 and then the integers that are neither even
/// nor multiples of 3.
pub open spec fn trial_divisor(p: int) -> bool {
    p == 2 || p == 3 || (p > 3 && (p % 6 == 1 || p % 6 == 5))
}

/// The prime factors of `n`, with multiplicity, in ascending order, one at a
/// time. `n` must be positive.
pub fn factors(n: i64) -> (f: Factors)
    requires
        n > 0,
    ensures
        f.wf(),
        f.rest() == n,
        f.floor() == 2,
{
    assert(rough(n as int, 1));
    Factors { n, p: 2 }
}

/// The state of a factorisation: what is left of the number, and the trial
/// divisor that has been reached.
pub struct Factors {
    n: i64,
    p: i64,
}

impl Factors {
    /// What is left to factorise: the number divided by the factors handed
    /// out so far.
    pub closed spec fn rest(&self) -> int {
        self.n as int
    }

    /// The trial divisor that has been reached: nothing below it divides
    /// what is left.
    pub closed spec fn floor(&self) -> int {
        self.p as int
    }

    /// What is left is positive and has no divisor, but 1, below the trial
    /// divisor that has been reached.
    pub closed spec fn wf(&self) -> bool {
        &&& 1 <= self.n
        &&& trial_divisor(self.p as int)
        &&& rough(self.n as int, self.p - 1)
    }

    /// What `wf` says, for callers outside this file.
    pub proof fn lemma_wf(&self)
        requires
            self.wf(),
        ensures
            1 <= self.rest(),
            2 <= self.floor(),
            rough(self.rest(), self.floor() - 1),
    {
    }

    /// The least prime factor of what is left, which is then divided by it;
    /// `None` when nothing is left to factorise, that is when 1 is left.
    #[verifier::rlimit(40)]
    pub fn next(&mut self) -> (r: Option<i64>)
        requires
            old(self).wf(),
        ensures
            final(self).wf(),
            match r {
                Some(q) => {
                    &&& 1 < old(self).rest()
                    &&& is_prime(q as int)
                    &&& divides(q as int, old(self).rest())
                    &&& rough(old(self).rest(), q - 1)
                    &&& final(self).rest() == old(self).rest() / (q as int)
                    &&& final(self).rest() * q == old(self).rest()
                    &&& old(self).floor() <= final(self).floor() <= q
                    &&& final(self).floor() == q || final(self).rest() == 1
                },
                None => old(self).rest() == 1 && final(self).rest() == 1 && final(self).floor()
                    == old(self).floor(),
            },
    {
        if self.n <= 1 {
            return None;
        }
        let ghost start = self.n as int;
        proof {
            vstd::arithmetic::div_mod::lemma_mod_self_0(self.n as int);
            assert(divides(self.n as int, self.n as int));
        }
        loop
            invariant
                self.wf(),
                1 < self.n,
                self.n == start,
                start == old(self).rest(),
                old(self).floor() <= self.p,
                self.p <= self.n,
            decreases self.n - self.p,
        {
            let n = self.n;
            let p = self.p;
            if n % p == 0 {
                proof {
                    assert(divides(p as int, n as int));
                    lemma_least_divisor_is_prime(n as int, p as int);
                    lemma_cofactor(p as int, n as int);
                    lemma_quotient_rough(n as int, p as int, p - 1);
                    assert((n / p) * p == p * (n / p)) by (nonlinear_arith);
                }
                self.n = n / p;
                return Some(p);
            }
            if p > n / p {
                proof {
                    lemma_no_small_divisor_is_prime(n as int, p as int);
                    vstd::arithmetic::div_mod::lemma_mod_self_0(n as int);
                    vstd::arithmetic::div_mod::lemma_div_basics(n as int);
                    assert(divides(n as int, n as int));
                    assert(n as int / n as int == 1);
                    assert(rough(1, p - 1)) by {
                        assert forall|d: int| 2 <= d <= p - 1 implies !#[trigger] divides(d, 1) by {
                            vstd::arithmetic::div_mod::lemma_small_mod(1, d as nat);
                        }
                    }
                    assert(p <= n);
                }
                self.n = 1;
                return Some(n);
            }
            proof {
                vstd::arithmetic::div_mod::lemma_fundamental_div_mod(n as int, p as int);
                vstd::arithmetic::div_mod::lemma_mod_pos_bound(n as int, p as int);
                assert(p * p <= n) by (nonlinear_arith)
                    requires
                        p <= n / p,
                        0 < p,
                        0 < n,
                        n == p * (n / p) + n % p,
                        0 <= n % p,
                ;
                assert(p >= 3 ==> p * p >= p + 4) by (nonlinear_arith);
                assert(p == 2 ==> p * p == 4);
                assert(!divides(p as int, n as int));
                lemma_skip_trial(n as int, p as int);
            }
            if p == 2 {
                self.p = 3;
            } else if p == 3 {
                self.p = 5;
            } else if p % 6 == 5 {
                self.p += 2;
            } else {
                self.p += 4;
            }
        }
    }

    /// Drains the factorisation into a vector: the prime factors of what is
    /// left, with multiplicity, in ascending order. Their product is what
    /// was left.
    #[verifier::rlimit(40)]
    pub fn collect(self) -> (fs: Vec<i64>)
        requires
            self.wf(),
        ensures
            product(as_ints(fs@)) == self.rest(),
            forall|i: int| 0 <= i < fs@.len() ==> is_prime(#[trigger] fs@[i] as int),
            forall|i: int, j: int| 0 <= i <= j < fs@.len() ==> fs@[i] <= fs@[j],
            forall|i: int| 0 <= i < fs@.len() ==> divides(#[trigger] fs@[i] as int, self.rest()),
            self.rest() > 1 ==> fs@.len() > 0,
            forall|p: int|
                is_prime(p) && #[trigger] divides(p, self.rest()) ==> as_ints(fs@).contains(p),
    {
        let ghost whole = self.rest();
        let mut rest = self;
        let mut fs: Vec<i64> = Vec::new();
        let ghost mut low: int = 2;
        proof {
            rest.lemma_wf();
            assert(as_ints(fs@) =~= Seq::<int>::empty());
        }
        loop
            invariant
                rest.wf(),
                whole == self.rest(),
                product(as_ints(fs@)) * rest.rest() == whole,
                divides(rest.rest(), whole),
                2 <= low,
                low <= rest.floor() || rest.rest() == 1,
                forall|i: int| 0 <= i < fs@.len() ==> is_prime(#[trigger] fs@[i] as int),
                forall|i: int| 0 <= i < fs@.len() ==> divides(#[trigger] fs@[i] as int, whole),
                forall|i: int| 0 <= i < fs@.len() ==> #[trigger] fs@[i] <= low,
                forall|i: int, j: int| 0 <= i <= j < fs@.len() ==> fs@[i] <= fs@[j],
                whole > 1 && fs@.len() == 0 ==> rest.rest() > 1,
            decreases rest.rest(),
        {
            let ghost before = fs@;
            let ghost left = rest.rest();
            proof {
                rest.lemma_wf();
            }
            match rest.next() {
                Some(q) => {
                    fs.push(q);
                    proof {
                        rest.lemma_wf();
                        assert(q >= low);
                        low = q as int;
                        assert(as_ints(fs@) =~= as_ints(before).push(q as int));
                        assert(as_ints(fs@).drop_last() =~= as_ints(before));
                        let pb = product(as_ints(before));
                        let r2 = rest.rest();
                        assert(pb * q * r2 == pb * left) by (nonlinear_arith)
                            requires
                                r2 * q == left,
                        ;
                        lemma_divides_trans(q as int, left, whole);
                        lemma_cofactor(q as int, left);
                        lemma_divides_trans(r2, left, whole);
                        assert(r2 < left) by (nonlinear_arith)
                            requires
                                r2 * q == left,
                                q >= 2,
                                r2 >= 1,
                        ;
                    }
                },
                None => {
                    proof {
                        assert(product(as_ints(fs@)) * 1 == product(as_ints(fs@)));
                        assert forall|p: int|
                            is_prime(p) && #[trigger] divides(p, whole) implies as_ints(
                            fs@,
                        ).contains(p) by {
                            assert forall|i: int| 0 <= i < as_ints(fs@).len() implies is_prime(
                                #[trigger] as_ints(fs@)[i],
                            ) by {
                                assert(is_prime(fs@[i] as int));
                            }
                            lemma_prime_divides_product(p, as_ints(fs@));
                        }
                    }
                    return fs;
                },
            }
        }
    }

    /// The greatest prime factor of what is left; `None` when 1 is left.
    pub fn last(self) -> (greatest: Option<i64>)
        requires
            self.wf(),
        ensures
            self.rest() == 1 <==> greatest is None,
            match greatest {
                Some(q) => is_prime(q as int) && divides(q as int, self.rest()) && forall|p: int|
                    is_prime(p) && #[trigger] divides(p, self.rest()) ==> p <= q,
                None => true,
            },
    {
        let fs = self.collect();
        if fs.len() == 0 {
            proof {
                assert(as_ints(fs@) =~= Seq::<int>::empty());
            }
            None
        } else {
            proof {
                if self.rest() == 1 {
                    let q = fs@[0] as int;
                    assert(is_prime(q) && divides(q, 1));
                    vstd::arithmetic::div_mod::lemma_small_mod(1, q as nat);
                }
                assert forall|p: int| is_prime(p) && #[trigger] divides(p, self.rest()) implies p
                    <= fs@[fs@.len() - 1] by {
                    let i = choose|i: int| 0 <= i < as_ints(fs@).len() && as_ints(fs@)[i] == p;
                    assert(fs@[i] <= fs@[fs@.len() - 1]);
                }
            }
            Some(fs[fs.len() - 1])
        }
    }
}

/// The least divisor above 1 of an integer is prime.
pub proof fn lemma_least_divisor_is_prime(n: int, p: int)
    requires
        2 <= p,
        0 < n,
        divides(p, n),
        rough(n, p - 1),
    ensures
        is_prime(p),
{
    assert forall|d: int| 2 <= d < p implies !#[trigger] divides(d, p) by {
        if divides(d, p) {
            lemma_divides_trans(d, p, n);
        }
    }
}

/// An integer above 1 without a divisor from 2 up to its square root is
/// prime.
pub proof fn lemma_no_small_divisor_is_prime(n: int, p: int)
    requires
        2 <= p,
        1 < n,
        p > n / p,
        rough(n, p - 1),
        !divides(p, n),
    ensures
        is_prime(n),
{
    assert forall|d: int| 2 <= d < n implies !#[trigger] divides(d, n) by {
        if divides(d, n) {
            lemma_cofactor(d, n);
            let k = n / d;
            assert(d >= p);
            assert(k != 1) by {
                if k == 1 {
                    assert(d * 1 == d);
                }
            }
            vstd::arithmetic::div_mod::lemma_fundamental_div_mod(n, p);
            vstd::arithmetic::div_mod::lemma_mod_pos_bound(n, p);
            assert(k < p) by (nonlinear_arith)
                requires
                    n == d * k,
                    d >= p,
                    p > n / p,
                    p >= 2,
                    n > 0,
                    k >= 1,
                    n == p * (n / p) + n % p,
                    n % p < p,
            ;
            assert(divides(k, n));
        }
    }
}

/// A divisor of the quotient divides the whole, so the quotient has no
/// small divisor where the whole has none.
pub proof fn lemma_quotient_rough(n: int, q: int, b: int)
    requires
        0 < n,
        0 < q,
        divides(q, n),
        rough(n, b),
    ensures
        rough(n / q, b),
{
    lemma_cofactor(q, n);
    assert forall|d: int| 2 <= d <= b implies !#[trigger] divides(d, n / q) by {
        if divides(d, n / q) {
            lemma_divides_trans(d, n / q, n);
        }
    }
}

/// The integers between one trial divisor and the next are even or
/// multiples of 3, so they cannot divide what 2 and 3 do not divide.
proof fn lemma_skip_trial(n: int, p: int)
    requires
        0 < n,
        trial_divisor(p),
        rough(n, p - 1),
        !divides(p, n),
    ensures
        p == 2 ==> rough(n, 2),
        p == 3 ==> rough(n, 4),
        p > 3 && p % 6 == 5 ==> rough(n, p + 1),
        p > 3 && p % 6 == 1 ==> rough(n, p + 3),
{
    assert forall|d: int| p < d <= p + 3 && (d % 2 == 0 || d % 3 == 0) && p >= 3 implies !#[trigger] divides(
        d,
        n,
    ) by {
        if divides(d, n) {
            if d % 2 == 0 {
                assert(divides(2, d));
                lemma_divides_trans(2, d, n);
            } else {
                assert(divides(3, d));
                lemma_divides_trans(3, d, n);
            }
            assert(false);
        }
    }
}

} // verus!
