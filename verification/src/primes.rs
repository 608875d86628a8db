//! Prime numbers in ascending order: a segmented sieve of Eratosthenes on the
//! modulo-30 wheel, and an unbounded generator by trial division.

use crate::bitset::{
    bitset_bits, bitset_first, bitset_insert_from, bitset_set, bitset_with_capacity,
};
use crate::divisibility::{
    as_ints, divides, is_prime, lemma_cofactor, lemma_divides_product, lemma_not_rough_not_prime,
    lemma_prime_factor, lemma_primes_between_gap, lemma_primes_between_props, lemma_rough_gap,
    lemma_small_primes, primes_below, primes_between, rough,
};
use crate::wheel::{
    lemma_pos_monotonic, lemma_pos_round_trip, lemma_round_trip, lemma_wheel_steps, next_on_wheel,
    on_wheel, spec_from_pos, spec_to_pos, wheel_residue, wheel_steps, WheelTables, RESIDUES30,
};
use fixedbitset::FixedBitSet;
use vstd::prelude::*;

verus! {

/// Whether the bit of the wheel-eligible integer `n` is set in `bits`.
pub open spec fn candidate(bits: Seq<bool>, n: int) -> bool {
    bits[spec_to_pos(n)]
}

/// The number of bits that hold the wheel-eligible integers below `max`:
/// eight for each block of 30 integers that `max` reaches into, and for the
/// block after the last full one.
pub open spec fn sieve_bits(max: int) -> int {
    (max / 30 + 1) * 8
}

/// A wheel-eligible integer from 7 on has a bit position between 1 and
/// itself, and distinct integers have distinct positions, in the same order.
proof fn lemma_pos_facts(m: int, n: int)
    requires
        0 <= m,
        0 <= n,
        on_wheel(m),
        on_wheel(n),
    ensures
        0 <= spec_to_pos(n) < n,
        forall|max: int| n < max ==> spec_to_pos(n) < #[trigger] sieve_bits(max),
        7 <= n ==> 1 <= spec_to_pos(n),
        m < n ==> spec_to_pos(m) < spec_to_pos(n),
        m != n ==> spec_to_pos(m) != spec_to_pos(n),
{
    reveal(on_wheel);
}

/// Off the wheel, an integer is divisible by 2, 3 or 5.
proof fn lemma_off_wheel_not_rough(m: int, last: int)
    requires
        0 <= m,
        5 <= last,
        !on_wheel(m),
    ensures
        !rough(m, last),
{
    reveal(on_wheel);
    if m % 2 == 0 {
        assert(divides(2, m));
    } else if m % 3 == 0 {
        assert(divides(3, m));
    } else {
        assert(m % 5 == 0);
        assert(divides(5, m));
    }
}

/// On the wheel, an integer has no divisor from 2 to 5.
proof fn lemma_on_wheel_rough(m: int)
    requires
        0 <= m,
        on_wheel(m),
    ensures
        rough(m, 5),
{
    reveal(on_wheel);
    assert forall|d: int| 2 <= d <= 5 implies !#[trigger] divides(d, m) by {
        if d == 2 {
        } else if d == 3 {
        } else if d == 4 {
        } else {
        }
    }
}

/// Between a multiple of `p` on the wheel and the next one that the delta
/// table leads to, no multiple of `p` is wheel-eligible.
proof fn lemma_no_wheel_multiple_between(n: int, p: int, m: int)
    requires
        0 <= n,
        0 < p,
        on_wheel(p),
        divides(p, n),
        divides(p, m),
        n < m < next_on_wheel(n, p),
    ensures
        !on_wheel(m),
{
    lemma_wheel_steps(n, p);
    let s = wheel_steps(n, p);
    crate::divisibility::lemma_divides_quotient(p, n);
    crate::divisibility::lemma_divides_quotient(p, m);
    let j = m / p - n / p;
    assert(m == n + j * p) by (nonlinear_arith)
        requires
            m == p * (m / p),
            n == p * (n / p),
            j == m / p - n / p,
    ;
    assert(1 <= j < s) by (nonlinear_arith)
        requires
            m == n + j * p,
            n < m < n + p * s,
            0 < p,
    ;
    assert(!on_wheel(n + j * p));
}

/// The next multiple that the delta table leads to is a multiple again.
proof fn lemma_next_is_multiple(n: int, p: int)
    requires
        0 <= n,
        0 < p,
        on_wheel(p),
        divides(p, n),
    ensures
        divides(p, next_on_wheel(n, p)),
        n < next_on_wheel(n, p) <= n + 6 * p,
        on_wheel(next_on_wheel(n, p)),
{
    lemma_wheel_steps(n, p);
    let s = wheel_steps(n, p);
    crate::divisibility::lemma_divides_quotient(p, n);
    assert(n + p * s == p * (n / p + s)) by (nonlinear_arith)
        requires
            n == p * (n / p),
    ;
    lemma_divides_product(p, n / p + s);
    assert(n < n + p * s <= n + 6 * p) by (nonlinear_arith)
        requires
            1 <= s <= 6,
            0 < p,
    ;
}

/// What the bits look like while the multiples of `p` are being cleared:
/// against the bits `before`, the bit of `p` and those of the wheel-eligible
/// multiples of `p` from `p * p` up to, but not including, `n` are clear, and
/// nothing else has changed.
pub open spec fn marked_upto(before: Seq<bool>, bits: Seq<bool>, max: int, p: int, n: int) -> bool {
    &&& bits.len() == before.len()
    &&& forall|m: int|
        7 <= m < max && on_wheel(m) ==> (#[trigger] candidate(bits, m) <==> candidate(before, m)
            && m != p && !(divides(p, m) && p * p <= m < n))
}

/// Once every multiple of `p` from `p * p` on is cleared, the set bits are
/// the integers without a divisor up to `p`, and `p` itself is prime.
#[verifier::rlimit(40)]
proof fn lemma_marking_done(before: Seq<bool>, bits: Seq<bool>, max: int, last: int, p: int, n: int)
    requires
        5 <= last,
        7 <= p < max,
        max <= n,
        on_wheel(p),
        candidate(before, p),
        forall|m: int|
            7 <= m < max && on_wheel(m) ==> (#[trigger] candidate(before, m) <==> rough(m, last)),
        forall|m: int| 7 <= m < p && on_wheel(m) ==> !#[trigger] candidate(before, m),
        marked_upto(before, bits, max, p, n),
    ensures
        last < p,
        is_prime(p),
        forall|m: int| last < m < p ==> !#[trigger] is_prime(m),
        forall|m: int| 7 <= m < max && on_wheel(m) ==> (#[trigger] candidate(bits, m) <==> rough(m, p)),
{
    assert(rough(p, last));
    if p <= last {
        assert(divides(p, p));
    }
    assert forall|m: int| last < m < p implies !#[trigger] rough(m, last) by {
        if on_wheel(m) {
            reveal(on_wheel);
            assert(m >= 7);
            assert(!candidate(before, m));
        } else {
            lemma_off_wheel_not_rough(m, last);
        }
    }
    lemma_rough_gap(p, last, p);
    assert forall|m: int| last < m < p implies !#[trigger] is_prime(m) by {
        lemma_not_rough_not_prime(m, last);
    }
    assert forall|m: int| 7 <= m < max && on_wheel(m) implies (#[trigger] candidate(bits, m) <==> rough(
        m,
        p,
    )) by {
        if candidate(bits, m) {
            assert(candidate(before, m));
            assert(rough(m, last));
            lemma_rough_gap(m, last, p);
            if divides(p, m) {
                lemma_cofactor(p, m);
                let k = m / p;
                if k >= p {
                    assert(p * p <= m) by (nonlinear_arith)
                        requires
                            m == p * k,
                            k >= p,
                            p > 0,
                    ;
                    assert(false);
                } else {
                    if k == 1 {
                        assert(p * 1 == p);
                    }
                    assert(divides(k, m));
                    assert(false);
                }
            }
            assert forall|d: int| 2 <= d <= p implies !#[trigger] divides(d, m) by {
                if d < p {
                    assert(rough(m, p - 1));
                }
            }
        }
        if rough(m, p) {
            assert(!divides(p, m));
            if m == p {
                assert(divides(p, p));
            }
            assert(rough(m, last));
        }
    }
}

/// A sieve of Eratosthenes over the integers coprime to 30, one bit each.
///
/// It yields the primes from 7 up to its bound one at a time, in ascending
/// order; each call of [`Sieve30::next`] clears the multiples of the prime it
/// returns. The sieve cannot be rewound.
pub struct Sieve30 {
    max: usize,
    bits: FixedBitSet,
    tables: WheelTables,
    last: Ghost<int>,
}

impl Sieve30 {
    /// The exclusive upper bound of the sieve.
    pub closed spec fn bound(&self) -> int {
        self.max as int
    }

    /// The prime that the sieve yielded last; 5 before the first.
    pub closed spec fn last(&self) -> int {
        self.last@
    }

    /// The lookup tables are in order.
    pub closed spec fn has_tables(&self) -> bool {
        self.tables.wf()
    }

    /// The sieve invariant: a wheel-eligible integer below the bound has its
    /// bit set exactly if no integer from 2 to the last prime divides it.
    pub closed spec fn wf(&self) -> bool {
        &&& self.tables.wf()
        &&& self.max <= isize::MAX
        &&& bitset_bits(self.bits).len() == sieve_bits(self.max as int)
        &&& !bitset_bits(self.bits)[0]
        &&& 5 <= self.last@
        &&& self.last@ == 5 || self.last@ < self.max
        &&& forall|m: int|
            7 <= m < self.max && on_wheel(m) ==> (#[trigger] candidate(bitset_bits(self.bits), m)
                <==> rough(m, self.last@))
    }

    /// A sieve in order has its tables in order.
    pub proof fn lemma_wf_has_tables(&self)
        requires
            self.wf(),
        ensures
            self.has_tables(),
    {
    }

    /// A sieve for the primes below `max`, with every candidate still in.
    /// It builds the tables of the wheel for itself.
    pub fn new(max: usize) -> (sieve: Sieve30)
        requires
            max <= isize::MAX,
        ensures
            sieve.wf(),
            sieve.has_tables(),
            sieve.bound() == max,
            sieve.last() == 5,
    {
        Sieve30::with_tables(max, WheelTables::new())
    }

    /// A sieve for the primes below `max`, with every candidate still in,
    /// that reads the tables given: a caller with many sieves builds the
    /// tables once and hands each sieve a copy.
    pub fn with_tables(max: usize, tables: WheelTables) -> (sieve: Sieve30)
        requires
            max <= isize::MAX,
            tables.wf(),
        ensures
            sieve.wf(),
            sieve.has_tables(),
            sieve.bound() == max,
            sieve.last() == 5,
    {
        let mut bits = bitset_with_capacity((max / 30 + 1) * 8);
        bitset_insert_from(&mut bits, 1);
        proof {
            assert forall|m: int| 7 <= m < max && on_wheel(m) implies (#[trigger] candidate(
                bitset_bits(bits),
                m,
            ) <==> rough(m, 5)) by {
                lemma_pos_facts(m, m);
                lemma_on_wheel_rough(m);
            }
        }
        Sieve30 { max, bits, tables, last: Ghost(5) }
    }

    /// The bit position of the wheel-eligible integer `p`.
    pub fn to_pos(&self, p: usize) -> (pos: usize)
        requires
            self.has_tables(),
            on_wheel(p as int),
        ensures
            pos == spec_to_pos(p as int),
    {
        assert(wheel_residue(p as int % 30)) by {
            reveal(on_wheel);
        }
        let r = self.tables.residue(p % 30).unwrap();
        (p / 30) * 8 + r.index
    }

    /// The wheel-eligible integer at bit position `i`.
    pub fn from_pos(i: usize) -> (n: usize)
        requires
            spec_from_pos(i as int) <= usize::MAX,
        ensures
            n == spec_from_pos(i as int),
    {
        let r = RESIDUES30[i % 8];
        30 * (i / 8) + r
    }

    /// The least candidate that is still in, if it can be told.
    fn first(&self) -> (r: Option<usize>)
        ensures
            match r {
                Some(p) => on_wheel(p as int) && spec_to_pos(p as int) < bitset_bits(self.bits).len()
                    && candidate(bitset_bits(self.bits), p as int) && forall|j: int|
                    0 <= j < spec_to_pos(p as int) ==> !bitset_bits(self.bits)[j],
                None => forall|j: int|
                    0 <= j < bitset_bits(self.bits).len() && spec_from_pos(j) <= usize::MAX
                        ==> !bitset_bits(self.bits)[j],
            },
    {
        match bitset_first(&self.bits) {
            None => None,
            Some(i) => {
                if i / 8 <= (usize::MAX - RESIDUES30[i % 8]) / 30 {
                    proof {
                        lemma_pos_round_trip(i as int);
                    }
                    Some(Self::from_pos(i))
                } else {
                    proof {
                        assert(spec_from_pos(i as int) > usize::MAX);
                        assert forall|j: int|
                            0 <= j < bitset_bits(self.bits).len() && spec_from_pos(j)
                                <= usize::MAX implies !bitset_bits(self.bits)[j] by {
                            if j > i {
                                lemma_pos_monotonic(i as int, j);
                            }
                        }
                    }
                    None
                }
            },
        }
    }

    /// The exclusive upper bound.
    fn len(&self) -> (max: usize)
        ensures
            max == self.max,
    {
        self.max
    }

    /// Clears the bit of the wheel-eligible integer `p`.
    fn mark(&mut self, p: usize)
        requires
            old(self).tables.wf(),
            on_wheel(p as int),
            p < old(self).max,
            bitset_bits(old(self).bits).len() == sieve_bits(old(self).max as int),
        ensures
            final(self).max == old(self).max,
            final(self).tables == old(self).tables,
            final(self).last == old(self).last,
            bitset_bits(final(self).bits) == bitset_bits(old(self).bits).update(
                spec_to_pos(p as int),
                false,
            ),
    {
        proof {
            lemma_pos_facts(p as int, p as int);
        }
        let pos = self.to_pos(p);
        bitset_set(&mut self.bits, pos, false);
    }

    /// The next wheel-eligible integer after `n` among `n + p`, `n + 2 * p`,
    /// and so on, read from the delta table.
    pub fn next_possible_prime(&self, n: usize, p: usize) -> (next: usize)
        requires
            self.has_tables(),
            on_wheel(n as int),
            on_wheel(p as int),
            n + 6 * p <= usize::MAX,
        ensures
            next == next_on_wheel(n as int, p as int),
            n < next,
    {
        let i = p % 30;
        let j = n % 30;
        let delta = self.tables.delta(i, j);
        proof {
            assert(wheel_residue(i as int) && wheel_residue(j as int)) by {
                reveal(on_wheel);
            }
            lemma_wheel_steps(n as int, p as int);
            assert(delta == wheel_steps(n as int, p as int));
            assert(0 < p) by {
                reveal(on_wheel);
            }
            assert(p * delta <= 6 * p && p * delta >= p) by (nonlinear_arith)
                requires
                    1 <= delta <= 6,
                    0 < p,
            ;
        }
        n + p * delta
    }

    /// Yields the next prime below the bound, or `None` when there is none
    /// left.
    ///
    /// The prime is the least candidate still in the sieve; its multiples
    /// from its square on are cleared before it is returned.
    #[verifier::rlimit(40)]
    pub fn next(&mut self) -> (r: Option<i64>)
        requires
            old(self).wf(),
        ensures
            final(self).wf(),
            final(self).bound() == old(self).bound(),
            match r {
                Some(p) => is_prime(p as int) && old(self).last() < p < old(self).bound()
                    && final(self).last() == p && forall|m: int|
                    old(self).last() < m < p ==> !#[trigger] is_prime(m),
                None => final(self).last() == old(self).last() && forall|m: int|
                    old(self).last() < m < old(self).bound() ==> !#[trigger] is_prime(m),
            },
    {
        let ghost before = bitset_bits(self.bits);
        let ghost last = self.last@;
        let found = self.first();
        let max = self.len();
        let hit = match found {
            Some(p) => if p < max {
                Some(p)
            } else {
                None
            },
            None => None,
        };
        match hit {
            None => {
                proof {
                    assert forall|m: int| last < m < max implies !#[trigger] is_prime(m) by {
                        if on_wheel(m) {
                            assert(m >= 7) by {
                                reveal(on_wheel);
                            }
                            lemma_pos_facts(m, m);
                            lemma_round_trip(m);
                            if found is Some {
                                lemma_pos_facts(m, found->0 as int);
                            }
                            assert(!candidate(before, m));
                        } else {
                            lemma_off_wheel_not_rough(m, last);
                        }
                        lemma_not_rough_not_prime(m, last);
                    }
                }
                None
            },
            Some(p) => {
                proof {
                    assert(p >= 7) by {
                        reveal(on_wheel);
                        if p < 7 {
                            assert(p == 1);
                            assert(spec_to_pos(1) == 0);
                        }
                    }
                    assert forall|m: int| 7 <= m < p && on_wheel(m) implies !#[trigger] candidate(
                        before,
                        m,
                    ) by {
                        lemma_pos_facts(m, p as int);
                    }
                }
                self.mark(p);
                proof {
                    assert forall|m: int| 7 <= m < max && on_wheel(m) implies (#[trigger] candidate(
                        bitset_bits(self.bits),
                        m,
                    ) <==> candidate(before, m) && m != p) by {
                        lemma_pos_facts(m, p as int);
                        lemma_pos_facts(p as int, m);
                    }
                    lemma_pos_facts(p as int, p as int);
                }
                let reached = self.mark_multiples(p, Ghost(before));
                proof {
                    lemma_marking_done(
                        before,
                        bitset_bits(self.bits),
                        max as int,
                        last,
                        p as int,
                        reached@,
                    );
                }
                self.last = Ghost(p as int);
                Some(p as i64)
            },
        }
    }

    /// Clears the bit of every wheel-eligible multiple of `p` from `p * p`
    /// up to the bound. Returns how far the marking has come: the bound at
    /// least.
    #[verifier::rlimit(40)]
    fn mark_multiples(&mut self, p: usize, Ghost(before): Ghost<Seq<bool>>) -> (reached: Ghost<int>)
        requires
            old(self).tables.wf(),
            old(self).max <= isize::MAX,
            7 <= p < old(self).max,
            on_wheel(p as int),
            before.len() == sieve_bits(old(self).max as int),
            marked_upto(before, bitset_bits(old(self).bits), old(self).max as int, p as int, p * p),
            !bitset_bits(old(self).bits)[0],
        ensures
            final(self).max == old(self).max,
            final(self).tables == old(self).tables,
            final(self).last == old(self).last,
            !bitset_bits(final(self).bits)[0],
            reached@ >= old(self).max,
            marked_upto(
                before,
                bitset_bits(final(self).bits),
                old(self).max as int,
                p as int,
                reached@,
            ),
    {
        let max = self.len();
        match p.checked_mul(p) {
            Some(square) => {
                let mut n = square;
                proof {
                    lemma_divides_product(p as int, p as int);
                    lemma_square_on_wheel(p as int);
                }
                while n < max
                    invariant
                        self.tables.wf(),
                        self.max == max,
                        self.tables == old(self).tables,
                        self.last == old(self).last,
                        max <= isize::MAX,
                        7 <= p < max,
                        on_wheel(p as int),
                        on_wheel(n as int),
                        divides(p as int, n as int),
                        p * p <= n,
                        before.len() == sieve_bits(max as int),
                        !bitset_bits(self.bits)[0],
                        marked_upto(before, bitset_bits(self.bits), max as int, p as int, n as int),
                    decreases max + 6 * p - n,
                {
                    let ghost bits_now = bitset_bits(self.bits);
                    self.mark(n);
                    proof {
                        assert(n + 6 * p <= usize::MAX) by (nonlinear_arith)
                            requires
                                p * p <= n,
                                7 <= p,
                                n < max,
                                max <= isize::MAX,
                        ;
                        lemma_next_is_multiple(n as int, p as int);
                        lemma_pos_facts(n as int, n as int);
                        let next = next_on_wheel(n as int, p as int);
                        assert forall|m: int| 7 <= m < max && on_wheel(m) implies (#[trigger] candidate(
                            bitset_bits(self.bits),
                            m,
                        ) <==> candidate(before, m) && m != p && !(divides(p as int, m) && p * p
                            <= m < next)) by {
                            lemma_pos_facts(m, n as int);
                            lemma_pos_facts(n as int, m);
                            assert(candidate(bitset_bits(self.bits), m) == (candidate(bits_now, m)
                                && m != n));
                            if divides(p as int, m) && n < m < next {
                                lemma_no_wheel_multiple_between(n as int, p as int, m);
                            }
                        }
                    }
                    n = self.next_possible_prime(n, p);
                }
                Ghost(n as int)
            },
            None => {
                proof {
                    assert(p * p > max);
                }
                Ghost(p * p)
            },
        }
    }
}

/// The square of a wheel-eligible integer is wheel-eligible.
proof fn lemma_square_on_wheel(p: int)
    requires
        0 <= p,
        on_wheel(p),
    ensures
        on_wheel(p * p),
{
    reveal(on_wheel);
    let r = p % 30;
    let q = p / 30;
    assert(p * p == r * r + 30 * (q * (30 * q + 2 * r))) by (nonlinear_arith)
        requires
            p == 30 * q + r,
    ;
    vstd::arithmetic::div_mod::lemma_mod_multiples_vanish(q * (30 * q + 2 * r), r * r, 30);
    assert((p * p) % 30 == (r * r) % 30);
    if r == 1 {
        assert(r * r == 1);
    } else if r == 7 {
        assert(r * r == 49);
    } else if r == 11 {
        assert(r * r == 121);
    } else if r == 13 {
        assert(r * r == 169);
    } else if r == 17 {
        assert(r * r == 289);
    } else if r == 19 {
        assert(r * r == 361);
    } else if r == 23 {
        assert(r * r == 529);
    } else {
        assert(r == 29);
        assert(r * r == 841);
    }
}

/// A prime above 3 leaves the remainder 1 or 5 by 6.
proof fn lemma_prime_above_3(p: int)
    requires
        is_prime(p),
        p > 3,
    ensures
        p % 6 == 1 || p % 6 == 5,
{
    if p % 2 == 0 {
        assert(divides(2, p));
    } else if p % 3 == 0 {
        assert(divides(3, p));
    }
}

/// The integers between one candidate and the next are even or multiples
/// of 3, and the next candidate is neither.
proof fn lemma_skipped(n: int, step: int)
    requires
        3 < n,
        (n % 6 == 1 && step == 4) || (n % 6 == 5 && step == 2),
    ensures
        forall|m: int| n < m < n + step ==> !#[trigger] is_prime(m),
        (n + step) % 6 == 1 || (n + step) % 6 == 5,
{
    assert forall|m: int| n < m < n + step implies !#[trigger] is_prime(m) by {
        if m % 2 == 0 {
            assert(divides(2, m));
        } else {
            assert(m % 3 == 0);
            assert(divides(3, m));
        }
    }
}

/// The primes below a bound, in ascending order, one at a time: 2, 3 and 5
/// first, where the bound admits them, then what the wheel sieve yields.
///
/// The sequence is single-pass: what has been taken does not come back.
pub struct PrimesUpto {
    given: usize,
    sieve: Sieve30,
}

/// The primes below `n`, as a lazy ascending sequence.
pub fn primes_upto(n: usize) -> (primes: PrimesUpto)
    requires
        n <= isize::MAX,
    ensures
        primes.wf(),
        primes.bound() == n,
        primes.last() == 0,
{
    PrimesUpto { given: 0, sieve: Sieve30::new(n) }
}

/// The primes below `n`, as a lazy ascending sequence, found with the
/// tables given.
pub fn primes_upto_with(n: usize, tables: WheelTables) -> (primes: PrimesUpto)
    requires
        n <= isize::MAX,
        tables.wf(),
    ensures
        primes.wf(),
        primes.bound() == n,
        primes.last() == 0,
{
    PrimesUpto { given: 0, sieve: Sieve30::with_tables(n, tables) }
}

impl PrimesUpto {
    /// The state is consistent: the sieve is, and each of 2, 3 and 5 that
    /// was handed out lies below the bound.
    pub closed spec fn wf(&self) -> bool {
        &&& self.sieve.wf()
        &&& self.given <= 3
        &&& self.given < 3 ==> self.sieve.last() == 5
        &&& self.given >= 1 ==> 2 < self.sieve.bound()
        &&& self.given >= 2 ==> 3 < self.sieve.bound()
        &&& self.given >= 3 ==> 5 < self.sieve.bound()
    }

    /// The exclusive upper bound of the sequence.
    pub closed spec fn bound(&self) -> int {
        self.sieve.bound()
    }

    /// The prime handed out last; 0 before the first.
    pub closed spec fn last(&self) -> int {
        if self.given == 0 {
            0
        } else if self.given == 1 {
            2
        } else if self.given == 2 {
            3
        } else {
            self.sieve.last()
        }
    }

    /// Before anything is handed out, the last prime is 0; afterwards it
    /// lies below the bound.
    pub proof fn lemma_last_below_bound(&self)
        requires
            self.wf(),
        ensures
            self.last() == 0 || 0 < self.last() < self.bound(),
    {
    }

    /// The next prime below the bound: the least prime above the one handed
    /// out last. `None` when no prime is left below the bound.
    #[verifier::rlimit(40)]
    pub fn next(&mut self) -> (r: Option<i64>)
        requires
            old(self).wf(),
        ensures
            final(self).wf(),
            final(self).bound() == old(self).bound(),
            match r {
                Some(p) => is_prime(p as int) && old(self).last() < p < old(self).bound()
                    && final(self).last() == p && forall|m: int|
                    old(self).last() < m < p ==> !#[trigger] is_prime(m),
                None => final(self).last() == old(self).last() && forall|m: int|
                    old(self).last() < m < old(self).bound() ==> !#[trigger] is_prime(m),
            },
    {
        if self.given < 3 {
            let small: usize = if self.given == 0 {
                2
            } else if self.given == 1 {
                3
            } else {
                5
            };
            proof {
                lemma_small_primes();
            }
            if small < self.sieve.len() {
                self.given += 1;
                Some(small as i64)
            } else {
                None
            }
        } else {
            self.sieve.next()
        }
    }

    /// Drains the sequence into a vector: every prime above the one handed
    /// out last and below the bound, in strictly ascending order. On a fresh
    /// sequence these are all the primes below the bound.
    #[verifier::rlimit(40)]
    pub fn collect(self) -> (primes: Vec<i64>)
        requires
            self.wf(),
        ensures
            as_ints(primes@) == primes_between(self.last(), self.bound()),
            self.last() == 0 ==> as_ints(primes@) == primes_below(self.bound()),
            forall|i: int, j: int| 0 <= i < j < primes@.len() ==> primes@[i] < primes@[j],
            forall|i: int|
                0 <= i < primes@.len() ==> is_prime(#[trigger] primes@[i] as int) && self.last()
                    < primes@[i] < self.bound(),
            forall|p: int|
                self.last() < p < self.bound() && is_prime(p) ==> exists|i: int|
                    0 <= i < primes@.len() && #[trigger] primes@[i] == p,
    {
        let ghost lo = self.last();
        let ghost hi = self.bound();
        let mut rest = self;
        let mut primes: Vec<i64> = Vec::new();
        assert(as_ints(primes@) =~= primes_between(lo, lo + 1));
        loop
            invariant
                rest.wf(),
                rest.bound() == hi,
                lo <= rest.last(),
                lo == self.last(),
                hi == self.bound(),
                as_ints(primes@) == primes_between(lo, rest.last() + 1),
            decreases hi - rest.last(),
        {
            let ghost last = rest.last();
            proof {
                rest.lemma_last_below_bound();
            }
            match rest.next() {
                Some(p) => {
                    let ghost before = primes@;
                    primes.push(p);
                    proof {
                        lemma_primes_between_gap(lo, last + 1, p as int);
                        assert(as_ints(primes@) =~= as_ints(before).push(p as int));
                    }
                },
                None => {
                    proof {
                        if last + 1 <= hi {
                            lemma_primes_between_gap(lo, last + 1, hi);
                        } else {
                            assert(primes_between(lo, hi) =~= primes_between(lo, last + 1));
                        }
                        lemma_primes_between_props(lo, hi);
                        let all = primes_between(lo, hi);
                        assert forall|i: int| 0 <= i < primes@.len() implies is_prime(
                            #[trigger] primes@[i] as int,
                        ) && lo < primes@[i] < hi by {
                            assert(as_ints(primes@)[i] == primes@[i] as int);
                        }
                        assert forall|i: int, j: int| 0 <= i < j < primes@.len() implies primes@[i]
                            < primes@[j] by {
                            assert(as_ints(primes@)[i] == primes@[i] as int);
                            assert(as_ints(primes@)[j] == primes@[j] as int);
                        }
                        assert forall|p: int| lo < p < hi && is_prime(p) implies exists|i: int|
                            0 <= i < primes@.len() && #[trigger] primes@[i] == p by {
                            assert(all.contains(p));
                            let i = choose|i: int| 0 <= i < all.len() && all[i] == p;
                            assert(as_ints(primes@)[i] == primes@[i] as int);
                        }
                    }
                    return primes;
                },
            }
        }
    }

    /// Drains the sequence and counts it, one prime at a time: the number of
    /// primes above the one handed out last and below the bound.
    pub fn count(self) -> (n: usize)
        requires
            self.wf(),
        ensures
            n == primes_between(self.last(), self.bound()).len(),
            self.last() == 0 ==> n == primes_below(self.bound()).len(),
    {
        let ghost lo = self.last();
        let ghost hi = self.bound();
        let mut rest = self;
        let mut n: usize = 0;
        proof {
            rest.lemma_last_below_bound();
        }
        loop
            invariant
                rest.wf(),
                rest.bound() == hi,
                0 <= lo <= rest.last(),
                lo == self.last(),
                hi == self.bound(),
                n == primes_between(lo, rest.last() + 1).len(),
                n <= rest.last(),
            decreases hi - rest.last(),
        {
            let ghost last = rest.last();
            proof {
                rest.lemma_last_below_bound();
            }
            match rest.next() {
                Some(p) => {
                    proof {
                        lemma_primes_between_gap(lo, last + 1, p as int);
                    }
                    n = n + 1;
                },
                None => {
                    proof {
                        if last + 1 <= hi {
                            lemma_primes_between_gap(lo, last + 1, hi);
                        } else {
                            assert(primes_between(lo, hi) =~= primes_between(lo, last + 1));
                        }
                    }
                    return n;
                },
            }
        }
    }
}

/// The first six primes, by position.
pub open spec fn small_prime(i: int) -> int {
    if i == 0 {
        2
    } else if i == 1 {
        3
    } else if i == 2 {
        5
    } else if i == 3 {
        7
    } else if i == 4 {
        11
    } else {
        13
    }
}

/// All the primes, in ascending order, found by trial division against the
/// primes found so far.
pub struct AllPrimes {
    seen: Vec<i64>,
}

/// A generator of all the primes, starting at 2.
pub fn all_primes() -> (primes: AllPrimes)
    ensures
        primes.wf(),
        primes.last() == 0,
{
    let primes = AllPrimes { seen: Vec::new() };
    assert(as_ints(primes.seen@) =~= primes_between(0, 1));
    primes
}

impl AllPrimes {
    /// The prime handed out last; 0 before the first.
    pub closed spec fn last(&self) -> int {
        if self.seen@.len() == 0 {
            0
        } else {
            self.seen@[self.seen@.len() - 1] as int
        }
    }

    /// The primes handed out so far are all the primes up to the last one,
    /// in ascending order.
    pub closed spec fn wf(&self) -> bool {
        &&& as_ints(self.seen@) == primes_between(0, self.last() + 1)
        &&& forall|i: int|
            0 <= i < self.seen@.len() && i < 6 ==> #[trigger] self.seen@[i] == small_prime(i)
    }

    /// Whether none of the primes found so far divides `n`.
    fn no_seen_divisor(&self, n: i64) -> (none: bool)
        requires
            self.wf(),
            0 < n,
        ensures
            none == forall|i: int| 0 <= i < self.seen@.len() ==> !divides(#[trigger] self.seen@[i] as int, n as int),
    {
        proof {
            lemma_primes_between_props(0, self.last() + 1);
            assert forall|k: int| 0 <= k < self.seen@.len() implies 2 <= #[trigger] self.seen@[k] by {
                assert(as_ints(self.seen@)[k] == self.seen@[k]);
                assert(is_prime(primes_between(0, self.last() + 1)[k]));
            }
        }
        let mut i: usize = 0;
        while i < self.seen.len()
            invariant
                0 <= i <= self.seen@.len(),
                0 < n,
                forall|k: int| 0 <= k < self.seen@.len() ==> 2 <= #[trigger] self.seen@[k],
                forall|k: int| 0 <= k < i ==> !divides(#[trigger] self.seen@[k] as int, n as int),
            decreases self.seen@.len() - i,
        {
            if n % self.seen[i] == 0 {
                assert(divides(self.seen@[i as int] as int, n as int));
                return false;
            }
            i += 1;
        }
        true
    }

    /// The next prime: the least prime above the one handed out last.
    /// `None` only when no prime above it fits an `i64`.
    #[verifier::rlimit(40)]
    pub fn next(&mut self) -> (r: Option<i64>)
        requires
            old(self).wf(),
        ensures
            final(self).wf(),
            match r {
                Some(p) => is_prime(p as int) && old(self).last() < p && final(self).last() == p
                    && forall|m: int| old(self).last() < m < p ==> !#[trigger] is_prime(m),
                None => final(self).last() == old(self).last() && forall|m: int|
                    old(self).last() < m <= i64::MAX ==> !#[trigger] is_prime(m),
            },
    {
        let ghost last = self.last();
        let ghost before = self.seen@;
        proof {
            lemma_small_primes();
            lemma_primes_between_props(0, last + 1);
        }
        let count = self.seen.len();
        proof {
            if 0 < count <= 6 {
                assert(self.seen@[count - 1] == small_prime(count - 1));
            }
        }
        let found: Option<i64> = if count == 0 {
            Some(2)
        } else if count == 1 {
            Some(3)
        } else if count == 2 {
            Some(5)
        } else if count == 3 {
            Some(7)
        } else if count == 4 {
            Some(11)
        } else if count == 5 {
            Some(13)
        } else {
            let start = self.seen[count - 1];
            assert(as_ints(self.seen@)[count - 1] == start);
            assert(self.seen@[5] == 13);
            assert(as_ints(self.seen@)[5] == 13);
            assert(start >= 13) by {
                let all = primes_between(0, last + 1);
                if count > 6 {
                    assert(all[5] < all[count - 1]);
                }
            }
            self.search_from(start)
        };
        match found {
            Some(p) => {
                self.seen.push(p);
                proof {
                    lemma_primes_between_gap(0, last + 1, p as int);
                    assert(as_ints(self.seen@) =~= as_ints(before).push(p as int));
                }
                Some(p)
            },
            None => None,
        }
    }

    /// Searches upwards from the last prime, over the integers that are
    /// neither even nor a multiple of 3, for one that no prime found so far
    /// divides.
    #[verifier::rlimit(40)]
    fn search_from(&self, start: i64) -> (r: Option<i64>)
        requires
            self.wf(),
            start == self.last(),
            start > 3,
        ensures
            match r {
                Some(p) => is_prime(p as int) && start < p && forall|m: int|
                    start < m < p ==> !#[trigger] is_prime(m),
                None => forall|m: int| start < m <= i64::MAX ==> !#[trigger] is_prime(m),
            },
    {
        proof {
            self.lemma_last_is_prime();
            lemma_prime_above_3(start as int);
        }
        let mut n = start;
        loop
            invariant
                self.wf(),
                start == self.last(),
                3 < start <= n,
                n % 6 == 1 || n % 6 == 5,
                forall|m: int| start < m <= n ==> !#[trigger] is_prime(m),
            decreases i64::MAX - n,
        {
            let step: i64 = if n % 6 == 1 {
                4
            } else {
                2
            };
            proof {
                lemma_skipped(n as int, step as int);
            }
            if n > i64::MAX - step {
                return None;
            }
            n += step;
            if self.no_seen_divisor(n) {
                proof {
                    self.lemma_no_seen_divisor_is_prime(n as int);
                }
                return Some(n);
            }
            proof {
                self.lemma_seen_divisor_not_prime(n as int);
            }
        }
    }

    /// The prime handed out last is a prime.
    proof fn lemma_last_is_prime(&self)
        requires
            self.wf(),
            self.seen@.len() > 0,
        ensures
            is_prime(self.last()),
    {
        lemma_primes_between_props(0, self.last() + 1);
        assert(as_ints(self.seen@)[self.seen@.len() - 1] == self.last());
    }

    /// An integer above the last prime that one of the primes found so far
    /// divides is no prime.
    proof fn lemma_seen_divisor_not_prime(&self, n: int)
        requires
            self.wf(),
            self.last() < n,
            exists|i: int|
                0 <= i < self.seen@.len() && divides(#[trigger] self.seen@[i] as int, n),
        ensures
            !is_prime(n),
    {
        let i = choose|i: int|
            0 <= i < self.seen@.len() && divides(#[trigger] self.seen@[i] as int, n);
        lemma_primes_between_props(0, self.last() + 1);
        assert(as_ints(self.seen@)[i] == self.seen@[i]);
        assert(is_prime(primes_between(0, self.last() + 1)[i]));
        assert(divides(self.seen@[i] as int, n));
    }

    /// An integer above the last prime is prime if no prime found so far
    /// divides it and no integer in between is prime.
    proof fn lemma_no_seen_divisor_is_prime(&self, n: int)
        requires
            self.wf(),
            2 <= self.last() < n,
            forall|m: int| self.last() < m < n ==> !#[trigger] is_prime(m),
            forall|i: int| 0 <= i < self.seen@.len() ==> !divides(#[trigger] self.seen@[i] as int, n),
        ensures
            is_prime(n),
    {
        let last = self.last();
        lemma_primes_between_props(0, last + 1);
        let all = primes_between(0, last + 1);
        assert forall|d: int| 2 <= d < n implies !#[trigger] divides(d, n) by {
            if divides(d, n) {
                let q = lemma_prime_factor(d);
                crate::divisibility::lemma_divides_trans(q, d, n);
                if q <= last {
                    assert(all.contains(q));
                    let i = choose|i: int| 0 <= i < all.len() && all[i] == q;
                    assert(as_ints(self.seen@)[i] == self.seen@[i]);
                    assert(!divides(self.seen@[i] as int, n));
                } else {
                    assert(!is_prime(q));
                }
            }
        }
    }
}

} // verus!
