//! The last ten digits of a large non-Mersenne prime.
//!
//! This is the usual binary exponentiation, done modulo ten to the tenth.
//! The modulus is 34 bits wide, so products are formed in 128 bits.

use vstd::arithmetic::div_mod::lemma_mul_mod_noop_general;
use vstd::arithmetic::power::{lemma_pow1, lemma_pow_adds, lemma_pow_mod_noop, lemma_pow_multiplies, pow};
use vstd::prelude::*;

verus! {

/// Ten to the tenth: the last ten digits are the remainder by it.
pub const MODULUS: u64 = 10_000_000_000;

/// Large non-Mersenne prime: the last ten digits of `28433 * 2^7830457 + 1`.
pub fn p097() -> (digits: u64)
    ensures
        digits == 1 + (((pow(2, 7830457) % (MODULUS as int)) * 28433) % (MODULUS as int)),
{
    let n = binary_exp(2, 7830457);
    1 + self::mul(n, 28433)
}

/// `n` to the power of `k`, modulo ten to the tenth. An exponent of 0 is
/// taken for 1.
pub fn binary_exp(n: u64, k: u64) -> (power: u64)
    ensures
        power == pow(n as int, if k == 0 {
            1nat
        } else {
            k as nat
        }) % (MODULUS as int),
        power < MODULUS,
{
    let ghost base = n as int;
    let ghost exponent: nat = if k == 0 {
        1
    } else {
        k as nat
    };
    let mut n = n;
    let mut k = k;
    let mut m: u64 = 1;
    proof {
        lemma_pow1(base);
        assert(1 * pow(base, exponent) == pow(base, exponent));
    }
    while k > 1
        invariant
            (m * pow(n as int, if k == 0 {
                1nat
            } else {
                k as nat
            })) % (MODULUS as int) == pow(base, exponent) % (MODULUS as int),
        decreases k,
    {
        proof {
            lemma_step(m as int, n as int, k as nat);
        }
        if k % 2 == 1 {
            m = self::mul(m, n);
        }
        n = self::mul(n, n);
        k = k / 2;
    }
    proof {
        lemma_pow1(n as int);
    }
    self::mul(m, n)
}

/// One round of binary exponentiation leaves the power unchanged, modulo
/// the modulus.
proof fn lemma_step(m: int, n: int, k: nat)
    requires
        k > 1,
    ensures
        k % 2 == 1 ==> (((m * n) % (MODULUS as int)) * pow((n * n) % (MODULUS as int), k / 2)) % (
        MODULUS as int) == (m * pow(n, k)) % (MODULUS as int),
        k % 2 == 0 ==> (m * pow((n * n) % (MODULUS as int), k / 2)) % (MODULUS as int) == (m * pow(
            n,
            k,
        )) % (MODULUS as int),
{
    let md = MODULUS as int;
    let half = k / 2;
    let sq = n * n;
    // pow(n, 2 * half) == pow(n * n, half)
    lemma_pow_multiplies(n, 2, half);
    assert(pow(n, 2) == n * n) by {
        reveal_with_fuel(pow, 3);
    }
    assert(2 * half == half * 2) by (nonlinear_arith);
    assert(pow(sq, half) == pow(n, 2 * half));
    lemma_pow_mod_noop(sq, half, md);
    let x = pow(sq % md, half);
    let y = pow(sq, half);
    assert(x % md == y % md);
    if k % 2 == 1 {
        assert(k == 2 * half + 1);
        lemma_pow_adds(n, 1, 2 * half);
        lemma_pow1(n);
        assert(pow(n, k) == n * y);
        assert(m * (n * y) == (m * n) * y) by (nonlinear_arith);
        lemma_mul_mod_noop_general(m * n, x, md);
        lemma_mul_mod_noop_general(m * n, y, md);
    } else {
        assert(k == 2 * half);
        lemma_mul_mod_noop_general(m, x, md);
        lemma_mul_mod_noop_general(m, y, md);
    }
}

/// The product of `m` and `n`, modulo ten to the tenth.
pub fn mul(m: u64, n: u64) -> (product: u64)
    ensures
        product == (m * n) % (MODULUS as int),
        product < MODULUS,
{
    let m = m as u128;
    let n = n as u128;
    let modulus = MODULUS as u128;
    assert(m * n <= 0xffff_ffff_ffff_ffff * 0xffff_ffff_ffff_ffff) by (nonlinear_arith)
        requires
            0 <= m <= 0xffff_ffff_ffff_ffff,
            0 <= n <= 0xffff_ffff_ffff_ffff,
    ;
    let result = (m * n) % modulus;
    result as u64
}

} // verus!
