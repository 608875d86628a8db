//! Decimal digits of integers.

use vstd::prelude::*;

verus! {

/// The powers of ten that fit 13 places, by exponent.
pub const POWERS_OF_10: [u64; 13] = [
    1,
    10,
    100,
    1000,
    10_000,
    100_000,
    1_000_000,
    10_000_000,
    100_000_000,
    1_000_000_000,
    10_000_000_000,
    100_000_000_000,
    1_000_000_000_000,
];

/// The decimal digits of a natural number, least significant first. Zero
/// has the one digit 0.
pub open spec fn digits(n: int) -> Seq<int>
    decreases n,
{
    if n < 10 {
        seq![n]
    } else {
        seq![n % 10] + digits(n / 10)
    }
}

/// The number that a sequence of decimal digits, least significant first,
/// stands for.
pub open spec fn from_digits(s: Seq<int>) -> int
    decreases s.len(),
{
    if s.len() == 0 {
        0
    } else {
        s[0] + 10 * from_digits(s.skip(1))
    }
}

/// Each item is a decimal digit.
pub open spec fn all_digits(s: Seq<int>) -> bool {
    forall|i: int| 0 <= i < s.len() ==> 0 <= #[trigger] s[i] < 10
}

/// `n` is not negative and reads the same from both ends in decimal.
pub open spec fn is_palindromic(n: int) -> bool {
    n >= 0 && digits(n) == digits(n).reverse()
}

/// The greatest integer that can still be there after `c` divisions of an
/// `i64` by ten.
pub open spec fn after_divisions(c: nat) -> int
    decreases c,
{
    if c == 0 {
        i64::MAX as int
    } else {
        after_divisions((c - 1) as nat) / 10
    }
}

/// Nineteen divisions by ten bring any `i64` down to zero.
pub proof fn lemma_after_divisions(c: nat)
    ensures
        c >= 19 ==> after_divisions(c) == 0,
        after_divisions(c) >= 0,
    decreases c,
{
    reveal_with_fuel(after_divisions, 20);
    if c > 19 {
        lemma_after_divisions((c - 1) as nat);
    } else if c > 0 {
        lemma_after_divisions((c - 1) as nat);
    }
}

/// The digits of a natural number are decimal digits, there is at least
/// one, the number is what they stand for, and the leading digit of a
/// positive number is not zero.
pub proof fn lemma_digits(n: int)
    requires
        0 <= n,
    ensures
        all_digits(digits(n)),
        digits(n).len() >= 1,
        from_digits(digits(n)) == n,
        n > 0 ==> digits(n).last() != 0,
        digits(n)[0] == n % 10,
        n >= 10 ==> digits(n).skip(1) == digits(n / 10),
        n < 10 <==> digits(n).len() == 1,
    decreases n,
{
    if n < 10 {
        assert(digits(n).skip(1) =~= Seq::<int>::empty());
        assert(from_digits(digits(n).skip(1)) == 0);
    } else {
        lemma_digits(n / 10);
        assert(digits(n).skip(1) =~= digits(n / 10));
    }
}

/// Two sequences of decimal digits of one length that stand for one number
/// are equal.
pub proof fn lemma_from_digits_injective(a: Seq<int>, b: Seq<int>)
    requires
        a.len() == b.len(),
        all_digits(a),
        all_digits(b),
        from_digits(a) == from_digits(b),
    ensures
        a == b,
    decreases a.len(),
{
    if a.len() > 0 {
        let x = from_digits(a.skip(1));
        let y = from_digits(b.skip(1));
        assert(0 <= a[0] < 10 && 0 <= b[0] < 10);
        assert(a[0] == b[0] && x == y);
        assert forall|i: int| 0 <= i < a.skip(1).len() implies 0 <= #[trigger] a.skip(1)[i] < 10 by {
            assert(a.skip(1)[i] == a[i + 1]);
        }
        assert forall|i: int| 0 <= i < b.skip(1).len() implies 0 <= #[trigger] b.skip(1)[i] < 10 by {
            assert(b.skip(1)[i] == b[i + 1]);
        }
        lemma_from_digits_injective(a.skip(1), b.skip(1));
        assert forall|i: int| 0 <= i < a.len() implies a[i] == b[i] by {
            if i > 0 {
                assert(a.skip(1)[i - 1] == a[i]);
                assert(b.skip(1)[i - 1] == b[i]);
            }
        }
    }
    assert(a =~= b);
}

/// A sequence reads the same from both ends exactly if its upper half is
/// the reverse of its lower half; the middle item of an odd length plays no
/// part.
#[verifier::rlimit(40)]
pub proof fn lemma_halves(ds: Seq<int>)
    requires
        all_digits(ds),
    ensures
        all_digits(ds.skip(ds.len() - ds.len() / 2)),
        all_digits(ds.take((ds.len() / 2) as int).reverse()),
        ds.skip(ds.len() - ds.len() / 2) == ds.take((ds.len() / 2) as int).reverse() <==> ds
            == ds.reverse(),
{
    let len = ds.len() as int;
    let half = len / 2;
    let top = ds.skip(len - half);
    let bottom = ds.take(half).reverse();
    assert forall|i: int| 0 <= i < top.len() implies 0 <= #[trigger] top[i] < 10 by {
        assert(top[i] == ds[len - half + i]);
    }
    assert forall|i: int| 0 <= i < bottom.len() implies 0 <= #[trigger] bottom[i] < 10 by {
        assert(bottom[i] == ds[half - 1 - i]);
    }
    if top == bottom {
        assert forall|i: int| 0 <= i < len implies ds[i] == ds.reverse()[i] by {
            assert(ds.reverse()[i] == ds[len - 1 - i]);
            if i < half {
                assert(bottom[half - 1 - i] == ds[i]);
                assert(top[half - 1 - i] == ds[len - 1 - i]);
            } else if i >= len - half {
                assert(top[i - (len - half)] == ds[i]);
                assert(bottom[i - (len - half)] == ds[len - 1 - i]);
            }
        }
        assert(ds =~= ds.reverse());
    }
    if ds == ds.reverse() {
        assert forall|i: int| 0 <= i < half implies top[i] == bottom[i] by {
            assert(top[i] == ds[len - half + i]);
            assert(bottom[i] == ds[half - 1 - i]);
            assert(ds.reverse()[half - 1 - i] == ds[len - 1 - (half - 1 - i)]);
        }
        assert(top =~= bottom);
    }
}

/// Counts the decimal digits of a number. Zero has one digit; a negative
/// number counts as having none.
pub fn count_decimal_digits(num: i64) -> (count: usize)
    ensures
        count == if num < 0 {
            0
        } else {
            digits(num as int).len()
        },
        count <= 19,
{
    if num == 0 {
        return 1;
    }
    let mut n = num;
    let mut count: usize = 0;
    while n > 0
        invariant
            num != 0,
            num < 0 ==> n == num && count == 0,
            0 <= n || num < 0,
            n <= after_divisions(count as nat),
            count <= 19,
            num > 0 ==> count + (if n == 0 {
                0
            } else {
                digits(n as int).len()
            }) == digits(num as int).len(),
        decreases n,
    {
        proof {
            lemma_after_divisions(count as nat);
            lemma_digits(n as int);
            if n >= 10 {
                lemma_digits(n as int / 10);
            }
            assert(after_divisions((count + 1) as nat) == after_divisions(count as nat) / 10);
        }
        n = n / 10;
        count += 1;
    }
    count
}

/// Determines whether a number is a palindrome in decimal.
///
/// Half of the digits are pulled off the right-hand side and assembled in
/// reverse; the number is a palindrome if what is left equals that reverse.
#[verifier::rlimit(40)]
pub fn is_palindrome(num: i64) -> (yes: bool)
    ensures
        yes == is_palindromic(num as int),
{
    if num < 0 {
        return false;
    }
    let ghost ds = digits(num as int);
    proof {
        lemma_digits(num as int);
    }
    if num % 10 == 0 {
        // 0 is a palindrome, but anything else ending in 0 can't be.
        proof {
            if num != 0 {
                assert(ds.reverse()[0] == ds.last());
            } else {
                assert(ds =~= ds.reverse());
            }
        }
        return num == 0;
    }
    let len = count_decimal_digits(num);
    let half = len / 2;
    let mut lhs = num;
    let mut rhs_reversed: i64 = 0;
    let ghost mut scale: int = 1;
    assert(ds.take(0).reverse() =~= Seq::<int>::empty());
    assert(ds.skip(0) =~= ds);
    for k in 0..half
        invariant
            0 <= lhs,
            0 <= rhs_reversed < scale,
            scale * lhs <= num,
            ds == digits(num as int),
            len == ds.len(),
            half == len / 2,
            digits(lhs as int) == ds.skip(k as int),
            rhs_reversed == from_digits(ds.take(k as int).reverse()),
    {
        proof {
            lemma_digits(lhs as int);
            assert(digits(lhs as int).len() == len - k);
            assert(lhs >= 10);
            assert(digits(lhs as int)[0] == ds[k as int]);
            assert(digits(lhs as int / 10) =~= ds.skip(k + 1)) by {
                assert(ds.skip(k as int).skip(1) =~= ds.skip(k + 1));
            }
            let taken = ds.take(k + 1).reverse();
            assert(taken.skip(1) =~= ds.take(k as int).reverse());
            assert(taken[0] == ds[k as int]);
            assert((10 * scale) * (lhs as int / 10) <= scale * lhs) by (nonlinear_arith)
                requires
                    scale >= 1,
                    lhs >= 0,
            ;
            assert(10 * scale <= scale * lhs) by (nonlinear_arith)
                requires
                    scale >= 1,
                    lhs >= 10,
            ;
        }
        let d = lhs % 10;
        lhs = lhs / 10;
        rhs_reversed = rhs_reversed * 10 + d;
        proof {
            scale = 10 * scale;
        }
    }
    if len % 2 == 1 {
        proof {
            lemma_digits(lhs as int);
            if len >= 3 {
                assert(digits(lhs as int).len() >= 2);
                assert(digits(lhs as int / 10) =~= ds.skip(half + 1)) by {
                    assert(ds.skip(half as int).skip(1) =~= ds.skip(half + 1));
                }
            }
        }
        lhs = lhs / 10;
    }
    proof {
        let top = ds.skip(len - half);
        let bottom = ds.take(half as int).reverse();
        if len == 1 {
            assert(ds =~= ds.reverse());
            assert(lhs == 0 && rhs_reversed == 0);
        } else {
            lemma_digits(lhs as int);
            assert(digits(lhs as int) == top);
            lemma_halves(ds);
            if lhs == rhs_reversed {
                lemma_from_digits_injective(top, bottom);
            }
        }
    }
    lhs == rhs_reversed
}

} // verus!
