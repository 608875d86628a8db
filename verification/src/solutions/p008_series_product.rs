//! The greatest product of neighbouring digits in a long number.

use crate::factors::product;
use crate::windows::windows;
use vstd::prelude::*;
use vstd::string::StringSliceAdditionalSpecFns;

verus! {

/// `b` is an ASCII decimal digit.
pub open spec fn is_digit(b: u8) -> bool {
    0x30 <= b <= 0x39
}

/// The values of the ASCII decimal digits among `bytes`, in order; every
/// other byte is passed over.
pub open spec fn digit_values(bytes: Seq<u8>) -> Seq<u64>
    decreases bytes.len(),
{
    if bytes.len() == 0 {
        Seq::empty()
    } else if is_digit(bytes.last()) {
        digit_values(bytes.drop_last()).push((bytes.last() - 0x30) as u64)
    } else {
        digit_values(bytes.drop_last())
    }
}

/// The items of a sequence of machine integers, as mathematical integers.
pub open spec fn to_ints(s: Seq<u64>) -> Seq<int> {
    s.map_values(|d: u64| d as int)
}

/// The product of the `n` items of `ds` from position `i` on.
pub open spec fn window_product(ds: Seq<u64>, i: int, n: int) -> int {
    product(to_ints(ds.subrange(i, i + n)))
}

/// Nine to the power of `k`.
pub open spec fn pow9(k: nat) -> int
    decreases k,
{
    if k == 0 {
        1
    } else {
        9 * pow9((k - 1) as nat)
    }
}

/// Powers of nine grow, and the twentieth still fits 64 bits.
pub proof fn lemma_pow9(k: nat)
    requires
        k <= 20,
    ensures
        1 <= pow9(k) <= 12157665459056928801,
    decreases 20 - k,
{
    reveal_with_fuel(pow9, 21);
    if k < 20 {
        lemma_pow9(k + 1);
    }
}

/// Every value in the sequence is a decimal digit.
pub open spec fn digits_only(ds: Seq<u64>) -> bool {
    forall|i: int| 0 <= i < ds.len() ==> #[trigger] ds[i] <= 9
}

/// The values of the decimal digits are at most 9.
pub proof fn lemma_digit_values(bytes: Seq<u8>)
    ensures
        digits_only(digit_values(bytes)),
    decreases bytes.len(),
{
    if bytes.len() > 0 {
        lemma_digit_values(bytes.drop_last());
    }
}

/// The decimal digits in a text, as numbers; every other character is
/// passed over.
pub fn read_digits(input: &str) -> (digits: Vec<u64>)
    ensures
        digits@ == digit_values(input.spec_bytes()),
{
    let bytes = input.as_bytes();
    let mut digits: Vec<u64> = Vec::new();
    let mut k: usize = 0;
    assert(bytes@.take(0) =~= Seq::<u8>::empty());
    while k < bytes.len()
        invariant
            0 <= k <= bytes@.len(),
            bytes@ == input.spec_bytes(),
            digits@ == digit_values(bytes@.take(k as int)),
        decreases bytes@.len() - k,
    {
        let b = bytes[k];
        assert(bytes@.take(k + 1).drop_last() =~= bytes@.take(k as int));
        if 0x30 <= b && b <= 0x39 {
            digits.push((b - 0x30) as u64);
        }
        k += 1;
    }
    assert(bytes@.take(k as int) =~= bytes@);
    digits
}

/// The product of up to twenty decimal digits.
pub fn digit_product(xs: &[u64]) -> (p: u64)
    requires
        xs@.len() <= 20,
        digits_only(xs@),
    ensures
        p == product(to_ints(xs@)),
{
    let mut p: u64 = 1;
    let mut k: usize = 0;
    assert(to_ints(xs@.take(0)) =~= Seq::<int>::empty());
    while k < xs.len()
        invariant
            0 <= k <= xs@.len() <= 20,
            digits_only(xs@),
            p == product(to_ints(xs@.take(k as int))),
            0 <= p <= pow9(k as nat),
        decreases xs@.len() - k,
    {
        proof {
            lemma_pow9(k as nat);
            lemma_pow9((k + 1) as nat);
            let next = to_ints(xs@.take(k + 1));
            assert(next.drop_last() =~= to_ints(xs@.take(k as int)));
            assert(next.last() == xs@[k as int]);
            assert(p * xs@[k as int] <= 9 * pow9(k as nat)) by (nonlinear_arith)
                requires
                    0 <= p <= pow9(k as nat),
                    0 <= xs@[k as int] <= 9,
            ;
            assert(0 <= p * xs@[k as int]) by (nonlinear_arith)
                requires
                    0 <= p,
                    0 <= xs@[k as int],
            ;
        }
        p = p * xs[k];
        k += 1;
    }
    assert(xs@.take(k as int) =~= xs@);
    p
}

/// Largest product in a series: the greatest product of thirteen
/// neighbouring digits of the number that `input` spells. Characters that
/// are no digits, such as line breaks, are passed over. The text must hold
/// thirteen digits at least.
pub fn p8(input: &str) -> (best: u64)
    requires
        digit_values(input.spec_bytes()).len() >= 13,
    ensures
        exists|i: int|
            0 <= i <= digit_values(input.spec_bytes()).len() - 13 && best == #[trigger] window_product(
                digit_values(input.spec_bytes()),
                i,
                13,
            ),
        forall|i: int|
            0 <= i <= digit_values(input.spec_bytes()).len() - 13 ==> #[trigger] window_product(
                digit_values(input.spec_bytes()),
                i,
                13,
            ) <= best,
{
    let digits = read_digits(input);
    let ghost ds = digits@;
    let count = digits.len();
    assert(ds.len() == count);
    proof {
        lemma_digit_values(input.spec_bytes());
    }
    let mut ws = windows(digits.as_slice(), 13);
    let mut best: Option<u64> = None;
    loop
        invariant
            ds == digit_values(input.spec_bytes()),
            13 <= ds.len() <= usize::MAX,
            digits_only(ds),
            ws.items() == ds,
            ws.width() == 13,
            0 <= ws.position() <= ds.len() - 12,
            ws.position() > 0 ==> best is Some,
            best is Some ==> exists|i: int|
                0 <= i <= ds.len() - 13 && best->0 == #[trigger] window_product(ds, i, 13),
            forall|i: int|
                0 <= i < ws.position() ==> best is Some && #[trigger] window_product(ds, i, 13)
                    <= best->0,
        decreases ds.len() - ws.position(),
    {
        let ghost at = ws.position();
        match ws.next() {
            Some(xs) => {
                proof {
                    assert forall|k: int| 0 <= k < xs@.len() implies #[trigger] xs@[k] <= 9 by {
                        assert(xs@[k] == ds[at + k]);
                    }
                }
                let p = digit_product(xs);
                assert(p == window_product(ds, at, 13));
                let better = match best {
                    Some(b) => p > b,
                    None => true,
                };
                if better {
                    best = Some(p);
                }
            },
            None => {
                return best.unwrap();
            },
        }
    }
}

} // verus!
