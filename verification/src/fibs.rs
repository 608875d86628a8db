//! Fibonacci-like sequences.

use vstd::prelude::*;

verus! {

/// The sequence that starts with `a`, `b` and continues with the sum of the
/// last two terms.
pub fn fibs(a: i64, b: i64) -> (seq: Fibs)
    ensures
        seq@ == (a as int, b as int),
{
    Fibs { a, b }
}

/// The state of a Fibonacci-like sequence: the term to hand out next and
/// the one after it.
pub struct Fibs {
    a: i64,
    b: i64,
}

/// The `k`-th term (from 0) of the sequence that starts with `a`, `b`.
pub open spec fn fib_term(a: int, b: int, k: nat) -> int
    decreases k,
{
    if k == 0 {
        a
    } else {
        fib_term(b, a + b, (k - 1) as nat)
    }
}

impl View for Fibs {
    type V = (int, int);

    closed spec fn view(&self) -> (int, int) {
        (self.a as int, self.b as int)
    }
}

impl Fibs {
    /// Hands out the next term and moves on by one. Ends, with `None` and
    /// the state unchanged, when the sum of the two terms at hand does not
    /// fit an `i64`.
    pub fn next(&mut self) -> (r: Option<i64>)
        ensures
            match r {
                Some(x) => {
                    &&& x == old(self)@.0
                    &&& i64::MIN <= old(self)@.0 + old(self)@.1 <= i64::MAX
                    &&& final(self)@ == (old(self)@.1, old(self)@.0 + old(self)@.1)
                },
                None => {
                    &&& !(i64::MIN <= old(self)@.0 + old(self)@.1 <= i64::MAX)
                    &&& final(self)@ == old(self)@
                },
            },
    {
        match self.a.checked_add(self.b) {
            Some(c) => {
                let ans = self.a;
                self.a = self.b;
                self.b = c;
                Some(ans)
            },
            None => None,
        }
    }
}

/// The terms that `next` hands out are the terms of the sequence: after one
/// step, the `k`-th term of what is left is the `k + 1`-th term of the whole.
pub proof fn lemma_fib_shift(a: int, b: int, k: nat)
    ensures
        fib_term(b, a + b, k) == fib_term(a, b, k + 1),
{
}

} // verus!
