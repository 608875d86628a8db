//! Splitting an integer into three distinct positive parts.

use vstd::prelude::*;

verus! {

/// `(a, b, n - a - b)` is a triple of positive integers in strictly
/// ascending order.
pub open spec fn is_partition3(n: int, a: int, b: int) -> bool {
    1 <= a < b < n - a - b
}

/// `(a, b)` comes before `(x, y)` in the order of enumeration.
pub open spec fn pair_before(a: int, b: int, x: int, y: int) -> bool {
    a < x || (a == x && b < y)
}

/// All triples `(a, b, c)` with `a + b + c == n` and `0 < a < b < c`, in
/// lexicographic order, one at a time.
pub fn partitions3(n: i64) -> (parts: Partitions3)
    ensures
        parts.wf(),
        parts.total() == n,
        parts.at() == (1int, 2int),
{
    Partitions3 { n, a: 1, b: 2 }
}

/// The state of the enumeration: the total and the first two parts of the
/// triple to hand out next.
pub struct Partitions3 {
    n: i64,
    a: i64,
    b: i64,
}

impl Partitions3 {
    /// The total that every triple adds up to.
    pub closed spec fn total(&self) -> int {
        self.n as int
    }

    /// The first two parts of the triple that comes next.
    pub closed spec fn at(&self) -> (int, int) {
        (self.a as int, self.b as int)
    }

    /// The two parts at hand are positive and ascending, and the second
    /// part either follows the first directly or still leaves room for a
    /// greater third part.
    pub closed spec fn wf(&self) -> bool {
        &&& 1 <= self.a < self.b
        &&& self.b == self.a + 1 || is_partition3(self.n as int, self.a as int, self.b as int)
    }

    /// What `wf` says, for callers outside this file.
    pub proof fn lemma_wf(&self)
        requires
            self.wf(),
        ensures
            1 <= self.at().0 < self.at().1,
            self.at().1 == self.at().0 + 1 || is_partition3(
                self.total(),
                self.at().0,
                self.at().1,
            ),
    {
    }

    /// The next triple, or `None` when the enumeration is over.
    ///
    /// A triple is handed out exactly if the two parts at hand leave a third
    /// part greater than both. The enumeration then moves to the next pair of
    /// parts that can still start a triple, or to a pair that cannot, which
    /// ends it: no triple is passed over.
    pub fn next(&mut self) -> (r: Option<(i64, i64, i64)>)
        requires
            old(self).wf(),
        ensures
            final(self).wf(),
            final(self).total() == old(self).total(),
            match r {
                Some((a, b, c)) => {
                    &&& (a as int, b as int) == old(self).at()
                    &&& a + b + c == old(self).total()
                    &&& is_partition3(old(self).total(), a as int, b as int)
                    &&& final(self).at() == (a as int, b + 1) || final(self).at() == (a + 1, a + 2)
                    &&& pair_before(a as int, b as int, final(self).at().0, final(self).at().1)
                    &&& forall|x: int, y: int|
                        #[trigger] is_partition3(old(self).total(), x, y) && pair_before(
                            a as int,
                            b as int,
                            x,
                            y,
                        ) ==> !pair_before(x, y, final(self).at().0, final(self).at().1)
                    &&& !is_partition3(old(self).total(), final(self).at().0, final(self).at().1)
                        ==> forall|x: int, y: int|
                        #[trigger] is_partition3(old(self).total(), x, y) ==> !pair_before(
                            a as int,
                            b as int,
                            x,
                            y,
                        )
                },
                None => {
                    &&& final(self).at() == old(self).at()
                    &&& !is_partition3(old(self).total(), old(self).at().0, old(self).at().1)
                },
            },
    {
        let n = self.n;
        let a = self.a;
        let b = self.b;
        if n <= b || n - b <= a || n - b - a <= b {
            return None;
        }
        let c = n - b - a;
        let triple = (a, b, c);
        if b + 1 < c - 1 {
            self.b += 1;
        } else {
            self.a += 1;
            self.b = self.a + 1;
        }
        Some(triple)
    }
}

} // verus!
