//! The grid whose number of rectangles is nearest to two million.
//!
//! A grid of `w` by `h` squares holds `T(w) * T(h)` rectangles, where `T` is
//! the triangle function `T(n) = n * (n + 1) / 2`.

use crate::best::Best;
use crate::slices::products_below;
use vstd::prelude::*;

verus! {

/// The number of rectangles to come near to.
pub const TARGET: u64 = 2_000_000;

/// The `n`-th triangle number.
pub open spec fn triangle(n: int) -> int {
    n * (n + 1) / 2
}

/// The number of rectangles in a grid of `w` by `h` squares.
pub open spec fn rectangles(w: int, h: int) -> int {
    triangle(w) * triangle(h)
}

/// How far the number of rectangles in a grid of `w` by `h` squares is from
/// two million.
pub open spec fn distance(w: int, h: int) -> int {
    if rectangles(w, h) >= TARGET {
        rectangles(w, h) - TARGET
    } else {
        TARGET - rectangles(w, h)
    }
}

/// No grid with sides of 2 at least, and of `limit` at most for the lesser
/// side, comes nearer to two million than `d`.
pub open spec fn nearest_up_to(d: int, limit: int) -> bool {
    forall|x: int, y: int| 2 <= x <= y && x <= limit ==> d <= #[trigger] distance(x, y)
}

/// Triangle numbers grow with their index.
pub proof fn lemma_triangle(a: int, b: int)
    requires
        0 <= a <= b,
    ensures
        0 <= a <= triangle(a) <= triangle(b),
        triangle(a + 1) == triangle(a) + a + 1,
        a >= 1 ==> triangle(a) >= 1,
{
    assert(a * (a + 1) <= b * (b + 1)) by (nonlinear_arith)
        requires
            0 <= a <= b,
    ;
    assert((a + 1) * (a + 2) == a * (a + 1) + 2 * (a + 1)) by (nonlinear_arith);
    assert(a * (a + 1) >= 2 * a) by (nonlinear_arith)
        requires
            0 <= a,
    ;
}

/// The number of rectangles grows with each side.
pub proof fn lemma_rectangles(w: int, h: int, x: int, y: int)
    requires
        0 <= w <= x,
        0 <= h <= y,
    ensures
        0 <= rectangles(w, h) <= rectangles(x, y),
{
    lemma_triangle(w, x);
    lemma_triangle(h, y);
    assert(0 <= triangle(w) * triangle(h) <= triangle(x) * triangle(y)) by (nonlinear_arith)
        requires
            0 <= triangle(w) <= triangle(x),
            0 <= triangle(h) <= triangle(y),
    ;
}

/// The record of the search: the distance from two million, and the sides.
pub type Record = (u64, (usize, usize));

/// The distance of a record.
pub open spec fn record_distance(record: Record) -> int {
    let (d, _) = record;
    d as int
}

/// The width of a record.
pub open spec fn record_width(record: Record) -> int {
    let (_, (w, _)) = record;
    w as int
}

/// The height of a record.
pub open spec fn record_height(record: Record) -> int {
    let (_, (_, h)) = record;
    h as int
}

/// A record is sound: its distance is that of its sides, which are 2 at
/// least.
pub open spec fn sound(record: Record) -> bool {
    &&& record_distance(record) == distance(record_width(record), record_height(record))
    &&& 2 <= record_width(record) <= 1_000_000
    &&& 2 <= record_height(record) <= 2_000_000
}

/// Offers a record to the best so far, where the lesser distance is the
/// better.
fn offer(best: &mut Best<Record>, record: Record)
    requires
        sound(record),
        old(best)@ is Some ==> sound(old(best)@->0),
    ensures
        final(best)@ is Some,
        sound(final(best)@->0),
        record_distance(final(best)@->0) <= record_distance(record),
        old(best)@ is Some ==> record_distance(final(best)@->0) <= record_distance(old(best)@->0),
{
    best.min(record);
}

/// Counting rectangles: the area of the grid, with sides of 2 at least,
/// whose number of rectangles is nearest to two million.
#[verifier::rlimit(40)]
pub fn p085() -> (area: u64)
    ensures
        exists|w: int, h: int|
            2 <= w && 2 <= h && area == w * h && #[trigger] nearest_up_to(
                distance(w, h),
                usize::MAX as int,
            ),
{
    let mut xs: Vec<u64> = Vec::new();
    let mut n: u64 = 0;
    while n <= TARGET
        invariant
            0 <= n <= TARGET + 1,
            xs@.len() == n,
            forall|k: int| 0 <= k < n ==> #[trigger] xs@[k] == triangle(k),
        decreases TARGET + 1 - n,
    {
        assert(n * (n + 1) <= 2_000_000 * 2_000_001) by (nonlinear_arith)
            requires
                0 <= n <= 2_000_000,
        ;
        xs.push(n * (n + 1) / 2);
        n += 1;
    }
    let mut best: Best<Record> = Best::new();
    let mut i: usize = 2;
    while i < 1_000_000
        invariant
            2 <= i <= 1_000_000,
            xs@.len() == 2_000_001,
            forall|k: int| 0 <= k < 2_000_001 ==> #[trigger] xs@[k] == triangle(k),
            i > 2 ==> best@ is Some,
            best@ is Some ==> sound(best@->0),
            best@ is Some ==> nearest_up_to(record_distance(best@->0), i - 1),
        decreases 1_000_000 - i,
    {
        let ti = xs[i];
        proof {
            assert forall|a: int, b: int|
                0 <= a <= b < xs@.len() && ti * #[trigger] xs@[b] < TARGET implies ti
                * #[trigger] xs@[a] < TARGET by {
                lemma_triangle(a, b);
                assert(ti * xs@[a] <= ti * xs@[b]) by (nonlinear_arith)
                    requires
                        0 <= xs@[a] <= xs@[b],
                        0 <= ti,
                ;
            }
            lemma_triangle(2, i as int);
            assert(triangle(2) == 3);
        }
        let j = products_below(xs.as_slice(), ti, TARGET);
        proof {
            // the last triangle number alone is beyond the target
            assert(xs@[2_000_000] == triangle(2_000_000));
            assert(triangle(2_000_000) >= 2_000_000) by {
                lemma_triangle(2_000_000, 2_000_000);
            }
            assert(ti * xs@[2_000_000] >= TARGET) by (nonlinear_arith)
                requires
                    ti >= 3,
                    xs@[2_000_000] >= 2_000_000,
            ;
            assert(j <= 2_000_000);
            assert(xs@[0] == triangle(0));
            assert(ti * xs@[0] < TARGET) by (nonlinear_arith)
                requires
                    xs@[0] == 0,
            ;
            assert(j >= 1);
        }
        if j < i {
            proof {
                // the whole row lies beyond the target, and the grid of
                // `i - 1` by `i` lies between the target and the row
                lemma_skipped_row(i as int, j as int, record_distance(best@->0), xs@);
            }
        } else {
            // Check how close each side is - diff1 is above, diff2 is below.
            let tj = xs[j];
            let tj1 = xs[j - 1];
            proof {
                lemma_triangle(j - 1, j as int);
                lemma_triangle(1, j - 1);
                assert(ti * tj1 < TARGET);
                assert(ti * tj < 3 * TARGET) by (nonlinear_arith)
                    requires
                        ti * tj1 < TARGET,
                        tj == tj1 + j,
                        j <= tj1 + 1,
                        tj1 >= 1,
                        ti >= 0,
                ;
                assert(0 <= ti * tj1) by (nonlinear_arith)
                    requires
                        0 <= ti,
                        0 <= tj1,
                ;
                lemma_triangle(2, i as int);
                if j == 2 {
                    assert(i == 2);
                    assert(triangle(1) == 1 && triangle(2) == 3);
                    assert(false);
                }
            }
            let diff1 = ti * tj - TARGET;
            let diff2 = TARGET - ti * tj1;
            assert(diff1 == distance(i as int, j as int));
            assert(diff2 == distance(i as int, j - 1));
            offer(&mut best, (diff1, (i, j)));
            offer(&mut best, (diff2, (i, j - 1)));
            proof {
                lemma_searched_row(i as int, j as int, record_distance(best@->0), xs@);
            }
        }
        i += 1;
    }
    let record = best.into_inner().unwrap();
    let (_, (w, h)) = record;
    proof {
        let d = distance(w as int, h as int);
        assert forall|x: int, y: int| 2 <= x <= y && x <= usize::MAX implies d <= #[trigger] distance(
            x,
            y,
        ) by {
            if x > 999_999 {
                lemma_rectangles(999_999, 1_000_000, x, y);
                lemma_rectangles(2, 2000, 999_999, 1_000_000);
                assert(rectangles(2, 2000) == 3 * 2001000) by {
                    assert(triangle(2) == 3 && triangle(2000) == 2001000);
                }
                assert(d <= distance(999_999, 1_000_000));
            }
        }
    }
    assert(w * h <= 1_000_000 * 2_000_000) by (nonlinear_arith)
        requires
            0 <= w <= 1_000_000,
            0 <= h <= 2_000_000,
    ;
    assert(sound(record));
    assert(nearest_up_to(distance(w as int, h as int), usize::MAX as int));
    (w as u64) * (h as u64)
}

/// Where row `i` of the search lies beyond the target from a column before
/// `i` on, it holds no grid nearer than the best of the rows before it.
proof fn lemma_skipped_row(i: int, j: int, d: int, xs: Seq<u64>)
    requires
        3 <= i < 1_000_000,
        1 <= j < i,
        xs.len() == 2_000_001,
        forall|k: int| 0 <= k < 2_000_001 ==> #[trigger] xs[k] == triangle(k),
        forall|k: int| j <= k < xs.len() ==> xs[i] * #[trigger] xs[k] >= TARGET,
        nearest_up_to(d, i - 1),
    ensures
        nearest_up_to(d, i),
{
    assert forall|x: int, y: int| 2 <= x <= y && x <= i implies d <= #[trigger] distance(x, y) by {
        if x == i {
            assert(xs[i] * xs[i - 1] >= TARGET);
            assert(xs[i] == triangle(i) && xs[i - 1] == triangle(i - 1));
            assert(rectangles(i - 1, i) == triangle(i - 1) * triangle(i));
            assert(triangle(i - 1) * triangle(i) == triangle(i) * triangle(i - 1))
                by (nonlinear_arith);
            lemma_rectangles(i - 1, i, x, y);
            assert(d <= distance(i - 1, i));
        }
    }
}

/// Where row `i` of the search crosses the target at column `j`, the grids
/// of `i` by `j - 1` and of `i` by `j` are the nearest of the row.
proof fn lemma_searched_row(i: int, j: int, d: int, xs: Seq<u64>)
    requires
        2 <= i < 1_000_000,
        i <= j <= 2_000_000,
        xs.len() == 2_000_001,
        forall|k: int| 0 <= k < 2_000_001 ==> #[trigger] xs[k] == triangle(k),
        forall|k: int| 0 <= k < j ==> xs[i] * #[trigger] xs[k] < TARGET,
        forall|k: int| j <= k < xs.len() ==> xs[i] * #[trigger] xs[k] >= TARGET,
        d <= distance(i, j),
        d <= distance(i, j - 1),
        i > 2 ==> nearest_up_to(d, i - 1),
    ensures
        nearest_up_to(d, i),
{
    assert(xs[i] == triangle(i) && xs[j] == triangle(j) && xs[j - 1] == triangle(j - 1));
    assert forall|x: int, y: int| 2 <= x <= y && x <= i implies d <= #[trigger] distance(x, y) by {
        if x == i {
            if y >= j {
                lemma_rectangles(i, j, i, y);
            } else {
                lemma_rectangles(i, y, i, j - 1);
            }
        }
    }
}

} // verus!
