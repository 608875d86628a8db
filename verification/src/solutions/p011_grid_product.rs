//! The greatest product of four neighbours on a line in a square grid.

use crate::adjacent::quad_windows;
use vstd::prelude::*;

verus! {

/// The families of lines that are searched. Line `j` of a family is the run
/// of cells `at(0, j)`, `at(1, j)`, and so on, as far as it stays inside the
/// grid.
#[derive(Clone, Copy, Debug)]
pub enum Line {
    /// Row `j`, from the left.
    Hor,
    /// Column `j`, from the top.
    Ver,
    /// Row `j`, from column `j` on.
    D1a,
    /// The diagonal down and to the right from the top of row `j`.
    D1b,
    /// Row `j`, leftwards from column `size - 1 - j`.
    D2a,
    /// The diagonal down and to the left from column `size - 1 - j` of the
    /// top row.
    D2b,
}

/// The cell `(x, y)` number `i` of line `j` of a family, in a grid of the
/// given size.
pub open spec fn line_point(line: Line, i: int, j: int, size: int) -> (int, int) {
    match line {
        Line::Hor => (i, j),
        Line::Ver => (j, i),
        Line::D1a => (i + j, j),
        Line::D1b => (i, i + j),
        Line::D2a => (size - 1 - i - j, j),
        Line::D2b => (size - 1 - i - j, i),
    }
}

/// The point lies inside the grid.
pub open spec fn inside(p: (int, int), size: int) -> bool {
    0 <= p.0 < size && 0 <= p.1 < size
}

/// The number of cells of line `j` of a family.
pub open spec fn line_len(line: Line, j: int, size: int) -> int {
    if j < 0 || j >= size {
        0
    } else {
        match line {
            Line::Hor | Line::Ver => size,
            _ => size - j,
        }
    }
}

/// The number of lines of a family that are searched: the lines from the
/// first on that have four cells at least.
pub open spec fn lines_searched(line: Line, size: int) -> int {
    match line {
        Line::Hor | Line::Ver => size,
        _ => size - 3,
    }
}

/// The entry of the grid in cell `i` of line `j`.
pub open spec fn line_entry(grid: Seq<i64>, line: Line, i: int, j: int, size: int) -> int {
    let (x, y) = line_point(line, i, j, size);
    grid[x + y * size] as int
}

/// The product of the four entries from cell `i` of line `j` on.
pub open spec fn line_product(grid: Seq<i64>, line: Line, i: int, j: int, size: int) -> int {
    line_entry(grid, line, i, j, size) * line_entry(grid, line, i + 1, j, size) * line_entry(
        grid,
        line,
        i + 2,
        j,
        size,
    ) * line_entry(grid, line, i + 3, j, size)
}

/// `(i, j)` is the start of a run of four cells on a searched line.
pub open spec fn run_start(line: Line, i: int, j: int, size: int) -> bool {
    0 <= j < lines_searched(line, size) && 0 <= i <= line_len(line, j, size) - 4
}

/// Every entry of the grid is small enough for a product of four to fit 64
/// bits.
pub open spec fn small_entries(grid: Seq<i64>) -> bool {
    forall|k: int| 0 <= k < grid.len() ==> -30_000 <= #[trigger] grid[k] <= 30_000
}

/// Cell `i` of line `j`, as a pair of column and row.
pub fn line_cell(line: Line, i: isize, j: isize, size: isize) -> (p: (isize, isize))
    requires
        0 <= i <= size,
        0 <= j <= size,
        size < isize::MAX / 4,
    ensures
        (p.0 as int, p.1 as int) == line_point(line, i as int, j as int, size as int),
{
    match line {
        Line::Hor => (i, j),
        Line::Ver => (j, i),
        Line::D1a => (i + j, j),
        Line::D1b => (i, i + j),
        Line::D2a => (size - 1 - i - j, j),
        Line::D2b => (size - 1 - i - j, i),
    }
}

/// The entries along line `j` of a family, as far as the line stays inside
/// the grid.
fn line_entries(grid: &[i64], size: usize, line: Line, j: usize) -> (cells: Vec<i64>)
    requires
        grid@.len() == size * size,
        size < isize::MAX / 4,
        j <= size,
    ensures
        cells@.len() == line_len(line, j as int, size as int),
        forall|i: int|
            0 <= i < cells@.len() ==> #[trigger] cells@[i] == line_entry(
                grid@,
                line,
                i,
                j as int,
                size as int,
            ),
{
    let isize = size as isize;
    let count = grid.len();
    let mut cells: Vec<i64> = Vec::new();
    let mut i: isize = 0;
    while i <= isize
        invariant
            0 <= i <= isize + 1,
            isize == size,
            grid@.len() == size * size,
            size * size <= usize::MAX,
            size < isize::MAX / 4,
            j <= size,
            i <= line_len(line, j as int, size as int),
            cells@.len() == i,
            forall|k: int|
                0 <= k < cells@.len() ==> #[trigger] cells@[k] == line_entry(
                    grid@,
                    line,
                    k,
                    j as int,
                    size as int,
                ),
        ensures
            cells@.len() == line_len(line, j as int, size as int),
            forall|k: int|
                0 <= k < cells@.len() ==> #[trigger] cells@[k] == line_entry(
                    grid@,
                    line,
                    k,
                    j as int,
                    size as int,
                ),
        decreases isize + 1 - i,
    {
        let (x, y) = line_cell(line, i, j as isize, isize);
        if !(0 <= x && x < isize && 0 <= y && y < isize) {
            break;
        }
        let x = x as usize;
        let y = y as usize;
        assert(x + y * size < size * size) by (nonlinear_arith)
            requires
                x < size,
                y < size,
        ;
        assert(0 <= y * size) by (nonlinear_arith)
            requires
                0 <= y,
                0 <= size,
        ;
        cells.push(grid[x + y * size]);
        i += 1;
    }
    cells
}

/// The greatest product of four neighbouring entries on any of the lines of
/// a family, in a square grid of the given size, kept row by row.
#[verifier::rlimit(40)]
pub fn max_4prod(grid: &[i64], size: usize, line: Line) -> (best: i64)
    requires
        grid@.len() == size * size,
        4 <= size < isize::MAX / 4,
        small_entries(grid@),
    ensures
        exists|i: int, j: int|
            #[trigger] run_start(line, i, j, size as int) && best == line_product(
                grid@,
                line,
                i,
                j,
                size as int,
            ),
        forall|i: int, j: int|
            #[trigger] run_start(line, i, j, size as int) ==> line_product(
                grid@,
                line,
                i,
                j,
                size as int,
            ) <= best,
{
    let mut best: Option<i64> = None;
    let mut j: usize = 0;
    loop
        invariant
            grid@.len() == size * size,
            4 <= size < isize::MAX / 4,
            small_entries(grid@),
            0 <= j <= lines_searched(line, size as int),
            j > 0 ==> best is Some,
            best is Some ==> exists|i: int, k: int|
                #[trigger] run_start(line, i, k, size as int) && best->0 == line_product(
                    grid@,
                    line,
                    i,
                    k,
                    size as int,
                ),
            forall|i: int, k: int|
                #[trigger] run_start(line, i, k, size as int) && k < j ==> best is Some
                    && line_product(grid@, line, i, k, size as int) <= best->0,
        ensures
            best is Some,
            j == lines_searched(line, size as int),
            best is Some ==> exists|i: int, k: int|
                #[trigger] run_start(line, i, k, size as int) && best->0 == line_product(
                    grid@,
                    line,
                    i,
                    k,
                    size as int,
                ),
            forall|i: int, k: int|
                #[trigger] run_start(line, i, k, size as int) && k < j ==> best is Some
                    && line_product(grid@, line, i, k, size as int) <= best->0,
        decreases size + 1 - j,
    {
        let cells = line_entries(grid, size, line, j);
        let quads = quad_windows(cells.as_slice());
        if quads.len() == 0 {
            break;
        }
        for i in 0..quads.len()
            invariant
                grid@.len() == size * size,
                4 <= size < isize::MAX / 4,
                small_entries(grid@),
                0 <= j < lines_searched(line, size as int),
                quads@.len() == line_len(line, j as int, size as int) - 3,
                cells@.len() == line_len(line, j as int, size as int),
                forall|k: int|
                    0 <= k < cells@.len() ==> #[trigger] cells@[k] == line_entry(
                        grid@,
                        line,
                        k,
                        j as int,
                        size as int,
                    ),
                forall|k: int|
                    0 <= k < quads@.len() ==> #[trigger] quads@[k] == (
                        cells@[k],
                        cells@[k + 1],
                        cells@[k + 2],
                        cells@[k + 3],
                    ),
                i > 0 || j > 0 ==> best is Some,
                best is Some ==> exists|i: int, k: int|
                    #[trigger] run_start(line, i, k, size as int) && best->0 == line_product(
                        grid@,
                        line,
                        i,
                        k,
                        size as int,
                    ),
                forall|w: int, k: int|
                    #[trigger] run_start(line, w, k, size as int) && (k < j || (k == j && w < i))
                        ==> best is Some && line_product(grid@, line, w, k, size as int)
                        <= best->0,
        {
            let (a, b, c, d) = quads[i];
            proof {
                lemma_entries_small(grid@, line, i as int, j as int, size as int);
                lemma_entries_small(grid@, line, i + 1, j as int, size as int);
                lemma_entries_small(grid@, line, i + 2, j as int, size as int);
                lemma_entries_small(grid@, line, i + 3, j as int, size as int);
                assert(cells@[i as int] == a && cells@[i + 1] == b && cells@[i + 2] == c && cells@[i
                    + 3] == d);
                assert(-900_000_000 <= a * b <= 900_000_000) by (nonlinear_arith)
                    requires
                        -30_000 <= a <= 30_000,
                        -30_000 <= b <= 30_000,
                ;
                assert(-27_000_000_000_000 <= a * b * c <= 27_000_000_000_000) by (nonlinear_arith)
                    requires
                        -900_000_000 <= a * b <= 900_000_000,
                        -30_000 <= c <= 30_000,
                ;
                assert(-810_000_000_000_000_000 <= a * b * c * d <= 810_000_000_000_000_000)
                    by (nonlinear_arith)
                    requires
                        -27_000_000_000_000 <= a * b * c <= 27_000_000_000_000,
                        -30_000 <= d <= 30_000,
                ;
            }
            let product = a * b * c * d;
            assert(product == line_product(grid@, line, i as int, j as int, size as int));
            assert(run_start(line, i as int, j as int, size as int));
            let better = match best {
                Some(m) => product > m,
                None => true,
            };
            if better {
                best = Some(product);
            }
        }
        j += 1;
    }
    best.unwrap()
}

/// An entry on a line is an entry of the grid, and so is small.
proof fn lemma_entries_small(grid: Seq<i64>, line: Line, i: int, j: int, size: int)
    requires
        grid.len() == size * size,
        small_entries(grid),
        0 <= i < line_len(line, j, size),
    ensures
        -30_000 <= line_entry(grid, line, i, j, size) <= 30_000,
{
    let (x, y) = line_point(line, i, j, size);
    assert(0 <= x + y * size < size * size) by (nonlinear_arith)
        requires
            0 <= x < size,
            0 <= y < size,
    ;
}

/// Largest product in a grid: the greatest product of four neighbouring
/// numbers on a row, a column or one of the searched diagonals of the grid
/// of 20 by 20 numbers, given row by row.
pub fn p011(grid: &[i64]) -> (best: i64)
    requires
        grid@.len() == 400,
        small_entries(grid@),
    ensures
        exists|line: Line, i: int, j: int|
            #[trigger] run_start(line, i, j, 20) && best == line_product(grid@, line, i, j, 20),
        forall|line: Line, i: int, j: int|
            #[trigger] run_start(line, i, j, 20) ==> line_product(grid@, line, i, j, 20) <= best,
{
    let size: usize = 20;
    let hor = max_4prod(grid, size, Line::Hor);
    let ver = max_4prod(grid, size, Line::Ver);
    let d1a = max_4prod(grid, size, Line::D1a);
    let d1b = max_4prod(grid, size, Line::D1b);
    let d2a = max_4prod(grid, size, Line::D2a);
    let d2b = max_4prod(grid, size, Line::D2b);
    let mut best = hor;
    if ver > best {
        best = ver;
    }
    if d1a > best {
        best = d1a;
    }
    if d1b > best {
        best = d1b;
    }
    if d2a > best {
        best = d2a;
    }
    if d2b > best {
        best = d2b;
    }
    proof {
        assert forall|line: Line, i: int, j: int| #[trigger] run_start(line, i, j, 20) implies line_product(
            grid@,
            line,
            i,
            j,
            20,
        ) <= best by {
            match line {
                Line::Hor => {},
                Line::Ver => {},
                Line::D1a => {},
                Line::D1b => {},
                Line::D2a => {},
                Line::D2b => {},
            }
        }
    }
    best
}

} // verus!
