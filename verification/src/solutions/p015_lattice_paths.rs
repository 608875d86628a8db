//! Lattice paths through a square grid.

use vstd::arithmetic::power2::{lemma2_to64, lemma_pow2_adds, pow2};
use vstd::prelude::*;

verus! {

/// The number of ways to reach the grid point `(x, y)` from the origin by
/// unit steps to the right and down.
pub open spec fn lattice_paths(x: nat, y: nat) -> nat
    decreases x + y,
{
    if x == 0 || y == 0 {
        1
    } else {
        lattice_paths((x - 1) as nat, y) + lattice_paths(x, (y - 1) as nat)
    }
}

/// Where the grid of 21 by 21 points keeps the count for `(x, y)`.
pub open spec fn grid_cell(x: int, y: int) -> int {
    x + y * 21
}

/// Each step doubles the number of paths at most.
pub proof fn lemma_lattice_paths_bound(x: nat, y: nat)
    ensures
        lattice_paths(x, y) <= pow2(x + y),
    decreases x + y,
{
    if x == 0 || y == 0 {
        vstd::arithmetic::power2::lemma_pow2_pos(x + y);
    } else {
        lemma_lattice_paths_bound((x - 1) as nat, y);
        lemma_lattice_paths_bound(x, (y - 1) as nat);
        lemma_pow2_adds(1, (x + y - 1) as nat);
        lemma2_to64();
    }
}

/// The counts in a grid of 21 by 21 points fit 41 bits.
proof fn lemma_paths_fit(x: nat, y: nat)
    requires
        x <= 20,
        y <= 20,
    ensures
        lattice_paths(x, y) <= 0x100_0000_0000,
{
    lemma_lattice_paths_bound(x, y);
    lemma2_to64();
    lemma_pow2_adds(32, 8);
    assert(pow2(40) == 0x100_0000_0000) by (nonlinear_arith)
        requires
            pow2(40) == pow2(32) * pow2(8),
            pow2(32) == 0x1_0000_0000,
            pow2(8) == 0x100,
    ;
    if x + y < 40 {
        vstd::arithmetic::power2::lemma_pow2_strictly_increases(x + y, 40);
    }
}

/// Lattice paths: the number of routes through a grid of 20 by 20 squares,
/// from one corner to the opposite one, along the grid lines without turning
/// back.
pub fn p015() -> (routes: u64)
    ensures
        routes == lattice_paths(20, 20),
{
    let size: usize = 21;
    let mut num_routes: Vec<u64> = Vec::new();
    while num_routes.len() < size * size
        invariant
            size == 21,
            num_routes@.len() <= 441,
            forall|i: int| 0 <= i < num_routes@.len() ==> num_routes@[i] == 0,
        decreases 441 - num_routes@.len(),
    {
        num_routes.push(0);
    }
    // Initialize the top and left edges - each vertex has exactly one
    // way to get to it.
    for x in 0..size
        invariant
            size == 21,
            num_routes@.len() == 441,
            forall|i: int, j: int|
                0 <= i < 21 && 0 <= j < 21 ==> num_routes@[#[trigger] grid_cell(i, j)] == (if (j == 0
                    || i == 0) && (i < x) && (j < x) {
                    1u64
                } else {
                    0u64
                }),
    {
        let ghost before = num_routes@;
        num_routes.set(x, 1);
        num_routes.set(x * size, 1);
        proof {
            assert(x == grid_cell(x as int, 0) && x * size == grid_cell(0, x as int));
            assert forall|i: int, j: int| 0 <= i < 21 && 0 <= j < 21 implies num_routes@[#[trigger] grid_cell(
                i,
                j,
            )] == (if (j == 0 || i == 0) && (i < x + 1) && (j < x + 1) {
                1u64
            } else {
                0u64
            }) by {
                if grid_cell(i, j) != x && grid_cell(i, j) != x * size {
                    assert(num_routes@[grid_cell(i, j)] == before[grid_cell(i, j)]);
                }
            }
        }
    }
    for y in 1..size
        invariant
            size == 21,
            num_routes@.len() == 441,
            forall|i: int, j: int|
                0 <= i < 21 && 0 <= j < 21 && (i == 0 || j == 0 || j < y)
                    ==> num_routes@[#[trigger] grid_cell(i, j)] == lattice_paths(i as nat, j as nat),
    {
        for x in 1..size
            invariant
                size == 21,
                1 <= y < 21,
                num_routes@.len() == 441,
                forall|i: int, j: int|
                    0 <= i < 21 && 0 <= j < 21 && (i == 0 || j == 0 || j < y || (j == y && i < x))
                        ==> num_routes@[#[trigger] grid_cell(i, j)] == lattice_paths(
                        i as nat,
                        j as nat,
                    ),
        {
            // Vertex (x, y) could come from (x-1, y) or (x, y-1).
            let pos1 = x - 1 + y * size;
            let pos2 = x + (y - 1) * size;
            proof {
                assert(pos1 == grid_cell(x - 1, y as int));
                assert(pos2 == grid_cell(x as int, y - 1));
                lemma_paths_fit((x - 1) as nat, y as nat);
                lemma_paths_fit(x as nat, (y - 1) as nat);
            }
            let ghost before = num_routes@;
            let routes = num_routes[pos1] + num_routes[pos2];
            num_routes.set(x + y * size, routes);
            proof {
                assert(x + y * size == grid_cell(x as int, y as int));
                assert forall|i: int, j: int|
                    0 <= i < 21 && 0 <= j < 21 && (i == 0 || j == 0 || j < y || (j == y && i < x
                        + 1)) implies num_routes@[#[trigger] grid_cell(i, j)] == lattice_paths(
                    i as nat,
                    j as nat,
                ) by {
                    if i == x && j == y {
                    } else {
                        assert(grid_cell(i, j) != grid_cell(x as int, y as int));
                        assert(num_routes@[grid_cell(i, j)] == before[grid_cell(i, j)]);
                    }
                }
            }
        }
    }
    assert(size * size - 1 == grid_cell(20, 20));
    num_routes[size * size - 1]
}

/// Lattice paths, under its short name.
pub fn p15() -> (routes: u64)
    ensures
        routes == lattice_paths(20, 20),
{
    p015()
}

} // verus!
