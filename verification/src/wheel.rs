//! The modulo-30 wheel: the eight residues coprime to 30, the compact
//! coordinate system built on them, and the stepping tables of the sieve.

use crate::adjacent::pair_windows;
use vstd::prelude::*;

verus! {

/// The eight residues modulo 30 that are coprime to 30, in ascending order.
pub const RESIDUES30: [usize; 8] = [1, 7, 11, 13, 17, 19, 23, 29];

/// `r` is one of the eight wheel residues.
pub open spec fn wheel_residue(r: int) -> bool {
    r == 1 || r == 7 || r == 11 || r == 13 || r == 17 || r == 19 || r == 23 || r == 29
}

/// `n` is wheel-eligible: its residue modulo 30 is a wheel residue.
#[verifier::opaque]
pub open spec fn on_wheel(n: int) -> bool {
    wheel_residue(n % 30)
}

/// Compact index (0..8) of a wheel residue.
pub open spec fn wheel_index(r: int) -> int {
    if r == 1 {
        0
    } else if r == 7 {
        1
    } else if r == 11 {
        2
    } else if r == 13 {
        3
    } else if r == 17 {
        4
    } else if r == 19 {
        5
    } else if r == 23 {
        6
    } else {
        7
    }
}

/// The wheel residue with compact index `i` (0..8).
pub open spec fn wheel_value(i: int) -> int {
    if i == 0 {
        1
    } else if i == 1 {
        7
    } else if i == 2 {
        11
    } else if i == 3 {
        13
    } else if i == 4 {
        17
    } else if i == 5 {
        19
    } else if i == 6 {
        23
    } else {
        29
    }
}

/// Distance from the wheel residue `r` to the next one; after 29 comes 31.
pub open spec fn wheel_gap(r: int) -> int {
    if r == 29 {
        2
    } else {
        wheel_value(wheel_index(r) + 1) - r
    }
}

/// Bit position of the wheel-eligible integer `n`.
pub open spec fn spec_to_pos(n: int) -> int {
    (n / 30) * 8 + wheel_index(n % 30)
}

/// The wheel-eligible integer stored at bit position `i`.
pub open spec fn spec_from_pos(i: int) -> int {
    30 * (i / 8) + wheel_value(i % 8)
}

/// How many times `p` must be added to `n` to land on a wheel-eligible
/// integer: the least `k >= 1` with `n + k * p` on the wheel, capped at 6.
/// For a wheel-eligible `p` the cap is never reached, see
/// [`lemma_wheel_steps`].
pub open spec fn wheel_steps(n: int, p: int) -> int {
    if on_wheel(n + p) {
        1
    } else if on_wheel(n + 2 * p) {
        2
    } else if on_wheel(n + 3 * p) {
        3
    } else if on_wheel(n + 4 * p) {
        4
    } else if on_wheel(n + 5 * p) {
        5
    } else {
        6
    }
}

/// The first wheel-eligible integer that is reached from `n` by adding `p`
/// repeatedly, at least once.
pub open spec fn next_on_wheel(n: int, p: int) -> int {
    n + p * wheel_steps(n, p)
}

/// The entry of the residue table for `r` in `0..30`.
pub open spec fn spec_residue(r: int) -> Option<Residue> {
    if wheel_residue(r) {
        Some(Residue { index: wheel_index(r) as usize, delta: wheel_gap(r) as usize })
    } else {
        None
    }
}

/// Where the delta table keeps the entry for a prime of residue `i` and a
/// candidate of residue `j`.
pub open spec fn delta_cell(i: int, j: int) -> int {
    i + 30 * j
}

/// The entry of the delta table for a prime of residue `i` and a candidate
/// of residue `j`: the step count between wheel residues, zero off the wheel.
pub open spec fn spec_delta(i: int, j: int) -> int {
    if wheel_residue(i) && wheel_residue(j) {
        wheel_steps(j, i)
    } else {
        0
    }
}

/// Every wheel-eligible integer survives the trip to its bit position and
/// back.
pub proof fn lemma_round_trip(n: int)
    requires
        0 <= n,
        on_wheel(n),
    ensures
        spec_from_pos(spec_to_pos(n)) == n,
        0 <= spec_to_pos(n),
{
    reveal(on_wheel);
}

/// Every bit position holds a wheel-eligible integer, and maps back to
/// itself.
pub proof fn lemma_pos_round_trip(i: int)
    requires
        0 <= i,
    ensures
        on_wheel(spec_from_pos(i)),
        spec_to_pos(spec_from_pos(i)) == i,
        0 < spec_from_pos(i),
{
    reveal(on_wheel);
}

/// Bit positions are ordered as the integers they stand for.
pub proof fn lemma_pos_monotonic(i: int, j: int)
    requires
        0 <= i < j,
    ensures
        spec_from_pos(i) < spec_from_pos(j),
{
}

/// From any residue `a`, six steps of a wheel residue `b` pass over a wheel
/// residue.
#[verifier::rlimit(40)]
proof fn lemma_hit_within_six(a: int, b: int)
    requires
        0 <= a < 30,
        wheel_residue(b),
    ensures
        on_wheel(a + b) || on_wheel(a + 2 * b) || on_wheel(a + 3 * b) || on_wheel(a + 4 * b)
            || on_wheel(a + 5 * b) || on_wheel(a + 6 * b),
{
    reveal(on_wheel);
    if b == 1 {
    } else if b == 7 {
    } else if b == 11 {
    } else if b == 13 {
    } else if b == 17 {
    } else if b == 19 {
    } else if b == 23 {
    } else {
    }
}

/// Whether `n + k * p` is wheel-eligible depends on the residues of `n` and
/// `p` alone.
proof fn lemma_step_residue(n: int, p: int, k: int)
    requires
        0 <= n,
        0 <= p,
        1 <= k <= 6,
    ensures
        on_wheel(n + k * p) == on_wheel(n % 30 + k * (p % 30)),
{
    reveal(on_wheel);
    let a = n % 30;
    let b = p % 30;
    assert(n + k * p == (a + k * b) + 30 * ((n / 30) + k * (p / 30))) by (nonlinear_arith)
        requires
            n == 30 * (n / 30) + a,
            p == 30 * (p / 30) + b,
    ;
    vstd::arithmetic::div_mod::lemma_mod_multiples_vanish((n / 30) + k * (p / 30), a + k * b, 30);
}

/// Stepping by a wheel-eligible `p` reaches the wheel within six steps, from
/// any starting point; `wheel_steps` counts the steps to the first hit, and
/// depends on the residues of `n` and `p` alone.
#[verifier::rlimit(40)]
pub proof fn lemma_wheel_steps(n: int, p: int)
    requires
        0 <= n,
        0 <= p,
        on_wheel(p),
    ensures
        1 <= wheel_steps(n, p) <= 6,
        on_wheel(next_on_wheel(n, p)),
        forall|j: int| 1 <= j < wheel_steps(n, p) ==> !on_wheel(#[trigger] (n + j * p)),
        wheel_steps(n, p) == wheel_steps(n % 30, p % 30),
{
    let a = n % 30;
    let b = p % 30;
    assert(wheel_residue(b)) by {
        reveal(on_wheel);
    }
    lemma_hit_within_six(a, b);
    lemma_step_residue(n, p, 1);
    lemma_step_residue(n, p, 2);
    lemma_step_residue(n, p, 3);
    lemma_step_residue(n, p, 4);
    lemma_step_residue(n, p, 5);
    lemma_step_residue(n, p, 6);
    lemma_step_residue(a, b, 1);
    lemma_step_residue(a, b, 2);
    lemma_step_residue(a, b, 3);
    lemma_step_residue(a, b, 4);
    lemma_step_residue(a, b, 5);
    lemma_step_residue(a, b, 6);
    let s = wheel_steps(n, p);
    assert(p * s == s * p) by (nonlinear_arith);
    assert forall|j: int| 1 <= j < s implies !on_wheel(#[trigger] (n + j * p)) by {
        if j == 1 {
        } else if j == 2 {
        } else if j == 3 {
        } else if j == 4 {
        } else {
            assert(j == 5);
        }
    }
}

/// Stepping by the delta table is stepping to the next wheel-eligible
/// integer: for a wheel-eligible candidate `n` and a wheel-eligible `p`, the
/// table entry for their residues times `p` leads from `n` to the first
/// wheel-eligible integer among `n + p`, `n + 2 * p`, and so on.
pub proof fn lemma_table_step(n: int, p: int)
    requires
        0 <= n,
        0 <= p,
        on_wheel(n),
        on_wheel(p),
    ensures
        1 <= spec_delta(p % 30, n % 30) <= 6,
        n + p * spec_delta(p % 30, n % 30) == next_on_wheel(n, p),
        on_wheel(next_on_wheel(n, p)),
{
    lemma_wheel_steps(n, p);
    assert(wheel_residue(n % 30) && wheel_residue(p % 30)) by {
        reveal(on_wheel);
    }
}

/// One entry of the residue table: the compact index of a wheel residue and
/// the gap to the next wheel residue.
#[derive(Clone, Copy)]
pub struct Residue {
    pub index: usize,
    pub delta: usize,
}

/// Whether `r` is one of the eight wheel residues.
pub fn is_wheel_residue(r: usize) -> (b: bool)
    ensures
        b == wheel_residue(r as int),
{
    r == 1 || r == 7 || r == 11 || r == 13 || r == 17 || r == 19 || r == 23 || r == 29
}

/// None of the first `k` steps from `n` by `p` lands on the wheel.
pub open spec fn steps_missed(n: int, p: int, k: int) -> bool {
    &&& k >= 1 ==> !on_wheel(n + p)
    &&& k >= 2 ==> !on_wheel(n + 2 * p)
    &&& k >= 3 ==> !on_wheel(n + 3 * p)
    &&& k >= 4 ==> !on_wheel(n + 4 * p)
    &&& k >= 5 ==> !on_wheel(n + 5 * p)
}

/// `n` plus `k` times `p`, for `k` up to six, without a product of two
/// variables.
pub open spec fn after_steps(n: int, p: int, k: int) -> int {
    if k == 0 {
        n
    } else if k == 1 {
        n + p
    } else if k == 2 {
        n + 2 * p
    } else if k == 3 {
        n + 3 * p
    } else if k == 4 {
        n + 4 * p
    } else if k == 5 {
        n + 5 * p
    } else {
        n + 6 * p
    }
}

/// Adds `p` to `n` until the sum is wheel-eligible, and returns the sum.
///
/// This is the slow reference for the delta table: one remainder per step.
#[verifier::rlimit(40)]
pub fn npp_slow(n: usize, p: usize) -> (next: usize)
    requires
        on_wheel(p as int),
        n + 6 * p <= usize::MAX,
    ensures
        next == next_on_wheel(n as int, p as int),
{
    let ghost start = n as int;
    let mut k: usize = 0;
    let mut m = n;
    proof {
        lemma_wheel_steps(start, p as int);
    }
    loop
        invariant
            0 <= k < 6,
            start == n,
            m == after_steps(start, p as int, k as int),
            steps_missed(start, p as int, k as int),
            start + 6 * p <= usize::MAX,
            0 <= start,
            on_wheel(next_on_wheel(start, p as int)),
        decreases 6 - k,
    {
        m += p;
        k += 1;
        assert(m == after_steps(start, p as int, k as int));
        let hit = is_wheel_residue(m % 30);
        assert(hit == on_wheel(m as int)) by {
            reveal(on_wheel);
        }
        if hit {
            proof {
                let s = wheel_steps(start, p as int);
                assert(s == k);
                assert(p * s == after_steps(0, p as int, k as int)) by {
                    assert(p * 1 == p && p * 2 == 2 * p && p * 3 == 3 * p && p * 4 == 4 * p && p
                        * 5 == 5 * p && p * 6 == 6 * p);
                }
                assert(m == start + after_steps(0, p as int, k as int));
            }
            return m;
        }
        proof {
            if k == 6 {
                assert(wheel_steps(start, p as int) == 6);
                assert(p * 6 == 6 * p);
                assert(false);
            }
        }
    }
}

/// Builds the residue table: for each of the 30 residues, its compact index
/// and the gap to the next wheel residue, or `None` off the wheel.
#[verifier::rlimit(40)]
pub fn build_residues() -> (z30: [Option<Residue>; 30])
    ensures
        forall|r: int| 0 <= r < 30 ==> z30[r] == spec_residue(r),
{
    let mut z30: [Option<Residue>; 30] = [None; 30];
    let mut rs: Vec<usize> = Vec::new();
    for i in 0..8
        invariant
            rs@.len() == i,
            forall|k: int| 0 <= k < i ==> rs@[k] == wheel_value(k),
    {
        rs.push(RESIDUES30[i]);
    }
    rs.push(31);
    let pairs = pair_windows(rs.as_slice());
    for i in 0..8
        invariant
            pairs@.len() == 8,
            rs@.len() == 9,
            rs@[8] == 31,
            forall|k: int| 0 <= k < 8 ==> rs@[k] == wheel_value(k),
            forall|k: int| 0 <= k < 8 ==> pairs@[k] == (rs@[k], rs@[k + 1]),
            forall|r: int|
                0 <= r < 30 ==> z30[r] == (if wheel_residue(r) && wheel_index(r) < i {
                    spec_residue(r)
                } else {
                    None
                }),
    {
        let (a, b) = pairs[i];
        assert(a == wheel_value(i as int));
        assert(b == if i == 7 { 31 } else { wheel_value(i + 1) });
        z30[a] = Some(Residue { index: i, delta: b - a });
    }
    z30
}

/// The delta-table entry for the wheel residues `i` (of a prime) and `j` (of
/// a candidate), found by stepping from `j + 30` by `i + 30`.
fn brute_delta(i: usize, j: usize) -> (delta: usize)
    requires
        wheel_residue(i as int),
        wheel_residue(j as int),
    ensures
        delta == spec_delta(i as int, j as int),
{
    let n = j + 30;
    let p = i + 30;
    assert(on_wheel(p as int) && on_wheel(i as int)) by {
        reveal(on_wheel);
    }
    let n2 = npp_slow(n, p);
    proof {
        lemma_wheel_steps(n as int, p as int);
        lemma_wheel_steps(j as int, i as int);
        let s = wheel_steps(n as int, p as int);
        assert((p * s) / (p as int) == s) by (nonlinear_arith)
            requires
                p > 0,
        ;
    }
    (n2 - n) / p
}

/// Builds the delta table by brute force: for every pair of wheel residues,
/// one of a prime and one of a candidate, the number of times the prime must
/// be added to the candidate to reach the wheel again. Entries off the wheel
/// stay zero.
#[verifier::rlimit(40)]
pub fn build_deltas() -> (deltas: [usize; 900])
    ensures
        forall|i: int, j: int|
            0 <= i < 30 && 0 <= j < 30 ==> deltas[#[trigger] delta_cell(i, j)] == spec_delta(i, j),
{
    let mut deltas: [usize; 900] = [0; 900];
    for a in 0..8
        invariant
            forall|i: int, j: int|
                0 <= i < 30 && 0 <= j < 30 ==> deltas[#[trigger] delta_cell(i, j)] == (if wheel_index(j)
                    < a {
                    spec_delta(i, j)
                } else {
                    0
                }),
    {
        let j = RESIDUES30[a];
        for b in 0..8
            invariant
                0 <= a < 8,
                j == wheel_value(a as int),
                forall|i: int, jj: int|
                    0 <= i < 30 && 0 <= jj < 30 ==> deltas[#[trigger] delta_cell(i, jj)] == (
                    if wheel_index(jj) < a || (jj == j && wheel_index(i) < b) {
                        spec_delta(i, jj)
                    } else {
                        0
                    }),
        {
            let i = RESIDUES30[b];
            let delta = brute_delta(i, j);
            let ghost before = deltas;
            deltas[i + j * 30] = delta;
            proof {
                assert(i + j * 30 == delta_cell(i as int, j as int));
                assert forall|ii: int, jj: int| 0 <= ii < 30 && 0 <= jj < 30 implies deltas[#[trigger] delta_cell(
                    ii,
                    jj,
                )] == (if wheel_index(jj) < a || (jj == j && wheel_index(ii) < b + 1) {
                    spec_delta(ii, jj)
                } else {
                    0
                }) by {
                    if ii == i && jj == j {
                    } else {
                        assert(delta_cell(ii, jj) != delta_cell(i as int, j as int));
                        assert(deltas[delta_cell(ii, jj)] == before[delta_cell(ii, jj)]);
                    }
                }
            }
        }
    }
    deltas
}

/// The two lookup tables of the wheel. They are built once and never
/// change; every sieve reads its own copy.
#[derive(Clone, Copy)]
pub struct WheelTables {
    residues: [Option<Residue>; 30],
    deltas: [usize; 900],
}

impl WheelTables {
    /// Both tables hold exactly the values that the wheel prescribes.
    pub closed spec fn wf(&self) -> bool {
        &&& forall|r: int| 0 <= r < 30 ==> self.residues[r] == spec_residue(r)
        &&& forall|i: int, j: int|
            0 <= i < 30 && 0 <= j < 30 ==> self.deltas[#[trigger] delta_cell(i, j)] == spec_delta(
                i,
                j,
            )
    }

    /// Builds both tables from scratch.
    pub fn new() -> (tables: WheelTables)
        ensures
            tables.wf(),
    {
        WheelTables { residues: build_residues(), deltas: build_deltas() }
    }

    /// The residue-table entry of `r`.
    pub fn residue(&self, r: usize) -> (entry: Option<Residue>)
        requires
            self.wf(),
            r < 30,
        ensures
            entry == spec_residue(r as int),
    {
        self.residues[r]
    }

    /// The delta-table entry for a prime of residue `i` and a candidate of
    /// residue `j`.
    pub fn delta(&self, i: usize, j: usize) -> (d: usize)
        requires
            self.wf(),
            i < 30,
            j < 30,
        ensures
            d == spec_delta(i as int, j as int),
    {
        assert(i + 30 * j == delta_cell(i as int, j as int));
        self.deltas[i + 30 * j]
    }
}

/// Building the tables is a pure function of the eight residues: any two
/// builds agree entry by entry.
pub proof fn lemma_tables_deterministic(a: WheelTables, b: WheelTables)
    requires
        a.wf(),
        b.wf(),
    ensures
        a == b,
{
    assert forall|r: int| 0 <= r < 30 implies a.residues[r] == b.residues[r] by {
        assert(a.residues[r] == spec_residue(r));
    }
    assert(a.residues =~= b.residues);
    assert forall|k: int| 0 <= k < 900 implies a.deltas[k] == b.deltas[k] by {
        assert(k == delta_cell(k % 30, k / 30));
    }
    assert(a.deltas =~= b.deltas);
}

} // verus!
