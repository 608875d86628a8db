//! Numbers that are the sum of a prime square, a prime cube and a prime
//! fourth power.

use crate::bitset::{
    bitset_bits, bitset_count_ones, bitset_insert, bitset_with_capacity, count_true,
};
use crate::divisibility::is_prime;
use crate::bounds::square_below;
use crate::sieves::{primes_all, primes_next, primes_passed};
use vstd::prelude::*;

verus! {

/// The primes whose square is below `max`, in ascending order.
pub fn primes_with_square_below(max: usize) -> (primes: Vec<usize>)
    ensures
        forall|i: int|
            0 <= i < primes@.len() ==> is_prime(#[trigger] primes@[i] as int) && primes@[i]
                * primes@[i] < max,
        forall|i: int, j: int| 0 <= i < j < primes@.len() ==> primes@[i] < primes@[j],
        forall|p: int|
            is_prime(p) && p * p < max ==> exists|i: int|
                0 <= i < primes@.len() && #[trigger] primes@[i] == p,
{
    let mut source = primes_all();
    let mut primes: Vec<usize> = Vec::new();
    loop
        invariant_except_break
            primes_passed(source) < max || primes@.len() == 0,
            primes@.len() == 0 ==> primes_passed(source) == 0,
            forall|i: int|
                0 <= i < primes@.len() ==> is_prime(#[trigger] primes@[i] as int) && primes@[i]
                    * primes@[i] < max && primes@[i] <= primes_passed(source),
            forall|i: int, j: int| 0 <= i < j < primes@.len() ==> primes@[i] < primes@[j],
            forall|p: int|
                is_prime(p) && p <= primes_passed(source) ==> exists|i: int|
                    0 <= i < primes@.len() && #[trigger] primes@[i] == p,
        ensures
            forall|i: int|
                0 <= i < primes@.len() ==> is_prime(#[trigger] primes@[i] as int) && primes@[i]
                    * primes@[i] < max,
            forall|i: int, j: int| 0 <= i < j < primes@.len() ==> primes@[i] < primes@[j],
            forall|p: int|
                is_prime(p) && p * p < max ==> exists|i: int|
                    0 <= i < primes@.len() && #[trigger] primes@[i] == p,
        decreases max - primes_passed(source),
    {
        let ghost passed = primes_passed(source);
        let ghost before = primes@;
        match primes_next(&mut source) {
            Some(p) => {
                if !square_below(p, max) {
                    proof {
                        assert forall|q: int| is_prime(q) && q * q < max implies exists|i: int|
                            0 <= i < primes@.len() && #[trigger] primes@[i] == q by {
                            if q >= p {
                                assert(q * q >= p * p) by (nonlinear_arith)
                                    requires
                                        q >= p,
                                        p >= 0,
                                ;
                            }
                            if q > passed {
                                assert(!is_prime(q));
                            }
                        }
                    }
                    break ;
                }
                primes.push(p);
                proof {
                    assert(p < max) by (nonlinear_arith)
                        requires
                            p * p < max,
                            p >= 2,
                    ;
                    assert forall|i: int, j: int| 0 <= i < j < primes@.len() implies primes@[i]
                        < primes@[j] by {
                        if j == primes@.len() - 1 {
                            assert(before[i] <= passed);
                        }
                    }
                    assert forall|q: int| is_prime(q) && q <= p implies exists|i: int|
                        0 <= i < primes@.len() && #[trigger] primes@[i] == q by {
                        if q == p {
                            assert(primes@[primes@.len() - 1] == q);
                        } else if q > passed {
                            assert(!is_prime(q));
                        } else {
                            let i = choose|i: int| 0 <= i < before.len() && #[trigger] before[i] == q;
                            assert(primes@[i] == q);
                        }
                    }
                }
            },
            None => {
                proof {
                    assert forall|q: int| is_prime(q) && q * q < max implies exists|i: int|
                        0 <= i < primes@.len() && #[trigger] primes@[i] == q by {
                        if q > passed {
                            assert(!is_prime(q));
                        }
                    }
                }
                break ;
            },
        }
    }
    primes
}

/// The square of `p`.
pub open spec fn square_of(p: int) -> int {
    p * p
}

/// The cube of `p`.
pub open spec fn cube_of(p: int) -> int {
    p * p * p
}

/// The fourth power of `p`.
pub open spec fn fourth_of(p: int) -> int {
    p * p * p * p
}

/// `x` is the square of a prime.
pub open spec fn prime_square(x: int) -> bool {
    exists|p: int| is_prime(p) && #[trigger] square_of(p) == x
}

/// `x` is the cube of a prime.
pub open spec fn prime_cube(x: int) -> bool {
    exists|p: int| is_prime(p) && #[trigger] cube_of(p) == x
}

/// `x` is the fourth power of a prime.
pub open spec fn prime_fourth(x: int) -> bool {
    exists|p: int| is_prime(p) && #[trigger] fourth_of(p) == x
}

/// `n` is the sum of the square of a prime, the cube of a prime and the
/// fourth power of a prime.
pub open spec fn prime_power_triple(n: int) -> bool {
    exists|p: int, q: int, r: int|
        is_prime(p) && is_prime(q) && is_prime(r) && n == #[trigger] square_of(p) + #[trigger] cube_of(
            q,
        ) + #[trigger] fourth_of(r)
}

/// The squares, the cubes and the fourth powers of primes below `max`.
#[verifier::rlimit(40)]
pub fn gen_lists(max: usize) -> (lists: (Vec<usize>, Vec<usize>, Vec<usize>))
    requires
        max <= u32::MAX,
    ensures
        forall|i: int| 0 <= i < lists.0@.len() ==> 0 < #[trigger] lists.0@[i] < max,
        forall|i: int| 0 <= i < lists.1@.len() ==> 0 < #[trigger] lists.1@[i] < max,
        forall|i: int| 0 <= i < lists.2@.len() ==> 0 < #[trigger] lists.2@[i] < max,
        forall|i: int| 0 <= i < lists.0@.len() ==> prime_square(#[trigger] lists.0@[i] as int),
        forall|i: int| 0 <= i < lists.1@.len() ==> prime_cube(#[trigger] lists.1@[i] as int),
        forall|i: int| 0 <= i < lists.2@.len() ==> prime_fourth(#[trigger] lists.2@[i] as int),
        forall|p: int|
            is_prime(p) && #[trigger] square_of(p) < max ==> lists.0@.contains(square_of(p) as usize),
        forall|p: int|
            is_prime(p) && #[trigger] cube_of(p) < max ==> lists.1@.contains(cube_of(p) as usize),
        forall|p: int|
            is_prime(p) && #[trigger] fourth_of(p) < max ==> lists.2@.contains(
                fourth_of(p) as usize,
            ),
{
    let mut squares: Vec<usize> = Vec::new();
    let mut cubes: Vec<usize> = Vec::new();
    let mut fourths: Vec<usize> = Vec::new();
    let primes = primes_with_square_below(max);
    for k in 0..primes.len()
        invariant
            max <= u32::MAX,
            forall|i: int|
                0 <= i < primes@.len() ==> is_prime(#[trigger] primes@[i] as int) && primes@[i]
                    * primes@[i] < max,
            forall|i: int| 0 <= i < squares@.len() ==> 0 < #[trigger] squares@[i] < max,
            forall|i: int| 0 <= i < cubes@.len() ==> 0 < #[trigger] cubes@[i] < max,
            forall|i: int| 0 <= i < fourths@.len() ==> 0 < #[trigger] fourths@[i] < max,
            forall|i: int| 0 <= i < squares@.len() ==> prime_square(#[trigger] squares@[i] as int),
            forall|i: int| 0 <= i < cubes@.len() ==> prime_cube(#[trigger] cubes@[i] as int),
            forall|i: int| 0 <= i < fourths@.len() ==> prime_fourth(#[trigger] fourths@[i] as int),
            forall|i: int|
                0 <= i < k ==> squares@.contains(#[trigger] square_of(primes@[i] as int) as usize),
            forall|i: int|
                0 <= i < k && cube_of(primes@[i] as int) < max ==> cubes@.contains(
                    #[trigger] cube_of(primes@[i] as int) as usize,
                ),
            forall|i: int|
                0 <= i < k && fourth_of(primes@[i] as int) < max ==> fourths@.contains(
                    #[trigger] fourth_of(primes@[i] as int) as usize,
                ),
    {
        let p = primes[k];
        let ghost old_squares = squares@;
        let ghost old_cubes = cubes@;
        let ghost old_fourths = fourths@;
        assert(is_prime(primes@[k as int] as int));
        assert(0 < p * p * p && 0 < p * p * p * p) by (nonlinear_arith)
            requires
                2 <= p,
        ;
        assert(0 < p * p && p < 65536 && p * p * p < 0x1_0000_0000_0000 && p * p * p * p
            < 0x1_0000_0000_0000_0000 && p * p * p * p == (p * p) * (p * p)) by (nonlinear_arith)
            requires
                2 <= p,
                p * p < 0x1_0000_0000,
        ;
        let s = p * p;
        assert(s == square_of(p as int));
        squares.push(s);
        let c = (s as u64) * (p as u64);
        assert(c == cube_of(p as int));
        if c < max as u64 {
            cubes.push(c as usize);
        }
        let f = (s as u64) * (s as u64);
        assert(f == fourth_of(p as int));
        if f < max as u64 {
            fourths.push(f as usize);
        }
        proof {
            assert(squares@[old_squares.len() as int] == square_of(p as int));
            assert forall|i: int| 0 <= i < squares@.len() implies prime_square(#[trigger] squares@[i] as int) by {
                if i < old_squares.len() {
                    assert(squares@[i] == old_squares[i]);
                    assert(prime_square(old_squares[i] as int));
                } else {
                    assert(square_of(p as int) == squares@[i]);
                }
            }
            assert forall|i: int| 0 <= i < cubes@.len() implies prime_cube(#[trigger] cubes@[i] as int) by {
                if i < old_cubes.len() {
                    assert(cubes@[i] == old_cubes[i]);
                    assert(prime_cube(old_cubes[i] as int));
                } else {
                    assert(cube_of(p as int) == cubes@[i]);
                }
            }
            assert forall|i: int| 0 <= i < fourths@.len() implies prime_fourth(#[trigger] fourths@[i] as int) by {
                if i < old_fourths.len() {
                    assert(fourths@[i] == old_fourths[i]);
                    assert(prime_fourth(old_fourths[i] as int));
                } else {
                    assert(fourth_of(p as int) == fourths@[i]);
                }
            }
            assert forall|i: int| 0 <= i < k + 1 implies squares@.contains(
                #[trigger] square_of(primes@[i] as int) as usize,
            ) by {
                if i < k {
                    let x = square_of(primes@[i] as int) as usize;
                    let at = choose|at: int| 0 <= at < old_squares.len() && old_squares[at] == x;
                    assert(squares@[at] == x);
                }
            }
            assert forall|i: int| 0 <= i < k + 1 && cube_of(primes@[i] as int) < max implies cubes@.contains(
                #[trigger] cube_of(primes@[i] as int) as usize,
            ) by {
                if i < k {
                    let x = cube_of(primes@[i] as int) as usize;
                    let at = choose|at: int| 0 <= at < old_cubes.len() && old_cubes[at] == x;
                    assert(cubes@[at] == x);
                } else {
                    assert(cubes@[old_cubes.len() as int] == c);
                }
            }
            assert forall|i: int|
                0 <= i < k + 1 && fourth_of(primes@[i] as int) < max implies fourths@.contains(
                #[trigger] fourth_of(primes@[i] as int) as usize,
            ) by {
                if i < k {
                    let x = fourth_of(primes@[i] as int) as usize;
                    let at = choose|at: int| 0 <= at < old_fourths.len() && old_fourths[at] == x;
                    assert(fourths@[at] == x);
                } else {
                    assert(fourths@[old_fourths.len() as int] == f);
                }
            }
        }
    }
    proof {
        assert forall|p: int| is_prime(p) && #[trigger] square_of(p) < max implies squares@.contains(
            square_of(p) as usize,
        ) by {
            let i = choose|i: int| 0 <= i < primes@.len() && #[trigger] primes@[i] == p;
            assert(squares@.contains(square_of(primes@[i] as int) as usize));
        }
        assert forall|p: int| is_prime(p) && #[trigger] cube_of(p) < max implies cubes@.contains(
            cube_of(p) as usize,
        ) by {
            assert(p * p <= p * p * p) by (nonlinear_arith)
                requires
                    p >= 2,
            ;
            let i = choose|i: int| 0 <= i < primes@.len() && #[trigger] primes@[i] == p;
            assert(cubes@.contains(cube_of(primes@[i] as int) as usize));
        }
        assert forall|p: int| is_prime(p) && #[trigger] fourth_of(p) < max implies fourths@.contains(
            fourth_of(p) as usize,
        ) by {
            assert(p * p <= p * p * p * p) by (nonlinear_arith)
                requires
                    p >= 2,
            ;
            let i = choose|i: int| 0 <= i < primes@.len() && #[trigger] primes@[i] == p;
            assert(fourths@.contains(fourth_of(primes@[i] as int) as usize));
        }
    }
    (squares, cubes, fourths)
}

/// The sum of one entry of each list.
pub open spec fn triple_sum(
    squares: Seq<usize>,
    cubes: Seq<usize>,
    fourths: Seq<usize>,
    a: int,
    b: int,
    c: int,
) -> int {
    squares[a] + cubes[b] + fourths[c]
}

/// The triple of positions `(a, b, c)` comes before `(x, y, z)` in the order
/// of the search.
pub open spec fn triple_before(a: int, b: int, c: int, x: int, y: int, z: int) -> bool {
    a < x || (a == x && (b < y || (b == y && c < z)))
}

/// `n` is the sum of entries at positions that come before `(x, y, z)`.
pub open spec fn hit_before(
    squares: Seq<usize>,
    cubes: Seq<usize>,
    fourths: Seq<usize>,
    n: int,
    x: int,
    y: int,
    z: int,
) -> bool {
    exists|a: int, b: int, c: int|
        0 <= a < squares.len() && 0 <= b < cubes.len() && 0 <= c < fourths.len() && triple_before(
            a,
            b,
            c,
            x,
            y,
            z,
        ) && #[trigger] triple_sum(squares, cubes, fourths, a, b, c) == n
}

/// Prime power triples: how many numbers below fifty million are the sum
/// of a prime square, a prime cube and a prime fourth power.
#[verifier::rlimit(40)]
pub fn p087() -> (count: usize)
    ensures
        exists|hits: Seq<bool>|
            hits.len() == 50_000_000 && (forall|n: int|
                0 <= n < 50_000_000 ==> (#[trigger] hits[n] <==> prime_power_triple(n))) && count
                == count_true(hits),
{
    let max: usize = 50_000_000;
    let (squares, cubes, fourths) = gen_lists(max);
    let mut hits = bitset_with_capacity(max);
    for a in 0..squares.len()
        invariant
            max == 50_000_000,
            bitset_bits(hits).len() == max,
            forall|i: int| 0 <= i < squares@.len() ==> 0 < #[trigger] squares@[i] < max,
            forall|i: int| 0 <= i < cubes@.len() ==> 0 < #[trigger] cubes@[i] < max,
            forall|i: int| 0 <= i < fourths@.len() ==> 0 < #[trigger] fourths@[i] < max,
            forall|n: int|
                0 <= n < max ==> (#[trigger] bitset_bits(hits)[n] <==> hit_before(
                    squares@,
                    cubes@,
                    fourths@,
                    n,
                    a as int,
                    0,
                    0,
                )),
    {
        for b in 0..cubes.len()
            invariant
                max == 50_000_000,
                0 <= a < squares@.len(),
                bitset_bits(hits).len() == max,
                forall|i: int| 0 <= i < squares@.len() ==> 0 < #[trigger] squares@[i] < max,
                forall|i: int| 0 <= i < cubes@.len() ==> 0 < #[trigger] cubes@[i] < max,
                forall|i: int| 0 <= i < fourths@.len() ==> 0 < #[trigger] fourths@[i] < max,
                forall|n: int|
                    0 <= n < max ==> (#[trigger] bitset_bits(hits)[n] <==> hit_before(
                        squares@,
                        cubes@,
                        fourths@,
                        n,
                        a as int,
                        b as int,
                        0,
                    )),
        {
            for c in 0..fourths.len()
                invariant
                    max == 50_000_000,
                    0 <= a < squares@.len(),
                    0 <= b < cubes@.len(),
                    bitset_bits(hits).len() == max,
                    forall|i: int| 0 <= i < squares@.len() ==> 0 < #[trigger] squares@[i] < max,
                    forall|i: int| 0 <= i < cubes@.len() ==> 0 < #[trigger] cubes@[i] < max,
                    forall|i: int| 0 <= i < fourths@.len() ==> 0 < #[trigger] fourths@[i] < max,
                    forall|n: int|
                        0 <= n < max ==> (#[trigger] bitset_bits(hits)[n] <==> hit_before(
                            squares@,
                            cubes@,
                            fourths@,
                            n,
                            a as int,
                            b as int,
                            c as int,
                        )),
            {
                let ghost before = bitset_bits(hits);
                let n = squares[a] + cubes[b] + fourths[c];
                if n < max {
                    bitset_insert(&mut hits, n);
                }
                proof {
                    assert(n == triple_sum(squares@, cubes@, fourths@, a as int, b as int, c as int));
                    lemma_hit_step(
                        squares@,
                        cubes@,
                        fourths@,
                        before,
                        bitset_bits(hits),
                        max as int,
                        a as int,
                        b as int,
                        c as int,
                    );
                }
            }
            proof {
                lemma_hit_carry(
                    squares@,
                    cubes@,
                    fourths@,
                    a as int,
                    b as int,
                    fourths@.len() as int,
                    a as int,
                    b + 1,
                    0,
                );
            }
        }
        proof {
            lemma_hit_carry(
                squares@,
                cubes@,
                fourths@,
                a as int,
                cubes@.len() as int,
                0,
                a + 1,
                0,
                0,
            );
        }
    }
    proof {
        let bits = bitset_bits(hits);
        assert forall|n: int| 0 <= n < 50_000_000 implies (#[trigger] bits[n] <==> prime_power_triple(
            n,
        )) by {
            lemma_hit_means_triple(squares@, cubes@, fourths@, n, max as int);
        }
    }
    bitset_count_ones(&hits)
}

/// After the entry for `(a, b, c)` is set, the bits stand for the sums at
/// the positions before `(a, b, c + 1)`.
proof fn lemma_hit_step(
    squares: Seq<usize>,
    cubes: Seq<usize>,
    fourths: Seq<usize>,
    before: Seq<bool>,
    after: Seq<bool>,
    max: int,
    a: int,
    b: int,
    c: int,
)
    requires
        0 <= a < squares.len(),
        0 <= b < cubes.len(),
        0 <= c < fourths.len(),
        before.len() == max,
        triple_sum(squares, cubes, fourths, a, b, c) >= 0,
        forall|n: int|
            0 <= n < max ==> (#[trigger] before[n] <==> hit_before(squares, cubes, fourths, n, a, b, c)),
        after == if triple_sum(squares, cubes, fourths, a, b, c) < max {
            before.update(triple_sum(squares, cubes, fourths, a, b, c), true)
        } else {
            before
        },
    ensures
        forall|n: int|
            0 <= n < max ==> (#[trigger] after[n] <==> hit_before(
                squares,
                cubes,
                fourths,
                n,
                a,
                b,
                c + 1,
            )),
{
    let here = triple_sum(squares, cubes, fourths, a, b, c);
    assert forall|n: int| 0 <= n < max implies (#[trigger] after[n] <==> hit_before(
        squares,
        cubes,
        fourths,
        n,
        a,
        b,
        c + 1,
    )) by {
        if hit_before(squares, cubes, fourths, n, a, b, c + 1) {
            let (x, y, z) = choose|x: int, y: int, z: int|
                0 <= x < squares.len() && 0 <= y < cubes.len() && 0 <= z < fourths.len()
                    && triple_before(x, y, z, a, b, c + 1) && #[trigger] triple_sum(
                    squares,
                    cubes,
                    fourths,
                    x,
                    y,
                    z,
                ) == n;
            if !(x == a && y == b && z == c) {
                assert(triple_before(x, y, z, a, b, c));
                assert(hit_before(squares, cubes, fourths, n, a, b, c));
            }
        }
        if after[n] {
            if n == here && here < max {
                assert(triple_before(a, b, c, a, b, c + 1));
            } else {
                assert(before[n]);
                let (x, y, z) = choose|x: int, y: int, z: int|
                    0 <= x < squares.len() && 0 <= y < cubes.len() && 0 <= z < fourths.len()
                        && triple_before(x, y, z, a, b, c) && #[trigger] triple_sum(
                        squares,
                        cubes,
                        fourths,
                        x,
                        y,
                        z,
                    ) == n;
                assert(triple_before(x, y, z, a, b, c + 1));
            }
        }
    }
}

/// The positions before the end of a row of the search are the positions
/// before the start of the next row.
proof fn lemma_hit_carry(
    squares: Seq<usize>,
    cubes: Seq<usize>,
    fourths: Seq<usize>,
    a: int,
    b: int,
    c: int,
    x: int,
    y: int,
    z: int,
)
    requires
        (c == fourths.len() && x == a && y == b + 1 && z == 0) || (b == cubes.len() && c == 0 && x
            == a + 1 && y == 0 && z == 0),
    ensures
        forall|n: int|
            hit_before(squares, cubes, fourths, n, a, b, c) <==> hit_before(
                squares,
                cubes,
                fourths,
                n,
                x,
                y,
                z,
            ),
{
    assert forall|n: int|
        hit_before(squares, cubes, fourths, n, a, b, c) <==> hit_before(
            squares,
            cubes,
            fourths,
            n,
            x,
            y,
            z,
        ) by {
        if hit_before(squares, cubes, fourths, n, a, b, c) {
            let (i, j, k) = choose|i: int, j: int, k: int|
                0 <= i < squares.len() && 0 <= j < cubes.len() && 0 <= k < fourths.len()
                    && triple_before(i, j, k, a, b, c) && #[trigger] triple_sum(
                    squares,
                    cubes,
                    fourths,
                    i,
                    j,
                    k,
                ) == n;
            assert(triple_before(i, j, k, x, y, z));
        }
        if hit_before(squares, cubes, fourths, n, x, y, z) {
            let (i, j, k) = choose|i: int, j: int, k: int|
                0 <= i < squares.len() && 0 <= j < cubes.len() && 0 <= k < fourths.len()
                    && triple_before(i, j, k, x, y, z) && #[trigger] triple_sum(
                    squares,
                    cubes,
                    fourths,
                    i,
                    j,
                    k,
                ) == n;
            assert(triple_before(i, j, k, a, b, c));
        }
    }
}

/// With all positions searched, the sums found below `max` are the prime
/// power triples below `max`.
proof fn lemma_hit_means_triple(
    squares: Seq<usize>,
    cubes: Seq<usize>,
    fourths: Seq<usize>,
    n: int,
    max: int,
)
    requires
        0 <= n < max,
        forall|i: int| 0 <= i < squares.len() ==> 0 < #[trigger] squares[i] < max,
        forall|i: int| 0 <= i < cubes.len() ==> 0 < #[trigger] cubes[i] < max,
        forall|i: int| 0 <= i < fourths.len() ==> 0 < #[trigger] fourths[i] < max,
        forall|i: int| 0 <= i < squares.len() ==> prime_square(#[trigger] squares[i] as int),
        forall|i: int| 0 <= i < cubes.len() ==> prime_cube(#[trigger] cubes[i] as int),
        forall|i: int| 0 <= i < fourths.len() ==> prime_fourth(#[trigger] fourths[i] as int),
        forall|p: int|
            is_prime(p) && #[trigger] square_of(p) < max ==> squares.contains(square_of(p) as usize),
        forall|p: int|
            is_prime(p) && #[trigger] cube_of(p) < max ==> cubes.contains(cube_of(p) as usize),
        forall|p: int|
            is_prime(p) && #[trigger] fourth_of(p) < max ==> fourths.contains(fourth_of(p) as usize),
        max <= usize::MAX,
    ensures
        hit_before(squares, cubes, fourths, n, squares.len() as int, 0, 0) <==> prime_power_triple(n),
{
    if hit_before(squares, cubes, fourths, n, squares.len() as int, 0, 0) {
        let (i, j, k) = choose|i: int, j: int, k: int|
            0 <= i < squares.len() && 0 <= j < cubes.len() && 0 <= k < fourths.len()
                && triple_before(i, j, k, squares.len() as int, 0, 0) && #[trigger] triple_sum(
                squares,
                cubes,
                fourths,
                i,
                j,
                k,
            ) == n;
        assert(prime_square(squares[i] as int) && prime_cube(cubes[j] as int) && prime_fourth(
            fourths[k] as int,
        ));
        let p = choose|p: int| is_prime(p) && #[trigger] square_of(p) == squares[i];
        let q = choose|q: int| is_prime(q) && #[trigger] cube_of(q) == cubes[j];
        let r = choose|r: int| is_prime(r) && #[trigger] fourth_of(r) == fourths[k];
        assert(n == square_of(p) + cube_of(q) + fourth_of(r));
    }
    if prime_power_triple(n) {
        let (p, q, r) = choose|p: int, q: int, r: int|
            is_prime(p) && is_prime(q) && is_prime(r) && n == #[trigger] square_of(p)
                + #[trigger] cube_of(q) + #[trigger] fourth_of(r);
        assert(square_of(p) > 0 && cube_of(q) > 0 && fourth_of(r) > 0) by (nonlinear_arith)
            requires
                p >= 2,
                q >= 2,
                r >= 2,
        ;
        let i = choose|i: int| 0 <= i < squares.len() && squares[i] == square_of(p) as usize;
        let j = choose|j: int| 0 <= j < cubes.len() && cubes[j] == cube_of(q) as usize;
        let k = choose|k: int| 0 <= k < fourths.len() && fourths[k] == fourth_of(r) as usize;
        assert(triple_sum(squares, cubes, fourths, i, j, k) == n);
        assert(triple_before(i, j, k, squares.len() as int, 0, 0));
    }
}

} // verus!
