//! Arithmetic expressions: the set of four digits that reaches the longest
//! run of whole numbers from 1 on by the four operations.
//!
//! The expressions are worked out in floating point, outside this library.
//! Here a choice of four digits is put in order, the first number that a
//! set does not reach is found, and the best set is picked.

use crate::bitset::{
    bitset_bits, bitset_first, bitset_insert, bitset_toggle_all, bitset_with_capacity,
};
use crate::slices::{is_rearrangement, rearranged};
use vstd::prelude::*;

verus! {

/// The numbers below this bound are looked at.
pub const REACH: usize = 10_000;

/// `<[T]>::sort_unstable` of std on four numbers: rearranges them into
/// ascending order. Not proved: this is what std documents of the method.
#[verifier::external_body]
fn sort_four(nums: &mut [i32; 4])
    ensures
        rearranged(final(nums)@, old(nums)@),
        forall|k: int, l: int| 0 <= k <= l < 4 ==> final(nums)@[k] <= final(nums)@[l],
{
    nums.sort_unstable()
}

/// The four numbers in ascending order, if no two of them are equal.
pub fn sorted(nums: [i32; 4]) -> (digits: Option<[i32; 4]>)
    ensures
        match digits {
            Some(d) => rearranged(d@, nums@) && d@[0] < d@[1] < d@[2] < d@[3],
            None => exists|i: int, j: int| 0 <= i < j < 4 && nums@[i] == nums@[j],
        },
{
    let mut nums = nums;
    let ghost given = nums@;
    sort_four(&mut nums);
    if nums[0] == nums[1] || nums[1] == nums[2] || nums[2] == nums[3] {
        proof {
            let perm = choose|perm: Seq<int>| #[trigger] is_rearrangement(perm, nums@, given);
            let k: int = if nums@[0] == nums@[1] {
                0
            } else if nums@[1] == nums@[2] {
                1
            } else {
                2
            };
            assert(nums@[k] == given[perm[k]]);
            assert(nums@[k + 1] == given[perm[k + 1]]);
            assert(perm[k] != perm[k + 1]);
            if perm[k] < perm[k + 1] {
                assert(given[perm[k]] == given[perm[k + 1]]);
            } else {
                assert(given[perm[k + 1]] == given[perm[k]]);
            }
        }
        None
    } else {
        Some(nums)
    }
}

/// `n` is among the numbers.
pub open spec fn reaches(reached: Seq<usize>, n: int) -> bool {
    exists|k: int| 0 <= k < reached.len() && #[trigger] reached[k] == n
}

/// The first number from 1 on that is not among the numbers reached; `None`
/// if every number from 1 up to `REACH` is among them.
pub fn lowest_unreachable(reached: &[usize]) -> (lowest: Option<usize>)
    requires
        forall|k: int| 0 <= k < reached@.len() ==> #[trigger] reached@[k] < REACH,
    ensures
        match lowest {
            Some(n) => 1 <= n < REACH && !reaches(reached@, n as int) && forall|m: int|
                1 <= m < n ==> #[trigger] reaches(reached@, m),
            None => forall|m: int| 1 <= m < REACH ==> #[trigger] reaches(reached@, m),
        },
{
    let mut seen = bitset_with_capacity(REACH);
    for i in 0..reached.len()
        invariant
            forall|k: int| 0 <= k < reached@.len() ==> #[trigger] reached@[k] < REACH,
            bitset_bits(seen).len() == REACH,
            forall|m: int|
                0 <= m < REACH ==> (#[trigger] bitset_bits(seen)[m] <==> reaches(
                    reached@.take(i as int),
                    m,
                )),
    {
        let ghost before = reached@.take(i as int);
        let ghost after = reached@.take(i + 1);
        bitset_insert(&mut seen, reached[i]);
        proof {
            assert forall|m: int| 0 <= m < REACH implies (#[trigger] bitset_bits(seen)[m]
                <==> reaches(after, m)) by {
                if reaches(before, m) {
                    let k = choose|k: int| 0 <= k < before.len() && #[trigger] before[k] == m;
                    assert(after[k] == m);
                }
                if reaches(after, m) {
                    let k = choose|k: int| 0 <= k < after.len() && #[trigger] after[k] == m;
                    if k < i {
                        assert(before[k] == m);
                    }
                }
                if m == reached@[i as int] {
                    assert(after[i as int] == m);
                }
            }
        }
    }
    assert(reached@.take(reached@.len() as int) =~= reached@);
    let ghost marked = bitset_bits(seen);
    bitset_insert(&mut seen, 0);
    bitset_toggle_all(&mut seen);
    let lowest = bitset_first(&seen);
    proof {
        let open = bitset_bits(seen);
        assert forall|m: int| 1 <= m < REACH implies (#[trigger] open[m] <==> !reaches(
            reached@,
            m,
        )) by {
            assert(marked[m] <==> reaches(reached@, m));
        }
        assert(!open[0]);
        match lowest {
            Some(n) => {
                assert(open[n as int]);
                assert forall|m: int| 1 <= m < n implies #[trigger] reaches(reached@, m) by {
                    assert(!open[m]);
                }
            },
            None => {
                assert forall|m: int| 1 <= m < REACH implies #[trigger] reaches(reached@, m) by {
                    assert(!open[m]);
                }
            },
        }
    }
    lowest
}

/// The place of the greatest of the numbers; of several places with the
/// greatest, the last. `None` if there is no number.
pub fn best_set(lowest: &[usize]) -> (place: Option<usize>)
    ensures
        match place {
            Some(at) => {
                &&& at < lowest@.len()
                &&& forall|k: int| 0 <= k < lowest@.len() ==> #[trigger] lowest@[k] <= lowest@[at as int]
                &&& forall|k: int| at < k < lowest@.len() ==> #[trigger] lowest@[k] < lowest@[at as int]
            },
            None => lowest@.len() == 0,
        },
{
    if lowest.len() == 0 {
        return None;
    }
    let mut at: usize = 0;
    for i in 1..lowest.len()
        invariant
            at < i,
            forall|k: int| 0 <= k < i ==> #[trigger] lowest@[k] <= lowest@[at as int],
            forall|k: int| at < k < i ==> #[trigger] lowest@[k] < lowest@[at as int],
    {
        if lowest[i] >= lowest[at] {
            at = i;
        }
    }
    Some(at)
}

} // verus!
