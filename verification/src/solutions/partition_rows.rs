//! The first partition numbers, and the proof that the sums on the way to
//! them stay in the range of `usize`.

use crate::solutions::p076_sum_partition::{
    head, lemma_pentagonal, lemma_terms_end, pair_term, partition_terms, partitions, pentagonal,
    step_fits, sums_fit,
};
use vstd::prelude::*;

verus! {

/// The partition numbers from `p(0)` to `p(100)`; zero beyond.
pub open spec fn first_partition(n: int) -> int {
    if n == 0 {
        1
    } else if n == 1 {
        1
    } else if n == 2 {
        2
    } else if n == 3 {
        3
    } else if n == 4 {
        5
    } else if n == 5 {
        7
    } else if n == 6 {
        11
    } else if n == 7 {
        15
    } else if n == 8 {
        22
    } else if n == 9 {
        30
    } else if n == 10 {
        42
    } else if n == 11 {
        56
    } else if n == 12 {
        77
    } else if n == 13 {
        101
    } else if n == 14 {
        135
    } else if n == 15 {
        176
    } else if n == 16 {
        231
    } else if n == 17 {
        297
    } else if n == 18 {
        385
    } else if n == 19 {
        490
    } else if n == 20 {
        627
    } else if n == 21 {
        792
    } else if n == 22 {
        1002
    } else if n == 23 {
        1255
    } else if n == 24 {
        1575
    } else if n == 25 {
        1958
    } else if n == 26 {
        2436
    } else if n == 27 {
        3010
    } else if n == 28 {
        3718
    } else if n == 29 {
        4565
    } else if n == 30 {
        5604
    } else if n == 31 {
        6842
    } else if n == 32 {
        8349
    } else if n == 33 {
        10143
    } else if n == 34 {
        12310
    } else if n == 35 {
        14883
    } else if n == 36 {
        17977
    } else if n == 37 {
        21637
    } else if n == 38 {
        26015
    } else if n == 39 {
        31185
    } else if n == 40 {
        37338
    } else if n == 41 {
        44583
    } else if n == 42 {
        53174
    } else if n == 43 {
        63261
    } else if n == 44 {
        75175
    } else if n == 45 {
        89134
    } else if n == 46 {
        105558
    } else if n == 47 {
        124754
    } else if n == 48 {
        147273
    } else if n == 49 {
        173525
    } else if n == 50 {
        204226
    } else if n == 51 {
        239943
    } else if n == 52 {
        281589
    } else if n == 53 {
        329931
    } else if n == 54 {
        386155
    } else if n == 55 {
        451276
    } else if n == 56 {
        526823
    } else if n == 57 {
        614154
    } else if n == 58 {
        715220
    } else if n == 59 {
        831820
    } else if n == 60 {
        966467
    } else if n == 61 {
        1121505
    } else if n == 62 {
        1300156
    } else if n == 63 {
        1505499
    } else if n == 64 {
        1741630
    } else if n == 65 {
        2012558
    } else if n == 66 {
        2323520
    } else if n == 67 {
        2679689
    } else if n == 68 {
        3087735
    } else if n == 69 {
        3554345
    } else if n == 70 {
        4087968
    } else if n == 71 {
        4697205
    } else if n == 72 {
        5392783
    } else if n == 73 {
        6185689
    } else if n == 74 {
        7089500
    } else if n == 75 {
        8118264
    } else if n == 76 {
        9289091
    } else if n == 77 {
        10619863
    } else if n == 78 {
        12132164
    } else if n == 79 {
        13848650
    } else if n == 80 {
        15796476
    } else if n == 81 {
        18004327
    } else if n == 82 {
        20506255
    } else if n == 83 {
        23338469
    } else if n == 84 {
        26543660
    } else if n == 85 {
        30167357
    } else if n == 86 {
        34262962
    } else if n == 87 {
        38887673
    } else if n == 88 {
        44108109
    } else if n == 89 {
        49995925
    } else if n == 90 {
        56634173
    } else if n == 91 {
        64112359
    } else if n == 92 {
        72533807
    } else if n == 93 {
        82010177
    } else if n == 94 {
        92669720
    } else if n == 95 {
        104651419
    } else if n == 96 {
        118114304
    } else if n == 97 {
        133230930
    } else if n == 98 {
        150198136
    } else if n == 99 {
        169229875
    } else if n == 100 {
        190569292
    } else {
        0
    }
}

/// The partition numbers up to `p(n)` are those of the list, and the sums
/// on the way to them stay in the range of `usize`.
pub open spec fn rows_right(n: int) -> bool {
    sums_fit(n) && forall|j: int| 0 <= j <= n ==> #[trigger] partitions(j) == first_partition(j)
}

/// Every step of the sum for `p(n)` stays in the range of `usize`.
pub open spec fn row_fits(n: int) -> bool {
    forall|k: int| 1 <= k <= n ==> #[trigger] step_fits(n, k)
}

/// One more row: where the rows up to `p(n - 1)` are right, `p(n)` is that
/// of the list and its sum stays in range, the rows up to `p(n)` are right.
pub proof fn lemma_row_done(n: int)
    requires
        2 <= n,
        rows_right(n - 1),
        partitions(n) == first_partition(n),
        row_fits(n),
    ensures
        rows_right(n),
{
    assert forall|a: int, b: int| 2 <= a <= n && 1 <= b <= a implies #[trigger] step_fits(a, b) by {
        if a < n {
            assert(sums_fit(n - 1));
        } else {
            assert(row_fits(n));
        }
    }
    assert forall|j: int| 0 <= j <= n implies #[trigger] partitions(j) == first_partition(j) by {
        if j < n {
            assert(rows_right(n - 1));
        }
    }
}

/// Pentagonal numbers grow with their index.
pub proof fn lemma_pentagonal_grows(a: int, b: int)
    requires
        1 <= a <= b,
    ensures
        pentagonal(a) <= pentagonal(b),
    decreases b - a,
{
    if a < b {
        lemma_pentagonal_grows(a, b - 1);
        lemma_pentagonal(b - 1);
    }
}

/// The row of `p(2)`: its value, and its sum step by step.
proof fn lemma_row_2()
    requires
        rows_right(1),
    ensures
        rows_right(2),
{
    assert(usize::MAX >= 0xffff_ffff);
    assert(partitions(0) == 1);
    assert(partitions(1) == 1);
    assert(pentagonal(1) == 1);
    assert(pentagonal(2) == 5);
    lemma_terms_end(2, 2);
    assert(pair_term(2, 1) == 2);
    assert(partition_terms(2, 1) == 2);
    assert(partitions(2) == 2);
    assert forall|k: int| 1 <= k <= 2 implies #[trigger] step_fits(2, k) by {
        if k == 1 {
            assert(head(2, 2) == 2);
        } else {
            lemma_pentagonal_grows(2, k);
            lemma_pentagonal_grows(2, k + 1);
            lemma_terms_end(2, k);
            lemma_terms_end(2, k + 1);
        }
    }
    lemma_row_done(2);
}

/// The row of `p(3)`: its value, and its sum step by step.
proof fn lemma_row_3()
    requires
        rows_right(2),
    ensures
        rows_right(3),
{
    assert(usize::MAX >= 0xffff_ffff);
    assert(partitions(1) == 1);
    assert(partitions(2) == 2);
    assert(pentagonal(1) == 1);
    assert(pentagonal(2) == 5);
    lemma_terms_end(3, 2);
    assert(pair_term(3, 1) == 3);
    assert(partition_terms(3, 1) == 3);
    assert(partitions(3) == 3);
    assert forall|k: int| 1 <= k <= 3 implies #[trigger] step_fits(3, k) by {
        if k == 1 {
            assert(head(3, 2) == 3);
        } else {
            lemma_pentagonal_grows(2, k);
            lemma_pentagonal_grows(2, k + 1);
            lemma_terms_end(3, k);
            lemma_terms_end(3, k + 1);
        }
    }
    lemma_row_done(3);
}

/// The row of `p(4)`: its value, and its sum step by step.
proof fn lemma_row_4()
    requires
        rows_right(3),
    ensures
        rows_right(4),
{
    assert(usize::MAX >= 0xffff_ffff);
    assert(partitions(2) == 2);
    assert(partitions(3) == 3);
    assert(pentagonal(1) == 1);
    assert(pentagonal(2) == 5);
    lemma_terms_end(4, 2);
    assert(pair_term(4, 1) == 5);
    assert(partition_terms(4, 1) == 5);
    assert(partitions(4) == 5);
    assert forall|k: int| 1 <= k <= 4 implies #[trigger] step_fits(4, k) by {
        if k == 1 {
            assert(head(4, 2) == 5);
        } else {
            lemma_pentagonal_grows(2, k);
            lemma_pentagonal_grows(2, k + 1);
            lemma_terms_end(4, k);
            lemma_terms_end(4, k + 1);
        }
    }
    lemma_row_done(4);
}

/// The row of `p(5)`: its value, and its sum step by step.
proof fn lemma_row_5()
    requires
        rows_right(4),
    ensures
        rows_right(5),
{
    assert(usize::MAX >= 0xffff_ffff);
    assert(partitions(0) == 1);
    assert(partitions(3) == 3);
    assert(partitions(4) == 5);
    assert(pentagonal(1) == 1);
    assert(pentagonal(2) == 5);
    assert(pentagonal(3) == 12);
    lemma_terms_end(5, 3);
    assert(pair_term(5, 2) == 1);
    assert(partition_terms(5, 2) == -1);
    assert(pair_term(5, 1) == 8);
    assert(partition_terms(5, 1) == 7);
    assert(partitions(5) == 7);
    assert forall|k: int| 1 <= k <= 5 implies #[trigger] step_fits(5, k) by {
        if k == 1 {
            assert(head(5, 2) == 8);
        } else if k == 2 {
            assert(head(5, 3) == 7);
        } else {
            lemma_pentagonal_grows(3, k);
            lemma_pentagonal_grows(3, k + 1);
            lemma_terms_end(5, k);
            lemma_terms_end(5, k + 1);
        }
    }
    lemma_row_done(5);
}

/// The row of `p(6)`: its value, and its sum step by step.
proof fn lemma_row_6()
    requires
        rows_right(5),
    ensures
        rows_right(6),
{
    assert(usize::MAX >= 0xffff_ffff);
    assert(partitions(1) == 1);
    assert(partitions(4) == 5);
    assert(partitions(5) == 7);
    assert(pentagonal(1) == 1);
    assert(pentagonal(2) == 5);
    assert(pentagonal(3) == 12);
    lemma_terms_end(6, 3);
    assert(pair_term(6, 2) == 1);
    assert(partition_terms(6, 2) == -1);
    assert(pair_term(6, 1) == 12);
    assert(partition_terms(6, 1) == 11);
    assert(partitions(6) == 11);
    assert forall|k: int| 1 <= k <= 6 implies #[trigger] step_fits(6, k) by {
        if k == 1 {
            assert(head(6, 2) == 12);
        } else if k == 2 {
            assert(head(6, 3) == 11);
        } else {
            lemma_pentagonal_grows(3, k);
            lemma_pentagonal_grows(3, k + 1);
            lemma_terms_end(6, k);
            lemma_terms_end(6, k + 1);
        }
    }
    lemma_row_done(6);
}

/// The row of `p(7)`: its value, and its sum step by step.
proof fn lemma_row_7()
    requires
        rows_right(6),
    ensures
        rows_right(7),
{
    assert(usize::MAX >= 0xffff_ffff);
    assert(partitions(0) == 1);
    assert(partitions(2) == 2);
    assert(partitions(5) == 7);
    assert(partitions(6) == 11);
    assert(pentagonal(1) == 1);
    assert(pentagonal(2) == 5);
    assert(pentagonal(3) == 12);
    lemma_terms_end(7, 3);
    assert(pair_term(7, 2) == 3);
    assert(partition_terms(7, 2) == -3);
    assert(pair_term(7, 1) == 18);
    assert(partition_terms(7, 1) == 15);
    assert(partitions(7) == 15);
    assert forall|k: int| 1 <= k <= 7 implies #[trigger] step_fits(7, k) by {
        if k == 1 {
            assert(head(7, 2) == 18);
        } else if k == 2 {
            assert(head(7, 3) == 15);
        } else {
            lemma_pentagonal_grows(3, k);
            lemma_pentagonal_grows(3, k + 1);
            lemma_terms_end(7, k);
            lemma_terms_end(7, k + 1);
        }
    }
    lemma_row_done(7);
}

/// The row of `p(8)`: its value, and its sum step by step.
proof fn lemma_row_8()
    requires
        rows_right(7),
    ensures
        rows_right(8),
{
    assert(usize::MAX >= 0xffff_ffff);
    assert(partitions(1) == 1);
    assert(partitions(3) == 3);
    assert(partitions(6) == 11);
    assert(partitions(7) == 15);
    assert(pentagonal(1) == 1);
    assert(pentagonal(2) == 5);
    assert(pentagonal(3) == 12);
    lemma_terms_end(8, 3);
    assert(pair_term(8, 2) == 4);
    assert(partition_terms(8, 2) == -4);
    assert(pair_term(8, 1) == 26);
    assert(partition_terms(8, 1) == 22);
    assert(partitions(8) == 22);
    assert forall|k: int| 1 <= k <= 8 implies #[trigger] step_fits(8, k) by {
        if k == 1 {
            assert(head(8, 2) == 26);
        } else if k == 2 {
            assert(head(8, 3) == 22);
        } else {
            lemma_pentagonal_grows(3, k);
            lemma_pentagonal_grows(3, k + 1);
            lemma_terms_end(8, k);
            lemma_terms_end(8, k + 1);
        }
    }
    lemma_row_done(8);
}

/// The row of `p(9)`: its value, and its sum step by step.
proof fn lemma_row_9()
    requires
        rows_right(8),
    ensures
        rows_right(9),
{
    assert(usize::MAX >= 0xffff_ffff);
    assert(partitions(2) == 2);
    assert(partitions(4) == 5);
    assert(partitions(7) == 15);
    assert(partitions(8) == 22);
    assert(pentagonal(1) == 1);
    assert(pentagonal(2) == 5);
    assert(pentagonal(3) == 12);
    lemma_terms_end(9, 3);
    assert(pair_term(9, 2) == 7);
    assert(partition_terms(9, 2) == -7);
    assert(pair_term(9, 1) == 37);
    assert(partition_terms(9, 1) == 30);
    assert(partitions(9) == 30);
    assert forall|k: int| 1 <= k <= 9 implies #[trigger] step_fits(9, k) by {
        if k == 1 {
            assert(head(9, 2) == 37);
        } else if k == 2 {
            assert(head(9, 3) == 30);
        } else {
            lemma_pentagonal_grows(3, k);
            lemma_pentagonal_grows(3, k + 1);
            lemma_terms_end(9, k);
            lemma_terms_end(9, k + 1);
        }
    }
    lemma_row_done(9);
}

/// The row of `p(10)`: its value, and its sum step by step.
proof fn lemma_row_10()
    requires
        rows_right(9),
    ensures
        rows_right(10),
{
    assert(usize::MAX >= 0xffff_ffff);
    assert(partitions(3) == 3);
    assert(partitions(5) == 7);
    assert(partitions(8) == 22);
    assert(partitions(9) == 30);
    assert(pentagonal(1) == 1);
    assert(pentagonal(2) == 5);
    assert(pentagonal(3) == 12);
    lemma_terms_end(10, 3);
    assert(pair_term(10, 2) == 10);
    assert(partition_terms(10, 2) == -10);
    assert(pair_term(10, 1) == 52);
    assert(partition_terms(10, 1) == 42);
    assert(partitions(10) == 42);
    assert forall|k: int| 1 <= k <= 10 implies #[trigger] step_fits(10, k) by {
        if k == 1 {
            assert(head(10, 2) == 52);
        } else if k == 2 {
            assert(head(10, 3) == 42);
        } else {
            lemma_pentagonal_grows(3, k);
            lemma_pentagonal_grows(3, k + 1);
            lemma_terms_end(10, k);
            lemma_terms_end(10, k + 1);
        }
    }
    lemma_row_done(10);
}

/// The row of `p(11)`: its value, and its sum step by step.
proof fn lemma_row_11()
    requires
        rows_right(10),
    ensures
        rows_right(11),
{
    assert(usize::MAX >= 0xffff_ffff);
    assert(partitions(4) == 5);
    assert(partitions(6) == 11);
    assert(partitions(9) == 30);
    assert(partitions(10) == 42);
    assert(pentagonal(1) == 1);
    assert(pentagonal(2) == 5);
    assert(pentagonal(3) == 12);
    lemma_terms_end(11, 3);
    assert(pair_term(11, 2) == 16);
    assert(partition_terms(11, 2) == -16);
    assert(pair_term(11, 1) == 72);
    assert(partition_terms(11, 1) == 56);
    assert(partitions(11) == 56);
    assert forall|k: int| 1 <= k <= 11 implies #[trigger] step_fits(11, k) by {
        if k == 1 {
            assert(head(11, 2) == 72);
        } else if k == 2 {
            assert(head(11, 3) == 56);
        } else {
            lemma_pentagonal_grows(3, k);
            lemma_pentagonal_grows(3, k + 1);
            lemma_terms_end(11, k);
            lemma_terms_end(11, k + 1);
        }
    }
    lemma_row_done(11);
}

/// The row of `p(12)`: its value, and its sum step by step.
proof fn lemma_row_12()
    requires
        rows_right(11),
    ensures
        rows_right(12),
{
    assert(usize::MAX >= 0xffff_ffff);
    assert(partitions(0) == 1);
    assert(partitions(5) == 7);
    assert(partitions(7) == 15);
    assert(partitions(10) == 42);
    assert(partitions(11) == 56);
    assert(pentagonal(1) == 1);
    assert(pentagonal(2) == 5);
    assert(pentagonal(3) == 12);
    assert(pentagonal(4) == 22);
    lemma_terms_end(12, 4);
    assert(pair_term(12, 3) == 1);
    assert(partition_terms(12, 3) == 1);
    assert(pair_term(12, 2) == 22);
    assert(partition_terms(12, 2) == -21);
    assert(pair_term(12, 1) == 98);
    assert(partition_terms(12, 1) == 77);
    assert(partitions(12) == 77);
    assert forall|k: int| 1 <= k <= 12 implies #[trigger] step_fits(12, k) by {
        if k == 1 {
            assert(head(12, 2) == 98);
        } else if k == 2 {
            assert(head(12, 3) == 76);
        } else if k == 3 {
            assert(head(12, 4) == 77);
        } else {
            lemma_pentagonal_grows(4, k);
            lemma_pentagonal_grows(4, k + 1);
            lemma_terms_end(12, k);
            lemma_terms_end(12, k + 1);
        }
    }
    lemma_row_done(12);
}

/// The row of `p(13)`: its value, and its sum step by step.
proof fn lemma_row_13()
    requires
        rows_right(12),
    ensures
        rows_right(13),
{
    assert(usize::MAX >= 0xffff_ffff);
    assert(partitions(1) == 1);
    assert(partitions(6) == 11);
    assert(partitions(8) == 22);
    assert(partitions(11) == 56);
    assert(partitions(12) == 77);
    assert(pentagonal(1) == 1);
    assert(pentagonal(2) == 5);
    assert(pentagonal(3) == 12);
    assert(pentagonal(4) == 22);
    lemma_terms_end(13, 4);
    assert(pair_term(13, 3) == 1);
    assert(partition_terms(13, 3) == 1);
    assert(pair_term(13, 2) == 33);
    assert(partition_terms(13, 2) == -32);
    assert(pair_term(13, 1) == 133);
    assert(partition_terms(13, 1) == 101);
    assert(partitions(13) == 101);
    assert forall|k: int| 1 <= k <= 13 implies #[trigger] step_fits(13, k) by {
        if k == 1 {
            assert(head(13, 2) == 133);
        } else if k == 2 {
            assert(head(13, 3) == 100);
        } else if k == 3 {
            assert(head(13, 4) == 101);
        } else {
            lemma_pentagonal_grows(4, k);
            lemma_pentagonal_grows(4, k + 1);
            lemma_terms_end(13, k);
            lemma_terms_end(13, k + 1);
        }
    }
    lemma_row_done(13);
}

/// The row of `p(14)`: its value, and its sum step by step.
proof fn lemma_row_14()
    requires
        rows_right(13),
    ensures
        rows_right(14),
{
    assert(usize::MAX >= 0xffff_ffff);
    assert(partitions(2) == 2);
    assert(partitions(7) == 15);
    assert(partitions(9) == 30);
    assert(partitions(12) == 77);
    assert(partitions(13) == 101);
    assert(pentagonal(1) == 1);
    assert(pentagonal(2) == 5);
    assert(pentagonal(3) == 12);
    assert(pentagonal(4) == 22);
    lemma_terms_end(14, 4);
    assert(pair_term(14, 3) == 2);
    assert(partition_terms(14, 3) == 2);
    assert(pair_term(14, 2) == 45);
    assert(partition_terms(14, 2) == -43);
    assert(pair_term(14, 1) == 178);
    assert(partition_terms(14, 1) == 135);
    assert(partitions(14) == 135);
    assert forall|k: int| 1 <= k <= 14 implies #[trigger] step_fits(14, k) by {
        if k == 1 {
            assert(head(14, 2) == 178);
        } else if k == 2 {
            assert(head(14, 3) == 133);
        } else if k == 3 {
            assert(head(14, 4) == 135);
        } else {
            lemma_pentagonal_grows(4, k);
            lemma_pentagonal_grows(4, k + 1);
            lemma_terms_end(14, k);
            lemma_terms_end(14, k + 1);
        }
    }
    lemma_row_done(14);
}

/// The row of `p(15)`: its value, and its sum step by step.
proof fn lemma_row_15()
    requires
        rows_right(14),
    ensures
        rows_right(15),
{
    assert(usize::MAX >= 0xffff_ffff);
    assert(partitions(0) == 1);
    assert(partitions(3) == 3);
    assert(partitions(8) == 22);
    assert(partitions(10) == 42);
    assert(partitions(13) == 101);
    assert(partitions(14) == 135);
    assert(pentagonal(1) == 1);
    assert(pentagonal(2) == 5);
    assert(pentagonal(3) == 12);
    assert(pentagonal(4) == 22);
    lemma_terms_end(15, 4);
    assert(pair_term(15, 3) == 4);
    assert(partition_terms(15, 3) == 4);
    assert(pair_term(15, 2) == 64);
    assert(partition_terms(15, 2) == -60);
    assert(pair_term(15, 1) == 236);
    assert(partition_terms(15, 1) == 176);
    assert(partitions(15) == 176);
    assert forall|k: int| 1 <= k <= 15 implies #[trigger] step_fits(15, k) by {
        if k == 1 {
            assert(head(15, 2) == 236);
        } else if k == 2 {
            assert(head(15, 3) == 172);
        } else if k == 3 {
            assert(head(15, 4) == 176);
        } else {
            lemma_pentagonal_grows(4, k);
            lemma_pentagonal_grows(4, k + 1);
            lemma_terms_end(15, k);
            lemma_terms_end(15, k + 1);
        }
    }
    lemma_row_done(15);
}

/// The row of `p(16)`: its value, and its sum step by step.
proof fn lemma_row_16()
    requires
        rows_right(15),
    ensures
        rows_right(16),
{
    assert(usize::MAX >= 0xffff_ffff);
    assert(partitions(1) == 1);
    assert(partitions(4) == 5);
    assert(partitions(9) == 30);
    assert(partitions(11) == 56);
    assert(partitions(14) == 135);
    assert(partitions(15) == 176);
    assert(pentagonal(1) == 1);
    assert(pentagonal(2) == 5);
    assert(pentagonal(3) == 12);
    assert(pentagonal(4) == 22);
    lemma_terms_end(16, 4);
    assert(pair_term(16, 3) == 6);
    assert(partition_terms(16, 3) == 6);
    assert(pair_term(16, 2) == 86);
    assert(partition_terms(16, 2) == -80);
    assert(pair_term(16, 1) == 311);
    assert(partition_terms(16, 1) == 231);
    assert(partitions(16) == 231);
    assert forall|k: int| 1 <= k <= 16 implies #[trigger] step_fits(16, k) by {
        if k == 1 {
            assert(head(16, 2) == 311);
        } else if k == 2 {
            assert(head(16, 3) == 225);
        } else if k == 3 {
            assert(head(16, 4) == 231);
        } else {
            lemma_pentagonal_grows(4, k);
            lemma_pentagonal_grows(4, k + 1);
            lemma_terms_end(16, k);
            lemma_terms_end(16, k + 1);
        }
    }
    lemma_row_done(16);
}

/// The row of `p(17)`: its value, and its sum step by step.
proof fn lemma_row_17()
    requires
        rows_right(16),
    ensures
        rows_right(17),
{
    assert(usize::MAX >= 0xffff_ffff);
    assert(partitions(2) == 2);
    assert(partitions(5) == 7);
    assert(partitions(10) == 42);
    assert(partitions(12) == 77);
    assert(partitions(15) == 176);
    assert(partitions(16) == 231);
    assert(pentagonal(1) == 1);
    assert(pentagonal(2) == 5);
    assert(pentagonal(3) == 12);
    assert(pentagonal(4) == 22);
    lemma_terms_end(17, 4);
    assert(pair_term(17, 3) == 9);
    assert(partition_terms(17, 3) == 9);
    assert(pair_term(17, 2) == 119);
    assert(partition_terms(17, 2) == -110);
    assert(pair_term(17, 1) == 407);
    assert(partition_terms(17, 1) == 297);
    assert(partitions(17) == 297);
    assert forall|k: int| 1 <= k <= 17 implies #[trigger] step_fits(17, k) by {
        if k == 1 {
            assert(head(17, 2) == 407);
        } else if k == 2 {
            assert(head(17, 3) == 288);
        } else if k == 3 {
            assert(head(17, 4) == 297);
        } else {
            lemma_pentagonal_grows(4, k);
            lemma_pentagonal_grows(4, k + 1);
            lemma_terms_end(17, k);
            lemma_terms_end(17, k + 1);
        }
    }
    lemma_row_done(17);
}

/// The row of `p(18)`: its value, and its sum step by step.
proof fn lemma_row_18()
    requires
        rows_right(17),
    ensures
        rows_right(18),
{
    assert(usize::MAX >= 0xffff_ffff);
    assert(partitions(3) == 3);
    assert(partitions(6) == 11);
    assert(partitions(11) == 56);
    assert(partitions(13) == 101);
    assert(partitions(16) == 231);
    assert(partitions(17) == 297);
    assert(pentagonal(1) == 1);
    assert(pentagonal(2) == 5);
    assert(pentagonal(3) == 12);
    assert(pentagonal(4) == 22);
    lemma_terms_end(18, 4);
    assert(pair_term(18, 3) == 14);
    assert(partition_terms(18, 3) == 14);
    assert(pair_term(18, 2) == 157);
    assert(partition_terms(18, 2) == -143);
    assert(pair_term(18, 1) == 528);
    assert(partition_terms(18, 1) == 385);
    assert(partitions(18) == 385);
    assert forall|k: int| 1 <= k <= 18 implies #[trigger] step_fits(18, k) by {
        if k == 1 {
            assert(head(18, 2) == 528);
        } else if k == 2 {
            assert(head(18, 3) == 371);
        } else if k == 3 {
            assert(head(18, 4) == 385);
        } else {
            lemma_pentagonal_grows(4, k);
            lemma_pentagonal_grows(4, k + 1);
            lemma_terms_end(18, k);
            lemma_terms_end(18, k + 1);
        }
    }
    lemma_row_done(18);
}

/// The row of `p(19)`: its value, and its sum step by step.
proof fn lemma_row_19()
    requires
        rows_right(18),
    ensures
        rows_right(19),
{
    assert(usize::MAX >= 0xffff_ffff);
    assert(partitions(4) == 5);
    assert(partitions(7) == 15);
    assert(partitions(12) == 77);
    assert(partitions(14) == 135);
    assert(partitions(17) == 297);
    assert(partitions(18) == 385);
    assert(pentagonal(1) == 1);
    assert(pentagonal(2) == 5);
    assert(pentagonal(3) == 12);
    assert(pentagonal(4) == 22);
    lemma_terms_end(19, 4);
    assert(pair_term(19, 3) == 20);
    assert(partition_terms(19, 3) == 20);
    assert(pair_term(19, 2) == 212);
    assert(partition_terms(19, 2) == -192);
    assert(pair_term(19, 1) == 682);
    assert(partition_terms(19, 1) == 490);
    assert(partitions(19) == 490);
    assert forall|k: int| 1 <= k <= 19 implies #[trigger] step_fits(19, k) by {
        if k == 1 {
            assert(head(19, 2) == 682);
        } else if k == 2 {
            assert(head(19, 3) == 470);
        } else if k == 3 {
            assert(head(19, 4) == 490);
        } else {
            lemma_pentagonal_grows(4, k);
            lemma_pentagonal_grows(4, k + 1);
            lemma_terms_end(19, k);
            lemma_terms_end(19, k + 1);
        }
    }
    lemma_row_done(19);
}

/// The row of `p(20)`: its value, and its sum step by step.
proof fn lemma_row_20()
    requires
        rows_right(19),
    ensures
        rows_right(20),
{
    assert(usize::MAX >= 0xffff_ffff);
    assert(partitions(5) == 7);
    assert(partitions(8) == 22);
    assert(partitions(13) == 101);
    assert(partitions(15) == 176);
    assert(partitions(18) == 385);
    assert(partitions(19) == 490);
    assert(pentagonal(1) == 1);
    assert(pentagonal(2) == 5);
    assert(pentagonal(3) == 12);
    assert(pentagonal(4) == 22);
    lemma_terms_end(20, 4);
    assert(pair_term(20, 3) == 29);
    assert(partition_terms(20, 3) == 29);
    assert(pair_term(20, 2) == 277);
    assert(partition_terms(20, 2) == -248);
    assert(pair_term(20, 1) == 875);
    assert(partition_terms(20, 1) == 627);
    assert(partitions(20) == 627);
    assert forall|k: int| 1 <= k <= 20 implies #[trigger] step_fits(20, k) by {
        if k == 1 {
            assert(head(20, 2) == 875);
        } else if k == 2 {
            assert(head(20, 3) == 598);
        } else if k == 3 {
            assert(head(20, 4) == 627);
        } else {
            lemma_pentagonal_grows(4, k);
            lemma_pentagonal_grows(4, k + 1);
            lemma_terms_end(20, k);
            lemma_terms_end(20, k + 1);
        }
    }
    lemma_row_done(20);
}

/// The row of `p(21)`: its value, and its sum step by step.
proof fn lemma_row_21()
    requires
        rows_right(20),
    ensures
        rows_right(21),
{
    assert(usize::MAX >= 0xffff_ffff);
    assert(partitions(6) == 11);
    assert(partitions(9) == 30);
    assert(partitions(14) == 135);
    assert(partitions(16) == 231);
    assert(partitions(19) == 490);
    assert(partitions(20) == 627);
    assert(pentagonal(1) == 1);
    assert(pentagonal(2) == 5);
    assert(pentagonal(3) == 12);
    assert(pentagonal(4) == 22);
    lemma_terms_end(21, 4);
    assert(pair_term(21, 3) == 41);
    assert(partition_terms(21, 3) == 41);
    assert(pair_term(21, 2) == 366);
    assert(partition_terms(21, 2) == -325);
    assert(pair_term(21, 1) == 1117);
    assert(partition_terms(21, 1) == 792);
    assert(partitions(21) == 792);
    assert forall|k: int| 1 <= k <= 21 implies #[trigger] step_fits(21, k) by {
        if k == 1 {
            assert(head(21, 2) == 1117);
        } else if k == 2 {
            assert(head(21, 3) == 751);
        } else if k == 3 {
            assert(head(21, 4) == 792);
        } else {
            lemma_pentagonal_grows(4, k);
            lemma_pentagonal_grows(4, k + 1);
            lemma_terms_end(21, k);
            lemma_terms_end(21, k + 1);
        }
    }
    lemma_row_done(21);
}

/// The row of `p(22)`: its value, and its sum step by step.
proof fn lemma_row_22()
    requires
        rows_right(21),
    ensures
        rows_right(22),
{
    assert(usize::MAX >= 0xffff_ffff);
    assert(partitions(0) == 1);
    assert(partitions(7) == 15);
    assert(partitions(10) == 42);
    assert(partitions(15) == 176);
    assert(partitions(17) == 297);
    assert(partitions(20) == 627);
    assert(partitions(21) == 792);
    assert(pentagonal(1) == 1);
    assert(pentagonal(2) == 5);
    assert(pentagonal(3) == 12);
    assert(pentagonal(4) == 22);
    assert(pentagonal(5) == 35);
    lemma_terms_end(22, 5);
    assert(pair_term(22, 4) == 1);
    assert(partition_terms(22, 4) == -1);
    assert(pair_term(22, 3) == 57);
    assert(partition_terms(22, 3) == 56);
    assert(pair_term(22, 2) == 473);
    assert(partition_terms(22, 2) == -417);
    assert(pair_term(22, 1) == 1419);
    assert(partition_terms(22, 1) == 1002);
    assert(partitions(22) == 1002);
    assert forall|k: int| 1 <= k <= 22 implies #[trigger] step_fits(22, k) by {
        if k == 1 {
            assert(head(22, 2) == 1419);
        } else if k == 2 {
            assert(head(22, 3) == 946);
        } else if k == 3 {
            assert(head(22, 4) == 1003);
        } else if k == 4 {
            assert(head(22, 5) == 1002);
        } else {
            lemma_pentagonal_grows(5, k);
            lemma_pentagonal_grows(5, k + 1);
            lemma_terms_end(22, k);
            lemma_terms_end(22, k + 1);
        }
    }
    lemma_row_done(22);
}

/// The row of `p(23)`: its value, and its sum step by step.
proof fn lemma_row_23()
    requires
        rows_right(22),
    ensures
        rows_right(23),
{
    assert(usize::MAX >= 0xffff_ffff);
    assert(partitions(1) == 1);
    assert(partitions(8) == 22);
    assert(partitions(11) == 56);
    assert(partitions(16) == 231);
    assert(partitions(18) == 385);
    assert(partitions(21) == 792);
    assert(partitions(22) == 1002);
    assert(pentagonal(1) == 1);
    assert(pentagonal(2) == 5);
    assert(pentagonal(3) == 12);
    assert(pentagonal(4) == 22);
    assert(pentagonal(5) == 35);
    lemma_terms_end(23, 5);
    assert(pair_term(23, 4) == 1);
    assert(partition_terms(23, 4) == -1);
    assert(pair_term(23, 3) == 78);
    assert(partition_terms(23, 3) == 77);
    assert(pair_term(23, 2) == 616);
    assert(partition_terms(23, 2) == -539);
    assert(pair_term(23, 1) == 1794);
    assert(partition_terms(23, 1) == 1255);
    assert(partitions(23) == 1255);
    assert forall|k: int| 1 <= k <= 23 implies #[trigger] step_fits(23, k) by {
        if k == 1 {
            assert(head(23, 2) == 1794);
        } else if k == 2 {
            assert(head(23, 3) == 1178);
        } else if k == 3 {
            assert(head(23, 4) == 1256);
        } else if k == 4 {
            assert(head(23, 5) == 1255);
        } else {
            lemma_pentagonal_grows(5, k);
            lemma_pentagonal_grows(5, k + 1);
            lemma_terms_end(23, k);
            lemma_terms_end(23, k + 1);
        }
    }
    lemma_row_done(23);
}

/// The row of `p(24)`: its value, and its sum step by step.
proof fn lemma_row_24()
    requires
        rows_right(23),
    ensures
        rows_right(24),
{
    assert(usize::MAX >= 0xffff_ffff);
    assert(partitions(2) == 2);
    assert(partitions(9) == 30);
    assert(partitions(12) == 77);
    assert(partitions(17) == 297);
    assert(partitions(19) == 490);
    assert(partitions(22) == 1002);
    assert(partitions(23) == 1255);
    assert(pentagonal(1) == 1);
    assert(pentagonal(2) == 5);
    assert(pentagonal(3) == 12);
    assert(pentagonal(4) == 22);
    assert(pentagonal(5) == 35);
    lemma_terms_end(24, 5);
    assert(pair_term(24, 4) == 2);
    assert(partition_terms(24, 4) == -2);
    assert(pair_term(24, 3) == 107);
    assert(partition_terms(24, 3) == 105);
    assert(pair_term(24, 2) == 787);
    assert(partition_terms(24, 2) == -682);
    assert(pair_term(24, 1) == 2257);
    assert(partition_terms(24, 1) == 1575);
    assert(partitions(24) == 1575);
    assert forall|k: int| 1 <= k <= 24 implies #[trigger] step_fits(24, k) by {
        if k == 1 {
            assert(head(24, 2) == 2257);
        } else if k == 2 {
            assert(head(24, 3) == 1470);
        } else if k == 3 {
            assert(head(24, 4) == 1577);
        } else if k == 4 {
            assert(head(24, 5) == 1575);
        } else {
            lemma_pentagonal_grows(5, k);
            lemma_pentagonal_grows(5, k + 1);
            lemma_terms_end(24, k);
            lemma_terms_end(24, k + 1);
        }
    }
    lemma_row_done(24);
}

/// The row of `p(25)`: its value, and its sum step by step.
proof fn lemma_row_25()
    requires
        rows_right(24),
    ensures
        rows_right(25),
{
    assert(usize::MAX >= 0xffff_ffff);
    assert(partitions(3) == 3);
    assert(partitions(10) == 42);
    assert(partitions(13) == 101);
    assert(partitions(18) == 385);
    assert(partitions(20) == 627);
    assert(partitions(23) == 1255);
    assert(partitions(24) == 1575);
    assert(pentagonal(1) == 1);
    assert(pentagonal(2) == 5);
    assert(pentagonal(3) == 12);
    assert(pentagonal(4) == 22);
    assert(pentagonal(5) == 35);
    lemma_terms_end(25, 5);
    assert(pair_term(25, 4) == 3);
    assert(partition_terms(25, 4) == -3);
    assert(pair_term(25, 3) == 143);
    assert(partition_terms(25, 3) == 140);
    assert(pair_term(25, 2) == 1012);
    assert(partition_terms(25, 2) == -872);
    assert(pair_term(25, 1) == 2830);
    assert(partition_terms(25, 1) == 1958);
    assert(partitions(25) == 1958);
    assert forall|k: int| 1 <= k <= 25 implies #[trigger] step_fits(25, k) by {
        if k == 1 {
            assert(head(25, 2) == 2830);
        } else if k == 2 {
            assert(head(25, 3) == 1818);
        } else if k == 3 {
            assert(head(25, 4) == 1961);
        } else if k == 4 {
            assert(head(25, 5) == 1958);
        } else {
            lemma_pentagonal_grows(5, k);
            lemma_pentagonal_grows(5, k + 1);
            lemma_terms_end(25, k);
            lemma_terms_end(25, k + 1);
        }
    }
    lemma_row_done(25);
}

/// The row of `p(26)`: its value, and its sum step by step.
proof fn lemma_row_26()
    requires
        rows_right(25),
    ensures
        rows_right(26),
{
    assert(usize::MAX >= 0xffff_ffff);
    assert(partitions(0) == 1);
    assert(partitions(4) == 5);
    assert(partitions(11) == 56);
    assert(partitions(14) == 135);
    assert(partitions(19) == 490);
    assert(partitions(21) == 792);
    assert(partitions(24) == 1575);
    assert(partitions(25) == 1958);
    assert(pentagonal(1) == 1);
    assert(pentagonal(2) == 5);
    assert(pentagonal(3) == 12);
    assert(pentagonal(4) == 22);
    assert(pentagonal(5) == 35);
    lemma_terms_end(26, 5);
    assert(pair_term(26, 4) == 6);
    assert(partition_terms(26, 4) == -6);
    assert(pair_term(26, 3) == 191);
    assert(partition_terms(26, 3) == 185);
    assert(pair_term(26, 2) == 1282);
    assert(partition_terms(26, 2) == -1097);
    assert(pair_term(26, 1) == 3533);
    assert(partition_terms(26, 1) == 2436);
    assert(partitions(26) == 2436);
    assert forall|k: int| 1 <= k <= 26 implies #[trigger] step_fits(26, k) by {
        if k == 1 {
            assert(head(26, 2) == 3533);
        } else if k == 2 {
            assert(head(26, 3) == 2251);
        } else if k == 3 {
            assert(head(26, 4) == 2442);
        } else if k == 4 {
            assert(head(26, 5) == 2436);
        } else {
            lemma_pentagonal_grows(5, k);
            lemma_pentagonal_grows(5, k + 1);
            lemma_terms_end(26, k);
            lemma_terms_end(26, k + 1);
        }
    }
    lemma_row_done(26);
}

/// The row of `p(27)`: its value, and its sum step by step.
proof fn lemma_row_27()
    requires
        rows_right(26),
    ensures
        rows_right(27),
{
    assert(usize::MAX >= 0xffff_ffff);
    assert(partitions(1) == 1);
    assert(partitions(5) == 7);
    assert(partitions(12) == 77);
    assert(partitions(15) == 176);
    assert(partitions(20) == 627);
    assert(partitions(22) == 1002);
    assert(partitions(25) == 1958);
    assert(partitions(26) == 2436);
    assert(pentagonal(1) == 1);
    assert(pentagonal(2) == 5);
    assert(pentagonal(3) == 12);
    assert(pentagonal(4) == 22);
    assert(pentagonal(5) == 35);
    lemma_terms_end(27, 5);
    assert(pair_term(27, 4) == 8);
    assert(partition_terms(27, 4) == -8);
    assert(pair_term(27, 3) == 253);
    assert(partition_terms(27, 3) == 245);
    assert(pair_term(27, 2) == 1629);
    assert(partition_terms(27, 2) == -1384);
    assert(pair_term(27, 1) == 4394);
    assert(partition_terms(27, 1) == 3010);
    assert(partitions(27) == 3010);
    assert forall|k: int| 1 <= k <= 27 implies #[trigger] step_fits(27, k) by {
        if k == 1 {
            assert(head(27, 2) == 4394);
        } else if k == 2 {
            assert(head(27, 3) == 2765);
        } else if k == 3 {
            assert(head(27, 4) == 3018);
        } else if k == 4 {
            assert(head(27, 5) == 3010);
        } else {
            lemma_pentagonal_grows(5, k);
            lemma_pentagonal_grows(5, k + 1);
            lemma_terms_end(27, k);
            lemma_terms_end(27, k + 1);
        }
    }
    lemma_row_done(27);
}

/// The row of `p(28)`: its value, and its sum step by step.
proof fn lemma_row_28()
    requires
        rows_right(27),
    ensures
        rows_right(28),
{
    assert(usize::MAX >= 0xffff_ffff);
    assert(partitions(2) == 2);
    assert(partitions(6) == 11);
    assert(partitions(13) == 101);
    assert(partitions(16) == 231);
    assert(partitions(21) == 792);
    assert(partitions(23) == 1255);
    assert(partitions(26) == 2436);
    assert(partitions(27) == 3010);
    assert(pentagonal(1) == 1);
    assert(pentagonal(2) == 5);
    assert(pentagonal(3) == 12);
    assert(pentagonal(4) == 22);
    assert(pentagonal(5) == 35);
    lemma_terms_end(28, 5);
    assert(pair_term(28, 4) == 13);
    assert(partition_terms(28, 4) == -13);
    assert(pair_term(28, 3) == 332);
    assert(partition_terms(28, 3) == 319);
    assert(pair_term(28, 2) == 2047);
    assert(partition_terms(28, 2) == -1728);
    assert(pair_term(28, 1) == 5446);
    assert(partition_terms(28, 1) == 3718);
    assert(partitions(28) == 3718);
    assert forall|k: int| 1 <= k <= 28 implies #[trigger] step_fits(28, k) by {
        if k == 1 {
            assert(head(28, 2) == 5446);
        } else if k == 2 {
            assert(head(28, 3) == 3399);
        } else if k == 3 {
            assert(head(28, 4) == 3731);
        } else if k == 4 {
            assert(head(28, 5) == 3718);
        } else {
            lemma_pentagonal_grows(5, k);
            lemma_pentagonal_grows(5, k + 1);
            lemma_terms_end(28, k);
            lemma_terms_end(28, k + 1);
        }
    }
    lemma_row_done(28);
}

/// The row of `p(29)`: its value, and its sum step by step.
proof fn lemma_row_29()
    requires
        rows_right(28),
    ensures
        rows_right(29),
{
    assert(usize::MAX >= 0xffff_ffff);
    assert(partitions(3) == 3);
    assert(partitions(7) == 15);
    assert(partitions(14) == 135);
    assert(partitions(17) == 297);
    assert(partitions(22) == 1002);
    assert(partitions(24) == 1575);
    assert(partitions(27) == 3010);
    assert(partitions(28) == 3718);
    assert(pentagonal(1) == 1);
    assert(pentagonal(2) == 5);
    assert(pentagonal(3) == 12);
    assert(pentagonal(4) == 22);
    assert(pentagonal(5) == 35);
    lemma_terms_end(29, 5);
    assert(pair_term(29, 4) == 18);
    assert(partition_terms(29, 4) == -18);
    assert(pair_term(29, 3) == 432);
    assert(partition_terms(29, 3) == 414);
    assert(pair_term(29, 2) == 2577);
    assert(partition_terms(29, 2) == -2163);
    assert(pair_term(29, 1) == 6728);
    assert(partition_terms(29, 1) == 4565);
    assert(partitions(29) == 4565);
    assert forall|k: int| 1 <= k <= 29 implies #[trigger] step_fits(29, k) by {
        if k == 1 {
            assert(head(29, 2) == 6728);
        } else if k == 2 {
            assert(head(29, 3) == 4151);
        } else if k == 3 {
            assert(head(29, 4) == 4583);
        } else if k == 4 {
            assert(head(29, 5) == 4565);
        } else {
            lemma_pentagonal_grows(5, k);
            lemma_pentagonal_grows(5, k + 1);
            lemma_terms_end(29, k);
            lemma_terms_end(29, k + 1);
        }
    }
    lemma_row_done(29);
}

/// The row of `p(30)`: its value, and its sum step by step.
proof fn lemma_row_30()
    requires
        rows_right(29),
    ensures
        rows_right(30),
{
    assert(usize::MAX >= 0xffff_ffff);
    assert(partitions(4) == 5);
    assert(partitions(8) == 22);
    assert(partitions(15) == 176);
    assert(partitions(18) == 385);
    assert(partitions(23) == 1255);
    assert(partitions(25) == 1958);
    assert(partitions(28) == 3718);
    assert(partitions(29) == 4565);
    assert(pentagonal(1) == 1);
    assert(pentagonal(2) == 5);
    assert(pentagonal(3) == 12);
    assert(pentagonal(4) == 22);
    assert(pentagonal(5) == 35);
    lemma_terms_end(30, 5);
    assert(pair_term(30, 4) == 27);
    assert(partition_terms(30, 4) == -27);
    assert(pair_term(30, 3) == 561);
    assert(partition_terms(30, 3) == 534);
    assert(pair_term(30, 2) == 3213);
    assert(partition_terms(30, 2) == -2679);
    assert(pair_term(30, 1) == 8283);
    assert(partition_terms(30, 1) == 5604);
    assert(partitions(30) == 5604);
    assert forall|k: int| 1 <= k <= 30 implies #[trigger] step_fits(30, k) by {
        if k == 1 {
            assert(head(30, 2) == 8283);
        } else if k == 2 {
            assert(head(30, 3) == 5070);
        } else if k == 3 {
            assert(head(30, 4) == 5631);
        } else if k == 4 {
            assert(head(30, 5) == 5604);
        } else {
            lemma_pentagonal_grows(5, k);
            lemma_pentagonal_grows(5, k + 1);
            lemma_terms_end(30, k);
            lemma_terms_end(30, k + 1);
        }
    }
    lemma_row_done(30);
}

/// The row of `p(31)`: its value, and its sum step by step.
proof fn lemma_row_31()
    requires
        rows_right(30),
    ensures
        rows_right(31),
{
    assert(usize::MAX >= 0xffff_ffff);
    assert(partitions(5) == 7);
    assert(partitions(9) == 30);
    assert(partitions(16) == 231);
    assert(partitions(19) == 490);
    assert(partitions(24) == 1575);
    assert(partitions(26) == 2436);
    assert(partitions(29) == 4565);
    assert(partitions(30) == 5604);
    assert(pentagonal(1) == 1);
    assert(pentagonal(2) == 5);
    assert(pentagonal(3) == 12);
    assert(pentagonal(4) == 22);
    assert(pentagonal(5) == 35);
    lemma_terms_end(31, 5);
    assert(pair_term(31, 4) == 37);
    assert(partition_terms(31, 4) == -37);
    assert(pair_term(31, 3) == 721);
    assert(partition_terms(31, 3) == 684);
    assert(pair_term(31, 2) == 4011);
    assert(partition_terms(31, 2) == -3327);
    assert(pair_term(31, 1) == 10169);
    assert(partition_terms(31, 1) == 6842);
    assert(partitions(31) == 6842);
    assert forall|k: int| 1 <= k <= 31 implies #[trigger] step_fits(31, k) by {
        if k == 1 {
            assert(head(31, 2) == 10169);
        } else if k == 2 {
            assert(head(31, 3) == 6158);
        } else if k == 3 {
            assert(head(31, 4) == 6879);
        } else if k == 4 {
            assert(head(31, 5) == 6842);
        } else {
            lemma_pentagonal_grows(5, k);
            lemma_pentagonal_grows(5, k + 1);
            lemma_terms_end(31, k);
            lemma_terms_end(31, k + 1);
        }
    }
    lemma_row_done(31);
}

/// The row of `p(32)`: its value, and its sum step by step.
proof fn lemma_row_32()
    requires
        rows_right(31),
    ensures
        rows_right(32),
{
    assert(usize::MAX >= 0xffff_ffff);
    assert(partitions(6) == 11);
    assert(partitions(10) == 42);
    assert(partitions(17) == 297);
    assert(partitions(20) == 627);
    assert(partitions(25) == 1958);
    assert(partitions(27) == 3010);
    assert(partitions(30) == 5604);
    assert(partitions(31) == 6842);
    assert(pentagonal(1) == 1);
    assert(pentagonal(2) == 5);
    assert(pentagonal(3) == 12);
    assert(pentagonal(4) == 22);
    assert(pentagonal(5) == 35);
    lemma_terms_end(32, 5);
    assert(pair_term(32, 4) == 53);
    assert(partition_terms(32, 4) == -53);
    assert(pair_term(32, 3) == 924);
    assert(partition_terms(32, 3) == 871);
    assert(pair_term(32, 2) == 4968);
    assert(partition_terms(32, 2) == -4097);
    assert(pair_term(32, 1) == 12446);
    assert(partition_terms(32, 1) == 8349);
    assert(partitions(32) == 8349);
    assert forall|k: int| 1 <= k <= 32 implies #[trigger] step_fits(32, k) by {
        if k == 1 {
            assert(head(32, 2) == 12446);
        } else if k == 2 {
            assert(head(32, 3) == 7478);
        } else if k == 3 {
            assert(head(32, 4) == 8402);
        } else if k == 4 {
            assert(head(32, 5) == 8349);
        } else {
            lemma_pentagonal_grows(5, k);
            lemma_pentagonal_grows(5, k + 1);
            lemma_terms_end(32, k);
            lemma_terms_end(32, k + 1);
        }
    }
    lemma_row_done(32);
}

/// The row of `p(33)`: its value, and its sum step by step.
proof fn lemma_row_33()
    requires
        rows_right(32),
    ensures
        rows_right(33),
{
    assert(usize::MAX >= 0xffff_ffff);
    assert(partitions(7) == 15);
    assert(partitions(11) == 56);
    assert(partitions(18) == 385);
    assert(partitions(21) == 792);
    assert(partitions(26) == 2436);
    assert(partitions(28) == 3718);
    assert(partitions(31) == 6842);
    assert(partitions(32) == 8349);
    assert(pentagonal(1) == 1);
    assert(pentagonal(2) == 5);
    assert(pentagonal(3) == 12);
    assert(pentagonal(4) == 22);
    assert(pentagonal(5) == 35);
    lemma_terms_end(33, 5);
    assert(pair_term(33, 4) == 71);
    assert(partition_terms(33, 4) == -71);
    assert(pair_term(33, 3) == 1177);
    assert(partition_terms(33, 3) == 1106);
    assert(pair_term(33, 2) == 6154);
    assert(partition_terms(33, 2) == -5048);
    assert(pair_term(33, 1) == 15191);
    assert(partition_terms(33, 1) == 10143);
    assert(partitions(33) == 10143);
    assert forall|k: int| 1 <= k <= 33 implies #[trigger] step_fits(33, k) by {
        if k == 1 {
            assert(head(33, 2) == 15191);
        } else if k == 2 {
            assert(head(33, 3) == 9037);
        } else if k == 3 {
            assert(head(33, 4) == 10214);
        } else if k == 4 {
            assert(head(33, 5) == 10143);
        } else {
            lemma_pentagonal_grows(5, k);
            lemma_pentagonal_grows(5, k + 1);
            lemma_terms_end(33, k);
            lemma_terms_end(33, k + 1);
        }
    }
    lemma_row_done(33);
}

/// The row of `p(34)`: its value, and its sum step by step.
proof fn lemma_row_34()
    requires
        rows_right(33),
    ensures
        rows_right(34),
{
    assert(usize::MAX >= 0xffff_ffff);
    assert(partitions(8) == 22);
    assert(partitions(12) == 77);
    assert(partitions(19) == 490);
    assert(partitions(22) == 1002);
    assert(partitions(27) == 3010);
    assert(partitions(29) == 4565);
    assert(partitions(32) == 8349);
    assert(partitions(33) == 10143);
    assert(pentagonal(1) == 1);
    assert(pentagonal(2) == 5);
    assert(pentagonal(3) == 12);
    assert(pentagonal(4) == 22);
    assert(pentagonal(5) == 35);
    lemma_terms_end(34, 5);
    assert(pair_term(34, 4) == 99);
    assert(partition_terms(34, 4) == -99);
    assert(pair_term(34, 3) == 1492);
    assert(partition_terms(34, 3) == 1393);
    assert(pair_term(34, 2) == 7575);
    assert(partition_terms(34, 2) == -6182);
    assert(pair_term(34, 1) == 18492);
    assert(partition_terms(34, 1) == 12310);
    assert(partitions(34) == 12310);
    assert forall|k: int| 1 <= k <= 34 implies #[trigger] step_fits(34, k) by {
        if k == 1 {
            assert(head(34, 2) == 18492);
        } else if k == 2 {
            assert(head(34, 3) == 10917);
        } else if k == 3 {
            assert(head(34, 4) == 12409);
        } else if k == 4 {
            assert(head(34, 5) == 12310);
        } else {
            lemma_pentagonal_grows(5, k);
            lemma_pentagonal_grows(5, k + 1);
            lemma_terms_end(34, k);
            lemma_terms_end(34, k + 1);
        }
    }
    lemma_row_done(34);
}

/// The row of `p(35)`: its value, and its sum step by step.
proof fn lemma_row_35()
    requires
        rows_right(34),
    ensures
        rows_right(35),
{
    assert(usize::MAX >= 0xffff_ffff);
    assert(partitions(0) == 1);
    assert(partitions(9) == 30);
    assert(partitions(13) == 101);
    assert(partitions(20) == 627);
    assert(partitions(23) == 1255);
    assert(partitions(28) == 3718);
    assert(partitions(30) == 5604);
    assert(partitions(33) == 10143);
    assert(partitions(34) == 12310);
    assert(pentagonal(1) == 1);
    assert(pentagonal(2) == 5);
    assert(pentagonal(3) == 12);
    assert(pentagonal(4) == 22);
    assert(pentagonal(5) == 35);
    assert(pentagonal(6) == 51);
    lemma_terms_end(35, 6);
    assert(pair_term(35, 5) == 1);
    assert(partition_terms(35, 5) == 1);
    assert(pair_term(35, 4) == 131);
    assert(partition_terms(35, 4) == -130);
    assert(pair_term(35, 3) == 1882);
    assert(partition_terms(35, 3) == 1752);
    assert(pair_term(35, 2) == 9322);
    assert(partition_terms(35, 2) == -7570);
    assert(pair_term(35, 1) == 22453);
    assert(partition_terms(35, 1) == 14883);
    assert(partitions(35) == 14883);
    assert forall|k: int| 1 <= k <= 35 implies #[trigger] step_fits(35, k) by {
        if k == 1 {
            assert(head(35, 2) == 22453);
        } else if k == 2 {
            assert(head(35, 3) == 13131);
        } else if k == 3 {
            assert(head(35, 4) == 15013);
        } else if k == 4 {
            assert(head(35, 5) == 14882);
        } else if k == 5 {
            assert(head(35, 6) == 14883);
        } else {
            lemma_pentagonal_grows(6, k);
            lemma_pentagonal_grows(6, k + 1);
            lemma_terms_end(35, k);
            lemma_terms_end(35, k + 1);
        }
    }
    lemma_row_done(35);
}

/// The row of `p(36)`: its value, and its sum step by step.
proof fn lemma_row_36()
    requires
        rows_right(35),
    ensures
        rows_right(36),
{
    assert(usize::MAX >= 0xffff_ffff);
    assert(partitions(1) == 1);
    assert(partitions(10) == 42);
    assert(partitions(14) == 135);
    assert(partitions(21) == 792);
    assert(partitions(24) == 1575);
    assert(partitions(29) == 4565);
    assert(partitions(31) == 6842);
    assert(partitions(34) == 12310);
    assert(partitions(35) == 14883);
    assert(pentagonal(1) == 1);
    assert(pentagonal(2) == 5);
    assert(pentagonal(3) == 12);
    assert(pentagonal(4) == 22);
    assert(pentagonal(5) == 35);
    assert(pentagonal(6) == 51);
    lemma_terms_end(36, 6);
    assert(pair_term(36, 5) == 1);
    assert(partition_terms(36, 5) == 1);
    assert(pair_term(36, 4) == 177);
    assert(partition_terms(36, 4) == -176);
    assert(pair_term(36, 3) == 2367);
    assert(partition_terms(36, 3) == 2191);
    assert(pair_term(36, 2) == 11407);
    assert(partition_terms(36, 2) == -9216);
    assert(pair_term(36, 1) == 27193);
    assert(partition_terms(36, 1) == 17977);
    assert(partitions(36) == 17977);
    assert forall|k: int| 1 <= k <= 36 implies #[trigger] step_fits(36, k) by {
        if k == 1 {
            assert(head(36, 2) == 27193);
        } else if k == 2 {
            assert(head(36, 3) == 15786);
        } else if k == 3 {
            assert(head(36, 4) == 18153);
        } else if k == 4 {
            assert(head(36, 5) == 17976);
        } else if k == 5 {
            assert(head(36, 6) == 17977);
        } else {
            lemma_pentagonal_grows(6, k);
            lemma_pentagonal_grows(6, k + 1);
            lemma_terms_end(36, k);
            lemma_terms_end(36, k + 1);
        }
    }
    lemma_row_done(36);
}

/// The row of `p(37)`: its value, and its sum step by step.
proof fn lemma_row_37()
    requires
        rows_right(36),
    ensures
        rows_right(37),
{
    assert(usize::MAX >= 0xffff_ffff);
    assert(partitions(2) == 2);
    assert(partitions(11) == 56);
    assert(partitions(15) == 176);
    assert(partitions(22) == 1002);
    assert(partitions(25) == 1958);
    assert(partitions(30) == 5604);
    assert(partitions(32) == 8349);
    assert(partitions(35) == 14883);
    assert(partitions(36) == 17977);
    assert(pentagonal(1) == 1);
    assert(pentagonal(2) == 5);
    assert(pentagonal(3) == 12);
    assert(pentagonal(4) == 22);
    assert(pentagonal(5) == 35);
    assert(pentagonal(6) == 51);
    lemma_terms_end(37, 6);
    assert(pair_term(37, 5) == 2);
    assert(partition_terms(37, 5) == 2);
    assert(pair_term(37, 4) == 232);
    assert(partition_terms(37, 4) == -230);
    assert(pair_term(37, 3) == 2960);
    assert(partition_terms(37, 3) == 2730);
    assert(pair_term(37, 2) == 13953);
    assert(partition_terms(37, 2) == -11223);
    assert(pair_term(37, 1) == 32860);
    assert(partition_terms(37, 1) == 21637);
    assert(partitions(37) == 21637);
    assert forall|k: int| 1 <= k <= 37 implies #[trigger] step_fits(37, k) by {
        if k == 1 {
            assert(head(37, 2) == 32860);
        } else if k == 2 {
            assert(head(37, 3) == 18907);
        } else if k == 3 {
            assert(head(37, 4) == 21867);
        } else if k == 4 {
            assert(head(37, 5) == 21635);
        } else if k == 5 {
            assert(head(37, 6) == 21637);
        } else {
            lemma_pentagonal_grows(6, k);
            lemma_pentagonal_grows(6, k + 1);
            lemma_terms_end(37, k);
            lemma_terms_end(37, k + 1);
        }
    }
    lemma_row_done(37);
}

/// The row of `p(38)`: its value, and its sum step by step.
proof fn lemma_row_38()
    requires
        rows_right(37),
    ensures
        rows_right(38),
{
    assert(usize::MAX >= 0xffff_ffff);
    assert(partitions(3) == 3);
    assert(partitions(12) == 77);
    assert(partitions(16) == 231);
    assert(partitions(23) == 1255);
    assert(partitions(26) == 2436);
    assert(partitions(31) == 6842);
    assert(partitions(33) == 10143);
    assert(partitions(36) == 17977);
    assert(partitions(37) == 21637);
    assert(pentagonal(1) == 1);
    assert(pentagonal(2) == 5);
    assert(pentagonal(3) == 12);
    assert(pentagonal(4) == 22);
    assert(pentagonal(5) == 35);
    assert(pentagonal(6) == 51);
    lemma_terms_end(38, 6);
    assert(pair_term(38, 5) == 3);
    assert(partition_terms(38, 5) == 3);
    assert(pair_term(38, 4) == 308);
    assert(partition_terms(38, 4) == -305);
    assert(pair_term(38, 3) == 3691);
    assert(partition_terms(38, 3) == 3386);
    assert(pair_term(38, 2) == 16985);
    assert(partition_terms(38, 2) == -13599);
    assert(pair_term(38, 1) == 39614);
    assert(partition_terms(38, 1) == 26015);
    assert(partitions(38) == 26015);
    assert forall|k: int| 1 <= k <= 38 implies #[trigger] step_fits(38, k) by {
        if k == 1 {
            assert(head(38, 2) == 39614);
        } else if k == 2 {
            assert(head(38, 3) == 22629);
        } else if k == 3 {
            assert(head(38, 4) == 26320);
        } else if k == 4 {
            assert(head(38, 5) == 26012);
        } else if k == 5 {
            assert(head(38, 6) == 26015);
        } else {
            lemma_pentagonal_grows(6, k);
            lemma_pentagonal_grows(6, k + 1);
            lemma_terms_end(38, k);
            lemma_terms_end(38, k + 1);
        }
    }
    lemma_row_done(38);
}

/// The row of `p(39)`: its value, and its sum step by step.
proof fn lemma_row_39()
    requires
        rows_right(38),
    ensures
        rows_right(39),
{
    assert(usize::MAX >= 0xffff_ffff);
    assert(partitions(4) == 5);
    assert(partitions(13) == 101);
    assert(partitions(17) == 297);
    assert(partitions(24) == 1575);
    assert(partitions(27) == 3010);
    assert(partitions(32) == 8349);
    assert(partitions(34) == 12310);
    assert(partitions(37) == 21637);
    assert(partitions(38) == 26015);
    assert(pentagonal(1) == 1);
    assert(pentagonal(2) == 5);
    assert(pentagonal(3) == 12);
    assert(pentagonal(4) == 22);
    assert(pentagonal(5) == 35);
    assert(pentagonal(6) == 51);
    lemma_terms_end(39, 6);
    assert(pair_term(39, 5) == 5);
    assert(partition_terms(39, 5) == 5);
    assert(pair_term(39, 4) == 398);
    assert(partition_terms(39, 4) == -393);
    assert(pair_term(39, 3) == 4585);
    assert(partition_terms(39, 3) == 4192);
    assert(pair_term(39, 2) == 20659);
    assert(partition_terms(39, 2) == -16467);
    assert(pair_term(39, 1) == 47652);
    assert(partition_terms(39, 1) == 31185);
    assert(partitions(39) == 31185);
    assert forall|k: int| 1 <= k <= 39 implies #[trigger] step_fits(39, k) by {
        if k == 1 {
            assert(head(39, 2) == 47652);
        } else if k == 2 {
            assert(head(39, 3) == 26993);
        } else if k == 3 {
            assert(head(39, 4) == 31578);
        } else if k == 4 {
            assert(head(39, 5) == 31180);
        } else if k == 5 {
            assert(head(39, 6) == 31185);
        } else {
            lemma_pentagonal_grows(6, k);
            lemma_pentagonal_grows(6, k + 1);
            lemma_terms_end(39, k);
            lemma_terms_end(39, k + 1);
        }
    }
    lemma_row_done(39);
}

/// The row of `p(40)`: its value, and its sum step by step.
proof fn lemma_row_40()
    requires
        rows_right(39),
    ensures
        rows_right(40),
{
    assert(usize::MAX >= 0xffff_ffff);
    assert(partitions(0) == 1);
    assert(partitions(5) == 7);
    assert(partitions(14) == 135);
    assert(partitions(18) == 385);
    assert(partitions(25) == 1958);
    assert(partitions(28) == 3718);
    assert(partitions(33) == 10143);
    assert(partitions(35) == 14883);
    assert(partitions(38) == 26015);
    assert(partitions(39) == 31185);
    assert(pentagonal(1) == 1);
    assert(pentagonal(2) == 5);
    assert(pentagonal(3) == 12);
    assert(pentagonal(4) == 22);
    assert(pentagonal(5) == 35);
    assert(pentagonal(6) == 51);
    lemma_terms_end(40, 6);
    assert(pair_term(40, 5) == 8);
    assert(partition_terms(40, 5) == 8);
    assert(pair_term(40, 4) == 520);
    assert(partition_terms(40, 4) == -512);
    assert(pair_term(40, 3) == 5676);
    assert(partition_terms(40, 3) == 5164);
    assert(pair_term(40, 2) == 25026);
    assert(partition_terms(40, 2) == -19862);
    assert(pair_term(40, 1) == 57200);
    assert(partition_terms(40, 1) == 37338);
    assert(partitions(40) == 37338);
    assert forall|k: int| 1 <= k <= 40 implies #[trigger] step_fits(40, k) by {
        if k == 1 {
            assert(head(40, 2) == 57200);
        } else if k == 2 {
            assert(head(40, 3) == 32174);
        } else if k == 3 {
            assert(head(40, 4) == 37850);
        } else if k == 4 {
            assert(head(40, 5) == 37330);
        } else if k == 5 {
            assert(head(40, 6) == 37338);
        } else {
            lemma_pentagonal_grows(6, k);
            lemma_pentagonal_grows(6, k + 1);
            lemma_terms_end(40, k);
            lemma_terms_end(40, k + 1);
        }
    }
    lemma_row_done(40);
}

/// The row of `p(41)`: its value, and its sum step by step.
proof fn lemma_row_41()
    requires
        rows_right(40),
    ensures
        rows_right(41),
{
    assert(usize::MAX >= 0xffff_ffff);
    assert(partitions(1) == 1);
    assert(partitions(6) == 11);
    assert(partitions(15) == 176);
    assert(partitions(19) == 490);
    assert(partitions(26) == 2436);
    assert(partitions(29) == 4565);
    assert(partitions(34) == 12310);
    assert(partitions(36) == 17977);
    assert(partitions(39) == 31185);
    assert(partitions(40) == 37338);
    assert(pentagonal(1) == 1);
    assert(pentagonal(2) == 5);
    assert(pentagonal(3) == 12);
    assert(pentagonal(4) == 22);
    assert(pentagonal(5) == 35);
    assert(pentagonal(6) == 51);
    lemma_terms_end(41, 6);
    assert(pair_term(41, 5) == 12);
    assert(partition_terms(41, 5) == 12);
    assert(pair_term(41, 4) == 666);
    assert(partition_terms(41, 4) == -654);
    assert(pair_term(41, 3) == 7001);
    assert(partition_terms(41, 3) == 6347);
    assert(pair_term(41, 2) == 30287);
    assert(partition_terms(41, 2) == -23940);
    assert(pair_term(41, 1) == 68523);
    assert(partition_terms(41, 1) == 44583);
    assert(partitions(41) == 44583);
    assert forall|k: int| 1 <= k <= 41 implies #[trigger] step_fits(41, k) by {
        if k == 1 {
            assert(head(41, 2) == 68523);
        } else if k == 2 {
            assert(head(41, 3) == 38236);
        } else if k == 3 {
            assert(head(41, 4) == 45237);
        } else if k == 4 {
            assert(head(41, 5) == 44571);
        } else if k == 5 {
            assert(head(41, 6) == 44583);
        } else {
            lemma_pentagonal_grows(6, k);
            lemma_pentagonal_grows(6, k + 1);
            lemma_terms_end(41, k);
            lemma_terms_end(41, k + 1);
        }
    }
    lemma_row_done(41);
}

/// The row of `p(42)`: its value, and its sum step by step.
proof fn lemma_row_42()
    requires
        rows_right(41),
    ensures
        rows_right(42),
{
    assert(usize::MAX >= 0xffff_ffff);
    assert(partitions(2) == 2);
    assert(partitions(7) == 15);
    assert(partitions(16) == 231);
    assert(partitions(20) == 627);
    assert(partitions(27) == 3010);
    assert(partitions(30) == 5604);
    assert(partitions(35) == 14883);
    assert(partitions(37) == 21637);
    assert(partitions(40) == 37338);
    assert(partitions(41) == 44583);
    assert(pentagonal(1) == 1);
    assert(pentagonal(2) == 5);
    assert(pentagonal(3) == 12);
    assert(pentagonal(4) == 22);
    assert(pentagonal(5) == 35);
    assert(pentagonal(6) == 51);
    lemma_terms_end(42, 6);
    assert(pair_term(42, 5) == 17);
    assert(partition_terms(42, 5) == 17);
    assert(pair_term(42, 4) == 858);
    assert(partition_terms(42, 4) == -841);
    assert(pair_term(42, 3) == 8614);
    assert(partition_terms(42, 3) == 7773);
    assert(pair_term(42, 2) == 36520);
    assert(partition_terms(42, 2) == -28747);
    assert(pair_term(42, 1) == 81921);
    assert(partition_terms(42, 1) == 53174);
    assert(partitions(42) == 53174);
    assert forall|k: int| 1 <= k <= 42 implies #[trigger] step_fits(42, k) by {
        if k == 1 {
            assert(head(42, 2) == 81921);
        } else if k == 2 {
            assert(head(42, 3) == 45401);
        } else if k == 3 {
            assert(head(42, 4) == 54015);
        } else if k == 4 {
            assert(head(42, 5) == 53157);
        } else if k == 5 {
            assert(head(42, 6) == 53174);
        } else {
            lemma_pentagonal_grows(6, k);
            lemma_pentagonal_grows(6, k + 1);
            lemma_terms_end(42, k);
            lemma_terms_end(42, k + 1);
        }
    }
    lemma_row_done(42);
}

/// The row of `p(43)`: its value, and its sum step by step.
proof fn lemma_row_43()
    requires
        rows_right(42),
    ensures
        rows_right(43),
{
    assert(usize::MAX >= 0xffff_ffff);
    assert(partitions(3) == 3);
    assert(partitions(8) == 22);
    assert(partitions(17) == 297);
    assert(partitions(21) == 792);
    assert(partitions(28) == 3718);
    assert(partitions(31) == 6842);
    assert(partitions(36) == 17977);
    assert(partitions(38) == 26015);
    assert(partitions(41) == 44583);
    assert(partitions(42) == 53174);
    assert(pentagonal(1) == 1);
    assert(pentagonal(2) == 5);
    assert(pentagonal(3) == 12);
    assert(pentagonal(4) == 22);
    assert(pentagonal(5) == 35);
    assert(pentagonal(6) == 51);
    lemma_terms_end(43, 6);
    assert(pair_term(43, 5) == 25);
    assert(partition_terms(43, 5) == 25);
    assert(pair_term(43, 4) == 1089);
    assert(partition_terms(43, 4) == -1064);
    assert(pair_term(43, 3) == 10560);
    assert(partition_terms(43, 3) == 9496);
    assert(pair_term(43, 2) == 43992);
    assert(partition_terms(43, 2) == -34496);
    assert(pair_term(43, 1) == 97757);
    assert(partition_terms(43, 1) == 63261);
    assert(partitions(43) == 63261);
    assert forall|k: int| 1 <= k <= 43 implies #[trigger] step_fits(43, k) by {
        if k == 1 {
            assert(head(43, 2) == 97757);
        } else if k == 2 {
            assert(head(43, 3) == 53765);
        } else if k == 3 {
            assert(head(43, 4) == 64325);
        } else if k == 4 {
            assert(head(43, 5) == 63236);
        } else if k == 5 {
            assert(head(43, 6) == 63261);
        } else {
            lemma_pentagonal_grows(6, k);
            lemma_pentagonal_grows(6, k + 1);
            lemma_terms_end(43, k);
            lemma_terms_end(43, k + 1);
        }
    }
    lemma_row_done(43);
}

/// The row of `p(44)`: its value, and its sum step by step.
proof fn lemma_row_44()
    requires
        rows_right(43),
    ensures
        rows_right(44),
{
    assert(usize::MAX >= 0xffff_ffff);
    assert(partitions(4) == 5);
    assert(partitions(9) == 30);
    assert(partitions(18) == 385);
    assert(partitions(22) == 1002);
    assert(partitions(29) == 4565);
    assert(partitions(32) == 8349);
    assert(partitions(37) == 21637);
    assert(partitions(39) == 31185);
    assert(partitions(42) == 53174);
    assert(partitions(43) == 63261);
    assert(pentagonal(1) == 1);
    assert(pentagonal(2) == 5);
    assert(pentagonal(3) == 12);
    assert(pentagonal(4) == 22);
    assert(pentagonal(5) == 35);
    assert(pentagonal(6) == 51);
    lemma_terms_end(44, 6);
    assert(pair_term(44, 5) == 35);
    assert(partition_terms(44, 5) == 35);
    assert(pair_term(44, 4) == 1387);
    assert(partition_terms(44, 4) == -1352);
    assert(pair_term(44, 3) == 12914);
    assert(partition_terms(44, 3) == 11562);
    assert(pair_term(44, 2) == 52822);
    assert(partition_terms(44, 2) == -41260);
    assert(pair_term(44, 1) == 116435);
    assert(partition_terms(44, 1) == 75175);
    assert(partitions(44) == 75175);
    assert forall|k: int| 1 <= k <= 44 implies #[trigger] step_fits(44, k) by {
        if k == 1 {
            assert(head(44, 2) == 116435);
        } else if k == 2 {
            assert(head(44, 3) == 63613);
        } else if k == 3 {
            assert(head(44, 4) == 76527);
        } else if k == 4 {
            assert(head(44, 5) == 75140);
        } else if k == 5 {
            assert(head(44, 6) == 75175);
        } else {
            lemma_pentagonal_grows(6, k);
            lemma_pentagonal_grows(6, k + 1);
            lemma_terms_end(44, k);
            lemma_terms_end(44, k + 1);
        }
    }
    lemma_row_done(44);
}

/// The row of `p(45)`: its value, and its sum step by step.
proof fn lemma_row_45()
    requires
        rows_right(44),
    ensures
        rows_right(45),
{
    assert(usize::MAX >= 0xffff_ffff);
    assert(partitions(5) == 7);
    assert(partitions(10) == 42);
    assert(partitions(19) == 490);
    assert(partitions(23) == 1255);
    assert(partitions(30) == 5604);
    assert(partitions(33) == 10143);
    assert(partitions(38) == 26015);
    assert(partitions(40) == 37338);
    assert(partitions(43) == 63261);
    assert(partitions(44) == 75175);
    assert(pentagonal(1) == 1);
    assert(pentagonal(2) == 5);
    assert(pentagonal(3) == 12);
    assert(pentagonal(4) == 22);
    assert(pentagonal(5) == 35);
    assert(pentagonal(6) == 51);
    lemma_terms_end(45, 6);
    assert(pair_term(45, 5) == 49);
    assert(partition_terms(45, 5) == 49);
    assert(pair_term(45, 4) == 1745);
    assert(partition_terms(45, 4) == -1696);
    assert(pair_term(45, 3) == 15747);
    assert(partition_terms(45, 3) == 14051);
    assert(pair_term(45, 2) == 63353);
    assert(partition_terms(45, 2) == -49302);
    assert(pair_term(45, 1) == 138436);
    assert(partition_terms(45, 1) == 89134);
    assert(partitions(45) == 89134);
    assert forall|k: int| 1 <= k <= 45 implies #[trigger] step_fits(45, k) by {
        if k == 1 {
            assert(head(45, 2) == 138436);
        } else if k == 2 {
            assert(head(45, 3) == 75083);
        } else if k == 3 {
            assert(head(45, 4) == 90830);
        } else if k == 4 {
            assert(head(45, 5) == 89085);
        } else if k == 5 {
            assert(head(45, 6) == 89134);
        } else {
            lemma_pentagonal_grows(6, k);
            lemma_pentagonal_grows(6, k + 1);
            lemma_terms_end(45, k);
            lemma_terms_end(45, k + 1);
        }
    }
    lemma_row_done(45);
}

/// The row of `p(46)`: its value, and its sum step by step.
proof fn lemma_row_46()
    requires
        rows_right(45),
    ensures
        rows_right(46),
{
    assert(usize::MAX >= 0xffff_ffff);
    assert(partitions(6) == 11);
    assert(partitions(11) == 56);
    assert(partitions(20) == 627);
    assert(partitions(24) == 1575);
    assert(partitions(31) == 6842);
    assert(partitions(34) == 12310);
    assert(partitions(39) == 31185);
    assert(partitions(41) == 44583);
    assert(partitions(44) == 75175);
    assert(partitions(45) == 89134);
    assert(pentagonal(1) == 1);
    assert(pentagonal(2) == 5);
    assert(pentagonal(3) == 12);
    assert(pentagonal(4) == 22);
    assert(pentagonal(5) == 35);
    assert(pentagonal(6) == 51);
    lemma_terms_end(46, 6);
    assert(pair_term(46, 5) == 67);
    assert(partition_terms(46, 5) == 67);
    assert(pair_term(46, 4) == 2202);
    assert(partition_terms(46, 4) == -2135);
    assert(pair_term(46, 3) == 19152);
    assert(partition_terms(46, 3) == 17017);
    assert(pair_term(46, 2) == 75768);
    assert(partition_terms(46, 2) == -58751);
    assert(pair_term(46, 1) == 164309);
    assert(partition_terms(46, 1) == 105558);
    assert(partitions(46) == 105558);
    assert forall|k: int| 1 <= k <= 46 implies #[trigger] step_fits(46, k) by {
        if k == 1 {
            assert(head(46, 2) == 164309);
        } else if k == 2 {
            assert(head(46, 3) == 88541);
        } else if k == 3 {
            assert(head(46, 4) == 107693);
        } else if k == 4 {
            assert(head(46, 5) == 105491);
        } else if k == 5 {
            assert(head(46, 6) == 105558);
        } else {
            lemma_pentagonal_grows(6, k);
            lemma_pentagonal_grows(6, k + 1);
            lemma_terms_end(46, k);
            lemma_terms_end(46, k + 1);
        }
    }
    lemma_row_done(46);
}

/// The row of `p(47)`: its value, and its sum step by step.
proof fn lemma_row_47()
    requires
        rows_right(46),
    ensures
        rows_right(47),
{
    assert(usize::MAX >= 0xffff_ffff);
    assert(partitions(7) == 15);
    assert(partitions(12) == 77);
    assert(partitions(21) == 792);
    assert(partitions(25) == 1958);
    assert(partitions(32) == 8349);
    assert(partitions(35) == 14883);
    assert(partitions(40) == 37338);
    assert(partitions(42) == 53174);
    assert(partitions(45) == 89134);
    assert(partitions(46) == 105558);
    assert(pentagonal(1) == 1);
    assert(pentagonal(2) == 5);
    assert(pentagonal(3) == 12);
    assert(pentagonal(4) == 22);
    assert(pentagonal(5) == 35);
    assert(pentagonal(6) == 51);
    lemma_terms_end(47, 6);
    assert(pair_term(47, 5) == 92);
    assert(partition_terms(47, 5) == 92);
    assert(pair_term(47, 4) == 2750);
    assert(partition_terms(47, 4) == -2658);
    assert(pair_term(47, 3) == 23232);
    assert(partition_terms(47, 3) == 20574);
    assert(pair_term(47, 2) == 90512);
    assert(partition_terms(47, 2) == -69938);
    assert(pair_term(47, 1) == 194692);
    assert(partition_terms(47, 1) == 124754);
    assert(partitions(47) == 124754);
    assert forall|k: int| 1 <= k <= 47 implies #[trigger] step_fits(47, k) by {
        if k == 1 {
            assert(head(47, 2) == 194692);
        } else if k == 2 {
            assert(head(47, 3) == 104180);
        } else if k == 3 {
            assert(head(47, 4) == 127412);
        } else if k == 4 {
            assert(head(47, 5) == 124662);
        } else if k == 5 {
            assert(head(47, 6) == 124754);
        } else {
            lemma_pentagonal_grows(6, k);
            lemma_pentagonal_grows(6, k + 1);
            lemma_terms_end(47, k);
            lemma_terms_end(47, k + 1);
        }
    }
    lemma_row_done(47);
}

/// The row of `p(48)`: its value, and its sum step by step.
proof fn lemma_row_48()
    requires
        rows_right(47),
    ensures
        rows_right(48),
{
    assert(usize::MAX >= 0xffff_ffff);
    assert(partitions(8) == 22);
    assert(partitions(13) == 101);
    assert(partitions(22) == 1002);
    assert(partitions(26) == 2436);
    assert(partitions(33) == 10143);
    assert(partitions(36) == 17977);
    assert(partitions(41) == 44583);
    assert(partitions(43) == 63261);
    assert(partitions(46) == 105558);
    assert(partitions(47) == 124754);
    assert(pentagonal(1) == 1);
    assert(pentagonal(2) == 5);
    assert(pentagonal(3) == 12);
    assert(pentagonal(4) == 22);
    assert(pentagonal(5) == 35);
    assert(pentagonal(6) == 51);
    lemma_terms_end(48, 6);
    assert(pair_term(48, 5) == 123);
    assert(partition_terms(48, 5) == 123);
    assert(pair_term(48, 4) == 3438);
    assert(partition_terms(48, 4) == -3315);
    assert(pair_term(48, 3) == 28120);
    assert(partition_terms(48, 3) == 24805);
    assert(pair_term(48, 2) == 107844);
    assert(partition_terms(48, 2) == -83039);
    assert(pair_term(48, 1) == 230312);
    assert(partition_terms(48, 1) == 147273);
    assert(partitions(48) == 147273);
    assert forall|k: int| 1 <= k <= 48 implies #[trigger] step_fits(48, k) by {
        if k == 1 {
            assert(head(48, 2) == 230312);
        } else if k == 2 {
            assert(head(48, 3) == 122468);
        } else if k == 3 {
            assert(head(48, 4) == 150588);
        } else if k == 4 {
            assert(head(48, 5) == 147150);
        } else if k == 5 {
            assert(head(48, 6) == 147273);
        } else {
            lemma_pentagonal_grows(6, k);
            lemma_pentagonal_grows(6, k + 1);
            lemma_terms_end(48, k);
            lemma_terms_end(48, k + 1);
        }
    }
    lemma_row_done(48);
}

/// The row of `p(49)`: its value, and its sum step by step.
proof fn lemma_row_49()
    requires
        rows_right(48),
    ensures
        rows_right(49),
{
    assert(usize::MAX >= 0xffff_ffff);
    assert(partitions(9) == 30);
    assert(partitions(14) == 135);
    assert(partitions(23) == 1255);
    assert(partitions(27) == 3010);
    assert(partitions(34) == 12310);
    assert(partitions(37) == 21637);
    assert(partitions(42) == 53174);
    assert(partitions(44) == 75175);
    assert(partitions(47) == 124754);
    assert(partitions(48) == 147273);
    assert(pentagonal(1) == 1);
    assert(pentagonal(2) == 5);
    assert(pentagonal(3) == 12);
    assert(pentagonal(4) == 22);
    assert(pentagonal(5) == 35);
    assert(pentagonal(6) == 51);
    lemma_terms_end(49, 6);
    assert(pair_term(49, 5) == 165);
    assert(partition_terms(49, 5) == 165);
    assert(pair_term(49, 4) == 4265);
    assert(partition_terms(49, 4) == -4100);
    assert(pair_term(49, 3) == 33947);
    assert(partition_terms(49, 3) == 29847);
    assert(pair_term(49, 2) == 128349);
    assert(partition_terms(49, 2) == -98502);
    assert(pair_term(49, 1) == 272027);
    assert(partition_terms(49, 1) == 173525);
    assert(partitions(49) == 173525);
    assert forall|k: int| 1 <= k <= 49 implies #[trigger] step_fits(49, k) by {
        if k == 1 {
            assert(head(49, 2) == 272027);
        } else if k == 2 {
            assert(head(49, 3) == 143678);
        } else if k == 3 {
            assert(head(49, 4) == 177625);
        } else if k == 4 {
            assert(head(49, 5) == 173360);
        } else if k == 5 {
            assert(head(49, 6) == 173525);
        } else {
            lemma_pentagonal_grows(6, k);
            lemma_pentagonal_grows(6, k + 1);
            lemma_terms_end(49, k);
            lemma_terms_end(49, k + 1);
        }
    }
    lemma_row_done(49);
}

/// The row of `p(50)`: its value, and its sum step by step.
proof fn lemma_row_50()
    requires
        rows_right(49),
    ensures
        rows_right(50),
{
    assert(usize::MAX >= 0xffff_ffff);
    assert(partitions(10) == 42);
    assert(partitions(15) == 176);
    assert(partitions(24) == 1575);
    assert(partitions(28) == 3718);
    assert(partitions(35) == 14883);
    assert(partitions(38) == 26015);
    assert(partitions(43) == 63261);
    assert(partitions(45) == 89134);
    assert(partitions(48) == 147273);
    assert(partitions(49) == 173525);
    assert(pentagonal(1) == 1);
    assert(pentagonal(2) == 5);
    assert(pentagonal(3) == 12);
    assert(pentagonal(4) == 22);
    assert(pentagonal(5) == 35);
    assert(pentagonal(6) == 51);
    lemma_terms_end(50, 6);
    assert(pair_term(50, 5) == 218);
    assert(partition_terms(50, 5) == 218);
    assert(pair_term(50, 4) == 5293);
    assert(partition_terms(50, 4) == -5075);
    assert(pair_term(50, 3) == 40898);
    assert(partition_terms(50, 3) == 35823);
    assert(pair_term(50, 2) == 152395);
    assert(partition_terms(50, 2) == -116572);
    assert(pair_term(50, 1) == 320798);
    assert(partition_terms(50, 1) == 204226);
    assert(partitions(50) == 204226);
    assert forall|k: int| 1 <= k <= 50 implies #[trigger] step_fits(50, k) by {
        if k == 1 {
            assert(head(50, 2) == 320798);
        } else if k == 2 {
            assert(head(50, 3) == 168403);
        } else if k == 3 {
            assert(head(50, 4) == 209301);
        } else if k == 4 {
            assert(head(50, 5) == 204008);
        } else if k == 5 {
            assert(head(50, 6) == 204226);
        } else {
            lemma_pentagonal_grows(6, k);
            lemma_pentagonal_grows(6, k + 1);
            lemma_terms_end(50, k);
            lemma_terms_end(50, k + 1);
        }
    }
    lemma_row_done(50);
}

/// The row of `p(51)`: its value, and its sum step by step.
proof fn lemma_row_51()
    requires
        rows_right(50),
    ensures
        rows_right(51),
{
    assert(usize::MAX >= 0xffff_ffff);
    assert(partitions(0) == 1);
    assert(partitions(11) == 56);
    assert(partitions(16) == 231);
    assert(partitions(25) == 1958);
    assert(partitions(29) == 4565);
    assert(partitions(36) == 17977);
    assert(partitions(39) == 31185);
    assert(partitions(44) == 75175);
    assert(partitions(46) == 105558);
    assert(partitions(49) == 173525);
    assert(partitions(50) == 204226);
    assert(pentagonal(1) == 1);
    assert(pentagonal(2) == 5);
    assert(pentagonal(3) == 12);
    assert(pentagonal(4) == 22);
    assert(pentagonal(5) == 35);
    assert(pentagonal(6) == 51);
    assert(pentagonal(7) == 70);
    lemma_terms_end(51, 7);
    assert(pair_term(51, 6) == 1);
    assert(partition_terms(51, 6) == -1);
    assert(pair_term(51, 5) == 287);
    assert(partition_terms(51, 5) == 286);
    assert(pair_term(51, 4) == 6523);
    assert(partition_terms(51, 4) == -6237);
    assert(pair_term(51, 3) == 49162);
    assert(partition_terms(51, 3) == 42925);
    assert(pair_term(51, 2) == 180733);
    assert(partition_terms(51, 2) == -137808);
    assert(pair_term(51, 1) == 377751);
    assert(partition_terms(51, 1) == 239943);
    assert(partitions(51) == 239943);
    assert forall|k: int| 1 <= k <= 51 implies #[trigger] step_fits(51, k) by {
        if k == 1 {
            assert(head(51, 2) == 377751);
        } else if k == 2 {
            assert(head(51, 3) == 197018);
        } else if k == 3 {
            assert(head(51, 4) == 246180);
        } else if k == 4 {
            assert(head(51, 5) == 239657);
        } else if k == 5 {
            assert(head(51, 6) == 239944);
        } else if k == 6 {
            assert(head(51, 7) == 239943);
        } else {
            lemma_pentagonal_grows(7, k);
            lemma_pentagonal_grows(7, k + 1);
            lemma_terms_end(51, k);
            lemma_terms_end(51, k + 1);
        }
    }
    lemma_row_done(51);
}

/// The row of `p(52)`: its value, and its sum step by step.
proof fn lemma_row_52()
    requires
        rows_right(51),
    ensures
        rows_right(52),
{
    assert(usize::MAX >= 0xffff_ffff);
    assert(partitions(1) == 1);
    assert(partitions(12) == 77);
    assert(partitions(17) == 297);
    assert(partitions(26) == 2436);
    assert(partitions(30) == 5604);
    assert(partitions(37) == 21637);
    assert(partitions(40) == 37338);
    assert(partitions(45) == 89134);
    assert(partitions(47) == 124754);
    assert(partitions(50) == 204226);
    assert(partitions(51) == 239943);
    assert(pentagonal(1) == 1);
    assert(pentagonal(2) == 5);
    assert(pentagonal(3) == 12);
    assert(pentagonal(4) == 22);
    assert(pentagonal(5) == 35);
    assert(pentagonal(6) == 51);
    assert(pentagonal(7) == 70);
    lemma_terms_end(52, 7);
    assert(pair_term(52, 6) == 1);
    assert(partition_terms(52, 6) == -1);
    assert(pair_term(52, 5) == 374);
    assert(partition_terms(52, 5) == 373);
    assert(pair_term(52, 4) == 8040);
    assert(partition_terms(52, 4) == -7667);
    assert(pair_term(52, 3) == 58975);
    assert(partition_terms(52, 3) == 51308);
    assert(pair_term(52, 2) == 213888);
    assert(partition_terms(52, 2) == -162580);
    assert(pair_term(52, 1) == 444169);
    assert(partition_terms(52, 1) == 281589);
    assert(partitions(52) == 281589);
    assert forall|k: int| 1 <= k <= 52 implies #[trigger] step_fits(52, k) by {
        if k == 1 {
            assert(head(52, 2) == 444169);
        } else if k == 2 {
            assert(head(52, 3) == 230281);
        } else if k == 3 {
            assert(head(52, 4) == 289256);
        } else if k == 4 {
            assert(head(52, 5) == 281216);
        } else if k == 5 {
            assert(head(52, 6) == 281590);
        } else if k == 6 {
            assert(head(52, 7) == 281589);
        } else {
            lemma_pentagonal_grows(7, k);
            lemma_pentagonal_grows(7, k + 1);
            lemma_terms_end(52, k);
            lemma_terms_end(52, k + 1);
        }
    }
    lemma_row_done(52);
}

/// The row of `p(53)`: its value, and its sum step by step.
proof fn lemma_row_53()
    requires
        rows_right(52),
    ensures
        rows_right(53),
{
    assert(usize::MAX >= 0xffff_ffff);
    assert(partitions(2) == 2);
    assert(partitions(13) == 101);
    assert(partitions(18) == 385);
    assert(partitions(27) == 3010);
    assert(partitions(31) == 6842);
    assert(partitions(38) == 26015);
    assert(partitions(41) == 44583);
    assert(partitions(46) == 105558);
    assert(partitions(48) == 147273);
    assert(partitions(51) == 239943);
    assert(partitions(52) == 281589);
    assert(pentagonal(1) == 1);
    assert(pentagonal(2) == 5);
    assert(pentagonal(3) == 12);
    assert(pentagonal(4) == 22);
    assert(pentagonal(5) == 35);
    assert(pentagonal(6) == 51);
    assert(pentagonal(7) == 70);
    lemma_terms_end(53, 7);
    assert(pair_term(53, 6) == 2);
    assert(partition_terms(53, 6) == -2);
    assert(pair_term(53, 5) == 486);
    assert(partition_terms(53, 5) == 484);
    assert(pair_term(53, 4) == 9852);
    assert(partition_terms(53, 4) == -9368);
    assert(pair_term(53, 3) == 70598);
    assert(partition_terms(53, 3) == 61230);
    assert(pair_term(53, 2) == 252831);
    assert(partition_terms(53, 2) == -191601);
    assert(pair_term(53, 1) == 521532);
    assert(partition_terms(53, 1) == 329931);
    assert(partitions(53) == 329931);
    assert forall|k: int| 1 <= k <= 53 implies #[trigger] step_fits(53, k) by {
        if k == 1 {
            assert(head(53, 2) == 521532);
        } else if k == 2 {
            assert(head(53, 3) == 268701);
        } else if k == 3 {
            assert(head(53, 4) == 339299);
        } else if k == 4 {
            assert(head(53, 5) == 329447);
        } else if k == 5 {
            assert(head(53, 6) == 329933);
        } else if k == 6 {
            assert(head(53, 7) == 329931);
        } else {
            lemma_pentagonal_grows(7, k);
            lemma_pentagonal_grows(7, k + 1);
            lemma_terms_end(53, k);
            lemma_terms_end(53, k + 1);
        }
    }
    lemma_row_done(53);
}

/// The row of `p(54)`: its value, and its sum step by step.
proof fn lemma_row_54()
    requires
        rows_right(53),
    ensures
        rows_right(54),
{
    assert(usize::MAX >= 0xffff_ffff);
    assert(partitions(3) == 3);
    assert(partitions(14) == 135);
    assert(partitions(19) == 490);
    assert(partitions(28) == 3718);
    assert(partitions(32) == 8349);
    assert(partitions(39) == 31185);
    assert(partitions(42) == 53174);
    assert(partitions(47) == 124754);
    assert(partitions(49) == 173525);
    assert(partitions(52) == 281589);
    assert(partitions(53) == 329931);
    assert(pentagonal(1) == 1);
    assert(pentagonal(2) == 5);
    assert(pentagonal(3) == 12);
    assert(pentagonal(4) == 22);
    assert(pentagonal(5) == 35);
    assert(pentagonal(6) == 51);
    assert(pentagonal(7) == 70);
    lemma_terms_end(54, 7);
    assert(pair_term(54, 6) == 3);
    assert(partition_terms(54, 6) == -3);
    assert(pair_term(54, 5) == 625);
    assert(partition_terms(54, 5) == 622);
    assert(pair_term(54, 4) == 12067);
    assert(partition_terms(54, 4) == -11445);
    assert(pair_term(54, 3) == 84359);
    assert(partition_terms(54, 3) == 72914);
    assert(pair_term(54, 2) == 298279);
    assert(partition_terms(54, 2) == -225365);
    assert(pair_term(54, 1) == 611520);
    assert(partition_terms(54, 1) == 386155);
    assert(partitions(54) == 386155);
    assert forall|k: int| 1 <= k <= 54 implies #[trigger] step_fits(54, k) by {
        if k == 1 {
            assert(head(54, 2) == 611520);
        } else if k == 2 {
            assert(head(54, 3) == 313241);
        } else if k == 3 {
            assert(head(54, 4) == 397600);
        } else if k == 4 {
            assert(head(54, 5) == 385533);
        } else if k == 5 {
            assert(head(54, 6) == 386158);
        } else if k == 6 {
            assert(head(54, 7) == 386155);
        } else {
            lemma_pentagonal_grows(7, k);
            lemma_pentagonal_grows(7, k + 1);
            lemma_terms_end(54, k);
            lemma_terms_end(54, k + 1);
        }
    }
    lemma_row_done(54);
}

/// The row of `p(55)`: its value, and its sum step by step.
proof fn lemma_row_55()
    requires
        rows_right(54),
    ensures
        rows_right(55),
{
    assert(usize::MAX >= 0xffff_ffff);
    assert(partitions(4) == 5);
    assert(partitions(15) == 176);
    assert(partitions(20) == 627);
    assert(partitions(29) == 4565);
    assert(partitions(33) == 10143);
    assert(partitions(40) == 37338);
    assert(partitions(43) == 63261);
    assert(partitions(48) == 147273);
    assert(partitions(50) == 204226);
    assert(partitions(53) == 329931);
    assert(partitions(54) == 386155);
    assert(pentagonal(1) == 1);
    assert(pentagonal(2) == 5);
    assert(pentagonal(3) == 12);
    assert(pentagonal(4) == 22);
    assert(pentagonal(5) == 35);
    assert(pentagonal(6) == 51);
    assert(pentagonal(7) == 70);
    lemma_terms_end(55, 7);
    assert(pair_term(55, 6) == 5);
    assert(partition_terms(55, 6) == -5);
    assert(pair_term(55, 5) == 803);
    assert(partition_terms(55, 5) == 798);
    assert(pair_term(55, 4) == 14708);
    assert(partition_terms(55, 4) == -13910);
    assert(pair_term(55, 3) == 100599);
    assert(partition_terms(55, 3) == 86689);
    assert(pair_term(55, 2) == 351499);
    assert(partition_terms(55, 2) == -264810);
    assert(pair_term(55, 1) == 716086);
    assert(partition_terms(55, 1) == 451276);
    assert(partitions(55) == 451276);
    assert forall|k: int| 1 <= k <= 55 implies #[trigger] step_fits(55, k) by {
        if k == 1 {
            assert(head(55, 2) == 716086);
        } else if k == 2 {
            assert(head(55, 3) == 364587);
        } else if k == 3 {
            assert(head(55, 4) == 465186);
        } else if k == 4 {
            assert(head(55, 5) == 450478);
        } else if k == 5 {
            assert(head(55, 6) == 451281);
        } else if k == 6 {
            assert(head(55, 7) == 451276);
        } else {
            lemma_pentagonal_grows(7, k);
            lemma_pentagonal_grows(7, k + 1);
            lemma_terms_end(55, k);
            lemma_terms_end(55, k + 1);
        }
    }
    lemma_row_done(55);
}

/// The row of `p(56)`: its value, and its sum step by step.
proof fn lemma_row_56()
    requires
        rows_right(55),
    ensures
        rows_right(56),
{
    assert(usize::MAX >= 0xffff_ffff);
    assert(partitions(5) == 7);
    assert(partitions(16) == 231);
    assert(partitions(21) == 792);
    assert(partitions(30) == 5604);
    assert(partitions(34) == 12310);
    assert(partitions(41) == 44583);
    assert(partitions(44) == 75175);
    assert(partitions(49) == 173525);
    assert(partitions(51) == 239943);
    assert(partitions(54) == 386155);
    assert(partitions(55) == 451276);
    assert(pentagonal(1) == 1);
    assert(pentagonal(2) == 5);
    assert(pentagonal(3) == 12);
    assert(pentagonal(4) == 22);
    assert(pentagonal(5) == 35);
    assert(pentagonal(6) == 51);
    assert(pentagonal(7) == 70);
    lemma_terms_end(56, 7);
    assert(pair_term(56, 6) == 7);
    assert(partition_terms(56, 6) == -7);
    assert(pair_term(56, 5) == 1023);
    assert(partition_terms(56, 5) == 1016);
    assert(pair_term(56, 4) == 17914);
    assert(partition_terms(56, 4) == -16898);
    assert(pair_term(56, 3) == 119758);
    assert(partition_terms(56, 3) == 102860);
    assert(pair_term(56, 2) == 413468);
    assert(partition_terms(56, 2) == -310608);
    assert(pair_term(56, 1) == 837431);
    assert(partition_terms(56, 1) == 526823);
    assert(partitions(56) == 526823);
    assert forall|k: int| 1 <= k <= 56 implies #[trigger] step_fits(56, k) by {
        if k == 1 {
            assert(head(56, 2) == 837431);
        } else if k == 2 {
            assert(head(56, 3) == 423963);
        } else if k == 3 {
            assert(head(56, 4) == 543721);
        } else if k == 4 {
            assert(head(56, 5) == 525807);
        } else if k == 5 {
            assert(head(56, 6) == 526830);
        } else if k == 6 {
            assert(head(56, 7) == 526823);
        } else {
            lemma_pentagonal_grows(7, k);
            lemma_pentagonal_grows(7, k + 1);
            lemma_terms_end(56, k);
            lemma_terms_end(56, k + 1);
        }
    }
    lemma_row_done(56);
}

/// The row of `p(57)`: its value, and its sum step by step.
proof fn lemma_row_57()
    requires
        rows_right(56),
    ensures
        rows_right(57),
{
    assert(usize::MAX >= 0xffff_ffff);
    assert(partitions(0) == 1);
    assert(partitions(6) == 11);
    assert(partitions(17) == 297);
    assert(partitions(22) == 1002);
    assert(partitions(31) == 6842);
    assert(partitions(35) == 14883);
    assert(partitions(42) == 53174);
    assert(partitions(45) == 89134);
    assert(partitions(50) == 204226);
    assert(partitions(52) == 281589);
    assert(partitions(55) == 451276);
    assert(partitions(56) == 526823);
    assert(pentagonal(1) == 1);
    assert(pentagonal(2) == 5);
    assert(pentagonal(3) == 12);
    assert(pentagonal(4) == 22);
    assert(pentagonal(5) == 35);
    assert(pentagonal(6) == 51);
    assert(pentagonal(7) == 70);
    lemma_terms_end(57, 7);
    assert(pair_term(57, 6) == 12);
    assert(partition_terms(57, 6) == -12);
    assert(pair_term(57, 5) == 1299);
    assert(partition_terms(57, 5) == 1287);
    assert(pair_term(57, 4) == 21725);
    assert(partition_terms(57, 4) == -20438);
    assert(pair_term(57, 3) == 142308);
    assert(partition_terms(57, 3) == 121870);
    assert(pair_term(57, 2) == 485815);
    assert(partition_terms(57, 2) == -363945);
    assert(pair_term(57, 1) == 978099);
    assert(partition_terms(57, 1) == 614154);
    assert(partitions(57) == 614154);
    assert forall|k: int| 1 <= k <= 57 implies #[trigger] step_fits(57, k) by {
        if k == 1 {
            assert(head(57, 2) == 978099);
        } else if k == 2 {
            assert(head(57, 3) == 492284);
        } else if k == 3 {
            assert(head(57, 4) == 634592);
        } else if k == 4 {
            assert(head(57, 5) == 612867);
        } else if k == 5 {
            assert(head(57, 6) == 614166);
        } else if k == 6 {
            assert(head(57, 7) == 614154);
        } else {
            lemma_pentagonal_grows(7, k);
            lemma_pentagonal_grows(7, k + 1);
            lemma_terms_end(57, k);
            lemma_terms_end(57, k + 1);
        }
    }
    lemma_row_done(57);
}

/// The row of `p(58)`: its value, and its sum step by step.
proof fn lemma_row_58()
    requires
        rows_right(57),
    ensures
        rows_right(58),
{
    assert(usize::MAX >= 0xffff_ffff);
    assert(partitions(1) == 1);
    assert(partitions(7) == 15);
    assert(partitions(18) == 385);
    assert(partitions(23) == 1255);
    assert(partitions(32) == 8349);
    assert(partitions(36) == 17977);
    assert(partitions(43) == 63261);
    assert(partitions(46) == 105558);
    assert(partitions(51) == 239943);
    assert(partitions(53) == 329931);
    assert(partitions(56) == 526823);
    assert(partitions(57) == 614154);
    assert(pentagonal(1) == 1);
    assert(pentagonal(2) == 5);
    assert(pentagonal(3) == 12);
    assert(pentagonal(4) == 22);
    assert(pentagonal(5) == 35);
    assert(pentagonal(6) == 51);
    assert(pentagonal(7) == 70);
    lemma_terms_end(58, 7);
    assert(pair_term(58, 6) == 16);
    assert(partition_terms(58, 6) == -16);
    assert(pair_term(58, 5) == 1640);
    assert(partition_terms(58, 5) == 1624);
    assert(pair_term(58, 4) == 26326);
    assert(partition_terms(58, 4) == -24702);
    assert(pair_term(58, 3) == 168819);
    assert(partition_terms(58, 3) == 144117);
    assert(pair_term(58, 2) == 569874);
    assert(partition_terms(58, 2) == -425757);
    assert(pair_term(58, 1) == 1140977);
    assert(partition_terms(58, 1) == 715220);
    assert(partitions(58) == 715220);
    assert forall|k: int| 1 <= k <= 58 implies #[trigger] step_fits(58, k) by {
        if k == 1 {
            assert(head(58, 2) == 1140977);
        } else if k == 2 {
            assert(head(58, 3) == 571103);
        } else if k == 3 {
            assert(head(58, 4) == 739922);
        } else if k == 4 {
            assert(head(58, 5) == 713596);
        } else if k == 5 {
            assert(head(58, 6) == 715236);
        } else if k == 6 {
            assert(head(58, 7) == 715220);
        } else {
            lemma_pentagonal_grows(7, k);
            lemma_pentagonal_grows(7, k + 1);
            lemma_terms_end(58, k);
            lemma_terms_end(58, k + 1);
        }
    }
    lemma_row_done(58);
}

/// The row of `p(59)`: its value, and its sum step by step.
proof fn lemma_row_59()
    requires
        rows_right(58),
    ensures
        rows_right(59),
{
    assert(usize::MAX >= 0xffff_ffff);
    assert(partitions(2) == 2);
    assert(partitions(8) == 22);
    assert(partitions(19) == 490);
    assert(partitions(24) == 1575);
    assert(partitions(33) == 10143);
    assert(partitions(37) == 21637);
    assert(partitions(44) == 75175);
    assert(partitions(47) == 124754);
    assert(partitions(52) == 281589);
    assert(partitions(54) == 386155);
    assert(partitions(57) == 614154);
    assert(partitions(58) == 715220);
    assert(pentagonal(1) == 1);
    assert(pentagonal(2) == 5);
    assert(pentagonal(3) == 12);
    assert(pentagonal(4) == 22);
    assert(pentagonal(5) == 35);
    assert(pentagonal(6) == 51);
    assert(pentagonal(7) == 70);
    lemma_terms_end(59, 7);
    assert(pair_term(59, 6) == 24);
    assert(partition_terms(59, 6) == -24);
    assert(pair_term(59, 5) == 2065);
    assert(partition_terms(59, 5) == 2041);
    assert(pair_term(59, 4) == 31780);
    assert(partition_terms(59, 4) == -29739);
    assert(pair_term(59, 3) == 199929);
    assert(partition_terms(59, 3) == 170190);
    assert(pair_term(59, 2) == 667744);
    assert(partition_terms(59, 2) == -497554);
    assert(pair_term(59, 1) == 1329374);
    assert(partition_terms(59, 1) == 831820);
    assert(partitions(59) == 831820);
    assert forall|k: int| 1 <= k <= 59 implies #[trigger] step_fits(59, k) by {
        if k == 1 {
            assert(head(59, 2) == 1329374);
        } else if k == 2 {
            assert(head(59, 3) == 661630);
        } else if k == 3 {
            assert(head(59, 4) == 861559);
        } else if k == 4 {
            assert(head(59, 5) == 829779);
        } else if k == 5 {
            assert(head(59, 6) == 831844);
        } else if k == 6 {
            assert(head(59, 7) == 831820);
        } else {
            lemma_pentagonal_grows(7, k);
            lemma_pentagonal_grows(7, k + 1);
            lemma_terms_end(59, k);
            lemma_terms_end(59, k + 1);
        }
    }
    lemma_row_done(59);
}

/// The row of `p(60)`: its value, and its sum step by step.
proof fn lemma_row_60()
    requires
        rows_right(59),
    ensures
        rows_right(60),
{
    assert(usize::MAX >= 0xffff_ffff);
    assert(partitions(3) == 3);
    assert(partitions(9) == 30);
    assert(partitions(20) == 627);
    assert(partitions(25) == 1958);
    assert(partitions(34) == 12310);
    assert(partitions(38) == 26015);
    assert(partitions(45) == 89134);
    assert(partitions(48) == 147273);
    assert(partitions(53) == 329931);
    assert(partitions(55) == 451276);
    assert(partitions(58) == 715220);
    assert(partitions(59) == 831820);
    assert(pentagonal(1) == 1);
    assert(pentagonal(2) == 5);
    assert(pentagonal(3) == 12);
    assert(pentagonal(4) == 22);
    assert(pentagonal(5) == 35);
    assert(pentagonal(6) == 51);
    assert(pentagonal(7) == 70);
    lemma_terms_end(60, 7);
    assert(pair_term(60, 6) == 33);
    assert(partition_terms(60, 6) == -33);
    assert(pair_term(60, 5) == 2585);
    assert(partition_terms(60, 5) == 2552);
    assert(pair_term(60, 4) == 38325);
    assert(partition_terms(60, 4) == -35773);
    assert(pair_term(60, 3) == 236407);
    assert(partition_terms(60, 3) == 200634);
    assert(pair_term(60, 2) == 781207);
    assert(partition_terms(60, 2) == -580573);
    assert(pair_term(60, 1) == 1547040);
    assert(partition_terms(60, 1) == 966467);
    assert(partitions(60) == 966467);
    assert forall|k: int| 1 <= k <= 60 implies #[trigger] step_fits(60, k) by {
        if k == 1 {
            assert(head(60, 2) == 1547040);
        } else if k == 2 {
            assert(head(60, 3) == 765833);
        } else if k == 3 {
            assert(head(60, 4) == 1002240);
        } else if k == 4 {
            assert(head(60, 5) == 963915);
        } else if k == 5 {
            assert(head(60, 6) == 966500);
        } else if k == 6 {
            assert(head(60, 7) == 966467);
        } else {
            lemma_pentagonal_grows(7, k);
            lemma_pentagonal_grows(7, k + 1);
            lemma_terms_end(60, k);
            lemma_terms_end(60, k + 1);
        }
    }
    lemma_row_done(60);
}

/// The row of `p(61)`: its value, and its sum step by step.
proof fn lemma_row_61()
    requires
        rows_right(60),
    ensures
        rows_right(61),
{
    assert(usize::MAX >= 0xffff_ffff);
    assert(partitions(4) == 5);
    assert(partitions(10) == 42);
    assert(partitions(21) == 792);
    assert(partitions(26) == 2436);
    assert(partitions(35) == 14883);
    assert(partitions(39) == 31185);
    assert(partitions(46) == 105558);
    assert(partitions(49) == 173525);
    assert(partitions(54) == 386155);
    assert(partitions(56) == 526823);
    assert(partitions(59) == 831820);
    assert(partitions(60) == 966467);
    assert(pentagonal(1) == 1);
    assert(pentagonal(2) == 5);
    assert(pentagonal(3) == 12);
    assert(pentagonal(4) == 22);
    assert(pentagonal(5) == 35);
    assert(pentagonal(6) == 51);
    assert(pentagonal(7) == 70);
    lemma_terms_end(61, 7);
    assert(pair_term(61, 6) == 47);
    assert(partition_terms(61, 6) == -47);
    assert(pair_term(61, 5) == 3228);
    assert(partition_terms(61, 5) == 3181);
    assert(pair_term(61, 4) == 46068);
    assert(partition_terms(61, 4) == -42887);
    assert(pair_term(61, 3) == 279083);
    assert(partition_terms(61, 3) == 236196);
    assert(pair_term(61, 2) == 912978);
    assert(partition_terms(61, 2) == -676782);
    assert(pair_term(61, 1) == 1798287);
    assert(partition_terms(61, 1) == 1121505);
    assert(partitions(61) == 1121505);
    assert forall|k: int| 1 <= k <= 61 implies #[trigger] step_fits(61, k) by {
        if k == 1 {
            assert(head(61, 2) == 1798287);
        } else if k == 2 {
            assert(head(61, 3) == 885309);
        } else if k == 3 {
            assert(head(61, 4) == 1164392);
        } else if k == 4 {
            assert(head(61, 5) == 1118324);
        } else if k == 5 {
            assert(head(61, 6) == 1121552);
        } else if k == 6 {
            assert(head(61, 7) == 1121505);
        } else {
            lemma_pentagonal_grows(7, k);
            lemma_pentagonal_grows(7, k + 1);
            lemma_terms_end(61, k);
            lemma_terms_end(61, k + 1);
        }
    }
    lemma_row_done(61);
}

/// The row of `p(62)`: its value, and its sum step by step.
proof fn lemma_row_62()
    requires
        rows_right(61),
    ensures
        rows_right(62),
{
    assert(usize::MAX >= 0xffff_ffff);
    assert(partitions(5) == 7);
    assert(partitions(11) == 56);
    assert(partitions(22) == 1002);
    assert(partitions(27) == 3010);
    assert(partitions(36) == 17977);
    assert(partitions(40) == 37338);
    assert(partitions(47) == 124754);
    assert(partitions(50) == 204226);
    assert(partitions(55) == 451276);
    assert(partitions(57) == 614154);
    assert(partitions(60) == 966467);
    assert(partitions(61) == 1121505);
    assert(pentagonal(1) == 1);
    assert(pentagonal(2) == 5);
    assert(pentagonal(3) == 12);
    assert(pentagonal(4) == 22);
    assert(pentagonal(5) == 35);
    assert(pentagonal(6) == 51);
    assert(pentagonal(7) == 70);
    lemma_terms_end(62, 7);
    assert(pair_term(62, 6) == 63);
    assert(partition_terms(62, 6) == -63);
    assert(pair_term(62, 5) == 4012);
    assert(partition_terms(62, 5) == 3949);
    assert(pair_term(62, 4) == 55315);
    assert(partition_terms(62, 4) == -51366);
    assert(pair_term(62, 3) == 328980);
    assert(partition_terms(62, 3) == 277614);
    assert(pair_term(62, 2) == 1065430);
    assert(partition_terms(62, 2) == -787816);
    assert(pair_term(62, 1) == 2087972);
    assert(partition_terms(62, 1) == 1300156);
    assert(partitions(62) == 1300156);
    assert forall|k: int| 1 <= k <= 62 implies #[trigger] step_fits(62, k) by {
        if k == 1 {
            assert(head(62, 2) == 2087972);
        } else if k == 2 {
            assert(head(62, 3) == 1022542);
        } else if k == 3 {
            assert(head(62, 4) == 1351522);
        } else if k == 4 {
            assert(head(62, 5) == 1296207);
        } else if k == 5 {
            assert(head(62, 6) == 1300219);
        } else if k == 6 {
            assert(head(62, 7) == 1300156);
        } else {
            lemma_pentagonal_grows(7, k);
            lemma_pentagonal_grows(7, k + 1);
            lemma_terms_end(62, k);
            lemma_terms_end(62, k + 1);
        }
    }
    lemma_row_done(62);
}

/// The row of `p(63)`: its value, and its sum step by step.
proof fn lemma_row_63()
    requires
        rows_right(62),
    ensures
        rows_right(63),
{
    assert(usize::MAX >= 0xffff_ffff);
    assert(partitions(6) == 11);
    assert(partitions(12) == 77);
    assert(partitions(23) == 1255);
    assert(partitions(28) == 3718);
    assert(partitions(37) == 21637);
    assert(partitions(41) == 44583);
    assert(partitions(48) == 147273);
    assert(partitions(51) == 239943);
    assert(partitions(56) == 526823);
    assert(partitions(58) == 715220);
    assert(partitions(61) == 1121505);
    assert(partitions(62) == 1300156);
    assert(pentagonal(1) == 1);
    assert(pentagonal(2) == 5);
    assert(pentagonal(3) == 12);
    assert(pentagonal(4) == 22);
    assert(pentagonal(5) == 35);
    assert(pentagonal(6) == 51);
    assert(pentagonal(7) == 70);
    lemma_terms_end(63, 7);
    assert(pair_term(63, 6) == 88);
    assert(partition_terms(63, 6) == -88);
    assert(pair_term(63, 5) == 4973);
    assert(partition_terms(63, 5) == 4885);
    assert(pair_term(63, 4) == 66220);
    assert(partition_terms(63, 4) == -61335);
    assert(pair_term(63, 3) == 387216);
    assert(partition_terms(63, 3) == 325881);
    assert(pair_term(63, 2) == 1242043);
    assert(partition_terms(63, 2) == -916162);
    assert(pair_term(63, 1) == 2421661);
    assert(partition_terms(63, 1) == 1505499);
    assert(partitions(63) == 1505499);
    assert forall|k: int| 1 <= k <= 63 implies #[trigger] step_fits(63, k) by {
        if k == 1 {
            assert(head(63, 2) == 2421661);
        } else if k == 2 {
            assert(head(63, 3) == 1179618);
        } else if k == 3 {
            assert(head(63, 4) == 1566834);
        } else if k == 4 {
            assert(head(63, 5) == 1500614);
        } else if k == 5 {
            assert(head(63, 6) == 1505587);
        } else if k == 6 {
            assert(head(63, 7) == 1505499);
        } else {
            lemma_pentagonal_grows(7, k);
            lemma_pentagonal_grows(7, k + 1);
            lemma_terms_end(63, k);
            lemma_terms_end(63, k + 1);
        }
    }
    lemma_row_done(63);
}

/// The row of `p(64)`: its value, and its sum step by step.
proof fn lemma_row_64()
    requires
        rows_right(63),
    ensures
        rows_right(64),
{
    assert(usize::MAX >= 0xffff_ffff);
    assert(partitions(7) == 15);
    assert(partitions(13) == 101);
    assert(partitions(24) == 1575);
    assert(partitions(29) == 4565);
    assert(partitions(38) == 26015);
    assert(partitions(42) == 53174);
    assert(partitions(49) == 173525);
    assert(partitions(52) == 281589);
    assert(partitions(57) == 614154);
    assert(partitions(59) == 831820);
    assert(partitions(62) == 1300156);
    assert(partitions(63) == 1505499);
    assert(pentagonal(1) == 1);
    assert(pentagonal(2) == 5);
    assert(pentagonal(3) == 12);
    assert(pentagonal(4) == 22);
    assert(pentagonal(5) == 35);
    assert(pentagonal(6) == 51);
    assert(pentagonal(7) == 70);
    lemma_terms_end(64, 7);
    assert(pair_term(64, 6) == 116);
    assert(partition_terms(64, 6) == -116);
    assert(pair_term(64, 5) == 6140);
    assert(partition_terms(64, 5) == 6024);
    assert(pair_term(64, 4) == 79189);
    assert(partition_terms(64, 4) == -73165);
    assert(pair_term(64, 3) == 455114);
    assert(partition_terms(64, 3) == 381949);
    assert(pair_term(64, 2) == 1445974);
    assert(partition_terms(64, 2) == -1064025);
    assert(pair_term(64, 1) == 2805655);
    assert(partition_terms(64, 1) == 1741630);
    assert(partitions(64) == 1741630);
    assert forall|k: int| 1 <= k <= 64 implies #[trigger] step_fits(64, k) by {
        if k == 1 {
            assert(head(64, 2) == 2805655);
        } else if k == 2 {
            assert(head(64, 3) == 1359681);
        } else if k == 3 {
            assert(head(64, 4) == 1814795);
        } else if k == 4 {
            assert(head(64, 5) == 1735606);
        } else if k == 5 {
            assert(head(64, 6) == 1741746);
        } else if k == 6 {
            assert(head(64, 7) == 1741630);
        } else {
            lemma_pentagonal_grows(7, k);
            lemma_pentagonal_grows(7, k + 1);
            lemma_terms_end(64, k);
            lemma_terms_end(64, k + 1);
        }
    }
    lemma_row_done(64);
}

/// The row of `p(65)`: its value, and its sum step by step.
proof fn lemma_row_65()
    requires
        rows_right(64),
    ensures
        rows_right(65),
{
    assert(usize::MAX >= 0xffff_ffff);
    assert(partitions(8) == 22);
    assert(partitions(14) == 135);
    assert(partitions(25) == 1958);
    assert(partitions(30) == 5604);
    assert(partitions(39) == 31185);
    assert(partitions(43) == 63261);
    assert(partitions(50) == 204226);
    assert(partitions(53) == 329931);
    assert(partitions(58) == 715220);
    assert(partitions(60) == 966467);
    assert(partitions(63) == 1505499);
    assert(partitions(64) == 1741630);
    assert(pentagonal(1) == 1);
    assert(pentagonal(2) == 5);
    assert(pentagonal(3) == 12);
    assert(pentagonal(4) == 22);
    assert(pentagonal(5) == 35);
    assert(pentagonal(6) == 51);
    assert(pentagonal(7) == 70);
    lemma_terms_end(65, 7);
    assert(pair_term(65, 6) == 157);
    assert(partition_terms(65, 6) == -157);
    assert(pair_term(65, 5) == 7562);
    assert(partition_terms(65, 5) == 7405);
    assert(pair_term(65, 4) == 94446);
    assert(partition_terms(65, 4) == -87041);
    assert(pair_term(65, 3) == 534157);
    assert(partition_terms(65, 3) == 447116);
    assert(pair_term(65, 2) == 1681687);
    assert(partition_terms(65, 2) == -1234571);
    assert(pair_term(65, 1) == 3247129);
    assert(partition_terms(65, 1) == 2012558);
    assert(partitions(65) == 2012558);
    assert forall|k: int| 1 <= k <= 65 implies #[trigger] step_fits(65, k) by {
        if k == 1 {
            assert(head(65, 2) == 3247129);
        } else if k == 2 {
            assert(head(65, 3) == 1565442);
        } else if k == 3 {
            assert(head(65, 4) == 2099599);
        } else if k == 4 {
            assert(head(65, 5) == 2005153);
        } else if k == 5 {
            assert(head(65, 6) == 2012715);
        } else if k == 6 {
            assert(head(65, 7) == 2012558);
        } else {
            lemma_pentagonal_grows(7, k);
            lemma_pentagonal_grows(7, k + 1);
            lemma_terms_end(65, k);
            lemma_terms_end(65, k + 1);
        }
    }
    lemma_row_done(65);
}

/// The row of `p(66)`: its value, and its sum step by step.
proof fn lemma_row_66()
    requires
        rows_right(65),
    ensures
        rows_right(66),
{
    assert(usize::MAX >= 0xffff_ffff);
    assert(partitions(9) == 30);
    assert(partitions(15) == 176);
    assert(partitions(26) == 2436);
    assert(partitions(31) == 6842);
    assert(partitions(40) == 37338);
    assert(partitions(44) == 75175);
    assert(partitions(51) == 239943);
    assert(partitions(54) == 386155);
    assert(partitions(59) == 831820);
    assert(partitions(61) == 1121505);
    assert(partitions(64) == 1741630);
    assert(partitions(65) == 2012558);
    assert(pentagonal(1) == 1);
    assert(pentagonal(2) == 5);
    assert(pentagonal(3) == 12);
    assert(pentagonal(4) == 22);
    assert(pentagonal(5) == 35);
    assert(pentagonal(6) == 51);
    assert(pentagonal(7) == 70);
    lemma_terms_end(66, 7);
    assert(pair_term(66, 6) == 206);
    assert(partition_terms(66, 6) == -206);
    assert(pair_term(66, 5) == 9278);
    assert(partition_terms(66, 5) == 9072);
    assert(pair_term(66, 4) == 112513);
    assert(partition_terms(66, 4) == -103441);
    assert(pair_term(66, 3) == 626098);
    assert(partition_terms(66, 3) == 522657);
    assert(pair_term(66, 2) == 1953325);
    assert(partition_terms(66, 2) == -1430668);
    assert(pair_term(66, 1) == 3754188);
    assert(partition_terms(66, 1) == 2323520);
    assert(partitions(66) == 2323520);
    assert forall|k: int| 1 <= k <= 66 implies #[trigger] step_fits(66, k) by {
        if k == 1 {
            assert(head(66, 2) == 3754188);
        } else if k == 2 {
            assert(head(66, 3) == 1800863);
        } else if k == 3 {
            assert(head(66, 4) == 2426961);
        } else if k == 4 {
            assert(head(66, 5) == 2314448);
        } else if k == 5 {
            assert(head(66, 6) == 2323726);
        } else if k == 6 {
            assert(head(66, 7) == 2323520);
        } else {
            lemma_pentagonal_grows(7, k);
            lemma_pentagonal_grows(7, k + 1);
            lemma_terms_end(66, k);
            lemma_terms_end(66, k + 1);
        }
    }
    lemma_row_done(66);
}

/// The row of `p(67)`: its value, and its sum step by step.
proof fn lemma_row_67()
    requires
        rows_right(66),
    ensures
        rows_right(67),
{
    assert(usize::MAX >= 0xffff_ffff);
    assert(partitions(10) == 42);
    assert(partitions(16) == 231);
    assert(partitions(27) == 3010);
    assert(partitions(32) == 8349);
    assert(partitions(41) == 44583);
    assert(partitions(45) == 89134);
    assert(partitions(52) == 281589);
    assert(partitions(55) == 451276);
    assert(partitions(60) == 966467);
    assert(partitions(62) == 1300156);
    assert(partitions(65) == 2012558);
    assert(partitions(66) == 2323520);
    assert(pentagonal(1) == 1);
    assert(pentagonal(2) == 5);
    assert(pentagonal(3) == 12);
    assert(pentagonal(4) == 22);
    assert(pentagonal(5) == 35);
    assert(pentagonal(6) == 51);
    assert(pentagonal(7) == 70);
    lemma_terms_end(67, 7);
    assert(pair_term(67, 6) == 273);
    assert(partition_terms(67, 6) == -273);
    assert(pair_term(67, 5) == 11359);
    assert(partition_terms(67, 5) == 11086);
    assert(pair_term(67, 4) == 133717);
    assert(partition_terms(67, 4) == -122631);
    assert(pair_term(67, 3) == 732865);
    assert(partition_terms(67, 3) == 610234);
    assert(pair_term(67, 2) == 2266623);
    assert(partition_terms(67, 2) == -1656389);
    assert(pair_term(67, 1) == 4336078);
    assert(partition_terms(67, 1) == 2679689);
    assert(partitions(67) == 2679689);
    assert forall|k: int| 1 <= k <= 67 implies #[trigger] step_fits(67, k) by {
        if k == 1 {
            assert(head(67, 2) == 4336078);
        } else if k == 2 {
            assert(head(67, 3) == 2069455);
        } else if k == 3 {
            assert(head(67, 4) == 2802320);
        } else if k == 4 {
            assert(head(67, 5) == 2668603);
        } else if k == 5 {
            assert(head(67, 6) == 2679962);
        } else if k == 6 {
            assert(head(67, 7) == 2679689);
        } else {
            lemma_pentagonal_grows(7, k);
            lemma_pentagonal_grows(7, k + 1);
            lemma_terms_end(67, k);
            lemma_terms_end(67, k + 1);
        }
    }
    lemma_row_done(67);
}

/// The row of `p(68)`: its value, and its sum step by step.
proof fn lemma_row_68()
    requires
        rows_right(67),
    ensures
        rows_right(68),
{
    assert(usize::MAX >= 0xffff_ffff);
    assert(partitions(11) == 56);
    assert(partitions(17) == 297);
    assert(partitions(28) == 3718);
    assert(partitions(33) == 10143);
    assert(partitions(42) == 53174);
    assert(partitions(46) == 105558);
    assert(partitions(53) == 329931);
    assert(partitions(56) == 526823);
    assert(partitions(61) == 1121505);
    assert(partitions(63) == 1505499);
    assert(partitions(66) == 2323520);
    assert(partitions(67) == 2679689);
    assert(pentagonal(1) == 1);
    assert(pentagonal(2) == 5);
    assert(pentagonal(3) == 12);
    assert(pentagonal(4) == 22);
    assert(pentagonal(5) == 35);
    assert(pentagonal(6) == 51);
    assert(pentagonal(7) == 70);
    lemma_terms_end(68, 7);
    assert(pair_term(68, 6) == 353);
    assert(partition_terms(68, 6) == -353);
    assert(pair_term(68, 5) == 13861);
    assert(partition_terms(68, 5) == 13508);
    assert(pair_term(68, 4) == 158732);
    assert(partition_terms(68, 4) == -145224);
    assert(pair_term(68, 3) == 856754);
    assert(partition_terms(68, 3) == 711530);
    assert(pair_term(68, 2) == 2627004);
    assert(partition_terms(68, 2) == -1915474);
    assert(pair_term(68, 1) == 5003209);
    assert(partition_terms(68, 1) == 3087735);
    assert(partitions(68) == 3087735);
    assert forall|k: int| 1 <= k <= 68 implies #[trigger] step_fits(68, k) by {
        if k == 1 {
            assert(head(68, 2) == 5003209);
        } else if k == 2 {
            assert(head(68, 3) == 2376205);
        } else if k == 3 {
            assert(head(68, 4) == 3232959);
        } else if k == 4 {
            assert(head(68, 5) == 3074227);
        } else if k == 5 {
            assert(head(68, 6) == 3088088);
        } else if k == 6 {
            assert(head(68, 7) == 3087735);
        } else {
            lemma_pentagonal_grows(7, k);
            lemma_pentagonal_grows(7, k + 1);
            lemma_terms_end(68, k);
            lemma_terms_end(68, k + 1);
        }
    }
    lemma_row_done(68);
}

/// The row of `p(69)`: its value, and its sum step by step.
proof fn lemma_row_69()
    requires
        rows_right(68),
    ensures
        rows_right(69),
{
    assert(usize::MAX >= 0xffff_ffff);
    assert(partitions(12) == 77);
    assert(partitions(18) == 385);
    assert(partitions(29) == 4565);
    assert(partitions(34) == 12310);
    assert(partitions(43) == 63261);
    assert(partitions(47) == 124754);
    assert(partitions(54) == 386155);
    assert(partitions(57) == 614154);
    assert(partitions(62) == 1300156);
    assert(partitions(64) == 1741630);
    assert(partitions(67) == 2679689);
    assert(partitions(68) == 3087735);
    assert(pentagonal(1) == 1);
    assert(pentagonal(2) == 5);
    assert(pentagonal(3) == 12);
    assert(pentagonal(4) == 22);
    assert(pentagonal(5) == 35);
    assert(pentagonal(6) == 51);
    assert(pentagonal(7) == 70);
    lemma_terms_end(69, 7);
    assert(pair_term(69, 6) == 462);
    assert(partition_terms(69, 6) == -462);
    assert(pair_term(69, 5) == 16875);
    assert(partition_terms(69, 5) == 16413);
    assert(pair_term(69, 4) == 188015);
    assert(partition_terms(69, 4) == -171602);
    assert(pair_term(69, 3) == 1000309);
    assert(partition_terms(69, 3) == 828707);
    assert(pair_term(69, 2) == 3041786);
    assert(partition_terms(69, 2) == -2213079);
    assert(pair_term(69, 1) == 5767424);
    assert(partition_terms(69, 1) == 3554345);
    assert(partitions(69) == 3554345);
    assert forall|k: int| 1 <= k <= 69 implies #[trigger] step_fits(69, k) by {
        if k == 1 {
            assert(head(69, 2) == 5767424);
        } else if k == 2 {
            assert(head(69, 3) == 2725638);
        } else if k == 3 {
            assert(head(69, 4) == 3725947);
        } else if k == 4 {
            assert(head(69, 5) == 3537932);
        } else if k == 5 {
            assert(head(69, 6) == 3554807);
        } else if k == 6 {
            assert(head(69, 7) == 3554345);
        } else {
            lemma_pentagonal_grows(7, k);
            lemma_pentagonal_grows(7, k + 1);
            lemma_terms_end(69, k);
            lemma_terms_end(69, k + 1);
        }
    }
    lemma_row_done(69);
}

/// The row of `p(70)`: its value, and its sum step by step.
proof fn lemma_row_70()
    requires
        rows_right(69),
    ensures
        rows_right(70),
{
    assert(usize::MAX >= 0xffff_ffff);
    assert(partitions(0) == 1);
    assert(partitions(13) == 101);
    assert(partitions(19) == 490);
    assert(partitions(30) == 5604);
    assert(partitions(35) == 14883);
    assert(partitions(44) == 75175);
    assert(partitions(48) == 147273);
    assert(partitions(55) == 451276);
    assert(partitions(58) == 715220);
    assert(partitions(63) == 1505499);
    assert(partitions(65) == 2012558);
    assert(partitions(68) == 3087735);
    assert(partitions(69) == 3554345);
    assert(pentagonal(1) == 1);
    assert(pentagonal(2) == 5);
    assert(pentagonal(3) == 12);
    assert(pentagonal(4) == 22);
    assert(pentagonal(5) == 35);
    assert(pentagonal(6) == 51);
    assert(pentagonal(7) == 70);
    assert(pentagonal(8) == 92);
    lemma_terms_end(70, 8);
    assert(pair_term(70, 7) == 1);
    assert(partition_terms(70, 7) == 1);
    assert(pair_term(70, 6) == 591);
    assert(partition_terms(70, 6) == -590);
    assert(pair_term(70, 5) == 20487);
    assert(partition_terms(70, 5) == 19897);
    assert(pair_term(70, 4) == 222448);
    assert(partition_terms(70, 4) == -202551);
    assert(pair_term(70, 3) == 1166496);
    assert(partition_terms(70, 3) == 963945);
    assert(pair_term(70, 2) == 3518057);
    assert(partition_terms(70, 2) == -2554112);
    assert(pair_term(70, 1) == 6642080);
    assert(partition_terms(70, 1) == 4087968);
    assert(partitions(70) == 4087968);
    assert forall|k: int| 1 <= k <= 70 implies #[trigger] step_fits(70, k) by {
        if k == 1 {
            assert(head(70, 2) == 6642080);
        } else if k == 2 {
            assert(head(70, 3) == 3124023);
        } else if k == 3 {
            assert(head(70, 4) == 4290519);
        } else if k == 4 {
            assert(head(70, 5) == 4068071);
        } else if k == 5 {
            assert(head(70, 6) == 4088558);
        } else if k == 6 {
            assert(head(70, 7) == 4087967);
        } else if k == 7 {
            assert(head(70, 8) == 4087968);
        } else {
            lemma_pentagonal_grows(8, k);
            lemma_pentagonal_grows(8, k + 1);
            lemma_terms_end(70, k);
            lemma_terms_end(70, k + 1);
        }
    }
    lemma_row_done(70);
}

/// The row of `p(71)`: its value, and its sum step by step.
proof fn lemma_row_71()
    requires
        rows_right(70),
    ensures
        rows_right(71),
{
    assert(usize::MAX >= 0xffff_ffff);
    assert(partitions(1) == 1);
    assert(partitions(14) == 135);
    assert(partitions(20) == 627);
    assert(partitions(31) == 6842);
    assert(partitions(36) == 17977);
    assert(partitions(45) == 89134);
    assert(partitions(49) == 173525);
    assert(partitions(56) == 526823);
    assert(partitions(59) == 831820);
    assert(partitions(64) == 1741630);
    assert(partitions(66) == 2323520);
    assert(partitions(69) == 3554345);
    assert(partitions(70) == 4087968);
    assert(pentagonal(1) == 1);
    assert(pentagonal(2) == 5);
    assert(pentagonal(3) == 12);
    assert(pentagonal(4) == 22);
    assert(pentagonal(5) == 35);
    assert(pentagonal(6) == 51);
    assert(pentagonal(7) == 70);
    assert(pentagonal(8) == 92);
    lemma_terms_end(71, 8);
    assert(pair_term(71, 7) == 1);
    assert(partition_terms(71, 7) == 1);
    assert(pair_term(71, 6) == 762);
    assert(partition_terms(71, 6) == -761);
    assert(pair_term(71, 5) == 24819);
    assert(partition_terms(71, 5) == 24058);
    assert(pair_term(71, 4) == 262659);
    assert(partition_terms(71, 4) == -238601);
    assert(pair_term(71, 3) == 1358643);
    assert(partition_terms(71, 3) == 1120042);
    assert(pair_term(71, 2) == 4065150);
    assert(partition_terms(71, 2) == -2945108);
    assert(pair_term(71, 1) == 7642313);
    assert(partition_terms(71, 1) == 4697205);
    assert(partitions(71) == 4697205);
    assert forall|k: int| 1 <= k <= 71 implies #[trigger] step_fits(71, k) by {
        if k == 1 {
            assert(head(71, 2) == 7642313);
        } else if k == 2 {
            assert(head(71, 3) == 3577163);
        } else if k == 3 {
            assert(head(71, 4) == 4935806);
        } else if k == 4 {
            assert(head(71, 5) == 4673147);
        } else if k == 5 {
            assert(head(71, 6) == 4697966);
        } else if k == 6 {
            assert(head(71, 7) == 4697204);
        } else if k == 7 {
            assert(head(71, 8) == 4697205);
        } else {
            lemma_pentagonal_grows(8, k);
            lemma_pentagonal_grows(8, k + 1);
            lemma_terms_end(71, k);
            lemma_terms_end(71, k + 1);
        }
    }
    lemma_row_done(71);
}

/// The row of `p(72)`: its value, and its sum step by step.
proof fn lemma_row_72()
    requires
        rows_right(71),
    ensures
        rows_right(72),
{
    assert(usize::MAX >= 0xffff_ffff);
    assert(partitions(2) == 2);
    assert(partitions(15) == 176);
    assert(partitions(21) == 792);
    assert(partitions(32) == 8349);
    assert(partitions(37) == 21637);
    assert(partitions(46) == 105558);
    assert(partitions(50) == 204226);
    assert(partitions(57) == 614154);
    assert(partitions(60) == 966467);
    assert(partitions(65) == 2012558);
    assert(partitions(67) == 2679689);
    assert(partitions(70) == 4087968);
    assert(partitions(71) == 4697205);
    assert(pentagonal(1) == 1);
    assert(pentagonal(2) == 5);
    assert(pentagonal(3) == 12);
    assert(pentagonal(4) == 22);
    assert(pentagonal(5) == 35);
    assert(pentagonal(6) == 51);
    assert(pentagonal(7) == 70);
    assert(pentagonal(8) == 92);
    lemma_terms_end(72, 8);
    assert(pair_term(72, 7) == 2);
    assert(partition_terms(72, 7) == 2);
    assert(pair_term(72, 6) == 968);
    assert(partition_terms(72, 6) == -966);
    assert(pair_term(72, 5) == 29986);
    assert(partition_terms(72, 5) == 29020);
    assert(pair_term(72, 4) == 309784);
    assert(partition_terms(72, 4) == -280764);
    assert(pair_term(72, 3) == 1580621);
    assert(partition_terms(72, 3) == 1299857);
    assert(pair_term(72, 2) == 4692247);
    assert(partition_terms(72, 2) == -3392390);
    assert(pair_term(72, 1) == 8785173);
    assert(partition_terms(72, 1) == 5392783);
    assert(partitions(72) == 5392783);
    assert forall|k: int| 1 <= k <= 72 implies #[trigger] step_fits(72, k) by {
        if k == 1 {
            assert(head(72, 2) == 8785173);
        } else if k == 2 {
            assert(head(72, 3) == 4092926);
        } else if k == 3 {
            assert(head(72, 4) == 5673547);
        } else if k == 4 {
            assert(head(72, 5) == 5363763);
        } else if k == 5 {
            assert(head(72, 6) == 5393749);
        } else if k == 6 {
            assert(head(72, 7) == 5392781);
        } else if k == 7 {
            assert(head(72, 8) == 5392783);
        } else {
            lemma_pentagonal_grows(8, k);
            lemma_pentagonal_grows(8, k + 1);
            lemma_terms_end(72, k);
            lemma_terms_end(72, k + 1);
        }
    }
    lemma_row_done(72);
}

/// The row of `p(73)`: its value, and its sum step by step.
proof fn lemma_row_73()
    requires
        rows_right(72),
    ensures
        rows_right(73),
{
    assert(usize::MAX >= 0xffff_ffff);
    assert(partitions(3) == 3);
    assert(partitions(16) == 231);
    assert(partitions(22) == 1002);
    assert(partitions(33) == 10143);
    assert(partitions(38) == 26015);
    assert(partitions(47) == 124754);
    assert(partitions(51) == 239943);
    assert(partitions(58) == 715220);
    assert(partitions(61) == 1121505);
    assert(partitions(66) == 2323520);
    assert(partitions(68) == 3087735);
    assert(partitions(71) == 4697205);
    assert(partitions(72) == 5392783);
    assert(pentagonal(1) == 1);
    assert(pentagonal(2) == 5);
    assert(pentagonal(3) == 12);
    assert(pentagonal(4) == 22);
    assert(pentagonal(5) == 35);
    assert(pentagonal(6) == 51);
    assert(pentagonal(7) == 70);
    assert(pentagonal(8) == 92);
    lemma_terms_end(73, 8);
    assert(pair_term(73, 7) == 3);
    assert(partition_terms(73, 7) == 3);
    assert(pair_term(73, 6) == 1233);
    assert(partition_terms(73, 6) == -1230);
    assert(pair_term(73, 5) == 36158);
    assert(partition_terms(73, 5) == 34928);
    assert(pair_term(73, 4) == 364697);
    assert(partition_terms(73, 4) == -329769);
    assert(pair_term(73, 3) == 1836725);
    assert(partition_terms(73, 3) == 1506956);
    assert(pair_term(73, 2) == 5411255);
    assert(partition_terms(73, 2) == -3904299);
    assert(pair_term(73, 1) == 10089988);
    assert(partition_terms(73, 1) == 6185689);
    assert(partitions(73) == 6185689);
    assert forall|k: int| 1 <= k <= 73 implies #[trigger] step_fits(73, k) by {
        if k == 1 {
            assert(head(73, 2) == 10089988);
        } else if k == 2 {
            assert(head(73, 3) == 4678733);
        } else if k == 3 {
            assert(head(73, 4) == 6515458);
        } else if k == 4 {
            assert(head(73, 5) == 6150761);
        } else if k == 5 {
            assert(head(73, 6) == 6186919);
        } else if k == 6 {
            assert(head(73, 7) == 6185686);
        } else if k == 7 {
            assert(head(73, 8) == 6185689);
        } else {
            lemma_pentagonal_grows(8, k);
            lemma_pentagonal_grows(8, k + 1);
            lemma_terms_end(73, k);
            lemma_terms_end(73, k + 1);
        }
    }
    lemma_row_done(73);
}

/// The row of `p(74)`: its value, and its sum step by step.
proof fn lemma_row_74()
    requires
        rows_right(73),
    ensures
        rows_right(74),
{
    assert(usize::MAX >= 0xffff_ffff);
    assert(partitions(4) == 5);
    assert(partitions(17) == 297);
    assert(partitions(23) == 1255);
    assert(partitions(34) == 12310);
    assert(partitions(39) == 31185);
    assert(partitions(48) == 147273);
    assert(partitions(52) == 281589);
    assert(partitions(59) == 831820);
    assert(partitions(62) == 1300156);
    assert(partitions(67) == 2679689);
    assert(partitions(69) == 3554345);
    assert(partitions(72) == 5392783);
    assert(partitions(73) == 6185689);
    assert(pentagonal(1) == 1);
    assert(pentagonal(2) == 5);
    assert(pentagonal(3) == 12);
    assert(pentagonal(4) == 22);
    assert(pentagonal(5) == 35);
    assert(pentagonal(6) == 51);
    assert(pentagonal(7) == 70);
    assert(pentagonal(8) == 92);
    lemma_terms_end(74, 8);
    assert(pair_term(74, 7) == 5);
    assert(partition_terms(74, 7) == 5);
    assert(pair_term(74, 6) == 1552);
    assert(partition_terms(74, 6) == -1547);
    assert(pair_term(74, 5) == 43495);
    assert(partition_terms(74, 5) == 41948);
    assert(pair_term(74, 4) == 428862);
    assert(partition_terms(74, 4) == -386914);
    assert(pair_term(74, 3) == 2131976);
    assert(partition_terms(74, 3) == 1745062);
    assert(pair_term(74, 2) == 6234034);
    assert(partition_terms(74, 2) == -4488972);
    assert(pair_term(74, 1) == 11578472);
    assert(partition_terms(74, 1) == 7089500);
    assert(partitions(74) == 7089500);
    assert forall|k: int| 1 <= k <= 74 implies #[trigger] step_fits(74, k) by {
        if k == 1 {
            assert(head(74, 2) == 11578472);
        } else if k == 2 {
            assert(head(74, 3) == 5344438);
        } else if k == 3 {
            assert(head(74, 4) == 7476414);
        } else if k == 4 {
            assert(head(74, 5) == 7047552);
        } else if k == 5 {
            assert(head(74, 6) == 7091047);
        } else if k == 6 {
            assert(head(74, 7) == 7089495);
        } else if k == 7 {
            assert(head(74, 8) == 7089500);
        } else {
            lemma_pentagonal_grows(8, k);
            lemma_pentagonal_grows(8, k + 1);
            lemma_terms_end(74, k);
            lemma_terms_end(74, k + 1);
        }
    }
    lemma_row_done(74);
}

/// The row of `p(75)`: its value, and its sum step by step.
proof fn lemma_row_75()
    requires
        rows_right(74),
    ensures
        rows_right(75),
{
    assert(usize::MAX >= 0xffff_ffff);
    assert(partitions(5) == 7);
    assert(partitions(18) == 385);
    assert(partitions(24) == 1575);
    assert(partitions(35) == 14883);
    assert(partitions(40) == 37338);
    assert(partitions(49) == 173525);
    assert(partitions(53) == 329931);
    assert(partitions(60) == 966467);
    assert(partitions(63) == 1505499);
    assert(partitions(68) == 3087735);
    assert(partitions(70) == 4087968);
    assert(partitions(73) == 6185689);
    assert(partitions(74) == 7089500);
    assert(pentagonal(1) == 1);
    assert(pentagonal(2) == 5);
    assert(pentagonal(3) == 12);
    assert(pentagonal(4) == 22);
    assert(pentagonal(5) == 35);
    assert(pentagonal(6) == 51);
    assert(pentagonal(7) == 70);
    assert(pentagonal(8) == 92);
    lemma_terms_end(75, 8);
    assert(pair_term(75, 7) == 7);
    assert(partition_terms(75, 7) == 7);
    assert(pair_term(75, 6) == 1960);
    assert(partition_terms(75, 6) == -1953);
    assert(pair_term(75, 5) == 52221);
    assert(partition_terms(75, 5) == 50268);
    assert(pair_term(75, 4) == 503456);
    assert(partition_terms(75, 4) == -453188);
    assert(pair_term(75, 3) == 2471966);
    assert(partition_terms(75, 3) == 2018778);
    assert(pair_term(75, 2) == 7175703);
    assert(partition_terms(75, 2) == -5156925);
    assert(pair_term(75, 1) == 13275189);
    assert(partition_terms(75, 1) == 8118264);
    assert(partitions(75) == 8118264);
    assert forall|k: int| 1 <= k <= 75 implies #[trigger] step_fits(75, k) by {
        if k == 1 {
            assert(head(75, 2) == 13275189);
        } else if k == 2 {
            assert(head(75, 3) == 6099486);
        } else if k == 3 {
            assert(head(75, 4) == 8571452);
        } else if k == 4 {
            assert(head(75, 5) == 8067996);
        } else if k == 5 {
            assert(head(75, 6) == 8120217);
        } else if k == 6 {
            assert(head(75, 7) == 8118257);
        } else if k == 7 {
            assert(head(75, 8) == 8118264);
        } else {
            lemma_pentagonal_grows(8, k);
            lemma_pentagonal_grows(8, k + 1);
            lemma_terms_end(75, k);
            lemma_terms_end(75, k + 1);
        }
    }
    lemma_row_done(75);
}

/// The row of `p(76)`: its value, and its sum step by step.
proof fn lemma_row_76()
    requires
        rows_right(75),
    ensures
        rows_right(76),
{
    assert(usize::MAX >= 0xffff_ffff);
    assert(partitions(6) == 11);
    assert(partitions(19) == 490);
    assert(partitions(25) == 1958);
    assert(partitions(36) == 17977);
    assert(partitions(41) == 44583);
    assert(partitions(50) == 204226);
    assert(partitions(54) == 386155);
    assert(partitions(61) == 1121505);
    assert(partitions(64) == 1741630);
    assert(partitions(69) == 3554345);
    assert(partitions(71) == 4697205);
    assert(partitions(74) == 7089500);
    assert(partitions(75) == 8118264);
    assert(pentagonal(1) == 1);
    assert(pentagonal(2) == 5);
    assert(pentagonal(3) == 12);
    assert(pentagonal(4) == 22);
    assert(pentagonal(5) == 35);
    assert(pentagonal(6) == 51);
    assert(pentagonal(7) == 70);
    assert(pentagonal(8) == 92);
    lemma_terms_end(76, 8);
    assert(pair_term(76, 7) == 11);
    assert(partition_terms(76, 7) == 11);
    assert(pair_term(76, 6) == 2448);
    assert(partition_terms(76, 6) == -2437);
    assert(pair_term(76, 5) == 62560);
    assert(partition_terms(76, 5) == 60123);
    assert(pair_term(76, 4) == 590381);
    assert(partition_terms(76, 4) == -530258);
    assert(pair_term(76, 3) == 2863135);
    assert(partition_terms(76, 3) == 2332877);
    assert(pair_term(76, 2) == 8251550);
    assert(partition_terms(76, 2) == -5918673);
    assert(pair_term(76, 1) == 15207764);
    assert(partition_terms(76, 1) == 9289091);
    assert(partitions(76) == 9289091);
    assert forall|k: int| 1 <= k <= 76 implies #[trigger] step_fits(76, k) by {
        if k == 1 {
            assert(head(76, 2) == 15207764);
        } else if k == 2 {
            assert(head(76, 3) == 6956214);
        } else if k == 3 {
            assert(head(76, 4) == 9819349);
        } else if k == 4 {
            assert(head(76, 5) == 9228968);
        } else if k == 5 {
            assert(head(76, 6) == 9291528);
        } else if k == 6 {
            assert(head(76, 7) == 9289080);
        } else if k == 7 {
            assert(head(76, 8) == 9289091);
        } else {
            lemma_pentagonal_grows(8, k);
            lemma_pentagonal_grows(8, k + 1);
            lemma_terms_end(76, k);
            lemma_terms_end(76, k + 1);
        }
    }
    lemma_row_done(76);
}

/// The row of `p(77)`: its value, and its sum step by step.
proof fn lemma_row_77()
    requires
        rows_right(76),
    ensures
        rows_right(77),
{
    assert(usize::MAX >= 0xffff_ffff);
    assert(partitions(0) == 1);
    assert(partitions(7) == 15);
    assert(partitions(20) == 627);
    assert(partitions(26) == 2436);
    assert(partitions(37) == 21637);
    assert(partitions(42) == 53174);
    assert(partitions(51) == 239943);
    assert(partitions(55) == 451276);
    assert(partitions(62) == 1300156);
    assert(partitions(65) == 2012558);
    assert(partitions(70) == 4087968);
    assert(partitions(72) == 5392783);
    assert(partitions(75) == 8118264);
    assert(partitions(76) == 9289091);
    assert(pentagonal(1) == 1);
    assert(pentagonal(2) == 5);
    assert(pentagonal(3) == 12);
    assert(pentagonal(4) == 22);
    assert(pentagonal(5) == 35);
    assert(pentagonal(6) == 51);
    assert(pentagonal(7) == 70);
    assert(pentagonal(8) == 92);
    lemma_terms_end(77, 8);
    assert(pair_term(77, 7) == 16);
    assert(partition_terms(77, 7) == 16);
    assert(pair_term(77, 6) == 3063);
    assert(partition_terms(77, 6) == -3047);
    assert(pair_term(77, 5) == 74811);
    assert(partition_terms(77, 5) == 71764);
    assert(pair_term(77, 4) == 691219);
    assert(partition_terms(77, 4) == -619455);
    assert(pair_term(77, 3) == 3312714);
    assert(partition_terms(77, 3) == 2693259);
    assert(pair_term(77, 2) == 9480751);
    assert(partition_terms(77, 2) == -6787492);
    assert(pair_term(77, 1) == 17407355);
    assert(partition_terms(77, 1) == 10619863);
    assert(partitions(77) == 10619863);
    assert forall|k: int| 1 <= k <= 77 implies #[trigger] step_fits(77, k) by {
        if k == 1 {
            assert(head(77, 2) == 17407355);
        } else if k == 2 {
            assert(head(77, 3) == 7926604);
        } else if k == 3 {
            assert(head(77, 4) == 11239318);
        } else if k == 4 {
            assert(head(77, 5) == 10548099);
        } else if k == 5 {
            assert(head(77, 6) == 10622910);
        } else if k == 6 {
            assert(head(77, 7) == 10619847);
        } else if k == 7 {
            assert(head(77, 8) == 10619863);
        } else {
            lemma_pentagonal_grows(8, k);
            lemma_pentagonal_grows(8, k + 1);
            lemma_terms_end(77, k);
            lemma_terms_end(77, k + 1);
        }
    }
    lemma_row_done(77);
}

/// The row of `p(78)`: its value, and its sum step by step.
proof fn lemma_row_78()
    requires
        rows_right(77),
    ensures
        rows_right(78),
{
    assert(usize::MAX >= 0xffff_ffff);
    assert(partitions(1) == 1);
    assert(partitions(8) == 22);
    assert(partitions(21) == 792);
    assert(partitions(27) == 3010);
    assert(partitions(38) == 26015);
    assert(partitions(43) == 63261);
    assert(partitions(52) == 281589);
    assert(partitions(56) == 526823);
    assert(partitions(63) == 1505499);
    assert(partitions(66) == 2323520);
    assert(partitions(71) == 4697205);
    assert(partitions(73) == 6185689);
    assert(partitions(76) == 9289091);
    assert(partitions(77) == 10619863);
    assert(pentagonal(1) == 1);
    assert(pentagonal(2) == 5);
    assert(pentagonal(3) == 12);
    assert(pentagonal(4) == 22);
    assert(pentagonal(5) == 35);
    assert(pentagonal(6) == 51);
    assert(pentagonal(7) == 70);
    assert(pentagonal(8) == 92);
    lemma_terms_end(78, 8);
    assert(pair_term(78, 7) == 23);
    assert(partition_terms(78, 7) == 23);
    assert(pair_term(78, 6) == 3802);
    assert(partition_terms(78, 6) == -3779);
    assert(pair_term(78, 5) == 89276);
    assert(partition_terms(78, 5) == 85497);
    assert(pair_term(78, 4) == 808412);
    assert(partition_terms(78, 4) == -722915);
    assert(pair_term(78, 3) == 3829019);
    assert(partition_terms(78, 3) == 3106104);
    assert(pair_term(78, 2) == 10882894);
    assert(partition_terms(78, 2) == -7776790);
    assert(pair_term(78, 1) == 19908954);
    assert(partition_terms(78, 1) == 12132164);
    assert(partitions(78) == 12132164);
    assert forall|k: int| 1 <= k <= 78 implies #[trigger] step_fits(78, k) by {
        if k == 1 {
            assert(head(78, 2) == 19908954);
        } else if k == 2 {
            assert(head(78, 3) == 9026060);
        } else if k == 3 {
            assert(head(78, 4) == 12855079);
        } else if k == 4 {
            assert(head(78, 5) == 12046667);
        } else if k == 5 {
            assert(head(78, 6) == 12135943);
        } else if k == 6 {
            assert(head(78, 7) == 12132141);
        } else if k == 7 {
            assert(head(78, 8) == 12132164);
        } else {
            lemma_pentagonal_grows(8, k);
            lemma_pentagonal_grows(8, k + 1);
            lemma_terms_end(78, k);
            lemma_terms_end(78, k + 1);
        }
    }
    lemma_row_done(78);
}

/// The row of `p(79)`: its value, and its sum step by step.
proof fn lemma_row_79()
    requires
        rows_right(78),
    ensures
        rows_right(79),
{
    assert(usize::MAX >= 0xffff_ffff);
    assert(partitions(2) == 2);
    assert(partitions(9) == 30);
    assert(partitions(22) == 1002);
    assert(partitions(28) == 3718);
    assert(partitions(39) == 31185);
    assert(partitions(44) == 75175);
    assert(partitions(53) == 329931);
    assert(partitions(57) == 614154);
    assert(partitions(64) == 1741630);
    assert(partitions(67) == 2679689);
    assert(partitions(72) == 5392783);
    assert(partitions(74) == 7089500);
    assert(partitions(77) == 10619863);
    assert(partitions(78) == 12132164);
    assert(pentagonal(1) == 1);
    assert(pentagonal(2) == 5);
    assert(pentagonal(3) == 12);
    assert(pentagonal(4) == 22);
    assert(pentagonal(5) == 35);
    assert(pentagonal(6) == 51);
    assert(pentagonal(7) == 70);
    assert(pentagonal(8) == 92);
    lemma_terms_end(79, 8);
    assert(pair_term(79, 7) == 32);
    assert(partition_terms(79, 7) == 32);
    assert(pair_term(79, 6) == 4720);
    assert(partition_terms(79, 6) == -4688);
    assert(pair_term(79, 5) == 106360);
    assert(partition_terms(79, 5) == 101672);
    assert(pair_term(79, 4) == 944085);
    assert(partition_terms(79, 4) == -842413);
    assert(pair_term(79, 3) == 4421319);
    assert(partition_terms(79, 3) == 3578906);
    assert(pair_term(79, 2) == 12482283);
    assert(partition_terms(79, 2) == -8903377);
    assert(pair_term(79, 1) == 22752027);
    assert(partition_terms(79, 1) == 13848650);
    assert(partitions(79) == 13848650);
    assert forall|k: int| 1 <= k <= 79 implies #[trigger] step_fits(79, k) by {
        if k == 1 {
            assert(head(79, 2) == 22752027);
        } else if k == 2 {
            assert(head(79, 3) == 10269744);
        } else if k == 3 {
            assert(head(79, 4) == 14691063);
        } else if k == 4 {
            assert(head(79, 5) == 13746978);
        } else if k == 5 {
            assert(head(79, 6) == 13853338);
        } else if k == 6 {
            assert(head(79, 7) == 13848618);
        } else if k == 7 {
            assert(head(79, 8) == 13848650);
        } else {
            lemma_pentagonal_grows(8, k);
            lemma_pentagonal_grows(8, k + 1);
            lemma_terms_end(79, k);
            lemma_terms_end(79, k + 1);
        }
    }
    lemma_row_done(79);
}

/// The row of `p(80)`: its value, and its sum step by step.
proof fn lemma_row_80()
    requires
        rows_right(79),
    ensures
        rows_right(80),
{
    assert(usize::MAX >= 0xffff_ffff);
    assert(partitions(3) == 3);
    assert(partitions(10) == 42);
    assert(partitions(23) == 1255);
    assert(partitions(29) == 4565);
    assert(partitions(40) == 37338);
    assert(partitions(45) == 89134);
    assert(partitions(54) == 386155);
    assert(partitions(58) == 715220);
    assert(partitions(65) == 2012558);
    assert(partitions(68) == 3087735);
    assert(partitions(73) == 6185689);
    assert(partitions(75) == 8118264);
    assert(partitions(78) == 12132164);
    assert(partitions(79) == 13848650);
    assert(pentagonal(1) == 1);
    assert(pentagonal(2) == 5);
    assert(pentagonal(3) == 12);
    assert(pentagonal(4) == 22);
    assert(pentagonal(5) == 35);
    assert(pentagonal(6) == 51);
    assert(pentagonal(7) == 70);
    assert(pentagonal(8) == 92);
    lemma_terms_end(80, 8);
    assert(pair_term(80, 7) == 45);
    assert(partition_terms(80, 7) == 45);
    assert(pair_term(80, 6) == 5820);
    assert(partition_terms(80, 6) == -5775);
    assert(pair_term(80, 5) == 126472);
    assert(partition_terms(80, 5) == 120697);
    assert(pair_term(80, 4) == 1101375);
    assert(partition_terms(80, 4) == -980678);
    assert(pair_term(80, 3) == 5100293);
    assert(partition_terms(80, 3) == 4119615);
    assert(pair_term(80, 2) == 14303953);
    assert(partition_terms(80, 2) == -10184338);
    assert(pair_term(80, 1) == 25980814);
    assert(partition_terms(80, 1) == 15796476);
    assert(partitions(80) == 15796476);
    assert forall|k: int| 1 <= k <= 80 implies #[trigger] step_fits(80, k) by {
        if k == 1 {
            assert(head(80, 2) == 25980814);
        } else if k == 2 {
            assert(head(80, 3) == 11676861);
        } else if k == 3 {
            assert(head(80, 4) == 16777154);
        } else if k == 4 {
            assert(head(80, 5) == 15675779);
        } else if k == 5 {
            assert(head(80, 6) == 15802251);
        } else if k == 6 {
            assert(head(80, 7) == 15796431);
        } else if k == 7 {
            assert(head(80, 8) == 15796476);
        } else {
            lemma_pentagonal_grows(8, k);
            lemma_pentagonal_grows(8, k + 1);
            lemma_terms_end(80, k);
            lemma_terms_end(80, k + 1);
        }
    }
    lemma_row_done(80);
}

/// The row of `p(81)`: its value, and its sum step by step.
proof fn lemma_row_81()
    requires
        rows_right(80),
    ensures
        rows_right(81),
{
    assert(usize::MAX >= 0xffff_ffff);
    assert(partitions(4) == 5);
    assert(partitions(11) == 56);
    assert(partitions(24) == 1575);
    assert(partitions(30) == 5604);
    assert(partitions(41) == 44583);
    assert(partitions(46) == 105558);
    assert(partitions(55) == 451276);
    assert(partitions(59) == 831820);
    assert(partitions(66) == 2323520);
    assert(partitions(69) == 3554345);
    assert(partitions(74) == 7089500);
    assert(partitions(76) == 9289091);
    assert(partitions(79) == 13848650);
    assert(partitions(80) == 15796476);
    assert(pentagonal(1) == 1);
    assert(pentagonal(2) == 5);
    assert(pentagonal(3) == 12);
    assert(pentagonal(4) == 22);
    assert(pentagonal(5) == 35);
    assert(pentagonal(6) == 51);
    assert(pentagonal(7) == 70);
    assert(pentagonal(8) == 92);
    lemma_terms_end(81, 8);
    assert(pair_term(81, 7) == 61);
    assert(partition_terms(81, 7) == 61);
    assert(pair_term(81, 6) == 7179);
    assert(partition_terms(81, 6) == -7118);
    assert(pair_term(81, 5) == 150141);
    assert(partition_terms(81, 5) == 143023);
    assert(pair_term(81, 4) == 1283096);
    assert(partition_terms(81, 4) == -1140073);
    assert(pair_term(81, 3) == 5877865);
    assert(partition_terms(81, 3) == 4737792);
    assert(pair_term(81, 2) == 16378591);
    assert(partition_terms(81, 2) == -11640799);
    assert(pair_term(81, 1) == 29645126);
    assert(partition_terms(81, 1) == 18004327);
    assert(partitions(81) == 18004327);
    assert forall|k: int| 1 <= k <= 81 implies #[trigger] step_fits(81, k) by {
        if k == 1 {
            assert(head(81, 2) == 29645126);
        } else if k == 2 {
            assert(head(81, 3) == 13266535);
        } else if k == 3 {
            assert(head(81, 4) == 19144400);
        } else if k == 4 {
            assert(head(81, 5) == 17861304);
        } else if k == 5 {
            assert(head(81, 6) == 18011445);
        } else if k == 6 {
            assert(head(81, 7) == 18004266);
        } else if k == 7 {
            assert(head(81, 8) == 18004327);
        } else {
            lemma_pentagonal_grows(8, k);
            lemma_pentagonal_grows(8, k + 1);
            lemma_terms_end(81, k);
            lemma_terms_end(81, k + 1);
        }
    }
    lemma_row_done(81);
}

/// The row of `p(82)`: its value, and its sum step by step.
proof fn lemma_row_82()
    requires
        rows_right(81),
    ensures
        rows_right(82),
{
    assert(usize::MAX >= 0xffff_ffff);
    assert(partitions(5) == 7);
    assert(partitions(12) == 77);
    assert(partitions(25) == 1958);
    assert(partitions(31) == 6842);
    assert(partitions(42) == 53174);
    assert(partitions(47) == 124754);
    assert(partitions(56) == 526823);
    assert(partitions(60) == 966467);
    assert(partitions(67) == 2679689);
    assert(partitions(70) == 4087968);
    assert(partitions(75) == 8118264);
    assert(partitions(77) == 10619863);
    assert(partitions(80) == 15796476);
    assert(partitions(81) == 18004327);
    assert(pentagonal(1) == 1);
    assert(pentagonal(2) == 5);
    assert(pentagonal(3) == 12);
    assert(pentagonal(4) == 22);
    assert(pentagonal(5) == 35);
    assert(pentagonal(6) == 51);
    assert(pentagonal(7) == 70);
    assert(pentagonal(8) == 92);
    lemma_terms_end(82, 8);
    assert(pair_term(82, 7) == 84);
    assert(partition_terms(82, 7) == 84);
    assert(pair_term(82, 6) == 8800);
    assert(partition_terms(82, 6) == -8716);
    assert(pair_term(82, 5) == 177928);
    assert(partition_terms(82, 5) == 169212);
    assert(pair_term(82, 4) == 1493290);
    assert(partition_terms(82, 4) == -1324078);
    assert(pair_term(82, 3) == 6767657);
    assert(partition_terms(82, 3) == 5443579);
    assert(pair_term(82, 2) == 18738127);
    assert(partition_terms(82, 2) == -13294548);
    assert(pair_term(82, 1) == 33800803);
    assert(partition_terms(82, 1) == 20506255);
    assert(partitions(82) == 20506255);
    assert forall|k: int| 1 <= k <= 82 implies #[trigger] step_fits(82, k) by {
        if k == 1 {
            assert(head(82, 2) == 33800803);
        } else if k == 2 {
            assert(head(82, 3) == 15062676);
        } else if k == 3 {
            assert(head(82, 4) == 21830333);
        } else if k == 4 {
            assert(head(82, 5) == 20337043);
        } else if k == 5 {
            assert(head(82, 6) == 20514971);
        } else if k == 6 {
            assert(head(82, 7) == 20506171);
        } else if k == 7 {
            assert(head(82, 8) == 20506255);
        } else {
            lemma_pentagonal_grows(8, k);
            lemma_pentagonal_grows(8, k + 1);
            lemma_terms_end(82, k);
            lemma_terms_end(82, k + 1);
        }
    }
    lemma_row_done(82);
}

/// The row of `p(83)`: its value, and its sum step by step.
proof fn lemma_row_83()
    requires
        rows_right(82),
    ensures
        rows_right(83),
{
    assert(usize::MAX >= 0xffff_ffff);
    assert(partitions(6) == 11);
    assert(partitions(13) == 101);
    assert(partitions(26) == 2436);
    assert(partitions(32) == 8349);
    assert(partitions(43) == 63261);
    assert(partitions(48) == 147273);
    assert(partitions(57) == 614154);
    assert(partitions(61) == 1121505);
    assert(partitions(68) == 3087735);
    assert(partitions(71) == 4697205);
    assert(partitions(76) == 9289091);
    assert(partitions(78) == 12132164);
    assert(partitions(81) == 18004327);
    assert(partitions(82) == 20506255);
    assert(pentagonal(1) == 1);
    assert(pentagonal(2) == 5);
    assert(pentagonal(3) == 12);
    assert(pentagonal(4) == 22);
    assert(pentagonal(5) == 35);
    assert(pentagonal(6) == 51);
    assert(pentagonal(7) == 70);
    assert(pentagonal(8) == 92);
    lemma_terms_end(83, 8);
    assert(pair_term(83, 7) == 112);
    assert(partition_terms(83, 7) == 112);
    assert(pair_term(83, 6) == 10785);
    assert(partition_terms(83, 6) == -10673);
    assert(pair_term(83, 5) == 210534);
    assert(partition_terms(83, 5) == 199861);
    assert(pair_term(83, 4) == 1735659);
    assert(partition_terms(83, 4) == -1535798);
    assert(pair_term(83, 3) == 7784940);
    assert(partition_terms(83, 3) == 6249142);
    assert(pair_term(83, 2) == 21421255);
    assert(partition_terms(83, 2) == -15172113);
    assert(pair_term(83, 1) == 38510582);
    assert(partition_terms(83, 1) == 23338469);
    assert(partitions(83) == 23338469);
    assert forall|k: int| 1 <= k <= 83 implies #[trigger] step_fits(83, k) by {
        if k == 1 {
            assert(head(83, 2) == 38510582);
        } else if k == 2 {
            assert(head(83, 3) == 17089327);
        } else if k == 3 {
            assert(head(83, 4) == 24874267);
        } else if k == 4 {
            assert(head(83, 5) == 23138608);
        } else if k == 5 {
            assert(head(83, 6) == 23349142);
        } else if k == 6 {
            assert(head(83, 7) == 23338357);
        } else if k == 7 {
            assert(head(83, 8) == 23338469);
        } else {
            lemma_pentagonal_grows(8, k);
            lemma_pentagonal_grows(8, k + 1);
            lemma_terms_end(83, k);
            lemma_terms_end(83, k + 1);
        }
    }
    lemma_row_done(83);
}

/// The row of `p(84)`: its value, and its sum step by step.
proof fn lemma_row_84()
    requires
        rows_right(83),
    ensures
        rows_right(84),
{
    assert(usize::MAX >= 0xffff_ffff);
    assert(partitions(7) == 15);
    assert(partitions(14) == 135);
    assert(partitions(27) == 3010);
    assert(partitions(33) == 10143);
    assert(partitions(44) == 75175);
    assert(partitions(49) == 173525);
    assert(partitions(58) == 715220);
    assert(partitions(62) == 1300156);
    assert(partitions(69) == 3554345);
    assert(partitions(72) == 5392783);
    assert(partitions(77) == 10619863);
    assert(partitions(79) == 13848650);
    assert(partitions(82) == 20506255);
    assert(partitions(83) == 23338469);
    assert(pentagonal(1) == 1);
    assert(pentagonal(2) == 5);
    assert(pentagonal(3) == 12);
    assert(pentagonal(4) == 22);
    assert(pentagonal(5) == 35);
    assert(pentagonal(6) == 51);
    assert(pentagonal(7) == 70);
    assert(pentagonal(8) == 92);
    lemma_terms_end(84, 8);
    assert(pair_term(84, 7) == 150);
    assert(partition_terms(84, 7) == 150);
    assert(pair_term(84, 6) == 13153);
    assert(partition_terms(84, 6) == -13003);
    assert(pair_term(84, 5) == 248700);
    assert(partition_terms(84, 5) == 235697);
    assert(pair_term(84, 4) == 2015376);
    assert(partition_terms(84, 4) == -1779679);
    assert(pair_term(84, 3) == 8947128);
    assert(partition_terms(84, 3) == 7167449);
    assert(pair_term(84, 2) == 24468513);
    assert(partition_terms(84, 2) == -17301064);
    assert(pair_term(84, 1) == 43844724);
    assert(partition_terms(84, 1) == 26543660);
    assert(partitions(84) == 26543660);
    assert forall|k: int| 1 <= k <= 84 implies #[trigger] step_fits(84, k) by {
        if k == 1 {
            assert(head(84, 2) == 43844724);
        } else if k == 2 {
            assert(head(84, 3) == 19376211);
        } else if k == 3 {
            assert(head(84, 4) == 28323339);
        } else if k == 4 {
            assert(head(84, 5) == 26307963);
        } else if k == 5 {
            assert(head(84, 6) == 26556663);
        } else if k == 6 {
            assert(head(84, 7) == 26543510);
        } else if k == 7 {
            assert(head(84, 8) == 26543660);
        } else {
            lemma_pentagonal_grows(8, k);
            lemma_pentagonal_grows(8, k + 1);
            lemma_terms_end(84, k);
            lemma_terms_end(84, k + 1);
        }
    }
    lemma_row_done(84);
}

/// The row of `p(85)`: its value, and its sum step by step.
proof fn lemma_row_85()
    requires
        rows_right(84),
    ensures
        rows_right(85),
{
    assert(usize::MAX >= 0xffff_ffff);
    assert(partitions(8) == 22);
    assert(partitions(15) == 176);
    assert(partitions(28) == 3718);
    assert(partitions(34) == 12310);
    assert(partitions(45) == 89134);
    assert(partitions(50) == 204226);
    assert(partitions(59) == 831820);
    assert(partitions(63) == 1505499);
    assert(partitions(70) == 4087968);
    assert(partitions(73) == 6185689);
    assert(partitions(78) == 12132164);
    assert(partitions(80) == 15796476);
    assert(partitions(83) == 23338469);
    assert(partitions(84) == 26543660);
    assert(pentagonal(1) == 1);
    assert(pentagonal(2) == 5);
    assert(pentagonal(3) == 12);
    assert(pentagonal(4) == 22);
    assert(pentagonal(5) == 35);
    assert(pentagonal(6) == 51);
    assert(pentagonal(7) == 70);
    assert(pentagonal(8) == 92);
    lemma_terms_end(85, 8);
    assert(pair_term(85, 7) == 198);
    assert(partition_terms(85, 7) == 198);
    assert(pair_term(85, 6) == 16028);
    assert(partition_terms(85, 6) == -15830);
    assert(pair_term(85, 5) == 293360);
    assert(partition_terms(85, 5) == 277530);
    assert(pair_term(85, 4) == 2337319);
    assert(partition_terms(85, 4) == -2059789);
    assert(pair_term(85, 3) == 10273657);
    assert(partition_terms(85, 3) == 8213868);
    assert(pair_term(85, 2) == 27928640);
    assert(partition_terms(85, 2) == -19714772);
    assert(pair_term(85, 1) == 49882129);
    assert(partition_terms(85, 1) == 30167357);
    assert(partitions(85) == 30167357);
    assert forall|k: int| 1 <= k <= 85 implies #[trigger] step_fits(85, k) by {
        if k == 1 {
            assert(head(85, 2) == 49882129);
        } else if k == 2 {
            assert(head(85, 3) == 21953489);
        } else if k == 3 {
            assert(head(85, 4) == 32227146);
        } else if k == 4 {
            assert(head(85, 5) == 29889827);
        } else if k == 5 {
            assert(head(85, 6) == 30183187);
        } else if k == 6 {
            assert(head(85, 7) == 30167159);
        } else if k == 7 {
            assert(head(85, 8) == 30167357);
        } else {
            lemma_pentagonal_grows(8, k);
            lemma_pentagonal_grows(8, k + 1);
            lemma_terms_end(85, k);
            lemma_terms_end(85, k + 1);
        }
    }
    lemma_row_done(85);
}

/// The row of `p(86)`: its value, and its sum step by step.
proof fn lemma_row_86()
    requires
        rows_right(85),
    ensures
        rows_right(86),
{
    assert(usize::MAX >= 0xffff_ffff);
    assert(partitions(9) == 30);
    assert(partitions(16) == 231);
    assert(partitions(29) == 4565);
    assert(partitions(35) == 14883);
    assert(partitions(46) == 105558);
    assert(partitions(51) == 239943);
    assert(partitions(60) == 966467);
    assert(partitions(64) == 1741630);
    assert(partitions(71) == 4697205);
    assert(partitions(74) == 7089500);
    assert(partitions(79) == 13848650);
    assert(partitions(81) == 18004327);
    assert(partitions(84) == 26543660);
    assert(partitions(85) == 30167357);
    assert(pentagonal(1) == 1);
    assert(pentagonal(2) == 5);
    assert(pentagonal(3) == 12);
    assert(pentagonal(4) == 22);
    assert(pentagonal(5) == 35);
    assert(pentagonal(6) == 51);
    assert(pentagonal(7) == 70);
    assert(pentagonal(8) == 92);
    lemma_terms_end(86, 8);
    assert(pair_term(86, 7) == 261);
    assert(partition_terms(86, 7) == 261);
    assert(pair_term(86, 6) == 19448);
    assert(partition_terms(86, 6) == -19187);
    assert(pair_term(86, 5) == 345501);
    assert(partition_terms(86, 5) == 326314);
    assert(pair_term(86, 4) == 2708097);
    assert(partition_terms(86, 4) == -2381783);
    assert(pair_term(86, 3) == 11786705);
    assert(partition_terms(86, 3) == 9404922);
    assert(pair_term(86, 2) == 31852977);
    assert(partition_terms(86, 2) == -22448055);
    assert(pair_term(86, 1) == 56711017);
    assert(partition_terms(86, 1) == 34262962);
    assert(partitions(86) == 34262962);
    assert forall|k: int| 1 <= k <= 86 implies #[trigger] step_fits(86, k) by {
        if k == 1 {
            assert(head(86, 2) == 56711017);
        } else if k == 2 {
            assert(head(86, 3) == 24858040);
        } else if k == 3 {
            assert(head(86, 4) == 36644745);
        } else if k == 4 {
            assert(head(86, 5) == 33936648);
        } else if k == 5 {
            assert(head(86, 6) == 34282149);
        } else if k == 6 {
            assert(head(86, 7) == 34262701);
        } else if k == 7 {
            assert(head(86, 8) == 34262962);
        } else {
            lemma_pentagonal_grows(8, k);
            lemma_pentagonal_grows(8, k + 1);
            lemma_terms_end(86, k);
            lemma_terms_end(86, k + 1);
        }
    }
    lemma_row_done(86);
}

/// The row of `p(87)`: its value, and its sum step by step.
proof fn lemma_row_87()
    requires
        rows_right(86),
    ensures
        rows_right(87),
{
    assert(usize::MAX >= 0xffff_ffff);
    assert(partitions(10) == 42);
    assert(partitions(17) == 297);
    assert(partitions(30) == 5604);
    assert(partitions(36) == 17977);
    assert(partitions(47) == 124754);
    assert(partitions(52) == 281589);
    assert(partitions(61) == 1121505);
    assert(partitions(65) == 2012558);
    assert(partitions(72) == 5392783);
    assert(partitions(75) == 8118264);
    assert(partitions(80) == 15796476);
    assert(partitions(82) == 20506255);
    assert(partitions(85) == 30167357);
    assert(partitions(86) == 34262962);
    assert(pentagonal(1) == 1);
    assert(pentagonal(2) == 5);
    assert(pentagonal(3) == 12);
    assert(pentagonal(4) == 22);
    assert(pentagonal(5) == 35);
    assert(pentagonal(6) == 51);
    assert(pentagonal(7) == 70);
    assert(pentagonal(8) == 92);
    lemma_terms_end(87, 8);
    assert(pair_term(87, 7) == 339);
    assert(partition_terms(87, 7) == 339);
    assert(pair_term(87, 6) == 23581);
    assert(partition_terms(87, 6) == -23242);
    assert(pair_term(87, 5) == 406343);
    assert(partition_terms(87, 5) == 383101);
    assert(pair_term(87, 4) == 3134063);
    assert(partition_terms(87, 4) == -2750962);
    assert(pair_term(87, 3) == 13511047);
    assert(partition_terms(87, 3) == 10760085);
    assert(pair_term(87, 2) == 36302731);
    assert(partition_terms(87, 2) == -25542646);
    assert(pair_term(87, 1) == 64430319);
    assert(partition_terms(87, 1) == 38887673);
    assert(partitions(87) == 38887673);
    assert forall|k: int| 1 <= k <= 87 implies #[trigger] step_fits(87, k) by {
        if k == 1 {
            assert(head(87, 2) == 64430319);
        } else if k == 2 {
            assert(head(87, 3) == 28127588);
        } else if k == 3 {
            assert(head(87, 4) == 41638635);
        } else if k == 4 {
            assert(head(87, 5) == 38504572);
        } else if k == 5 {
            assert(head(87, 6) == 38910915);
        } else if k == 6 {
            assert(head(87, 7) == 38887334);
        } else if k == 7 {
            assert(head(87, 8) == 38887673);
        } else {
            lemma_pentagonal_grows(8, k);
            lemma_pentagonal_grows(8, k + 1);
            lemma_terms_end(87, k);
            lemma_terms_end(87, k + 1);
        }
    }
    lemma_row_done(87);
}

/// The row of `p(88)`: its value, and its sum step by step.
proof fn lemma_row_88()
    requires
        rows_right(87),
    ensures
        rows_right(88),
{
    assert(usize::MAX >= 0xffff_ffff);
    assert(partitions(11) == 56);
    assert(partitions(18) == 385);
    assert(partitions(31) == 6842);
    assert(partitions(37) == 21637);
    assert(partitions(48) == 147273);
    assert(partitions(53) == 329931);
    assert(partitions(62) == 1300156);
    assert(partitions(66) == 2323520);
    assert(partitions(73) == 6185689);
    assert(partitions(76) == 9289091);
    assert(partitions(81) == 18004327);
    assert(partitions(83) == 23338469);
    assert(partitions(86) == 34262962);
    assert(partitions(87) == 38887673);
    assert(pentagonal(1) == 1);
    assert(pentagonal(2) == 5);
    assert(pentagonal(3) == 12);
    assert(pentagonal(4) == 22);
    assert(pentagonal(5) == 35);
    assert(pentagonal(6) == 51);
    assert(pentagonal(7) == 70);
    assert(pentagonal(8) == 92);
    lemma_terms_end(88, 8);
    assert(pair_term(88, 7) == 441);
    assert(partition_terms(88, 7) == 441);
    assert(pair_term(88, 6) == 28479);
    assert(partition_terms(88, 6) == -28038);
    assert(pair_term(88, 5) == 477204);
    assert(partition_terms(88, 5) == 449166);
    assert(pair_term(88, 4) == 3623676);
    assert(partition_terms(88, 4) == -3174510);
    assert(pair_term(88, 3) == 15474780);
    assert(partition_terms(88, 3) == 12300270);
    assert(pair_term(88, 2) == 41342796);
    assert(partition_terms(88, 2) == -29042526);
    assert(pair_term(88, 1) == 73150635);
    assert(partition_terms(88, 1) == 44108109);
    assert(partitions(88) == 44108109);
    assert forall|k: int| 1 <= k <= 88 implies #[trigger] step_fits(88, k) by {
        if k == 1 {
            assert(head(88, 2) == 73150635);
        } else if k == 2 {
            assert(head(88, 3) == 31807839);
        } else if k == 3 {
            assert(head(88, 4) == 47282619);
        } else if k == 4 {
            assert(head(88, 5) == 43658943);
        } else if k == 5 {
            assert(head(88, 6) == 44136147);
        } else if k == 6 {
            assert(head(88, 7) == 44107668);
        } else if k == 7 {
            assert(head(88, 8) == 44108109);
        } else {
            lemma_pentagonal_grows(8, k);
            lemma_pentagonal_grows(8, k + 1);
            lemma_terms_end(88, k);
            lemma_terms_end(88, k + 1);
        }
    }
    lemma_row_done(88);
}

/// The row of `p(89)`: its value, and its sum step by step.
proof fn lemma_row_89()
    requires
        rows_right(88),
    ensures
        rows_right(89),
{
    assert(usize::MAX >= 0xffff_ffff);
    assert(partitions(12) == 77);
    assert(partitions(19) == 490);
    assert(partitions(32) == 8349);
    assert(partitions(38) == 26015);
    assert(partitions(49) == 173525);
    assert(partitions(54) == 386155);
    assert(partitions(63) == 1505499);
    assert(partitions(67) == 2679689);
    assert(partitions(74) == 7089500);
    assert(partitions(77) == 10619863);
    assert(partitions(82) == 20506255);
    assert(partitions(84) == 26543660);
    assert(partitions(87) == 38887673);
    assert(partitions(88) == 44108109);
    assert(pentagonal(1) == 1);
    assert(pentagonal(2) == 5);
    assert(pentagonal(3) == 12);
    assert(pentagonal(4) == 22);
    assert(pentagonal(5) == 35);
    assert(pentagonal(6) == 51);
    assert(pentagonal(7) == 70);
    assert(pentagonal(8) == 92);
    lemma_terms_end(89, 8);
    assert(pair_term(89, 7) == 567);
    assert(partition_terms(89, 7) == 567);
    assert(pair_term(89, 6) == 34364);
    assert(partition_terms(89, 6) == -33797);
    assert(pair_term(89, 5) == 559680);
    assert(partition_terms(89, 5) == 525883);
    assert(pair_term(89, 4) == 4185188);
    assert(partition_terms(89, 4) == -3659305);
    assert(pair_term(89, 3) == 17709363);
    assert(partition_terms(89, 3) == 14050058);
    assert(pair_term(89, 2) == 47049915);
    assert(partition_terms(89, 2) == -32999857);
    assert(pair_term(89, 1) == 82995782);
    assert(partition_terms(89, 1) == 49995925);
    assert(partitions(89) == 49995925);
    assert forall|k: int| 1 <= k <= 89 implies #[trigger] step_fits(89, k) by {
        if k == 1 {
            assert(head(89, 2) == 82995782);
        } else if k == 2 {
            assert(head(89, 3) == 35945867);
        } else if k == 3 {
            assert(head(89, 4) == 53655230);
        } else if k == 4 {
            assert(head(89, 5) == 49470042);
        } else if k == 5 {
            assert(head(89, 6) == 50029722);
        } else if k == 6 {
            assert(head(89, 7) == 49995358);
        } else if k == 7 {
            assert(head(89, 8) == 49995925);
        } else {
            lemma_pentagonal_grows(8, k);
            lemma_pentagonal_grows(8, k + 1);
            lemma_terms_end(89, k);
            lemma_terms_end(89, k + 1);
        }
    }
    lemma_row_done(89);
}

/// The row of `p(90)`: its value, and its sum step by step.
proof fn lemma_row_90()
    requires
        rows_right(89),
    ensures
        rows_right(90),
{
    assert(usize::MAX >= 0xffff_ffff);
    assert(partitions(13) == 101);
    assert(partitions(20) == 627);
    assert(partitions(33) == 10143);
    assert(partitions(39) == 31185);
    assert(partitions(50) == 204226);
    assert(partitions(55) == 451276);
    assert(partitions(64) == 1741630);
    assert(partitions(68) == 3087735);
    assert(partitions(75) == 8118264);
    assert(partitions(78) == 12132164);
    assert(partitions(83) == 23338469);
    assert(partitions(85) == 30167357);
    assert(partitions(88) == 44108109);
    assert(partitions(89) == 49995925);
    assert(pentagonal(1) == 1);
    assert(pentagonal(2) == 5);
    assert(pentagonal(3) == 12);
    assert(pentagonal(4) == 22);
    assert(pentagonal(5) == 35);
    assert(pentagonal(6) == 51);
    assert(pentagonal(7) == 70);
    assert(pentagonal(8) == 92);
    lemma_terms_end(90, 8);
    assert(pair_term(90, 7) == 728);
    assert(partition_terms(90, 7) == 728);
    assert(pair_term(90, 6) == 41328);
    assert(partition_terms(90, 6) == -40600);
    assert(pair_term(90, 5) == 655502);
    assert(partition_terms(90, 5) == 614902);
    assert(pair_term(90, 4) == 4829365);
    assert(partition_terms(90, 4) == -4214463);
    assert(pair_term(90, 3) == 20250428);
    assert(partition_terms(90, 3) == 16035965);
    assert(pair_term(90, 2) == 53505826);
    assert(partition_terms(90, 2) == -37469861);
    assert(pair_term(90, 1) == 94104034);
    assert(partition_terms(90, 1) == 56634173);
    assert(partitions(90) == 56634173);
    assert forall|k: int| 1 <= k <= 90 implies #[trigger] step_fits(90, k) by {
        if k == 1 {
            assert(head(90, 2) == 94104034);
        } else if k == 2 {
            assert(head(90, 3) == 40598208);
        } else if k == 3 {
            assert(head(90, 4) == 60848636);
        } else if k == 4 {
            assert(head(90, 5) == 56019271);
        } else if k == 5 {
            assert(head(90, 6) == 56674773);
        } else if k == 6 {
            assert(head(90, 7) == 56633445);
        } else if k == 7 {
            assert(head(90, 8) == 56634173);
        } else {
            lemma_pentagonal_grows(8, k);
            lemma_pentagonal_grows(8, k + 1);
            lemma_terms_end(90, k);
            lemma_terms_end(90, k + 1);
        }
    }
    lemma_row_done(90);
}

/// The row of `p(91)`: its value, and its sum step by step.
proof fn lemma_row_91()
    requires
        rows_right(90),
    ensures
        rows_right(91),
{
    assert(usize::MAX >= 0xffff_ffff);
    assert(partitions(14) == 135);
    assert(partitions(21) == 792);
    assert(partitions(34) == 12310);
    assert(partitions(40) == 37338);
    assert(partitions(51) == 239943);
    assert(partitions(56) == 526823);
    assert(partitions(65) == 2012558);
    assert(partitions(69) == 3554345);
    assert(partitions(76) == 9289091);
    assert(partitions(79) == 13848650);
    assert(partitions(84) == 26543660);
    assert(partitions(86) == 34262962);
    assert(partitions(89) == 49995925);
    assert(partitions(90) == 56634173);
    assert(pentagonal(1) == 1);
    assert(pentagonal(2) == 5);
    assert(pentagonal(3) == 12);
    assert(pentagonal(4) == 22);
    assert(pentagonal(5) == 35);
    assert(pentagonal(6) == 51);
    assert(pentagonal(7) == 70);
    assert(pentagonal(8) == 92);
    lemma_terms_end(91, 8);
    assert(pair_term(91, 7) == 927);
    assert(partition_terms(91, 7) == 927);
    assert(pair_term(91, 6) == 49648);
    assert(partition_terms(91, 6) == -48721);
    assert(pair_term(91, 5) == 766766);
    assert(partition_terms(91, 5) == 718045);
    assert(pair_term(91, 4) == 5566903);
    assert(partition_terms(91, 4) == -4848858);
    assert(pair_term(91, 3) == 23137741);
    assert(partition_terms(91, 3) == 18288883);
    assert(pair_term(91, 2) == 60806622);
    assert(partition_terms(91, 2) == -42517739);
    assert(pair_term(91, 1) == 106630098);
    assert(partition_terms(91, 1) == 64112359);
    assert(partitions(91) == 64112359);
    assert forall|k: int| 1 <= k <= 91 implies #[trigger] step_fits(91, k) by {
        if k == 1 {
            assert(head(91, 2) == 106630098);
        } else if k == 2 {
            assert(head(91, 3) == 45823476);
        } else if k == 3 {
            assert(head(91, 4) == 68961217);
        } else if k == 4 {
            assert(head(91, 5) == 63394314);
        } else if k == 5 {
            assert(head(91, 6) == 64161080);
        } else if k == 6 {
            assert(head(91, 7) == 64111432);
        } else if k == 7 {
            assert(head(91, 8) == 64112359);
        } else {
            lemma_pentagonal_grows(8, k);
            lemma_pentagonal_grows(8, k + 1);
            lemma_terms_end(91, k);
            lemma_terms_end(91, k + 1);
        }
    }
    lemma_row_done(91);
}

/// The row of `p(92)`: its value, and its sum step by step.
proof fn lemma_row_92()
    requires
        rows_right(91),
    ensures
        rows_right(92),
{
    assert(usize::MAX >= 0xffff_ffff);
    assert(partitions(0) == 1);
    assert(partitions(15) == 176);
    assert(partitions(22) == 1002);
    assert(partitions(35) == 14883);
    assert(partitions(41) == 44583);
    assert(partitions(52) == 281589);
    assert(partitions(57) == 614154);
    assert(partitions(66) == 2323520);
    assert(partitions(70) == 4087968);
    assert(partitions(77) == 10619863);
    assert(partitions(80) == 15796476);
    assert(partitions(85) == 30167357);
    assert(partitions(87) == 38887673);
    assert(partitions(90) == 56634173);
    assert(partitions(91) == 64112359);
    assert(pentagonal(1) == 1);
    assert(pentagonal(2) == 5);
    assert(pentagonal(3) == 12);
    assert(pentagonal(4) == 22);
    assert(pentagonal(5) == 35);
    assert(pentagonal(6) == 51);
    assert(pentagonal(7) == 70);
    assert(pentagonal(8) == 92);
    assert(pentagonal(9) == 117);
    lemma_terms_end(92, 9);
    assert(pair_term(92, 8) == 1);
    assert(partition_terms(92, 8) == -1);
    assert(pair_term(92, 7) == 1178);
    assert(partition_terms(92, 7) == 1177);
    assert(pair_term(92, 6) == 59466);
    assert(partition_terms(92, 6) == -58289);
    assert(pair_term(92, 5) == 895743);
    assert(partition_terms(92, 5) == 837454);
    assert(pair_term(92, 4) == 6411488);
    assert(partition_terms(92, 4) == -5574034);
    assert(pair_term(92, 3) == 26416339);
    assert(partition_terms(92, 3) == 20842305);
    assert(pair_term(92, 2) == 69055030);
    assert(partition_terms(92, 2) == -48212725);
    assert(pair_term(92, 1) == 120746532);
    assert(partition_terms(92, 1) == 72533807);
    assert(partitions(92) == 72533807);
    assert forall|k: int| 1 <= k <= 92 implies #[trigger] step_fits(92, k) by {
        if k == 1 {
            assert(head(92, 2) == 120746532);
        } else if k == 2 {
            assert(head(92, 3) == 51691502);
        } else if k == 3 {
            assert(head(92, 4) == 78107841);
        } else if k == 4 {
            assert(head(92, 5) == 71696353);
        } else if k == 5 {
            assert(head(92, 6) == 72592096);
        } else if k == 6 {
            assert(head(92, 7) == 72532630);
        } else if k == 7 {
            assert(head(92, 8) == 72533808);
        } else if k == 8 {
            assert(head(92, 9) == 72533807);
        } else {
            lemma_pentagonal_grows(9, k);
            lemma_pentagonal_grows(9, k + 1);
            lemma_terms_end(92, k);
            lemma_terms_end(92, k + 1);
        }
    }
    lemma_row_done(92);
}

/// The row of `p(93)`: its value, and its sum step by step.
proof fn lemma_row_93()
    requires
        rows_right(92),
    ensures
        rows_right(93),
{
    assert(usize::MAX >= 0xffff_ffff);
    assert(partitions(1) == 1);
    assert(partitions(16) == 231);
    assert(partitions(23) == 1255);
    assert(partitions(36) == 17977);
    assert(partitions(42) == 53174);
    assert(partitions(53) == 329931);
    assert(partitions(58) == 715220);
    assert(partitions(67) == 2679689);
    assert(partitions(71) == 4697205);
    assert(partitions(78) == 12132164);
    assert(partitions(81) == 18004327);
    assert(partitions(86) == 34262962);
    assert(partitions(88) == 44108109);
    assert(partitions(91) == 64112359);
    assert(partitions(92) == 72533807);
    assert(pentagonal(1) == 1);
    assert(pentagonal(2) == 5);
    assert(pentagonal(3) == 12);
    assert(pentagonal(4) == 22);
    assert(pentagonal(5) == 35);
    assert(pentagonal(6) == 51);
    assert(pentagonal(7) == 70);
    assert(pentagonal(8) == 92);
    assert(pentagonal(9) == 117);
    lemma_terms_end(93, 9);
    assert(pair_term(93, 8) == 1);
    assert(partition_terms(93, 8) == -1);
    assert(pair_term(93, 7) == 1486);
    assert(partition_terms(93, 7) == 1485);
    assert(pair_term(93, 6) == 71151);
    assert(partition_terms(93, 6) == -69666);
    assert(pair_term(93, 5) == 1045151);
    assert(partition_terms(93, 5) == 975485);
    assert(pair_term(93, 4) == 7376894);
    assert(partition_terms(93, 4) == -6401409);
    assert(pair_term(93, 3) == 30136491);
    assert(partition_terms(93, 3) == 23735082);
    assert(pair_term(93, 2) == 78371071);
    assert(partition_terms(93, 2) == -54635989);
    assert(pair_term(93, 1) == 136646166);
    assert(partition_terms(93, 1) == 82010177);
    assert(partitions(93) == 82010177);
    assert forall|k: int| 1 <= k <= 93 implies #[trigger] step_fits(93, k) by {
        if k == 1 {
            assert(head(93, 2) == 136646166);
        } else if k == 2 {
            assert(head(93, 3) == 58275095);
        } else if k == 3 {
            assert(head(93, 4) == 88411586);
        } else if k == 4 {
            assert(head(93, 5) == 81034692);
        } else if k == 5 {
            assert(head(93, 6) == 82079843);
        } else if k == 6 {
            assert(head(93, 7) == 82008692);
        } else if k == 7 {
            assert(head(93, 8) == 82010178);
        } else if k == 8 {
            assert(head(93, 9) == 82010177);
        } else {
            lemma_pentagonal_grows(9, k);
            lemma_pentagonal_grows(9, k + 1);
            lemma_terms_end(93, k);
            lemma_terms_end(93, k + 1);
        }
    }
    lemma_row_done(93);
}

/// The row of `p(94)`: its value, and its sum step by step.
proof fn lemma_row_94()
    requires
        rows_right(93),
    ensures
        rows_right(94),
{
    assert(usize::MAX >= 0xffff_ffff);
    assert(partitions(2) == 2);
    assert(partitions(17) == 297);
    assert(partitions(24) == 1575);
    assert(partitions(37) == 21637);
    assert(partitions(43) == 63261);
    assert(partitions(54) == 386155);
    assert(partitions(59) == 831820);
    assert(partitions(68) == 3087735);
    assert(partitions(72) == 5392783);
    assert(partitions(79) == 13848650);
    assert(partitions(82) == 20506255);
    assert(partitions(87) == 38887673);
    assert(partitions(89) == 49995925);
    assert(partitions(92) == 72533807);
    assert(partitions(93) == 82010177);
    assert(pentagonal(1) == 1);
    assert(pentagonal(2) == 5);
    assert(pentagonal(3) == 12);
    assert(pentagonal(4) == 22);
    assert(pentagonal(5) == 35);
    assert(pentagonal(6) == 51);
    assert(pentagonal(7) == 70);
    assert(pentagonal(8) == 92);
    assert(pentagonal(9) == 117);
    lemma_terms_end(94, 9);
    assert(pair_term(94, 8) == 2);
    assert(partition_terms(94, 8) == -2);
    assert(pair_term(94, 7) == 1872);
    assert(partition_terms(94, 7) == 1870);
    assert(pair_term(94, 6) == 84898);
    assert(partition_terms(94, 6) == -83028);
    assert(pair_term(94, 5) == 1217975);
    assert(partition_terms(94, 5) == 1134947);
    assert(pair_term(94, 4) == 8480518);
    assert(partition_terms(94, 4) == -7345571);
    assert(pair_term(94, 3) == 34354905);
    assert(partition_terms(94, 3) == 27009334);
    assert(pair_term(94, 2) == 88883598);
    assert(partition_terms(94, 2) == -61874264);
    assert(pair_term(94, 1) == 154543984);
    assert(partition_terms(94, 1) == 92669720);
    assert(partitions(94) == 92669720);
    assert forall|k: int| 1 <= k <= 94 implies #[trigger] step_fits(94, k) by {
        if k == 1 {
            assert(head(94, 2) == 154543984);
        } else if k == 2 {
            assert(head(94, 3) == 65660386);
        } else if k == 3 {
            assert(head(94, 4) == 100015291);
        } else if k == 4 {
            assert(head(94, 5) == 91534773);
        } else if k == 5 {
            assert(head(94, 6) == 92752748);
        } else if k == 6 {
            assert(head(94, 7) == 92667850);
        } else if k == 7 {
            assert(head(94, 8) == 92669722);
        } else if k == 8 {
            assert(head(94, 9) == 92669720);
        } else {
            lemma_pentagonal_grows(9, k);
            lemma_pentagonal_grows(9, k + 1);
            lemma_terms_end(94, k);
            lemma_terms_end(94, k + 1);
        }
    }
    lemma_row_done(94);
}

/// The row of `p(95)`: its value, and its sum step by step.
proof fn lemma_row_95()
    requires
        rows_right(94),
    ensures
        rows_right(95),
{
    assert(usize::MAX >= 0xffff_ffff);
    assert(partitions(3) == 3);
    assert(partitions(18) == 385);
    assert(partitions(25) == 1958);
    assert(partitions(38) == 26015);
    assert(partitions(44) == 75175);
    assert(partitions(55) == 451276);
    assert(partitions(60) == 966467);
    assert(partitions(69) == 3554345);
    assert(partitions(73) == 6185689);
    assert(partitions(80) == 15796476);
    assert(partitions(83) == 23338469);
    assert(partitions(88) == 44108109);
    assert(partitions(90) == 56634173);
    assert(partitions(93) == 82010177);
    assert(partitions(94) == 92669720);
    assert(pentagonal(1) == 1);
    assert(pentagonal(2) == 5);
    assert(pentagonal(3) == 12);
    assert(pentagonal(4) == 22);
    assert(pentagonal(5) == 35);
    assert(pentagonal(6) == 51);
    assert(pentagonal(7) == 70);
    assert(pentagonal(8) == 92);
    assert(pentagonal(9) == 117);
    lemma_terms_end(95, 9);
    assert(pair_term(95, 8) == 3);
    assert(partition_terms(95, 8) == -3);
    assert(pair_term(95, 7) == 2343);
    assert(partition_terms(95, 7) == 2340);
    assert(pair_term(95, 6) == 101190);
    assert(partition_terms(95, 6) == -98850);
    assert(pair_term(95, 5) == 1417743);
    assert(partition_terms(95, 5) == 1318893);
    assert(pair_term(95, 4) == 9740034);
    assert(partition_terms(95, 4) == -8421141);
    assert(pair_term(95, 3) == 39134945);
    assert(partition_terms(95, 3) == 30713804);
    assert(pair_term(95, 2) == 100742282);
    assert(partition_terms(95, 2) == -70028478);
    assert(pair_term(95, 1) == 174679897);
    assert(partition_terms(95, 1) == 104651419);
    assert(partitions(95) == 104651419);
    assert forall|k: int| 1 <= k <= 95 implies #[trigger] step_fits(95, k) by {
        if k == 1 {
            assert(head(95, 2) == 174679897);
        } else if k == 2 {
            assert(head(95, 3) == 73937615);
        } else if k == 3 {
            assert(head(95, 4) == 113072560);
        } else if k == 4 {
            assert(head(95, 5) == 103332526);
        } else if k == 5 {
            assert(head(95, 6) == 104750269);
        } else if k == 6 {
            assert(head(95, 7) == 104649079);
        } else if k == 7 {
            assert(head(95, 8) == 104651422);
        } else if k == 8 {
            assert(head(95, 9) == 104651419);
        } else {
            lemma_pentagonal_grows(9, k);
            lemma_pentagonal_grows(9, k + 1);
            lemma_terms_end(95, k);
            lemma_terms_end(95, k + 1);
        }
    }
    lemma_row_done(95);
}

/// The row of `p(96)`: its value, and its sum step by step.
proof fn lemma_row_96()
    requires
        rows_right(95),
    ensures
        rows_right(96),
{
    assert(usize::MAX >= 0xffff_ffff);
    assert(partitions(4) == 5);
    assert(partitions(19) == 490);
    assert(partitions(26) == 2436);
    assert(partitions(39) == 31185);
    assert(partitions(45) == 89134);
    assert(partitions(56) == 526823);
    assert(partitions(61) == 1121505);
    assert(partitions(70) == 4087968);
    assert(partitions(74) == 7089500);
    assert(partitions(81) == 18004327);
    assert(partitions(84) == 26543660);
    assert(partitions(89) == 49995925);
    assert(partitions(91) == 64112359);
    assert(partitions(94) == 92669720);
    assert(partitions(95) == 104651419);
    assert(pentagonal(1) == 1);
    assert(pentagonal(2) == 5);
    assert(pentagonal(3) == 12);
    assert(pentagonal(4) == 22);
    assert(pentagonal(5) == 35);
    assert(pentagonal(6) == 51);
    assert(pentagonal(7) == 70);
    assert(pentagonal(8) == 92);
    assert(pentagonal(9) == 117);
    lemma_terms_end(96, 9);
    assert(pair_term(96, 8) == 5);
    assert(partition_terms(96, 8) == -5);
    assert(pair_term(96, 7) == 2926);
    assert(partition_terms(96, 7) == 2921);
    assert(pair_term(96, 6) == 120319);
    assert(partition_terms(96, 6) == -117398);
    assert(pair_term(96, 5) == 1648328);
    assert(partition_terms(96, 5) == 1530930);
    assert(pair_term(96, 4) == 11177468);
    assert(partition_terms(96, 4) == -9646538);
    assert(pair_term(96, 3) == 44547987);
    assert(partition_terms(96, 3) == 34901449);
    assert(pair_term(96, 2) == 114108284);
    assert(partition_terms(96, 2) == -79206835);
    assert(pair_term(96, 1) == 197321139);
    assert(partition_terms(96, 1) == 118114304);
    assert(partitions(96) == 118114304);
    assert forall|k: int| 1 <= k <= 96 implies #[trigger] step_fits(96, k) by {
        if k == 1 {
            assert(head(96, 2) == 197321139);
        } else if k == 2 {
            assert(head(96, 3) == 83212855);
        } else if k == 3 {
            assert(head(96, 4) == 127760842);
        } else if k == 4 {
            assert(head(96, 5) == 116583374);
        } else if k == 5 {
            assert(head(96, 6) == 118231702);
        } else if k == 6 {
            assert(head(96, 7) == 118111383);
        } else if k == 7 {
            assert(head(96, 8) == 118114309);
        } else if k == 8 {
            assert(head(96, 9) == 118114304);
        } else {
            lemma_pentagonal_grows(9, k);
            lemma_pentagonal_grows(9, k + 1);
            lemma_terms_end(96, k);
            lemma_terms_end(96, k + 1);
        }
    }
    lemma_row_done(96);
}

/// The row of `p(97)`: its value, and its sum step by step.
proof fn lemma_row_97()
    requires
        rows_right(96),
    ensures
        rows_right(97),
{
    assert(usize::MAX >= 0xffff_ffff);
    assert(partitions(5) == 7);
    assert(partitions(20) == 627);
    assert(partitions(27) == 3010);
    assert(partitions(40) == 37338);
    assert(partitions(46) == 105558);
    assert(partitions(57) == 614154);
    assert(partitions(62) == 1300156);
    assert(partitions(71) == 4697205);
    assert(partitions(75) == 8118264);
    assert(partitions(82) == 20506255);
    assert(partitions(85) == 30167357);
    assert(partitions(90) == 56634173);
    assert(partitions(92) == 72533807);
    assert(partitions(95) == 104651419);
    assert(partitions(96) == 118114304);
    assert(pentagonal(1) == 1);
    assert(pentagonal(2) == 5);
    assert(pentagonal(3) == 12);
    assert(pentagonal(4) == 22);
    assert(pentagonal(5) == 35);
    assert(pentagonal(6) == 51);
    assert(pentagonal(7) == 70);
    assert(pentagonal(8) == 92);
    assert(pentagonal(9) == 117);
    lemma_terms_end(97, 9);
    assert(pair_term(97, 8) == 7);
    assert(partition_terms(97, 8) == -7);
    assert(pair_term(97, 7) == 3637);
    assert(partition_terms(97, 7) == 3630);
    assert(pair_term(97, 6) == 142896);
    assert(partition_terms(97, 6) == -139266);
    assert(pair_term(97, 5) == 1914310);
    assert(partition_terms(97, 5) == 1775044);
    assert(pair_term(97, 4) == 12815469);
    assert(partition_terms(97, 4) == -11040425);
    assert(pair_term(97, 3) == 50673612);
    assert(partition_terms(97, 3) == 39633187);
    assert(pair_term(97, 2) == 129167980);
    assert(partition_terms(97, 2) == -89534793);
    assert(pair_term(97, 1) == 222765723);
    assert(partition_terms(97, 1) == 133230930);
    assert(partitions(97) == 133230930);
    assert forall|k: int| 1 <= k <= 97 implies #[trigger] step_fits(97, k) by {
        if k == 1 {
            assert(head(97, 2) == 222765723);
        } else if k == 2 {
            assert(head(97, 3) == 93597743);
        } else if k == 3 {
            assert(head(97, 4) == 144271355);
        } else if k == 4 {
            assert(head(97, 5) == 131455886);
        } else if k == 5 {
            assert(head(97, 6) == 133370196);
        } else if k == 6 {
            assert(head(97, 7) == 133227300);
        } else if k == 7 {
            assert(head(97, 8) == 133230937);
        } else if k == 8 {
            assert(head(97, 9) == 133230930);
        } else {
            lemma_pentagonal_grows(9, k);
            lemma_pentagonal_grows(9, k + 1);
            lemma_terms_end(97, k);
            lemma_terms_end(97, k + 1);
        }
    }
    lemma_row_done(97);
}

/// The row of `p(98)`: its value, and its sum step by step.
proof fn lemma_row_98()
    requires
        rows_right(97),
    ensures
        rows_right(98),
{
    assert(usize::MAX >= 0xffff_ffff);
    assert(partitions(6) == 11);
    assert(partitions(21) == 792);
    assert(partitions(28) == 3718);
    assert(partitions(41) == 44583);
    assert(partitions(47) == 124754);
    assert(partitions(58) == 715220);
    assert(partitions(63) == 1505499);
    assert(partitions(72) == 5392783);
    assert(partitions(76) == 9289091);
    assert(partitions(83) == 23338469);
    assert(partitions(86) == 34262962);
    assert(partitions(91) == 64112359);
    assert(partitions(93) == 82010177);
    assert(partitions(96) == 118114304);
    assert(partitions(97) == 133230930);
    assert(pentagonal(1) == 1);
    assert(pentagonal(2) == 5);
    assert(pentagonal(3) == 12);
    assert(pentagonal(4) == 22);
    assert(pentagonal(5) == 35);
    assert(pentagonal(6) == 51);
    assert(pentagonal(7) == 70);
    assert(pentagonal(8) == 92);
    assert(pentagonal(9) == 117);
    lemma_terms_end(98, 9);
    assert(pair_term(98, 8) == 11);
    assert(partition_terms(98, 8) == -11);
    assert(pair_term(98, 7) == 4510);
    assert(partition_terms(98, 7) == 4499);
    assert(pair_term(98, 6) == 169337);
    assert(partition_terms(98, 6) == -164838);
    assert(pair_term(98, 5) == 2220719);
    assert(partition_terms(98, 5) == 2055881);
    assert(pair_term(98, 4) == 14681874);
    assert(partition_terms(98, 4) == -12625993);
    assert(pair_term(98, 3) == 57601431);
    assert(partition_terms(98, 3) == 44975438);
    assert(pair_term(98, 2) == 146122536);
    assert(partition_terms(98, 2) == -101147098);
    assert(pair_term(98, 1) == 251345234);
    assert(partition_terms(98, 1) == 150198136);
    assert(partitions(98) == 150198136);
    assert forall|k: int| 1 <= k <= 98 implies #[trigger] step_fits(98, k) by {
        if k == 1 {
            assert(head(98, 2) == 251345234);
        } else if k == 2 {
            assert(head(98, 3) == 105222698);
        } else if k == 3 {
            assert(head(98, 4) == 162824129);
        } else if k == 4 {
            assert(head(98, 5) == 148142255);
        } else if k == 5 {
            assert(head(98, 6) == 150362974);
        } else if k == 6 {
            assert(head(98, 7) == 150193637);
        } else if k == 7 {
            assert(head(98, 8) == 150198147);
        } else if k == 8 {
            assert(head(98, 9) == 150198136);
        } else {
            lemma_pentagonal_grows(9, k);
            lemma_pentagonal_grows(9, k + 1);
            lemma_terms_end(98, k);
            lemma_terms_end(98, k + 1);
        }
    }
    lemma_row_done(98);
}

/// The row of `p(99)`: its value, and its sum step by step.
proof fn lemma_row_99()
    requires
        rows_right(98),
    ensures
        rows_right(99),
{
    assert(usize::MAX >= 0xffff_ffff);
    assert(partitions(7) == 15);
    assert(partitions(22) == 1002);
    assert(partitions(29) == 4565);
    assert(partitions(42) == 53174);
    assert(partitions(48) == 147273);
    assert(partitions(59) == 831820);
    assert(partitions(64) == 1741630);
    assert(partitions(73) == 6185689);
    assert(partitions(77) == 10619863);
    assert(partitions(84) == 26543660);
    assert(partitions(87) == 38887673);
    assert(partitions(92) == 72533807);
    assert(partitions(94) == 92669720);
    assert(partitions(97) == 133230930);
    assert(partitions(98) == 150198136);
    assert(pentagonal(1) == 1);
    assert(pentagonal(2) == 5);
    assert(pentagonal(3) == 12);
    assert(pentagonal(4) == 22);
    assert(pentagonal(5) == 35);
    assert(pentagonal(6) == 51);
    assert(pentagonal(7) == 70);
    assert(pentagonal(8) == 92);
    assert(pentagonal(9) == 117);
    lemma_terms_end(99, 9);
    assert(pair_term(99, 8) == 15);
    assert(partition_terms(99, 8) == -15);
    assert(pair_term(99, 7) == 5567);
    assert(partition_terms(99, 7) == 5552);
    assert(pair_term(99, 6) == 200447);
    assert(partition_terms(99, 6) == -194895);
    assert(pair_term(99, 5) == 2573450);
    assert(partition_terms(99, 5) == 2378555);
    assert(pair_term(99, 4) == 16805552);
    assert(partition_terms(99, 4) == -14426997);
    assert(pair_term(99, 3) == 65431333);
    assert(partition_terms(99, 3) == 51004336);
    assert(pair_term(99, 2) == 165203527);
    assert(partition_terms(99, 2) == -114199191);
    assert(pair_term(99, 1) == 283429066);
    assert(partition_terms(99, 1) == 169229875);
    assert(partitions(99) == 169229875);
    assert forall|k: int| 1 <= k <= 99 implies #[trigger] step_fits(99, k) by {
        if k == 1 {
            assert(head(99, 2) == 283429066);
        } else if k == 2 {
            assert(head(99, 3) == 118225539);
        } else if k == 3 {
            assert(head(99, 4) == 183656872);
        } else if k == 4 {
            assert(head(99, 5) == 166851320);
        } else if k == 5 {
            assert(head(99, 6) == 169424770);
        } else if k == 6 {
            assert(head(99, 7) == 169224323);
        } else if k == 7 {
            assert(head(99, 8) == 169229890);
        } else if k == 8 {
            assert(head(99, 9) == 169229875);
        } else {
            lemma_pentagonal_grows(9, k);
            lemma_pentagonal_grows(9, k + 1);
            lemma_terms_end(99, k);
            lemma_terms_end(99, k + 1);
        }
    }
    lemma_row_done(99);
}

/// The row of `p(100)`: its value, and its sum step by step.
proof fn lemma_row_100()
    requires
        rows_right(99),
    ensures
        rows_right(100),
{
    assert(usize::MAX >= 0xffff_ffff);
    assert(partitions(0) == 1);
    assert(partitions(8) == 22);
    assert(partitions(23) == 1255);
    assert(partitions(30) == 5604);
    assert(partitions(43) == 63261);
    assert(partitions(49) == 173525);
    assert(partitions(60) == 966467);
    assert(partitions(65) == 2012558);
    assert(partitions(74) == 7089500);
    assert(partitions(78) == 12132164);
    assert(partitions(85) == 30167357);
    assert(partitions(88) == 44108109);
    assert(partitions(93) == 82010177);
    assert(partitions(95) == 104651419);
    assert(partitions(98) == 150198136);
    assert(partitions(99) == 169229875);
    assert(pentagonal(1) == 1);
    assert(pentagonal(2) == 5);
    assert(pentagonal(3) == 12);
    assert(pentagonal(4) == 22);
    assert(pentagonal(5) == 35);
    assert(pentagonal(6) == 51);
    assert(pentagonal(7) == 70);
    assert(pentagonal(8) == 92);
    assert(pentagonal(9) == 117);
    lemma_terms_end(100, 9);
    assert(pair_term(100, 8) == 23);
    assert(partition_terms(100, 8) == -23);
    assert(pair_term(100, 7) == 6859);
    assert(partition_terms(100, 7) == 6836);
    assert(pair_term(100, 6) == 236786);
    assert(partition_terms(100, 6) == -229950);
    assert(pair_term(100, 5) == 2979025);
    assert(partition_terms(100, 5) == 2749075);
    assert(pair_term(100, 4) == 19221664);
    assert(partition_terms(100, 4) == -16472589);
    assert(pair_term(100, 3) == 74275466);
    assert(partition_terms(100, 3) == 57802877);
    assert(pair_term(100, 2) == 186661596);
    assert(partition_terms(100, 2) == -128858719);
    assert(pair_term(100, 1) == 319428011);
    assert(partition_terms(100, 1) == 190569292);
    assert(partitions(100) == 190569292);
    assert forall|k: int| 1 <= k <= 100 implies #[trigger] step_fits(100, k) by {
        if k == 1 {
            assert(head(100, 2) == 319428011);
        } else if k == 2 {
            assert(head(100, 3) == 132766415);
        } else if k == 3 {
            assert(head(100, 4) == 207041881);
        } else if k == 4 {
            assert(head(100, 5) == 187820217);
        } else if k == 5 {
            assert(head(100, 6) == 190799242);
        } else if k == 6 {
            assert(head(100, 7) == 190562456);
        } else if k == 7 {
            assert(head(100, 8) == 190569315);
        } else if k == 8 {
            assert(head(100, 9) == 190569292);
        } else {
            lemma_pentagonal_grows(9, k);
            lemma_pentagonal_grows(9, k + 1);
            lemma_terms_end(100, k);
            lemma_terms_end(100, k + 1);
        }
    }
    lemma_row_done(100);
}

/// The partition numbers up to `p(100)` are those of the list, and the
/// sums on the way to them stay in the range of `usize`.
pub proof fn lemma_first_partitions()
    ensures
        rows_right(100),
{
    assert(rows_right(1));
    lemma_row_2();
    lemma_row_3();
    lemma_row_4();
    lemma_row_5();
    lemma_row_6();
    lemma_row_7();
    lemma_row_8();
    lemma_row_9();
    lemma_row_10();
    lemma_row_11();
    lemma_row_12();
    lemma_row_13();
    lemma_row_14();
    lemma_row_15();
    lemma_row_16();
    lemma_row_17();
    lemma_row_18();
    lemma_row_19();
    lemma_row_20();
    lemma_row_21();
    lemma_row_22();
    lemma_row_23();
    lemma_row_24();
    lemma_row_25();
    lemma_row_26();
    lemma_row_27();
    lemma_row_28();
    lemma_row_29();
    lemma_row_30();
    lemma_row_31();
    lemma_row_32();
    lemma_row_33();
    lemma_row_34();
    lemma_row_35();
    lemma_row_36();
    lemma_row_37();
    lemma_row_38();
    lemma_row_39();
    lemma_row_40();
    lemma_row_41();
    lemma_row_42();
    lemma_row_43();
    lemma_row_44();
    lemma_row_45();
    lemma_row_46();
    lemma_row_47();
    lemma_row_48();
    lemma_row_49();
    lemma_row_50();
    lemma_row_51();
    lemma_row_52();
    lemma_row_53();
    lemma_row_54();
    lemma_row_55();
    lemma_row_56();
    lemma_row_57();
    lemma_row_58();
    lemma_row_59();
    lemma_row_60();
    lemma_row_61();
    lemma_row_62();
    lemma_row_63();
    lemma_row_64();
    lemma_row_65();
    lemma_row_66();
    lemma_row_67();
    lemma_row_68();
    lemma_row_69();
    lemma_row_70();
    lemma_row_71();
    lemma_row_72();
    lemma_row_73();
    lemma_row_74();
    lemma_row_75();
    lemma_row_76();
    lemma_row_77();
    lemma_row_78();
    lemma_row_79();
    lemma_row_80();
    lemma_row_81();
    lemma_row_82();
    lemma_row_83();
    lemma_row_84();
    lemma_row_85();
    lemma_row_86();
    lemma_row_87();
    lemma_row_88();
    lemma_row_89();
    lemma_row_90();
    lemma_row_91();
    lemma_row_92();
    lemma_row_93();
    lemma_row_94();
    lemma_row_95();
    lemma_row_96();
    lemma_row_97();
    lemma_row_98();
    lemma_row_99();
    lemma_row_100();
}

} // verus!
