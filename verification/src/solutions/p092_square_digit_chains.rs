//! Square digit chains: add up the squares of the digits of a number, and go
//! on with the sum. Every chain arrives at 1 or at 89.

use vstd::prelude::*;

verus! {

/// The numbers below this bound are searched.
pub const N: usize = 10_000_000;

/// The sum of the squares of the decimal digits of `n`.
pub open spec fn square_digit_total(n: int) -> int
    decreases n,
{
    if n <= 0 {
        0
    } else {
        (n % 10) * (n % 10) + square_digit_total(n / 10)
    }
}

/// A chain is followed until it reaches one of these numbers.
pub open spec fn chain_ended(n: int) -> bool {
    n == 0 || n == 1 || n == 89
}

/// How many steps the chain of a number up to 162 takes to reach 0, 1 or 89.
pub open spec fn small_chain_length(n: int) -> int {
    if n == 0 || n == 1 || n == 89 {
        0
    } else if n == 10 || n == 58 || n == 85 || n == 100 {
        1
    } else if n == 13 || n == 29 || n == 31 || n == 37 || n == 67 || n == 68 || n == 73
        || n == 76 || n == 86 || n == 92 || n == 103 || n == 130 {
        2
    } else if n == 16 || n == 23 || n == 25 || n == 28 || n == 32 || n == 38 || n == 52
        || n == 61 || n == 79 || n == 82 || n == 83 || n == 97 || n == 106 || n == 129
        || n == 160 {
        3
    } else if n == 4 || n == 5 || n == 19 || n == 34 || n == 40 || n == 43 || n == 44
        || n == 46 || n == 49 || n == 50 || n == 56 || n == 59 || n == 64 || n == 65
        || n == 91 || n == 94 || n == 95 || n == 109 || n == 116 || n == 119 || n == 161 {
        4
    } else if n == 2 || n == 7 || n == 8 || n == 12 || n == 17 || n == 18 || n == 20
        || n == 21 || n == 26 || n == 35 || n == 47 || n == 53 || n == 55 || n == 62
        || n == 70 || n == 71 || n == 74 || n == 80 || n == 81 || n == 102 || n == 107
        || n == 108 || n == 120 || n == 133 || n == 136 || n == 137 || n == 139 {
        5
    } else if n == 9 || n == 11 || n == 14 || n == 15 || n == 22 || n == 24 || n == 27
        || n == 33 || n == 41 || n == 42 || n == 48 || n == 51 || n == 57 || n == 72
        || n == 75 || n == 84 || n == 90 || n == 101 || n == 104 || n == 105
        || n == 110 || n == 114 || n == 124 || n == 134 || n == 135 || n == 138
        || n == 140 || n == 141 || n == 142 || n == 143 || n == 146 || n == 148
        || n == 150 || n == 153 || n == 156 || n == 159 {
        6
    } else if n == 3 || n == 30 || n == 39 || n == 45 || n == 54 || n == 66 || n == 93
        || n == 113 || n == 115 || n == 117 || n == 122 || n == 123 || n == 126
        || n == 131 || n == 132 || n == 144 || n == 145 || n == 151 || n == 154
        || n == 155 || n == 157 || n == 158 || n == 162 {
        7
    } else if n == 36 || n == 63 || n == 69 || n == 78 || n == 87 || n == 96 || n == 98
        || n == 99 || n == 111 || n == 118 || n == 125 || n == 127 || n == 147 || n == 152 {
        8
    } else if n == 6 || n == 60 || n == 77 || n == 128 || n == 149 {
        9
    } else {
        10
    }
}

/// A bound on the number of steps that the chain of `n` takes to reach 0, 1
/// or 89: the exact number up to 162, and `n` itself and a little more
/// above, where each step leads downwards.
pub open spec fn chain_length_bound(n: int) -> int {
    if n <= 162 {
        small_chain_length(n)
    } else {
        n + 11
    }
}

/// The sums for the numbers of one digit, and for the first two digits of
/// the numbers from 100 to 169.
proof fn lemma_first_digits()
    ensures
        square_digit_total(0) == 0,
        square_digit_total(1) == 1,
        square_digit_total(2) == 4,
        square_digit_total(3) == 9,
        square_digit_total(4) == 16,
        square_digit_total(5) == 25,
        square_digit_total(6) == 36,
        square_digit_total(7) == 49,
        square_digit_total(8) == 64,
        square_digit_total(9) == 81,
        square_digit_total(10) == 1,
        square_digit_total(11) == 2,
        square_digit_total(12) == 5,
        square_digit_total(13) == 10,
        square_digit_total(14) == 17,
        square_digit_total(15) == 26,
        square_digit_total(16) == 37,
{
    reveal_with_fuel(square_digit_total, 4);
    assert(square_digit_total(0) == 0);
    assert(1int / 10 == 0 && 1int % 10 == 1);
    assert(square_digit_total(1) == 1);
    assert(2int / 10 == 0 && 2int % 10 == 2);
    assert(square_digit_total(2) == 4);
    assert(3int / 10 == 0 && 3int % 10 == 3);
    assert(square_digit_total(3) == 9);
    assert(4int / 10 == 0 && 4int % 10 == 4);
    assert(square_digit_total(4) == 16);
    assert(5int / 10 == 0 && 5int % 10 == 5);
    assert(square_digit_total(5) == 25);
    assert(6int / 10 == 0 && 6int % 10 == 6);
    assert(square_digit_total(6) == 36);
    assert(7int / 10 == 0 && 7int % 10 == 7);
    assert(square_digit_total(7) == 49);
    assert(8int / 10 == 0 && 8int % 10 == 8);
    assert(square_digit_total(8) == 64);
    assert(9int / 10 == 0 && 9int % 10 == 9);
    assert(square_digit_total(9) == 81);
    assert(10int / 10 == 1 && 10int % 10 == 0);
    assert(square_digit_total(10) == 1);
    assert(11int / 10 == 1 && 11int % 10 == 1);
    assert(square_digit_total(11) == 2);
    assert(12int / 10 == 1 && 12int % 10 == 2);
    assert(square_digit_total(12) == 5);
    assert(13int / 10 == 1 && 13int % 10 == 3);
    assert(square_digit_total(13) == 10);
    assert(14int / 10 == 1 && 14int % 10 == 4);
    assert(square_digit_total(14) == 17);
    assert(15int / 10 == 1 && 15int % 10 == 5);
    assert(square_digit_total(15) == 26);
    assert(16int / 10 == 1 && 16int % 10 == 6);
    assert(square_digit_total(16) == 37);
}

/// One step of the chain of a number up to 162 stays up to 162 and leaves
/// one step less to go. The proof is a table: the next number of the chain
/// of each number from 2 to 162.
#[verifier::rlimit(40)]
proof fn lemma_small_chain(n: int)
    requires
        0 <= n <= 162,
        !chain_ended(n),
    ensures
        0 <= square_digit_total(n) <= 162,
        small_chain_length(square_digit_total(n)) == small_chain_length(n) - 1,
{
    lemma_first_digits();
    if n == 2 {
        assert(2int / 10 == 0 && 2int % 10 == 2);
        assert(square_digit_total(2) == 4);
    }
    if n == 3 {
        assert(3int / 10 == 0 && 3int % 10 == 3);
        assert(square_digit_total(3) == 9);
    }
    if n == 4 {
        assert(4int / 10 == 0 && 4int % 10 == 4);
        assert(square_digit_total(4) == 16);
    }
    if n == 5 {
        assert(5int / 10 == 0 && 5int % 10 == 5);
        assert(square_digit_total(5) == 25);
    }
    if n == 6 {
        assert(6int / 10 == 0 && 6int % 10 == 6);
        assert(square_digit_total(6) == 36);
    }
    if n == 7 {
        assert(7int / 10 == 0 && 7int % 10 == 7);
        assert(square_digit_total(7) == 49);
    }
    if n == 8 {
        assert(8int / 10 == 0 && 8int % 10 == 8);
        assert(square_digit_total(8) == 64);
    }
    if n == 9 {
        assert(9int / 10 == 0 && 9int % 10 == 9);
        assert(square_digit_total(9) == 81);
    }
    if n == 10 {
        assert(10int / 10 == 1 && 10int % 10 == 0);
        assert(square_digit_total(10) == 1);
    }
    if n == 11 {
        assert(11int / 10 == 1 && 11int % 10 == 1);
        assert(square_digit_total(11) == 2);
    }
    if n == 12 {
        assert(12int / 10 == 1 && 12int % 10 == 2);
        assert(square_digit_total(12) == 5);
    }
    if n == 13 {
        assert(13int / 10 == 1 && 13int % 10 == 3);
        assert(square_digit_total(13) == 10);
    }
    if n == 14 {
        assert(14int / 10 == 1 && 14int % 10 == 4);
        assert(square_digit_total(14) == 17);
    }
    if n == 15 {
        assert(15int / 10 == 1 && 15int % 10 == 5);
        assert(square_digit_total(15) == 26);
    }
    if n == 16 {
        assert(16int / 10 == 1 && 16int % 10 == 6);
        assert(square_digit_total(16) == 37);
    }
    if n == 17 {
        assert(17int / 10 == 1 && 17int % 10 == 7);
        assert(square_digit_total(17) == 50);
    }
    if n == 18 {
        assert(18int / 10 == 1 && 18int % 10 == 8);
        assert(square_digit_total(18) == 65);
    }
    if n == 19 {
        assert(19int / 10 == 1 && 19int % 10 == 9);
        assert(square_digit_total(19) == 82);
    }
    if n == 20 {
        assert(20int / 10 == 2 && 20int % 10 == 0);
        assert(square_digit_total(20) == 4);
    }
    if n == 21 {
        assert(21int / 10 == 2 && 21int % 10 == 1);
        assert(square_digit_total(21) == 5);
    }
    if n == 22 {
        assert(22int / 10 == 2 && 22int % 10 == 2);
        assert(square_digit_total(22) == 8);
    }
    if n == 23 {
        assert(23int / 10 == 2 && 23int % 10 == 3);
        assert(square_digit_total(23) == 13);
    }
    if n == 24 {
        assert(24int / 10 == 2 && 24int % 10 == 4);
        assert(square_digit_total(24) == 20);
    }
    if n == 25 {
        assert(25int / 10 == 2 && 25int % 10 == 5);
        assert(square_digit_total(25) == 29);
    }
    if n == 26 {
        assert(26int / 10 == 2 && 26int % 10 == 6);
        assert(square_digit_total(26) == 40);
    }
    if n == 27 {
        assert(27int / 10 == 2 && 27int % 10 == 7);
        assert(square_digit_total(27) == 53);
    }
    if n == 28 {
        assert(28int / 10 == 2 && 28int % 10 == 8);
        assert(square_digit_total(28) == 68);
    }
    if n == 29 {
        assert(29int / 10 == 2 && 29int % 10 == 9);
        assert(square_digit_total(29) == 85);
    }
    if n == 30 {
        assert(30int / 10 == 3 && 30int % 10 == 0);
        assert(square_digit_total(30) == 9);
    }
    if n == 31 {
        assert(31int / 10 == 3 && 31int % 10 == 1);
        assert(square_digit_total(31) == 10);
    }
    if n == 32 {
        assert(32int / 10 == 3 && 32int % 10 == 2);
        assert(square_digit_total(32) == 13);
    }
    if n == 33 {
        assert(33int / 10 == 3 && 33int % 10 == 3);
        assert(square_digit_total(33) == 18);
    }
    if n == 34 {
        assert(34int / 10 == 3 && 34int % 10 == 4);
        assert(square_digit_total(34) == 25);
    }
    if n == 35 {
        assert(35int / 10 == 3 && 35int % 10 == 5);
        assert(square_digit_total(35) == 34);
    }
    if n == 36 {
        assert(36int / 10 == 3 && 36int % 10 == 6);
        assert(square_digit_total(36) == 45);
    }
    if n == 37 {
        assert(37int / 10 == 3 && 37int % 10 == 7);
        assert(square_digit_total(37) == 58);
    }
    if n == 38 {
        assert(38int / 10 == 3 && 38int % 10 == 8);
        assert(square_digit_total(38) == 73);
    }
    if n == 39 {
        assert(39int / 10 == 3 && 39int % 10 == 9);
        assert(square_digit_total(39) == 90);
    }
    if n == 40 {
        assert(40int / 10 == 4 && 40int % 10 == 0);
        assert(square_digit_total(40) == 16);
    }
    if n == 41 {
        assert(41int / 10 == 4 && 41int % 10 == 1);
        assert(square_digit_total(41) == 17);
    }
    if n == 42 {
        assert(42int / 10 == 4 && 42int % 10 == 2);
        assert(square_digit_total(42) == 20);
    }
    if n == 43 {
        assert(43int / 10 == 4 && 43int % 10 == 3);
        assert(square_digit_total(43) == 25);
    }
    if n == 44 {
        assert(44int / 10 == 4 && 44int % 10 == 4);
        assert(square_digit_total(44) == 32);
    }
    if n == 45 {
        assert(45int / 10 == 4 && 45int % 10 == 5);
        assert(square_digit_total(45) == 41);
    }
    if n == 46 {
        assert(46int / 10 == 4 && 46int % 10 == 6);
        assert(square_digit_total(46) == 52);
    }
    if n == 47 {
        assert(47int / 10 == 4 && 47int % 10 == 7);
        assert(square_digit_total(47) == 65);
    }
    if n == 48 {
        assert(48int / 10 == 4 && 48int % 10 == 8);
        assert(square_digit_total(48) == 80);
    }
    if n == 49 {
        assert(49int / 10 == 4 && 49int % 10 == 9);
        assert(square_digit_total(49) == 97);
    }
    if n == 50 {
        assert(50int / 10 == 5 && 50int % 10 == 0);
        assert(square_digit_total(50) == 25);
    }
    if n == 51 {
        assert(51int / 10 == 5 && 51int % 10 == 1);
        assert(square_digit_total(51) == 26);
    }
    if n == 52 {
        assert(52int / 10 == 5 && 52int % 10 == 2);
        assert(square_digit_total(52) == 29);
    }
    if n == 53 {
        assert(53int / 10 == 5 && 53int % 10 == 3);
        assert(square_digit_total(53) == 34);
    }
    if n == 54 {
        assert(54int / 10 == 5 && 54int % 10 == 4);
        assert(square_digit_total(54) == 41);
    }
    if n == 55 {
        assert(55int / 10 == 5 && 55int % 10 == 5);
        assert(square_digit_total(55) == 50);
    }
    if n == 56 {
        assert(56int / 10 == 5 && 56int % 10 == 6);
        assert(square_digit_total(56) == 61);
    }
    if n == 57 {
        assert(57int / 10 == 5 && 57int % 10 == 7);
        assert(square_digit_total(57) == 74);
    }
    if n == 58 {
        assert(58int / 10 == 5 && 58int % 10 == 8);
        assert(square_digit_total(58) == 89);
    }
    if n == 59 {
        assert(59int / 10 == 5 && 59int % 10 == 9);
        assert(square_digit_total(59) == 106);
    }
    if n == 60 {
        assert(60int / 10 == 6 && 60int % 10 == 0);
        assert(square_digit_total(60) == 36);
    }
    if n == 61 {
        assert(61int / 10 == 6 && 61int % 10 == 1);
        assert(square_digit_total(61) == 37);
    }
    if n == 62 {
        assert(62int / 10 == 6 && 62int % 10 == 2);
        assert(square_digit_total(62) == 40);
    }
    if n == 63 {
        assert(63int / 10 == 6 && 63int % 10 == 3);
        assert(square_digit_total(63) == 45);
    }
    if n == 64 {
        assert(64int / 10 == 6 && 64int % 10 == 4);
        assert(square_digit_total(64) == 52);
    }
    if n == 65 {
        assert(65int / 10 == 6 && 65int % 10 == 5);
        assert(square_digit_total(65) == 61);
    }
    if n == 66 {
        assert(66int / 10 == 6 && 66int % 10 == 6);
        assert(square_digit_total(66) == 72);
    }
    if n == 67 {
        assert(67int / 10 == 6 && 67int % 10 == 7);
        assert(square_digit_total(67) == 85);
    }
    if n == 68 {
        assert(68int / 10 == 6 && 68int % 10 == 8);
        assert(square_digit_total(68) == 100);
    }
    if n == 69 {
        assert(69int / 10 == 6 && 69int % 10 == 9);
        assert(square_digit_total(69) == 117);
    }
    if n == 70 {
        assert(70int / 10 == 7 && 70int % 10 == 0);
        assert(square_digit_total(70) == 49);
    }
    if n == 71 {
        assert(71int / 10 == 7 && 71int % 10 == 1);
        assert(square_digit_total(71) == 50);
    }
    if n == 72 {
        assert(72int / 10 == 7 && 72int % 10 == 2);
        assert(square_digit_total(72) == 53);
    }
    if n == 73 {
        assert(73int / 10 == 7 && 73int % 10 == 3);
        assert(square_digit_total(73) == 58);
    }
    if n == 74 {
        assert(74int / 10 == 7 && 74int % 10 == 4);
        assert(square_digit_total(74) == 65);
    }
    if n == 75 {
        assert(75int / 10 == 7 && 75int % 10 == 5);
        assert(square_digit_total(75) == 74);
    }
    if n == 76 {
        assert(76int / 10 == 7 && 76int % 10 == 6);
        assert(square_digit_total(76) == 85);
    }
    if n == 77 {
        assert(77int / 10 == 7 && 77int % 10 == 7);
        assert(square_digit_total(77) == 98);
    }
    if n == 78 {
        assert(78int / 10 == 7 && 78int % 10 == 8);
        assert(square_digit_total(78) == 113);
    }
    if n == 79 {
        assert(79int / 10 == 7 && 79int % 10 == 9);
        assert(square_digit_total(79) == 130);
    }
    if n == 80 {
        assert(80int / 10 == 8 && 80int % 10 == 0);
        assert(square_digit_total(80) == 64);
    }
    if n == 81 {
        assert(81int / 10 == 8 && 81int % 10 == 1);
        assert(square_digit_total(81) == 65);
    }
    if n == 82 {
        assert(82int / 10 == 8 && 82int % 10 == 2);
        assert(square_digit_total(82) == 68);
    }
    if n == 83 {
        assert(83int / 10 == 8 && 83int % 10 == 3);
        assert(square_digit_total(83) == 73);
    }
    if n == 84 {
        assert(84int / 10 == 8 && 84int % 10 == 4);
        assert(square_digit_total(84) == 80);
    }
    if n == 85 {
        assert(85int / 10 == 8 && 85int % 10 == 5);
        assert(square_digit_total(85) == 89);
    }
    if n == 86 {
        assert(86int / 10 == 8 && 86int % 10 == 6);
        assert(square_digit_total(86) == 100);
    }
    if n == 87 {
        assert(87int / 10 == 8 && 87int % 10 == 7);
        assert(square_digit_total(87) == 113);
    }
    if n == 88 {
        assert(88int / 10 == 8 && 88int % 10 == 8);
        assert(square_digit_total(88) == 128);
    }
    if n == 90 {
        assert(90int / 10 == 9 && 90int % 10 == 0);
        assert(square_digit_total(90) == 81);
    }
    if n == 91 {
        assert(91int / 10 == 9 && 91int % 10 == 1);
        assert(square_digit_total(91) == 82);
    }
    if n == 92 {
        assert(92int / 10 == 9 && 92int % 10 == 2);
        assert(square_digit_total(92) == 85);
    }
    if n == 93 {
        assert(93int / 10 == 9 && 93int % 10 == 3);
        assert(square_digit_total(93) == 90);
    }
    if n == 94 {
        assert(94int / 10 == 9 && 94int % 10 == 4);
        assert(square_digit_total(94) == 97);
    }
    if n == 95 {
        assert(95int / 10 == 9 && 95int % 10 == 5);
        assert(square_digit_total(95) == 106);
    }
    if n == 96 {
        assert(96int / 10 == 9 && 96int % 10 == 6);
        assert(square_digit_total(96) == 117);
    }
    if n == 97 {
        assert(97int / 10 == 9 && 97int % 10 == 7);
        assert(square_digit_total(97) == 130);
    }
    if n == 98 {
        assert(98int / 10 == 9 && 98int % 10 == 8);
        assert(square_digit_total(98) == 145);
    }
    if n == 99 {
        assert(99int / 10 == 9 && 99int % 10 == 9);
        assert(square_digit_total(99) == 162);
    }
    if n == 100 {
        assert(100int / 10 == 10 && 100int % 10 == 0);
        assert(square_digit_total(100) == 1);
    }
    if n == 101 {
        assert(101int / 10 == 10 && 101int % 10 == 1);
        assert(square_digit_total(101) == 2);
    }
    if n == 102 {
        assert(102int / 10 == 10 && 102int % 10 == 2);
        assert(square_digit_total(102) == 5);
    }
    if n == 103 {
        assert(103int / 10 == 10 && 103int % 10 == 3);
        assert(square_digit_total(103) == 10);
    }
    if n == 104 {
        assert(104int / 10 == 10 && 104int % 10 == 4);
        assert(square_digit_total(104) == 17);
    }
    if n == 105 {
        assert(105int / 10 == 10 && 105int % 10 == 5);
        assert(square_digit_total(105) == 26);
    }
    if n == 106 {
        assert(106int / 10 == 10 && 106int % 10 == 6);
        assert(square_digit_total(106) == 37);
    }
    if n == 107 {
        assert(107int / 10 == 10 && 107int % 10 == 7);
        assert(square_digit_total(107) == 50);
    }
    if n == 108 {
        assert(108int / 10 == 10 && 108int % 10 == 8);
        assert(square_digit_total(108) == 65);
    }
    if n == 109 {
        assert(109int / 10 == 10 && 109int % 10 == 9);
        assert(square_digit_total(109) == 82);
    }
    if n == 110 {
        assert(110int / 10 == 11 && 110int % 10 == 0);
        assert(square_digit_total(110) == 2);
    }
    if n == 111 {
        assert(111int / 10 == 11 && 111int % 10 == 1);
        assert(square_digit_total(111) == 3);
    }
    if n == 112 {
        assert(112int / 10 == 11 && 112int % 10 == 2);
        assert(square_digit_total(112) == 6);
    }
    if n == 113 {
        assert(113int / 10 == 11 && 113int % 10 == 3);
        assert(square_digit_total(113) == 11);
    }
    if n == 114 {
        assert(114int / 10 == 11 && 114int % 10 == 4);
        assert(square_digit_total(114) == 18);
    }
    if n == 115 {
        assert(115int / 10 == 11 && 115int % 10 == 5);
        assert(square_digit_total(115) == 27);
    }
    if n == 116 {
        assert(116int / 10 == 11 && 116int % 10 == 6);
        assert(square_digit_total(116) == 38);
    }
    if n == 117 {
        assert(117int / 10 == 11 && 117int % 10 == 7);
        assert(square_digit_total(117) == 51);
    }
    if n == 118 {
        assert(118int / 10 == 11 && 118int % 10 == 8);
        assert(square_digit_total(118) == 66);
    }
    if n == 119 {
        assert(119int / 10 == 11 && 119int % 10 == 9);
        assert(square_digit_total(119) == 83);
    }
    if n == 120 {
        assert(120int / 10 == 12 && 120int % 10 == 0);
        assert(square_digit_total(120) == 5);
    }
    if n == 121 {
        assert(121int / 10 == 12 && 121int % 10 == 1);
        assert(square_digit_total(121) == 6);
    }
    if n == 122 {
        assert(122int / 10 == 12 && 122int % 10 == 2);
        assert(square_digit_total(122) == 9);
    }
    if n == 123 {
        assert(123int / 10 == 12 && 123int % 10 == 3);
        assert(square_digit_total(123) == 14);
    }
    if n == 124 {
        assert(124int / 10 == 12 && 124int % 10 == 4);
        assert(square_digit_total(124) == 21);
    }
    if n == 125 {
        assert(125int / 10 == 12 && 125int % 10 == 5);
        assert(square_digit_total(125) == 30);
    }
    if n == 126 {
        assert(126int / 10 == 12 && 126int % 10 == 6);
        assert(square_digit_total(126) == 41);
    }
    if n == 127 {
        assert(127int / 10 == 12 && 127int % 10 == 7);
        assert(square_digit_total(127) == 54);
    }
    if n == 128 {
        assert(128int / 10 == 12 && 128int % 10 == 8);
        assert(square_digit_total(128) == 69);
    }
    if n == 129 {
        assert(129int / 10 == 12 && 129int % 10 == 9);
        assert(square_digit_total(129) == 86);
    }
    if n == 130 {
        assert(130int / 10 == 13 && 130int % 10 == 0);
        assert(square_digit_total(130) == 10);
    }
    if n == 131 {
        assert(131int / 10 == 13 && 131int % 10 == 1);
        assert(square_digit_total(131) == 11);
    }
    if n == 132 {
        assert(132int / 10 == 13 && 132int % 10 == 2);
        assert(square_digit_total(132) == 14);
    }
    if n == 133 {
        assert(133int / 10 == 13 && 133int % 10 == 3);
        assert(square_digit_total(133) == 19);
    }
    if n == 134 {
        assert(134int / 10 == 13 && 134int % 10 == 4);
        assert(square_digit_total(134) == 26);
    }
    if n == 135 {
        assert(135int / 10 == 13 && 135int % 10 == 5);
        assert(square_digit_total(135) == 35);
    }
    if n == 136 {
        assert(136int / 10 == 13 && 136int % 10 == 6);
        assert(square_digit_total(136) == 46);
    }
    if n == 137 {
        assert(137int / 10 == 13 && 137int % 10 == 7);
        assert(square_digit_total(137) == 59);
    }
    if n == 138 {
        assert(138int / 10 == 13 && 138int % 10 == 8);
        assert(square_digit_total(138) == 74);
    }
    if n == 139 {
        assert(139int / 10 == 13 && 139int % 10 == 9);
        assert(square_digit_total(139) == 91);
    }
    if n == 140 {
        assert(140int / 10 == 14 && 140int % 10 == 0);
        assert(square_digit_total(140) == 17);
    }
    if n == 141 {
        assert(141int / 10 == 14 && 141int % 10 == 1);
        assert(square_digit_total(141) == 18);
    }
    if n == 142 {
        assert(142int / 10 == 14 && 142int % 10 == 2);
        assert(square_digit_total(142) == 21);
    }
    if n == 143 {
        assert(143int / 10 == 14 && 143int % 10 == 3);
        assert(square_digit_total(143) == 26);
    }
    if n == 144 {
        assert(144int / 10 == 14 && 144int % 10 == 4);
        assert(square_digit_total(144) == 33);
    }
    if n == 145 {
        assert(145int / 10 == 14 && 145int % 10 == 5);
        assert(square_digit_total(145) == 42);
    }
    if n == 146 {
        assert(146int / 10 == 14 && 146int % 10 == 6);
        assert(square_digit_total(146) == 53);
    }
    if n == 147 {
        assert(147int / 10 == 14 && 147int % 10 == 7);
        assert(square_digit_total(147) == 66);
    }
    if n == 148 {
        assert(148int / 10 == 14 && 148int % 10 == 8);
        assert(square_digit_total(148) == 81);
    }
    if n == 149 {
        assert(149int / 10 == 14 && 149int % 10 == 9);
        assert(square_digit_total(149) == 98);
    }
    if n == 150 {
        assert(150int / 10 == 15 && 150int % 10 == 0);
        assert(square_digit_total(150) == 26);
    }
    if n == 151 {
        assert(151int / 10 == 15 && 151int % 10 == 1);
        assert(square_digit_total(151) == 27);
    }
    if n == 152 {
        assert(152int / 10 == 15 && 152int % 10 == 2);
        assert(square_digit_total(152) == 30);
    }
    if n == 153 {
        assert(153int / 10 == 15 && 153int % 10 == 3);
        assert(square_digit_total(153) == 35);
    }
    if n == 154 {
        assert(154int / 10 == 15 && 154int % 10 == 4);
        assert(square_digit_total(154) == 42);
    }
    if n == 155 {
        assert(155int / 10 == 15 && 155int % 10 == 5);
        assert(square_digit_total(155) == 51);
    }
    if n == 156 {
        assert(156int / 10 == 15 && 156int % 10 == 6);
        assert(square_digit_total(156) == 62);
    }
    if n == 157 {
        assert(157int / 10 == 15 && 157int % 10 == 7);
        assert(square_digit_total(157) == 75);
    }
    if n == 158 {
        assert(158int / 10 == 15 && 158int % 10 == 8);
        assert(square_digit_total(158) == 90);
    }
    if n == 159 {
        assert(159int / 10 == 15 && 159int % 10 == 9);
        assert(square_digit_total(159) == 107);
    }
    if n == 160 {
        assert(160int / 10 == 16 && 160int % 10 == 0);
        assert(square_digit_total(160) == 37);
    }
    if n == 161 {
        assert(161int / 10 == 16 && 161int % 10 == 1);
        assert(square_digit_total(161) == 38);
    }
    if n == 162 {
        assert(162int / 10 == 16 && 162int % 10 == 2);
        assert(square_digit_total(162) == 41);
    }
}

/// From 100 on, the sum of the squares of the digits is less than the
/// number; below, it is 162 at most.
pub proof fn lemma_square_digit_total(n: int)
    requires
        0 <= n,
    ensures
        0 <= square_digit_total(n),
        n >= 100 ==> square_digit_total(n) < n,
        n < 100 ==> square_digit_total(n) <= 162,
    decreases n,
{
    if n > 0 {
        lemma_square_digit_total(n / 10);
        let d = n % 10;
        assert(0 <= d * d <= 81) by (nonlinear_arith)
            requires
                0 <= d <= 9,
        ;
        if n >= 100 && n / 10 < 100 {
            let m = n / 10;
            let e = m % 10;
            let f = m / 10;
            reveal_with_fuel(square_digit_total, 3);
            assert(0 <= e * e <= 9 * e && 0 <= f * f <= 9 * f) by (nonlinear_arith)
                requires
                    0 <= e <= 9,
                    0 <= f <= 9,
            ;
            assert(square_digit_total(m) == e * e + f * f);
        } else if n < 100 {
            let m = n / 10;
            assert(0 <= m * m <= 81) by (nonlinear_arith)
                requires
                    0 <= m <= 9,
            ;
            assert(square_digit_total(m) == m * m) by {
                if m > 0 {
                    assert(m / 10 == 0 && m % 10 == m);
                    assert(square_digit_total(0) == 0);
                    assert(square_digit_total(m) == (m % 10) * (m % 10) + square_digit_total(
                        m / 10,
                    ));
                } else {
                    assert(m * m == 0) by (nonlinear_arith)
                        requires
                            m == 0,
                    ;
                }
            }
        }
    }
}

/// Each step of a chain that has not ended lowers the bound on its length.
pub proof fn lemma_chain_step(n: int)
    requires
        0 <= n,
        !chain_ended(n),
    ensures
        0 <= chain_length_bound(square_digit_total(n)) < chain_length_bound(n),
        0 <= square_digit_total(n),
{
    lemma_square_digit_total(n);
    if n <= 162 {
        lemma_small_chain(n);
    }
    lemma_bound_nonnegative(square_digit_total(n));
}

/// The bound is not negative, and 10 at most up to 162.
pub proof fn lemma_bound_nonnegative(n: int)
    ensures
        n <= 162 ==> 0 <= chain_length_bound(n) <= 10,
        n >= 0 ==> 0 <= chain_length_bound(n),
{
}

/// Where the chain of `n` ends: the first of 0, 1 and 89 that it reaches.
pub open spec fn chain_end(n: int) -> int
    decreases chain_length_bound(n),
{
    if n < 0 || chain_ended(n) {
        n
    } else {
        proof {
            lemma_chain_step(n);
        }
        chain_end(square_digit_total(n))
    }
}

/// The sum of the squares of the decimal digits of `n`.
pub fn square_digit_sum(n: usize) -> (sum: usize)
    ensures
        sum == square_digit_total(n as int),
{
    let ghost whole = n as int;
    let mut n = n;
    let mut sum: usize = 0;
    proof {
        lemma_square_digit_total(whole);
    }
    while n > 0
        invariant
            0 <= n,
            sum + square_digit_total(n as int) == square_digit_total(whole),
            square_digit_total(whole) <= usize::MAX,
        decreases n,
    {
        let d = n % 10;
        proof {
            lemma_square_digit_total(n as int / 10);
            assert(0 <= d * d <= 81) by (nonlinear_arith)
                requires
                    0 <= d <= 9,
            ;
        }
        n = n / 10;
        sum += d * d;
    }
    sum
}

/// Where the chain of `n` ends: at 0 for 0, and at 1 or 89 for every other
/// number.
pub fn loop_type(n: usize) -> (end: usize)
    ensures
        end == chain_end(n as int),
        chain_ended(end as int),
{
    let mut n = n;
    let ghost start = n as int;
    while n != 0 && n != 1 && n != 89
        invariant
            chain_end(n as int) == chain_end(start),
        decreases chain_length_bound(n as int),
    {
        proof {
            lemma_chain_step(n as int);
        }
        n = square_digit_sum(n);
    }
    n
}

/// The ends of the chains of the numbers below 600.
pub fn gen_loop_types() -> (types: [usize; 600])
    ensures
        forall|n: int| 0 <= n < 600 ==> #[trigger] types[n] == chain_end(n),
{
    let mut types = [0usize;600];
    for n in 0..600usize
        invariant
            forall|k: int| 0 <= k < n ==> #[trigger] types[k] == chain_end(k),
    {
        types[n] = loop_type(n);
    }
    types
}

/// How many of the numbers from 2 up to, but not including, `n` have a
/// chain that ends at 89.
pub open spec fn chains_to_89(n: int) -> int
    decreases n,
{
    if n <= 2 {
        0
    } else {
        chains_to_89(n - 1) + if chain_end(n - 1) == 89 {
            1int
        } else {
            0int
        }
    }
}

/// Ten to the power of `k`.
pub open spec fn ten_to(k: nat) -> int
    decreases k,
{
    if k == 0 {
        1
    } else {
        10 * ten_to((k - 1) as nat)
    }
}

/// A number of `k` digits has a sum of squared digits of 81 times `k` at
/// most.
pub proof fn lemma_digit_count_bound(n: int, k: nat)
    requires
        0 <= n < ten_to(k),
    ensures
        square_digit_total(n) <= 81 * k,
    decreases k,
{
    if n > 0 {
        let d = n % 10;
        assert(0 <= d * d <= 81) by (nonlinear_arith)
            requires
                0 <= d <= 9,
        ;
        lemma_digit_count_bound(n / 10, (k - 1) as nat);
    }
}

/// Square digit chains: how many numbers below ten million have a chain
/// that arrives at 89.
pub fn p092() -> (count: usize)
    ensures
        count == chains_to_89(N as int),
{
    // Maximum square digit sum up to 10_000_000 is for 9_999_999,
    // which is 81 * 7 = 567. So we can make a lookup table from
    // square sum of digits to loop type.
    let types = gen_loop_types();
    let mut count: usize = 0;
    let mut n: usize = 2;
    while n < N
        invariant
            2 <= n <= N,
            count == chains_to_89(n as int),
            count <= n,
            forall|k: int| 0 <= k < 600 ==> #[trigger] types[k] == chain_end(k),
        decreases N - n,
    {
        let sum = square_digit_sum(n);
        proof {
            assert(ten_to(7) == 10_000_000) by {
                reveal_with_fuel(ten_to, 8);
            }
            lemma_digit_count_bound(n as int, 7);
            assert(chain_end(n as int) == chain_end(sum as int)) by {
                if chain_ended(n as int) {
                    assert(n == 89);
                    lemma_chain_cycle();
                }
            }
        }
        if types[sum] == 89 {
            count += 1;
        }
        n += 1;
    }
    count
}

/// The chain of 89 comes back to 89.
proof fn lemma_chain_cycle()
    ensures
        chain_end(145) == 89,
        square_digit_total(89) == 145,
{
    assert(square_digit_total(89) == 145) by {
        lemma_first_digits();
        assert(89int / 10 == 8 && 89int % 10 == 9);
    }
    lemma_first_digits();
    assert(145int / 10 == 14 && 145int % 10 == 5);
    assert(square_digit_total(145) == 42);
    assert(42int / 10 == 4 && 42int % 10 == 2);
    assert(square_digit_total(42) == 20);
    assert(20int / 10 == 2 && 20int % 10 == 0);
    assert(square_digit_total(20) == 4);
    assert(square_digit_total(4) == 16);
    assert(square_digit_total(16) == 37);
    assert(37int / 10 == 3 && 37int % 10 == 7);
    assert(square_digit_total(37) == 58);
    assert(58int / 10 == 5 && 58int % 10 == 8);
    assert(square_digit_total(58) == 89);
    assert(chain_end(89) == 89);
    assert(chain_end(58) == 89);
    assert(chain_end(37) == 89);
    assert(chain_end(16) == 89);
    assert(chain_end(4) == 89);
    assert(chain_end(20) == 89);
    assert(chain_end(42) == 89);
}

} // verus!
