//! Monopoly odds: where a player lands after one roll of two dice.
//!
//! The matrix built here counts, for each square, how often each square is
//! reached over all combinations of the dice, the count of doubles rolled
//! before, and the top cards of the two piles. The stationary distribution
//! of that matrix gives the odds; finding it is left to numerical software.
//! From the odds, as whole numbers, the three likeliest squares are picked
//! here.

use crate::adjacent::{names_place, ranked_places, ranks_before};
use vstd::prelude::*;

verus! {

/// The number of sides of a die.
pub const DIE: usize = 4;

pub const GO: usize = 0;

pub const JAIL: usize = 10;

/// Target of a Chance card
pub const C1: usize = 11;

/// Target of a Chance card
pub const E3: usize = 24;

/// Target of a Chance card
pub const H2: usize = 39;

/// Railroad 1
pub const R1: usize = 5;

/// Railroad 2
pub const R2: usize = 15;

/// Railroad 3
pub const R3: usize = 25;

/// Utility 1
pub const U1: usize = 12;

/// Utility 2
pub const U2: usize = 28;

/// Go to jail
pub const G2J: usize = 30;

/// Chance 1
pub const CH1: usize = 7;

/// Chance 2
pub const CH2: usize = 22;

/// Chance 3
pub const CH3: usize = 36;

/// Community Chest 1
pub const CC1: usize = 2;

/// Community Chest 2
pub const CC2: usize = 17;

/// Community Chest 3
pub const CC3: usize = 33;

/// A card of one of the two piles, by what it does to the player.
#[derive(Debug, Clone, Copy)]
pub enum Card {
    /// No move.
    Other,
    /// Go to the given square.
    Go(usize),
    /// Go to the next railroad.
    Railroad,
    /// Go to the next utility.
    Utility,
    /// Go back three squares.
    BackThree,
}

/// The sixteen Chance cards, from the top of a fresh pile.
pub open spec fn chance_card(i: int) -> Card {
    if i == 0 {
        Card::Go(GO)
    } else if i == 1 {
        Card::Go(JAIL)
    } else if i == 2 {
        Card::Go(C1)
    } else if i == 3 {
        Card::Go(E3)
    } else if i == 4 {
        Card::Go(H2)
    } else if i == 5 {
        Card::Go(R1)
    } else if i == 6 || i == 7 {
        Card::Railroad
    } else if i == 8 {
        Card::Utility
    } else if i == 9 {
        Card::BackThree
    } else {
        Card::Other
    }
}

/// The sixteen Community Chest cards, from the top of a fresh pile.
pub open spec fn chest_card(i: int) -> Card {
    if i == 0 {
        Card::Go(GO)
    } else if i == 1 {
        Card::Go(JAIL)
    } else {
        Card::Other
    }
}

/// The Chance pile.
pub fn gen_chance() -> (cards: [Card; 16])
    ensures
        forall|i: int| 0 <= i < 16 ==> cards[i] == chance_card(i),
{
    let mut cards = [Card::Other;16];
    cards[0] = Card::Go(GO);
    cards[1] = Card::Go(JAIL);
    cards[2] = Card::Go(C1);
    cards[3] = Card::Go(E3);
    cards[4] = Card::Go(H2);
    cards[5] = Card::Go(R1);
    cards[6] = Card::Railroad;
    cards[7] = Card::Railroad;
    cards[8] = Card::Utility;
    cards[9] = Card::BackThree;

    cards
}

/// The Community Chest pile.
pub fn gen_cc() -> (cards: [Card; 16])
    ensures
        forall|i: int| 0 <= i < 16 ==> cards[i] == chest_card(i),
{
    let mut cards = [Card::Other;16];
    cards[0] = Card::Go(GO);
    cards[1] = Card::Go(JAIL);

    cards
}

/// `square` is one of the three Chance squares.
pub open spec fn is_chance(square: int) -> bool {
    square == CH1 || square == CH2 || square == CH3
}

/// `square` is one of the three Community Chest squares.
pub open spec fn is_chest(square: int) -> bool {
    square == CC1 || square == CC2 || square == CC3
}

/// The next railroad after a Chance square.
pub open spec fn railroad_after(square: int) -> int {
    if square == CH1 {
        R2 as int
    } else if square == CH2 {
        R3 as int
    } else {
        R1 as int
    }
}

/// The next utility after a Chance square.
pub open spec fn utility_after(square: int) -> int {
    if square == CH2 {
        U2 as int
    } else {
        U1 as int
    }
}

/// The next railroad after the Chance square `square`.
pub fn next_railroad(square: usize) -> (railroad: usize)
    requires
        is_chance(square as int),
    ensures
        railroad == railroad_after(square as int),
{
    if square == CH1 {
        R2
    } else if square == CH2 {
        R3
    } else {
        R1
    }
}

/// The next utility after the Chance square `square`.
pub fn next_utility(square: usize) -> (utility: usize)
    requires
        is_chance(square as int),
    ensures
        utility == utility_after(square as int),
{
    if square == CH1 || square == CH3 {
        U1
    } else {
        U2
    }
}

/// What a card does on the square where it is drawn.
pub open spec fn card_target(card: Card, square: int) -> int {
    match card {
        Card::Other => square,
        Card::Go(dest) => dest as int,
        Card::Railroad => railroad_after(square),
        Card::Utility => utility_after(square),
        Card::BackThree => square - 3,
    }
}

/// A card that the Community Chest pile may hold: it moves the player to a
/// named square of the board, or not at all.
pub open spec fn chest_kind(card: Card) -> bool {
    match card {
        Card::Other => true,
        Card::Go(dest) => dest < 40,
        _ => false,
    }
}

/// A card that the Chance pile may hold.
pub open spec fn chance_kind(card: Card) -> bool {
    match card {
        Card::Go(dest) => dest < 40,
        _ => true,
    }
}

/// Where one roll takes the player: three doubles in a row and the square
/// "go to jail" lead to jail; on a Chance or Community Chest square the top
/// card of the pile decides. Chance 3 with "back three" is Community Chest
/// 3, where that pile decides.
#[verifier::opaque]
pub open spec fn landing(start: int, num_doubles: int, ch: Card, cc: Card, d1: int, d2: int) -> int {
    if d1 == d2 && num_doubles == 2 {
        JAIL as int
    } else {
        let reached = (start + d1 + d2) % 40;
        let square = if reached == CH3 && ch is BackThree {
            CC3 as int
        } else {
            reached
        };
        if square == G2J {
            JAIL as int
        } else if is_chance(square) {
            card_target(ch, square)
        } else if is_chest(square) {
            card_target(cc, square)
        } else {
            square
        }
    }
}

/// Where one roll takes the player who stands on `start` and has rolled
/// `num_doubles` doubles before, with `ch` and `cc` on top of the piles and
/// the dice showing `d1` and `d2`.
pub fn sim(start: usize, num_doubles: usize, ch: &Card, cc: &Card, d1: usize, d2: usize) -> (square:
    usize)
    requires
        start < 40,
        d1 <= 40,
        d2 <= 40,
        chance_kind(*ch),
        chest_kind(*cc),
    ensures
        square == landing(start as int, num_doubles as int, *ch, *cc, d1 as int, d2 as int),
        square < 40,
{
    proof {
        reveal(landing);
    }
    if d1 == d2 && num_doubles == 2 {
        return JAIL;
    }
    let roll = d1 + d2;
    let square = {
        let square = (start + roll) % 40;
        // Special case: CH3 + back 3 = CC3
        if square == CH3 && matches!(ch, Card::BackThree) {
            CC3
        } else {
            square
        }
    };
    if square == G2J {
        return JAIL;
    }
    let card = if square == CH1 || square == CH2 || square == CH3 {
        Some(ch)
    } else if square == CC1 || square == CC2 || square == CC3 {
        Some(cc)
    } else {
        None
    };

    if let Some(card) = card {
        match card {
            Card::Other => square,
            Card::Go(dest) => *dest,
            Card::Railroad => next_railroad(square),
            Card::Utility => next_utility(square),
            Card::BackThree => square - 3,
        }
    } else {
        square
    }
}

/// The number of cases that one row of the matrix counts: two counts of
/// doubles, sixteen cards of each pile, and the two dice.
pub open spec fn cases() -> int {
    8192
}

/// Where the `k`-th case takes the player from `square`; the cases are
/// numbered in the order of the count of doubles, the Chance card, the
/// Community Chest card, and the two dice.
pub open spec fn case_landing(square: int, k: int) -> int {
    landing(
        square,
        k / 4096,
        chance_card((k / 256) % 16),
        chest_card((k / 16) % 16),
        (k / 4) % 4 + 1,
        k % 4 + 1,
    )
}

/// The number of the case with the given count of doubles, cards and dice.
pub open spec fn case_number(num_doubles: int, ch: int, cc: int, d1: int, d2: int) -> int {
    num_doubles * 4096 + ch * 256 + cc * 16 + (d1 - 1) * 4 + (d2 - 1)
}

/// The case of a number is the case that the number was made from.
pub proof fn lemma_case_number(square: int, num_doubles: int, ch: int, cc: int, d1: int, d2: int)
    requires
        0 <= num_doubles < 2,
        0 <= ch < 16,
        0 <= cc < 16,
        1 <= d1 <= 4,
        1 <= d2 <= 4,
    ensures
        case_landing(square, case_number(num_doubles, ch, cc, d1, d2)) == landing(
            square,
            num_doubles,
            chance_card(ch),
            chest_card(cc),
            d1,
            d2,
        ),
        0 <= case_number(num_doubles, ch, cc, d1, d2) < cases(),
{
    let k = case_number(num_doubles, ch, cc, d1, d2);
    assert(k / 4096 == num_doubles);
    assert((k / 256) % 16 == ch);
    assert((k / 16) % 16 == cc);
    assert((k / 4) % 4 + 1 == d1);
    assert(k % 4 + 1 == d2);
}

/// How many of the first `n` cases take the player from `square` to `to`.
pub open spec fn landings(square: int, to: int, n: int) -> int
    decreases n,
{
    if n <= 0 {
        0
    } else {
        landings(square, to, n - 1) + if case_landing(square, n - 1) == to {
            1int
        } else {
            0int
        }
    }
}

/// A count of cases is not negative, and no greater than the number of
/// cases counted.
pub proof fn lemma_landings_bound(square: int, to: int, n: int)
    requires
        0 <= n,
    ensures
        0 <= landings(square, to, n) <= n,
    decreases n,
{
    if n > 0 {
        lemma_landings_bound(square, to, n - 1);
    }
}

/// Builds the matrix of moves: the entry in row `square` and column `next`
/// counts the cases that take the player from `square` to `next`.
#[verifier::rlimit(40)]
pub fn build_stochastic_matrix() -> (moves: [[usize; 40]; 40])
    ensures
        forall|s: int, t: int|
            0 <= s < 40 && 0 <= t < 40 ==> #[trigger] moves[s][t] == landings(s, t, cases()),
{
    let chance = gen_chance();
    let chest = gen_cc();
    let mut moves = [[0usize;40];40];
    for square in 0..40usize
        invariant
            forall|i: int| 0 <= i < 16 ==> chance[i] == chance_card(i),
            forall|i: int| 0 <= i < 16 ==> chest[i] == chest_card(i),
            forall|s: int, t: int|
                0 <= s < 40 && 0 <= t < 40 ==> #[trigger] moves[s][t] == (if s < square {
                    landings(s, t, cases())
                } else {
                    0
                }),
    {
        let mut row = [0usize;40];
        let ghost mut k: int = 0;
        for num_doubles in 0..2usize
            invariant
                square < 40,
                k == num_doubles * 4096,
                forall|i: int| 0 <= i < 16 ==> chance[i] == chance_card(i),
                forall|i: int| 0 <= i < 16 ==> chest[i] == chest_card(i),
                forall|t: int| 0 <= t < 40 ==> #[trigger] row[t] == landings(square as int, t, k),
        {
            for ch in 0..16usize
                invariant
                    square < 40,
                    num_doubles < 2,
                    k == num_doubles * 4096 + ch * 256,
                    forall|i: int| 0 <= i < 16 ==> chance[i] == chance_card(i),
                    forall|i: int| 0 <= i < 16 ==> chest[i] == chest_card(i),
                    forall|t: int| 0 <= t < 40 ==> #[trigger] row[t] == landings(square as int, t, k),
            {
                for cc in 0..16usize
                    invariant
                        square < 40,
                        num_doubles < 2,
                        ch < 16,
                        k == num_doubles * 4096 + ch * 256 + cc * 16,
                        forall|i: int| 0 <= i < 16 ==> chance[i] == chance_card(i),
                        forall|i: int| 0 <= i < 16 ==> chest[i] == chest_card(i),
                        forall|t: int|
                            0 <= t < 40 ==> #[trigger] row[t] == landings(square as int, t, k),
                {
                    for d1 in 1..DIE + 1
                        invariant
                            square < 40,
                            num_doubles < 2,
                            ch < 16,
                            cc < 16,
                            k == num_doubles * 4096 + ch * 256 + cc * 16 + (d1 - 1) * 4,
                            forall|i: int| 0 <= i < 16 ==> chance[i] == chance_card(i),
                            forall|i: int| 0 <= i < 16 ==> chest[i] == chest_card(i),
                            forall|t: int|
                                0 <= t < 40 ==> #[trigger] row[t] == landings(square as int, t, k),
                    {
                        for d2 in 1..DIE + 1
                            invariant
                                square < 40,
                                num_doubles < 2,
                                ch < 16,
                                cc < 16,
                                1 <= d1 <= 4,
                                k == num_doubles * 4096 + ch * 256 + cc * 16 + (d1 - 1) * 4 + (d2
                                    - 1),
                                forall|i: int| 0 <= i < 16 ==> chance[i] == chance_card(i),
                                forall|i: int| 0 <= i < 16 ==> chest[i] == chest_card(i),
                                forall|t: int|
                                    0 <= t < 40 ==> #[trigger] row[t] == landings(
                                        square as int,
                                        t,
                                        k,
                                    ),
                        {
                            assert(chance[ch as int] == chance_card(ch as int));
                            assert(chest[cc as int] == chest_card(cc as int));
                            let next_square = sim(
                                square,
                                num_doubles,
                                &chance[ch],
                                &chest[cc],
                                d1,
                                d2,
                            );
                            proof {
                                lemma_case_number(
                                    square as int,
                                    num_doubles as int,
                                    ch as int,
                                    cc as int,
                                    d1 as int,
                                    d2 as int,
                                );
                                assert(k == case_number(
                                    num_doubles as int,
                                    ch as int,
                                    cc as int,
                                    d1 as int,
                                    d2 as int,
                                ));
                                assert(next_square == case_landing(square as int, k));
                                lemma_landings_bound(square as int, next_square as int, k);
                                assert forall|t: int| 0 <= t < 40 implies landings(
                                    square as int,
                                    t,
                                    k + 1,
                                ) == landings(square as int, t, k) + if t == next_square {
                                    1int
                                } else {
                                    0int
                                } by {}
                            }
                            row[next_square] += 1;
                            proof {
                                k = k + 1;
                            }
                        }
                    }
                }
            }
        }
        moves[square] = row;
    }
    moves
}

/// The places `a`, `b` and `c` are the three that rank first, in this order.
pub open spec fn is_podium(scores: Seq<i32>, a: usize, b: usize, c: usize) -> bool {
    &&& a < scores.len() && b < scores.len() && c < scores.len()
    &&& ranks_before(scores, a, b)
    &&& ranks_before(scores, b, c)
    &&& forall|k: usize|
        k < scores.len() && k != a && k != b && k != c ==> #[trigger] ranks_before(scores, c, k)
}

/// The modal string of a list of scores, one to a square: the numbers of the
/// three squares of the greatest score, two digits each. Of squares with
/// equal scores the lower comes first.
pub fn modal_string(scores: &[i32]) -> (code: usize)
    requires
        3 <= scores@.len() <= 100,
    ensures
        exists|a: usize, b: usize, c: usize| #[trigger]
            is_podium(scores@, a, b, c) && code == a * 10_000 + b * 100 + c,
{
    let order = ranked_places(scores);
    let a: usize = order[0];
    let b: usize = order[1];
    let c: usize = order[2];
    proof {
        assert(ranks_before(scores@, order@[0], order@[1]));
        assert(ranks_before(scores@, order@[1], order@[2]));
        assert forall|k: usize|
            k < scores@.len() && k != a && k != b && k != c implies #[trigger] ranks_before(
            scores@,
            c,
            k,
        ) by {
            assert(names_place(order@, k));
            let m = choose|m: int| 0 <= m < order@.len() && #[trigger] order@[m] == k;
            assert(ranks_before(scores@, order@[2], order@[m]));
        }
        assert(is_podium(scores@, a, b, c));
    }
    a * 10_000 + b * 100 + c
}

} // verus!
