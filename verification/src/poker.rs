//! Poker cards and the rating of five-card hands.

use crate::adjacent::pair_windows;
use crate::slices::{is_rearrangement, rearranged};
use core::cmp::Ordering;
use core::str::FromStr;
use vstd::laws_eq::obeys_concrete_eq;
use vstd::prelude::*;
use vstd::slice::slice_subrange;
use vstd::std_specs::cmp::{PartialEqSpec, PartialEqSpecImpl, PartialOrdSpecImpl};
use vstd::string::StringSliceAdditionalSpecFns;

verus! {

/// The four suits.
#[derive(Debug, Clone, Copy)]
pub enum Suit {
    Clubs,
    Diamonds,
    Hearts,
    Spades,
}

impl PartialEq for Suit {
    fn eq(&self, other: &Self) -> (equal: bool) {
        match (self, other) {
            (Suit::Clubs, Suit::Clubs) => true,
            (Suit::Diamonds, Suit::Diamonds) => true,
            (Suit::Hearts, Suit::Hearts) => true,
            (Suit::Spades, Suit::Spades) => true,
            _ => false,
        }
    }
}

impl PartialEqSpecImpl for Suit {
    open spec fn obeys_eq_spec() -> bool {
        true
    }

    open spec fn eq_spec(&self, other: &Self) -> bool {
        *self == *other
    }
}

impl Eq for Suit {

}

/// The suit that a letter stands for, if any.
pub open spec fn suit_of(ch: char) -> Option<Suit> {
    if ch == 'C' {
        Some(Suit::Clubs)
    } else if ch == 'D' {
        Some(Suit::Diamonds)
    } else if ch == 'H' {
        Some(Suit::Hearts)
    } else if ch == 'S' {
        Some(Suit::Spades)
    } else {
        None
    }
}

impl Suit {
    /// The letter of the suit.
    pub fn to_char(&self) -> (ch: char)
        ensures
            suit_of(ch) == Some(*self),
    {
        match self {
            Suit::Clubs => 'C',
            Suit::Diamonds => 'D',
            Suit::Hearts => 'H',
            Suit::Spades => 'S',
        }
    }

    /// The suit that the letter `ch` stands for; `None` for any other
    /// character.
    pub fn from_char(ch: char) -> (suit: Option<Self>)
        ensures
            suit == suit_of(ch),
    {
        match ch {
            'C' => Some(Suit::Clubs),
            'D' => Some(Suit::Diamonds),
            'H' => Some(Suit::Hearts),
            'S' => Some(Suit::Spades),
            _ => None,
        }
    }
}

/// The rank of a card: 2 to 10 are pip cards, 11 is Jack, 12 is Queen, 13 is
/// King, and 14 is Ace.
pub type Rank = u8;

/// The rank that a character stands for, if any: the characters of
/// `23456789TJQKA` stand for 2 to 14.
pub open spec fn rank_of(ch: u8) -> Option<Rank> {
    if 0x32 <= ch <= 0x39 {
        Some((ch - 0x30) as u8)
    } else if ch == 0x54 {
        Some(10u8)
    } else if ch == 0x4a {
        Some(11u8)
    } else if ch == 0x51 {
        Some(12u8)
    } else if ch == 0x4b {
        Some(13u8)
    } else if ch == 0x41 {
        Some(14u8)
    } else {
        None
    }
}

/// The rank and suit of a poker card. Cards are compared by rank only.
#[derive(Debug, Clone, Copy)]
pub struct Card {
    rank: Rank,
    suit: Suit,
}

impl Card {
    /// The rank of the card.
    pub closed spec fn spec_rank(&self) -> Rank {
        self.rank
    }

    /// The suit of the card.
    pub closed spec fn spec_suit(&self) -> Suit {
        self.suit
    }

    /// Reads a card from two characters, a rank of `23456789TJQKA` and a
    /// suit of `CDHS`. What follows the two characters is not looked at.
    pub fn parse(s: &str) -> (r: Result<Card, BadCardSpec>)
        ensures
            match r {
                Ok(card) => {
                    &&& s.spec_bytes().len() >= 2
                    &&& rank_of(s.spec_bytes()[0]) == Some(card.spec_rank())
                    &&& s.spec_bytes()[1] < 0x80
                    &&& suit_of(s.spec_bytes()[1] as char) == Some(card.spec_suit())
                },
                Err(_) => {
                    ||| s.spec_bytes().len() < 2
                    ||| rank_of(s.spec_bytes()[0]) is None
                    ||| s.spec_bytes()[1] >= 0x80
                    ||| suit_of(s.spec_bytes()[1] as char) is None
                },
            },
    {
        let bytes = s.as_bytes();
        if bytes.len() < 2 {
            return Err(BadCardSpec);
        }
        let r = bytes[0];
        let rank: Rank = if 0x32 <= r && r <= 0x39 {
            r - 0x30
        } else if r == 0x54 {
            10
        } else if r == 0x4a {
            11
        } else if r == 0x51 {
            12
        } else if r == 0x4b {
            13
        } else if r == 0x41 {
            14
        } else {
            return Err(BadCardSpec);
        };
        let c = bytes[1];
        if c >= 0x80 {
            return Err(BadCardSpec);
        }
        match Suit::from_char(c as char) {
            Some(suit) => Ok(Card { rank, suit }),
            None => Err(BadCardSpec),
        }
    }
}

impl PartialEq for Card {
    fn eq(&self, other: &Self) -> (equal: bool) {
        self.rank == other.rank
    }
}

impl PartialEqSpecImpl for Card {
    open spec fn obeys_eq_spec() -> bool {
        true
    }

    open spec fn eq_spec(&self, other: &Self) -> bool {
        self.spec_rank() == other.spec_rank()
    }
}

impl Eq for Card {

}

impl PartialOrd for Card {
    fn partial_cmp(&self, other: &Self) -> (order: Option<Ordering>) {
        if self.rank < other.rank {
            Some(Ordering::Less)
        } else if self.rank > other.rank {
            Some(Ordering::Greater)
        } else {
            Some(Ordering::Equal)
        }
    }
}

impl PartialOrdSpecImpl for Card {
    open spec fn obeys_partial_cmp_spec() -> bool {
        true
    }

    open spec fn partial_cmp_spec(&self, other: &Self) -> Option<Ordering> {
        if self.spec_rank() < other.spec_rank() {
            Some(Ordering::Less)
        } else if self.spec_rank() > other.spec_rank() {
            Some(Ordering::Greater)
        } else {
            Some(Ordering::Equal)
        }
    }
}

/// The error for a text that does not spell a card.
#[derive(Debug)]
pub struct BadCardSpec;

impl FromStr for Card {
    type Err = BadCardSpec;

    /// Reads a card from two characters, as [`Card::parse`] does.
    fn from_str(s: &str) -> (r: Result<Self, Self::Err>)
        ensures
            match r {
                Ok(card) => {
                    &&& s.spec_bytes().len() >= 2
                    &&& rank_of(s.spec_bytes()[0]) == Some(card.spec_rank())
                    &&& s.spec_bytes()[1] < 0x80
                    &&& suit_of(s.spec_bytes()[1] as char) == Some(card.spec_suit())
                },
                Err(_) => {
                    ||| s.spec_bytes().len() < 2
                    ||| rank_of(s.spec_bytes()[0]) is None
                    ||| s.spec_bytes()[1] >= 0x80
                    ||| suit_of(s.spec_bytes()[1] as char) is None
                },
            },
    {
        Card::parse(s)
    }
}

/// `<[T]>::sort_unstable_by_key` with the rank as the key: rearranges the
/// five cards into ascending order of rank. Cards of equal rank may end up
/// in any order. Not proved: this is what std documents of the method.
#[verifier::external_body]
fn sort_by_rank(cards: &mut [Card; 5])
    ensures
        final(cards)@.to_multiset() == old(cards)@.to_multiset(),
        rearranged(final(cards)@, old(cards)@),
        forall|i: int, j: int|
            0 <= i <= j < 5 ==> final(cards)@[i].spec_rank() <= final(cards)@[j].spec_rank(),
{
    cards.sort_unstable_by_key(|c| c.rank)
}

/// The five cards of `after` are those of `before` at the places `a` to
/// `e`, which are five different places.
pub open spec fn taken_at(after: Seq<Card>, before: Seq<Card>, a: int, b: int, c: int, d: int, e: int) -> bool {
    &&& after.len() == 5 && before.len() == 5
    &&& 0 <= a < 5 && 0 <= b < 5 && 0 <= c < 5 && 0 <= d < 5 && 0 <= e < 5
    &&& a != b && a != c && a != d && a != e && b != c && b != d && b != e && c != d && c != e && d
        != e
    &&& after[0] == before[a] && after[1] == before[b] && after[2] == before[c] && after[3]
        == before[d] && after[4] == before[e]
}

/// The five cards of `after` are the five cards of `before`, each taken
/// once.
pub open spec fn dealt_from(after: Seq<Card>, before: Seq<Card>) -> bool {
    exists|a: int, b: int, c: int, d: int, e: int| #[trigger] taken_at(after, before, a, b, c, d, e)
}

/// Five cards, kept in ascending order of rank.
#[derive(Debug)]
pub struct PokerHand {
    cards: [Card; 5],
}

impl PokerHand {
    /// The cards of the hand, in ascending order of rank.
    pub closed spec fn cards(&self) -> Seq<Card> {
        self.cards@
    }

    /// The hand has five cards, and their ranks are in ascending order.
    pub open spec fn wf(&self) -> bool {
        &&& self.cards().len() == 5
        &&& forall|i: int, j: int|
            0 <= i <= j < 5 ==> (#[trigger] self.cards()[i]).spec_rank() <= (
            #[trigger] self.cards()[j]).spec_rank()
    }

    /// A hand of the five cards, which are put in ascending order of rank:
    /// the hand holds the cards given, rearranged. Cards of equal rank may
    /// stand in any order.
    pub fn new(cards: [Card; 5]) -> (hand: Self)
        ensures
            hand.wf(),
            hand.cards().to_multiset() == cards@.to_multiset(),
            rearranged(hand.cards(), cards@),
            dealt_from(hand.cards(), cards@),
    {
        let ghost given = cards@;
        let mut cards = cards;
        sort_by_rank(&mut cards);
        proof {
            let perm = choose|perm: Seq<int>| #[trigger] is_rearrangement(perm, cards@, given);
            assert(taken_at(cards@, given, perm[0], perm[1], perm[2], perm[3], perm[4]));
        }
        Self { cards }
    }

    /// The ranks of the five cards, in ascending order.
    pub fn ranks(&self) -> (ranks: [Rank; 5])
        ensures
            forall|i: int| 0 <= i < 5 ==> ranks@[i] == self.cards()[i].spec_rank(),
    {
        [
            self.cards[0].rank,
            self.cards[1].rank,
            self.cards[2].rank,
            self.cards[3].rank,
            self.cards[4].rank,
        ]
    }

    /// The suits of the five cards, in ascending order of rank.
    pub fn suits(&self) -> (suits: [Suit; 5])
        ensures
            forall|i: int| 0 <= i < 5 ==> suits@[i] == self.cards()[i].spec_suit(),
    {
        [
            self.cards[0].suit,
            self.cards[1].suit,
            self.cards[2].suit,
            self.cards[3].suit,
            self.cards[4].suit,
        ]
    }
}

/// The rating of a poker hand, from the weakest kind to the strongest, with
/// the ranks that decide between hands of one kind.
#[derive(Debug, PartialEq, PartialOrd)]
pub enum Rating {
    HighCard(Rank),
    OnePair(Rank),
    TwoPairs(Rank, Rank),
    ThreeKind(Rank),
    Straight(Rank),
    Flush(Rank),
    FullHouse(Rank, Rank),
    FourKind(Rank),
    StraightFlush(Rank),
    RoyalFlush,
}

/// Every item equals its neighbour, so all items are equal.
pub open spec fn same_all<T>(s: Seq<T>) -> bool {
    forall|i: int| 0 <= i < s.len() - 1 ==> #[trigger] s[i] == s[i + 1]
}

/// Every item is one more than the item before it.
pub open spec fn is_consecutive(s: Seq<Rank>) -> bool {
    forall|i: int| 0 <= i < s.len() - 1 ==> (#[trigger] s[i]) + 1 == s[i + 1]
}

/// The rank at `i` if it equals the rank below it, as a sequence of one or
/// no item.
pub open spec fn pair_at(ranks: Seq<Rank>, i: int) -> Seq<Rank> {
    if ranks[i] == ranks[i - 1] {
        seq![ranks[i]]
    } else {
        Seq::empty()
    }
}

/// The ranks of the neighbouring pairs among five ranks, highest position
/// first.
pub open spec fn pair_ranks(ranks: Seq<Rank>) -> Seq<Rank> {
    pair_at(ranks, 4) + pair_at(ranks, 3) + pair_at(ranks, 2) + pair_at(ranks, 1)
}

/// The rating of the hand with the given ranks, in ascending order, and
/// suits.
pub open spec fn rating_of(ranks: Seq<Rank>, suits: Seq<Suit>) -> Rating {
    if same_all(suits) && is_consecutive(ranks) {
        if ranks[0] == 10 {
            Rating::RoyalFlush
        } else {
            Rating::StraightFlush(ranks[4])
        }
    } else if same_all(ranks.subrange(0, 4)) || same_all(ranks.subrange(1, 5)) {
        Rating::FourKind(ranks[3])
    } else if same_all(ranks.subrange(0, 2)) && same_all(ranks.subrange(3, 5)) && (ranks[2]
        == ranks[1] || ranks[2] == ranks[3]) {
        Rating::FullHouse(ranks[4], ranks[0])
    } else if same_all(suits) {
        Rating::Flush(ranks[4])
    } else if is_consecutive(ranks) {
        Rating::Straight(ranks[4])
    } else if same_all(ranks.subrange(0, 3)) || same_all(ranks.subrange(1, 4)) || same_all(
        ranks.subrange(2, 5),
    ) {
        Rating::ThreeKind(ranks[2])
    } else if pair_ranks(ranks).len() == 2 {
        Rating::TwoPairs(pair_ranks(ranks)[0], pair_ranks(ranks)[1])
    } else if pair_ranks(ranks).len() == 1 {
        Rating::OnePair(pair_ranks(ranks)[0])
    } else {
        Rating::HighCard(ranks[4])
    }
}

/// The rating of the hand with the given five ranks, in ascending order,
/// and five suits, said card by card.
pub open spec fn rating_by_card(r: Seq<Rank>, s: Seq<Suit>) -> Rating {
    let flush = s[0] == s[1] && s[1] == s[2] && s[2] == s[3] && s[3] == s[4];
    let straight = r[0] + 1 == r[1] && r[1] + 1 == r[2] && r[2] + 1 == r[3] && r[3] + 1 == r[4];
    let (p1, p2, p3, p4) = (r[1] == r[0], r[2] == r[1], r[3] == r[2], r[4] == r[3]);
    if flush && straight {
        if r[0] == 10 {
            Rating::RoyalFlush
        } else {
            Rating::StraightFlush(r[4])
        }
    } else if (p1 && p2 && p3) || (p2 && p3 && p4) {
        Rating::FourKind(r[3])
    } else if p1 && p4 && (p2 || p3) {
        Rating::FullHouse(r[4], r[0])
    } else if flush {
        Rating::Flush(r[4])
    } else if straight {
        Rating::Straight(r[4])
    } else if (p1 && p2) || (p2 && p3) || (p3 && p4) {
        Rating::ThreeKind(r[2])
    } else if p4 && p2 {
        Rating::TwoPairs(r[4], r[2])
    } else if p4 && p1 {
        Rating::TwoPairs(r[4], r[1])
    } else if p3 && p1 {
        Rating::TwoPairs(r[3], r[1])
    } else if p4 {
        Rating::OnePair(r[4])
    } else if p3 {
        Rating::OnePair(r[3])
    } else if p2 {
        Rating::OnePair(r[2])
    } else if p1 {
        Rating::OnePair(r[1])
    } else {
        Rating::HighCard(r[4])
    }
}

/// The two ways of saying the rating agree.
pub proof fn lemma_rating_by_card(r: Seq<Rank>, s: Seq<Suit>)
    requires
        r.len() == 5,
        s.len() == 5,
    ensures
        rating_of(r, s) == rating_by_card(r, s),
{
    let flush = s[0] == s[1] && s[1] == s[2] && s[2] == s[3] && s[3] == s[4];
    let straight = r[0] + 1 == r[1] && r[1] + 1 == r[2] && r[2] + 1 == r[3] && r[3] + 1 == r[4];
    let (p1, p2, p3, p4) = (r[1] == r[0], r[2] == r[1], r[3] == r[2], r[4] == r[3]);
    assert(same_all(s) == flush) by {
        if same_all(s) {
            assert(s[0] == s[0int + 1] && s[1] == s[1int + 1] && s[2] == s[2int + 1] && s[3] == s[3int
                + 1]);
        }
    }
    assert(is_consecutive(r) == straight) by {
        if is_consecutive(r) {
            assert(r[0] + 1 == r[0int + 1] && r[1] + 1 == r[1int + 1] && r[2] + 1 == r[2int + 1]
                && r[3] + 1 == r[3int + 1]);
        }
    }
    lemma_same_part(r, 0, 4);
    lemma_same_part(r, 1, 5);
    lemma_same_part(r, 0, 2);
    lemma_same_part(r, 3, 5);
    lemma_same_part(r, 0, 3);
    lemma_same_part(r, 1, 4);
    lemma_same_part(r, 2, 5);
    let pairs = pair_ranks(r);
    let (a4, a3, a2, a1) = (pair_at(r, 4), pair_at(r, 3), pair_at(r, 2), pair_at(r, 1));
    assert(pairs.len() == a4.len() + a3.len() + a2.len() + a1.len());
    if p4 {
        assert(pairs[0] == r[4]);
        if p2 {
            assert(a3.len() == 0 ==> pairs[1] == r[2]);
        } else if p1 {
            assert(a3.len() == 0 ==> pairs[1] == r[1]);
        }
    } else if p3 {
        assert(pairs[0] == r[3]);
        if p1 {
            assert(a2.len() == 0 ==> pairs[1] == r[1]);
        }
    } else if p2 {
        assert(pairs[0] == r[2]);
    } else if p1 {
        assert(pairs[0] == r[1]);
    }
}

/// A part of the ranks holds one rank only exactly if each rank in it
/// equals the next.
pub proof fn lemma_same_part(r: Seq<Rank>, from: int, to: int)
    requires
        0 <= from < to <= r.len(),
    ensures
        same_all(r.subrange(from, to)) <==> forall|i: int|
            from <= i < to - 1 ==> #[trigger] r[i] == r[i + 1],
{
    let part = r.subrange(from, to);
    if same_all(part) {
        assert forall|i: int| from <= i < to - 1 implies #[trigger] r[i] == r[i + 1] by {
            assert(part[i - from] == part[i - from + 1]);
        }
    }
    if forall|i: int| from <= i < to - 1 ==> #[trigger] r[i] == r[i + 1] {
        assert forall|i: int| 0 <= i < part.len() - 1 implies #[trigger] part[i] == part[i + 1] by {
            assert(r[i + from] == r[i + from + 1]);
        }
    }
}

/// Suits are equal exactly if they are the same suit.
pub proof fn lemma_suit_eq()
    ensures
        obeys_concrete_eq::<Suit>(),
{
    reveal(obeys_concrete_eq);
}

/// Ranks are equal exactly if they are the same number.
pub proof fn lemma_rank_eq()
    ensures
        obeys_concrete_eq::<Rank>(),
{
    reveal(obeys_concrete_eq);
}

/// Rates a poker hand.
pub fn eval_poker_hand(hand: &PokerHand) -> (rating: Rating)
    ensures
        rating == rating_of(
            hand.cards().map_values(|c: Card| c.spec_rank()),
            hand.cards().map_values(|c: Card| c.spec_suit()),
        ),
        rating == rating_by_card(
            hand.cards().map_values(|c: Card| c.spec_rank()),
            hand.cards().map_values(|c: Card| c.spec_suit()),
        ),
{
    proof {
        lemma_rating_by_card(
            hand.cards().map_values(|c: Card| c.spec_rank()),
            hand.cards().map_values(|c: Card| c.spec_suit()),
        );
    }
    let ranks = hand.ranks();
    let suits = hand.suits();
    assert(ranks@ =~= hand.cards().map_values(|c: Card| c.spec_rank()));
    assert(suits@ =~= hand.cards().map_values(|c: Card| c.spec_suit()));
    let rs = ranks.as_slice();
    proof {
        lemma_rank_eq();
        lemma_suit_eq();
    }
    if all_same(suits.as_slice()) && consecutive(rs) {
        if ranks[0] == 10 {
            Rating::RoyalFlush
        } else {
            Rating::StraightFlush(ranks[4])
        }
    } else if all_same(slice_subrange(rs, 0, 4)) || all_same(slice_subrange(rs, 1, 5)) {
        Rating::FourKind(ranks[3])
    } else if all_same(slice_subrange(rs, 0, 2)) && all_same(slice_subrange(rs, 3, 5)) && (ranks[2]
        == ranks[1] || ranks[2] == ranks[3]) {
        Rating::FullHouse(ranks[4], ranks[0])
    } else if all_same(suits.as_slice()) {
        Rating::Flush(ranks[4])
    } else if consecutive(rs) {
        Rating::Straight(ranks[4])
    } else if all_same(slice_subrange(rs, 0, 3)) || all_same(slice_subrange(rs, 1, 4)) || all_same(
        slice_subrange(rs, 2, 5),
    ) {
        Rating::ThreeKind(ranks[2])
    } else {
        let pairs = all_pairs(&ranks);
        if pairs.len() == 2 {
            Rating::TwoPairs(pairs[0], pairs[1])
        } else if pairs.len() == 1 {
            Rating::OnePair(pairs[0])
        } else {
            Rating::HighCard(ranks[4])
        }
    }
}

/// Whether all the values are equal.
pub fn all_same<T: PartialEq + Copy>(values: &[T]) -> (same: bool)
    ensures
        obeys_concrete_eq::<T>() ==> same == same_all(values@),
{
    proof {
        reveal(obeys_concrete_eq);
    }
    let pairs = pair_windows(values);
    let mut i: usize = 0;
    while i < pairs.len()
        invariant
            0 <= i <= pairs@.len(),
            pairs@.len() == if values@.len() == 0 {
                0
            } else {
                values@.len() - 1
            },
            forall|k: int|
                0 <= k < pairs@.len() ==> #[trigger] pairs@[k] == (values@[k], values@[k + 1]),
            obeys_concrete_eq::<T>() ==> T::obeys_eq_spec() && forall|x: T, y: T|
                x.eq_spec(&y) <==> x == y,
            obeys_concrete_eq::<T>() ==> forall|k: int|
                0 <= k < i ==> #[trigger] values@[k] == values@[k + 1],
        decreases pairs@.len() - i,
    {
        let (x, y) = pairs[i];
        if !(x == y) {
            return false;
        }
        i += 1;
    }
    true
}

/// Whether every rank is one more than the rank before it.
pub fn consecutive(ranks: &[Rank]) -> (yes: bool)
    ensures
        yes == is_consecutive(ranks@),
{
    let pairs = pair_windows(ranks);
    let mut i: usize = 0;
    while i < pairs.len()
        invariant
            0 <= i <= pairs@.len(),
            pairs@.len() == if ranks@.len() == 0 {
                0
            } else {
                ranks@.len() - 1
            },
            forall|k: int|
                0 <= k < pairs@.len() ==> #[trigger] pairs@[k] == (ranks@[k], ranks@[k + 1]),
            forall|k: int| 0 <= k < i ==> (#[trigger] ranks@[k]) + 1 == ranks@[k + 1],
        decreases pairs@.len() - i,
    {
        let (x, y) = pairs[i];
        if !(x < y && y - x == 1) {
            return false;
        }
        i += 1;
    }
    true
}

/// The ranks that two neighbouring cards share, highest position first.
pub fn all_pairs(ranks: &[Rank; 5]) -> (pairs: Vec<Rank>)
    ensures
        pairs@ == pair_ranks(ranks@),
{
    let mut rev: Vec<Rank> = Vec::new();
    let mut i: usize = 5;
    while i > 0
        invariant
            0 <= i <= 5,
            rev@.len() == 5 - i,
            forall|k: int| 0 <= k < rev@.len() ==> rev@[k] == ranks@[4 - k],
        decreases i,
    {
        i -= 1;
        rev.push(ranks[i]);
    }
    let windows = pair_windows(rev.as_slice());
    let mut pairs: Vec<Rank> = Vec::new();
    let ghost r = ranks@;
    assert(pairs@ =~= Seq::<Rank>::empty());
    let (x, y) = windows[0];
    if x == y {
        pairs.push(x);
    }
    assert(pairs@ =~= pair_at(r, 4));
    let (x, y) = windows[1];
    if x == y {
        pairs.push(x);
    }
    assert(pairs@ =~= pair_at(r, 4) + pair_at(r, 3));
    let (x, y) = windows[2];
    if x == y {
        pairs.push(x);
    }
    assert(pairs@ =~= pair_at(r, 4) + pair_at(r, 3) + pair_at(r, 2));
    let (x, y) = windows[3];
    if x == y {
        pairs.push(x);
    }
    assert(pairs@ =~= pair_at(r, 4) + pair_at(r, 3) + pair_at(r, 2) + pair_at(r, 1));
    pairs
}

} // verus!
