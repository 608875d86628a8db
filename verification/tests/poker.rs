use euler::poker::{eval_poker_hand, BadCardSpec, Card, PokerHand, Rating, Suit};

fn hand(spec: &str) -> PokerHand {
    let cards: Vec<Card> = spec.split(' ').map(|s| s.parse().unwrap()).collect();
    PokerHand::new([cards[0], cards[1], cards[2], cards[3], cards[4]])
}

#[test]
fn test_suit_chars() {
    for (suit, ch) in [(Suit::Clubs, 'C'), (Suit::Diamonds, 'D'), (Suit::Hearts, 'H'), (Suit::Spades, 'S')] {
        assert_eq!(suit.to_char(), ch);
        assert_eq!(Suit::from_char(ch), Some(suit));
    }
    assert_eq!(Suit::from_char('c'), None);
    assert_eq!(Suit::from_char('X'), None);
    assert_eq!(Suit::from_char('\u{e9}'), None);
}

#[test]
fn test_parse_card() {
    let h = hand("2C TD JH QS AC");
    assert_eq!(h.ranks(), [2, 10, 11, 12, 14]);
    let h = hand("KH 9D 3S 2H 5C");
    assert_eq!(h.ranks(), [2, 3, 5, 9, 13]);
    assert_eq!(h.suits(), [Suit::Hearts, Suit::Spades, Suit::Clubs, Suit::Diamonds, Suit::Hearts]);
    assert!(matches!("".parse::<Card>(), Err(BadCardSpec)));
    assert!(matches!("2".parse::<Card>(), Err(BadCardSpec)));
    assert!(matches!("1C".parse::<Card>(), Err(BadCardSpec)));
    assert!(matches!("2X".parse::<Card>(), Err(BadCardSpec)));
    assert!(matches!("tC".parse::<Card>(), Err(BadCardSpec)));
    assert!(matches!("\u{e9}C".parse::<Card>(), Err(BadCardSpec)));
    assert!(matches!("2\u{e9}".parse::<Card>(), Err(BadCardSpec)));
    assert!("2Cxyz".parse::<Card>().is_ok());
    assert!(matches!(Card::parse("AS"), Ok(_)));
}

#[test]
fn test_cards_compare_by_rank() {
    let a: Card = "5H".parse().unwrap();
    let b: Card = "5S".parse().unwrap();
    let c: Card = "KD".parse().unwrap();
    assert!(a == b);
    assert!(a < c);
    assert!(c > b);
    assert!(a <= b && a >= b);
}

#[test]
fn test_hand_is_sorted() {
    let h = hand("AS 2D KC 3H QH");
    assert_eq!(h.ranks(), [2, 3, 12, 13, 14]);
    assert_eq!(h.suits(), [Suit::Diamonds, Suit::Hearts, Suit::Hearts, Suit::Clubs, Suit::Spades]);
}

#[test]
fn test_ratings() {
    assert_eq!(eval_poker_hand(&hand("TH JH QH KH AH")), Rating::RoyalFlush);
    assert_eq!(eval_poker_hand(&hand("9H TH JH QH KH")), Rating::StraightFlush(13));
    assert_eq!(eval_poker_hand(&hand("9H 9D 9C 9S KH")), Rating::FourKind(9));
    assert_eq!(eval_poker_hand(&hand("3H 9D 9C 9S 9H")), Rating::FourKind(9));
    assert_eq!(eval_poker_hand(&hand("3H 3D 9C 9S 9H")), Rating::FullHouse(9, 3));
    assert_eq!(eval_poker_hand(&hand("3H 3D 3C 9S 9H")), Rating::FullHouse(9, 3));
    assert_eq!(eval_poker_hand(&hand("2H 7H 9H JH KH")), Rating::Flush(13));
    assert_eq!(eval_poker_hand(&hand("5H 6D 7C 8S 9H")), Rating::Straight(9));
    assert_eq!(eval_poker_hand(&hand("5H 5D 5C 8S 9H")), Rating::ThreeKind(5));
    assert_eq!(eval_poker_hand(&hand("4H 5D 5C 5S 9H")), Rating::ThreeKind(5));
    assert_eq!(eval_poker_hand(&hand("4H 5D 9C 9S 9H")), Rating::ThreeKind(9));
    assert_eq!(eval_poker_hand(&hand("4H 4D 7C 9S 9H")), Rating::TwoPairs(9, 4));
    assert_eq!(eval_poker_hand(&hand("4H 4D 7C 7S 9H")), Rating::TwoPairs(7, 4));
    assert_eq!(eval_poker_hand(&hand("4H 7D 7C 9S 9H")), Rating::TwoPairs(9, 7));
    assert_eq!(eval_poker_hand(&hand("4H 4D 7C 8S 9H")), Rating::OnePair(4));
    assert_eq!(eval_poker_hand(&hand("2H 4D 7C AS AH")), Rating::OnePair(14));
    assert_eq!(eval_poker_hand(&hand("2H 4D 7C 9S KH")), Rating::HighCard(13));
}

#[test]
fn test_ratings_are_ordered() {
    assert!(Rating::RoyalFlush > Rating::StraightFlush(13));
    assert!(Rating::FourKind(2) > Rating::FullHouse(14, 13));
    assert!(Rating::OnePair(5) > Rating::OnePair(4));
    assert!(Rating::OnePair(2) > Rating::HighCard(14));
    assert!(Rating::TwoPairs(9, 4) > Rating::TwoPairs(9, 3));
}
