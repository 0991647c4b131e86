use poker::calc::{calc_best_hand, calc_rank};
use poker::calc::Rank::{
    Flush, FourOfKind, FullHouse, HighCard, OnePair, RoyalFlush, Straight, StraightFlush,
    ThreeOfKind, TwoPair,
};
use poker::card::Card;
use poker::card::Name::{
    AceHigh, AceLow, Eight, Five, Four, Jack, King, Nine, Queen, Seven, Six, Ten, Three, Two,
};
use poker::card::Suit::{Clubs, Diamonds, Hearts, Spades};

#[test]
fn test_rank() {
    assert!(RoyalFlush > Straight);
    assert_eq!(Flush, Flush);
    assert!(HighCard < OnePair);
}

#[test]
fn test_royal_flush() {
    let hand: Vec<Card> = vec![
        Card(AceHigh, Hearts),
        Card(King, Hearts),
        Card(Two, Diamonds),
        Card(Ten, Hearts),
        Card(Seven, Spades),
        Card(Jack, Hearts),
        Card(Queen, Hearts),
    ];
    assert_eq!(calc_rank(&hand), RoyalFlush);
    assert_eq!(
        calc_best_hand(&hand, RoyalFlush),
        vec![
            Card(AceHigh, Hearts),
            Card(King, Hearts),
            Card(Queen, Hearts),
            Card(Jack, Hearts),
            Card(Ten, Hearts)
        ]
    );
}

#[test]
fn test_straight_flush() {
    let high_straight: Vec<Card> = vec![
        Card(Nine, Hearts),
        Card(King, Hearts),
        Card(Two, Diamonds),
        Card(Queen, Hearts),
        Card(Seven, Spades),
        Card(Jack, Hearts),
        Card(Ten, Hearts),
    ];
    let low_straight: Vec<Card> = vec![
        Card(AceHigh, Hearts),
        Card(Three, Hearts),
        Card(Two, Hearts),
        Card(Queen, Diamonds),
        Card(Five, Hearts),
        Card(Jack, Spades),
        Card(Four, Hearts),
    ];
    assert_eq!(calc_rank(&high_straight), StraightFlush);
    assert_eq!(
        calc_best_hand(&high_straight, StraightFlush),
        vec![
            Card(King, Hearts),
            Card(Queen, Hearts),
            Card(Jack, Hearts),
            Card(Ten, Hearts),
            Card(Nine, Hearts)
        ]
    );
    assert_eq!(calc_rank(&low_straight), StraightFlush);
    assert_eq!(
        calc_best_hand(&low_straight, StraightFlush),
        vec![
            Card(Five, Hearts),
            Card(Four, Hearts),
            Card(Three, Hearts),
            Card(Two, Hearts),
            Card(AceLow, Hearts)
        ]
    );
}

#[test]
fn test_four_of_kind() {
    let hand: Vec<Card> = vec![
        Card(Nine, Hearts),
        Card(Two, Diamonds),
        Card(Nine, Spades),
        Card(Nine, Diamonds),
        Card(Two, Hearts),
        Card(Nine, Clubs),
        Card(Two, Clubs),
    ];
    let hand2: Vec<Card> = vec![
        Card(Nine, Hearts),
        Card(Nine, Spades),
        Card(Nine, Diamonds),
        Card(Nine, Clubs),
    ];
    assert_eq!(calc_rank(&hand), FourOfKind);
    assert_eq!(
        calc_best_hand(&hand, FourOfKind),
        vec![
            Card(Nine, Hearts),
            Card(Nine, Diamonds),
            Card(Nine, Spades),
            Card(Nine, Clubs),
            Card(Two, Hearts)
        ]
    );
    assert_eq!(calc_rank(&hand2), FourOfKind);
    assert_eq!(
        calc_best_hand(&hand2, FourOfKind),
        vec![
            Card(Nine, Hearts),
            Card(Nine, Diamonds),
            Card(Nine, Spades),
            Card(Nine, Clubs)
        ]
    );
}

#[test]
fn test_full_house() {
    let hand1: Vec<Card> = vec![
        Card(Nine, Hearts),
        Card(Two, Diamonds),
        Card(Nine, Spades),
        Card(Nine, Diamonds),
        Card(Two, Hearts),
        Card(Three, Clubs),
        Card(Two, Clubs),
    ];
    let hand2: Vec<Card> = vec![
        Card(Three, Hearts),
        Card(Two, Diamonds),
        Card(Nine, Spades),
        Card(Nine, Diamonds),
        Card(Two, Hearts),
        Card(Three, Clubs),
        Card(Two, Clubs),
    ];
    assert_eq!(calc_rank(&hand1), FullHouse);
    assert_eq!(
        calc_best_hand(&hand1, FullHouse),
        vec![
            Card(Nine, Hearts),
            Card(Nine, Diamonds),
            Card(Nine, Spades),
            Card(Two, Hearts),
            Card(Two, Diamonds)
        ]
    );
    assert_eq!(calc_rank(&hand2), FullHouse);
    assert_eq!(
        calc_best_hand(&hand2, FullHouse),
        vec![
            Card(Two, Hearts),
            Card(Two, Diamonds),
            Card(Two, Clubs),
            Card(Nine, Diamonds),
            Card(Nine, Spades)
        ]
    );
}

#[test]
fn test_flush() {
    let hand: Vec<Card> = vec![
        Card(Nine, Hearts),
        Card(King, Hearts),
        Card(Two, Diamonds),
        Card(Two, Hearts),
        Card(Seven, Spades),
        Card(Jack, Hearts),
        Card(Ten, Hearts),
    ];
    assert_eq!(calc_rank(&hand), Flush);
    assert_eq!(
        calc_best_hand(&hand, Flush),
        vec![
            Card(King, Hearts),
            Card(Jack, Hearts),
            Card(Ten, Hearts),
            Card(Nine, Hearts),
            Card(Two, Hearts)
        ]
    );
}

#[test]
fn test_straight() {
    let high_straight: Vec<Card> = vec![
        Card(Nine, Diamonds),
        Card(King, Clubs),
        Card(Two, Diamonds),
        Card(Queen, Hearts),
        Card(Seven, Spades),
        Card(Jack, Hearts),
        Card(Ten, Hearts),
    ];
    let low_straight: Vec<Card> = vec![
        Card(Four, Diamonds),
        Card(AceHigh, Clubs),
        Card(Two, Diamonds),
        Card(Queen, Hearts),
        Card(Five, Spades),
        Card(Jack, Hearts),
        Card(Three, Hearts),
    ];
    assert_eq!(calc_rank(&high_straight), Straight);
    assert_eq!(
        calc_best_hand(&high_straight, Straight),
        vec![
            Card(King, Clubs),
            Card(Queen, Hearts),
            Card(Jack, Hearts),
            Card(Ten, Hearts),
            Card(Nine, Diamonds)
        ]
    );
    assert_eq!(calc_rank(&low_straight), Straight);
    assert_eq!(
        calc_best_hand(&low_straight, Straight),
        vec![
            Card(Five, Spades),
            Card(Four, Diamonds),
            Card(Three, Hearts),
            Card(Two, Diamonds),
            Card(AceLow, Clubs)
        ]
    );
}

#[test]
fn test_three_of_kind() {
    let hand: Vec<Card> = vec![
        Card(Nine, Hearts),
        Card(Seven, Diamonds),
        Card(Three, Spades),
        Card(Nine, Diamonds),
        Card(Two, Hearts),
        Card(Nine, Clubs),
        Card(Five, Clubs),
    ];
    assert_eq!(calc_rank(&hand), ThreeOfKind);
    assert_eq!(
        calc_best_hand(&hand, ThreeOfKind),
        vec![
            Card(Nine, Hearts),
            Card(Nine, Diamonds),
            Card(Nine, Clubs),
            Card(Seven, Diamonds),
            Card(Five, Clubs)
        ]
    );
}

#[test]
fn test_two_pair() {
    let hand: Vec<Card> = vec![
        Card(Nine, Hearts),
        Card(Two, Diamonds),
        Card(Nine, Spades),
        Card(Eight, Diamonds),
        Card(Two, Hearts),
        Card(Six, Clubs),
        Card(Four, Clubs),
    ];
    let hand2: Vec<Card> = vec![
        Card(Nine, Hearts),
        Card(Two, Diamonds),
        Card(Nine, Spades),
        Card(Two, Hearts),
    ];
    assert_eq!(calc_rank(&hand), TwoPair);
    assert_eq!(
        calc_best_hand(&hand, TwoPair),
        vec![
            Card(Nine, Hearts),
            Card(Nine, Spades),
            Card(Two, Hearts),
            Card(Two, Diamonds),
            Card(Eight, Diamonds)
        ]
    );
    assert_eq!(calc_rank(&hand2), TwoPair);
    assert_eq!(
        calc_best_hand(&hand2, TwoPair),
        vec![
            Card(Nine, Hearts),
            Card(Nine, Spades),
            Card(Two, Hearts),
            Card(Two, Diamonds)
        ]
    );
}

#[test]
fn test_one_pair() {
    let hand: Vec<Card> = vec![
        Card(AceHigh, Hearts),
        Card(Two, Diamonds),
        Card(Nine, Spades),
        Card(Eight, Diamonds),
        Card(Two, Hearts),
        Card(Six, Clubs),
        Card(Four, Clubs),
    ];
    assert_eq!(calc_rank(&hand), OnePair);
    assert_eq!(
        calc_best_hand(&hand, OnePair),
        vec![
            Card(Two, Hearts),
            Card(Two, Diamonds),
            Card(AceHigh, Hearts),
            Card(Nine, Spades),
            Card(Eight, Diamonds)
        ]
    );
}

#[test]
fn test_high_card() {
    let hand: Vec<Card> = vec![
        Card(AceHigh, Hearts),
        Card(Jack, Diamonds),
        Card(Nine, Spades),
        Card(Eight, Diamonds),
        Card(Two, Hearts),
        Card(Six, Clubs),
        Card(Four, Clubs),
    ];
    assert_eq!(calc_rank(&hand), HighCard);
    assert_eq!(
        calc_best_hand(&hand, HighCard),
        vec![
            Card(AceHigh, Hearts),
            Card(Jack, Diamonds),
            Card(Nine, Spades),
            Card(Eight, Diamonds),
            Card(Six, Clubs)
        ]
    );
}
