use poker::calc::{calc_best_hand, calc_rank};
use poker::calc::Rank::{
    Flush, FullHouse, HighCard, OnePair, RoyalFlush, Straight, StraightFlush,
};
use poker::card::{Card, Name, Suit};
use poker::card::Name::{
    AceHigh, AceLow, Eight, Five, Four, Jack, King, Nine, Queen, Seven, Six, Ten, Three, Two,
};
use poker::card::Suit::{Clubs, Diamonds, Hearts, Spades};
use poker::game::Game;
use std::cmp::Ordering;

#[test]
fn classify_ignores_order() {
    let hand: Vec<Card> = vec![
        Card(Nine, Hearts),
        Card(Two, Diamonds),
        Card(Nine, Spades),
        Card(Eight, Diamonds),
        Card(Two, Hearts),
        Card(Six, Clubs),
        Card(Four, Clubs),
    ];
    let mut shuffled = hand.clone();
    shuffled.reverse();
    shuffled.swap(0, 3);
    assert_eq!(calc_rank(&hand), calc_rank(&shuffled));
}

#[test]
fn wheel_counts_ace_low() {
    let hand: Vec<Card> = vec![
        Card(AceHigh, Hearts),
        Card(Two, Clubs),
        Card(Three, Diamonds),
        Card(Four, Spades),
        Card(Five, Hearts),
    ];
    assert_eq!(calc_rank(&hand), Straight);
    let best = calc_best_hand(&hand, Straight);
    assert_eq!(
        best,
        vec![
            Card(Five, Hearts),
            Card(Four, Spades),
            Card(Three, Diamonds),
            Card(Two, Clubs),
            Card(AceLow, Hearts)
        ]
    );
    assert_eq!(best[4].0, AceLow);
    assert_eq!(best[4].1, Hearts);
}

#[test]
fn royal_flush_versus_straight_flush() {
    let royal: Vec<Card> = vec![
        Card(Ten, Hearts),
        Card(Jack, Hearts),
        Card(Queen, Hearts),
        Card(King, Hearts),
        Card(AceHigh, Hearts),
    ];
    let king_high: Vec<Card> = vec![
        Card(Nine, Hearts),
        Card(Ten, Hearts),
        Card(Jack, Hearts),
        Card(Queen, Hearts),
        Card(King, Hearts),
    ];
    assert_eq!(calc_rank(&royal), RoyalFlush);
    assert_eq!(calc_rank(&king_high), StraightFlush);
}

#[test]
fn two_triples_resolve_to_full_house() {
    let hand: Vec<Card> = vec![
        Card(Nine, Diamonds),
        Card(Two, Clubs),
        Card(Nine, Spades),
        Card(Two, Diamonds),
        Card(Nine, Hearts),
        Card(Two, Hearts),
        Card(King, Clubs),
    ];
    assert_eq!(calc_rank(&hand), FullHouse);
    let best = calc_best_hand(&hand, FullHouse);
    assert_eq!(best.len(), 5);
    assert_eq!(best[0].0, Nine);
    assert_eq!(best[1].0, Nine);
    assert_eq!(best[2].0, Nine);
    assert_eq!(best[3].0, Two);
    assert_eq!(best[4].0, Two);
}

#[test]
fn one_pair_keeps_three_highest_kickers() {
    let hand: Vec<Card> = vec![
        Card(AceHigh, Hearts),
        Card(Two, Diamonds),
        Card(Nine, Spades),
        Card(Eight, Diamonds),
        Card(Two, Hearts),
        Card(Six, Clubs),
        Card(Four, Clubs),
    ];
    assert_eq!(calc_rank(&hand), OnePair);
    let best = calc_best_hand(&hand, OnePair);
    assert_eq!(best[0].0, Two);
    assert_eq!(best[1].0, Two);
    assert_eq!(best[2].0, AceHigh);
    assert_eq!(best[3].0, Nine);
    assert_eq!(best[4].0, Eight);
}

#[test]
fn flush_is_counted_per_suit() {
    let four_three: Vec<Card> = vec![
        Card(Two, Hearts),
        Card(Five, Hearts),
        Card(Nine, Hearts),
        Card(King, Hearts),
        Card(Three, Diamonds),
        Card(Seven, Diamonds),
        Card(Jack, Diamonds),
    ];
    assert_eq!(calc_rank(&four_three), HighCard);
    let four_four: Vec<Card> = vec![
        Card(Two, Hearts),
        Card(Five, Hearts),
        Card(Nine, Hearts),
        Card(King, Hearts),
        Card(Three, Diamonds),
        Card(Seven, Diamonds),
        Card(Jack, Diamonds),
        Card(Queen, Diamonds),
    ];
    let rank = calc_rank(&four_four);
    assert!(rank != Flush);
    assert_eq!(rank, HighCard);
}

#[test]
fn best_hand_has_five_cards_or_the_whole_short_hand() {
    let seven: Vec<Card> = vec![
        Card(AceHigh, Hearts),
        Card(Jack, Diamonds),
        Card(Nine, Spades),
        Card(Eight, Diamonds),
        Card(Two, Hearts),
        Card(Six, Clubs),
        Card(Four, Clubs),
    ];
    assert_eq!(calc_best_hand(&seven, calc_rank(&seven)).len(), 5);
    let four: Vec<Card> = vec![
        Card(Nine, Hearts),
        Card(Two, Diamonds),
        Card(Nine, Spades),
        Card(Two, Hearts),
    ];
    assert_eq!(calc_best_hand(&four, calc_rank(&four)).len(), 4);
}

#[test]
fn classify_of_best_hand_round_trips() {
    let hands: Vec<Vec<Card>> = vec![
        vec![
            Card(AceHigh, Hearts),
            Card(King, Hearts),
            Card(Two, Diamonds),
            Card(Ten, Hearts),
            Card(Seven, Spades),
            Card(Jack, Hearts),
            Card(Queen, Hearts),
        ],
        vec![
            Card(Nine, Hearts),
            Card(Two, Diamonds),
            Card(Nine, Spades),
            Card(Nine, Diamonds),
            Card(Two, Hearts),
            Card(Three, Clubs),
            Card(Two, Clubs),
        ],
        vec![
            Card(Four, Diamonds),
            Card(AceHigh, Clubs),
            Card(Two, Diamonds),
            Card(Queen, Hearts),
            Card(Five, Spades),
            Card(Jack, Hearts),
            Card(Three, Hearts),
        ],
        vec![
            Card(AceHigh, Hearts),
            Card(Jack, Diamonds),
            Card(Nine, Spades),
            Card(Eight, Diamonds),
            Card(Two, Hearts),
            Card(Six, Clubs),
            Card(Four, Clubs),
        ],
    ];
    for hand in &hands {
        let rank = calc_rank(hand);
        let best = calc_best_hand(hand, rank);
        assert_eq!(calc_rank(&best), rank);
    }
}

#[test]
fn rank_labels() {
    assert_eq!(FullHouse.text(), "Full House");
    assert_eq!(StraightFlush.text(), "Straight");
    assert_eq!(RoyalFlush.text(), "Royal Flush");
    assert_eq!(HighCard.text(), "High Card");
}

fn count_card(deck: &Vec<Card>, name: Name, suit: Suit) -> usize {
    let mut n = 0;
    for c in deck.iter() {
        if c.0 == name && c.1 == suit {
            n += 1;
        }
    }
    n
}

#[test]
fn new_game_has_a_full_deck() {
    let game = Game::new();
    assert_eq!(game.deck.len(), 52);
    assert_eq!(game.deck[0].0, Two);
    assert_eq!(game.deck[0].1, Hearts);
    assert_eq!(game.deck[12].0, AceHigh);
    assert_eq!(game.deck[12].1, Hearts);
    assert_eq!(game.deck[51].0, AceHigh);
    assert_eq!(game.deck[51].1, Clubs);
    assert!(game.player.is_empty());
    assert!(game.computer.is_empty());
    assert!(game.community.is_empty());
}

#[test]
fn shuffle_keeps_every_card() {
    let mut game = Game::new();
    game.shuffle();
    assert_eq!(game.deck.len(), 52);
    let names = [
        Two, Three, Four, Five, Six, Seven, Eight, Nine, Ten, Jack, Queen, King, AceHigh,
    ];
    let suits = [Hearts, Diamonds, Spades, Clubs];
    for &name in names.iter() {
        for &suit in suits.iter() {
            assert_eq!(count_card(&game.deck, name, suit), 1);
        }
    }
}

#[test]
fn deal_alternates_from_the_top() {
    let mut game = Game::new();
    game.deal(2);
    assert_eq!(game.deck.len(), 48);
    assert_eq!(game.player.len(), 2);
    assert_eq!(game.computer.len(), 2);
    assert_eq!(game.player[0].0, Two);
    assert_eq!(game.player[1].0, Four);
    assert_eq!(game.computer[0].0, Three);
    assert_eq!(game.computer[1].0, Five);
}

#[test]
fn community_grows_from_the_deck() {
    let mut game = Game::new();
    game.deal(2);
    game.update_community(3);
    game.update_community(1);
    assert_eq!(game.community.len(), 4);
    assert_eq!(game.deck.len(), 44);
    assert_eq!(game.community[0].0, Six);
}

#[test]
fn clean_returns_every_card_to_the_deck() {
    let mut game = Game::new();
    game.deal(7);
    game.update_community(3);
    game.clean();
    assert_eq!(game.deck.len(), 52);
    assert!(game.player.is_empty());
    assert!(game.computer.is_empty());
    assert!(game.community.is_empty());
}

#[test]
fn tie_breaker_compares_card_by_card() {
    let game = Game::new();
    let a: Vec<Card> = vec![Card(Nine, Hearts), Card(Eight, Clubs), Card(Five, Spades)];
    let b: Vec<Card> = vec![Card(Nine, Diamonds), Card(Eight, Spades), Card(Four, Clubs)];
    assert_eq!(game.tie_breaker(&a, &b), Ordering::Greater);
    assert_eq!(game.tie_breaker(&b, &a), Ordering::Less);
    assert_eq!(game.tie_breaker(&a, &a), Ordering::Equal);
}

#[test]
fn winner_ranks_both_sides() {
    let game = Game {
        deck: Vec::new(),
        player: vec![Card(AceHigh, Hearts), Card(AceHigh, Diamonds)],
        computer: vec![Card(Two, Clubs), Card(Seven, Diamonds)],
        community: vec![
            Card(King, Hearts),
            Card(Queen, Diamonds),
            Card(Nine, Spades),
            Card(Eight, Diamonds),
            Card(Four, Clubs),
        ],
    };
    let showdown = game.winner();
    assert_eq!(showdown.player_rank, OnePair);
    assert_eq!(showdown.computer_rank, HighCard);
    assert_eq!(showdown.outcome, Ordering::Greater);
    assert_eq!(showdown.player_best.len(), 5);
    assert_eq!(showdown.computer_best.len(), 5);
}

#[test]
fn degenerate_short_hands_still_classify() {
    let three: Vec<Card> = vec![Card(AceHigh, Hearts), Card(King, Diamonds), Card(Queen, Spades)];
    assert_eq!(calc_rank(&three), HighCard);
    assert_eq!(calc_best_hand(&three, HighCard).len(), 3);
    let trip: Vec<Card> = vec![Card(Nine, Hearts), Card(Nine, Diamonds), Card(Nine, Spades)];
    assert_eq!(calc_rank(&trip), poker::calc::Rank::ThreeOfKind);
}
