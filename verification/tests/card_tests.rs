use poker::card::Card;
use poker::card::Name::{AceHigh, Five, Jack, Ten};
use poker::card::Suit::{Diamonds, Hearts};
use std::cmp::Ordering;

#[test]
fn test_new() {
    let card: Card = Card(AceHigh, Hearts);
    assert_eq!(card.0, AceHigh);
    assert_eq!(card.1, Hearts);
    assert_eq!(card.0.value(), 14);
}

#[test]
fn test_cmp() {
    let card1: Card = Card(Ten, Hearts);
    let card2: Card = Card(Ten, Diamonds);
    let card3: Card = Card(Five, Diamonds);
    let card4: Card = Card(AceHigh, Diamonds);
    assert_eq!(card1.cmp(&card2), Ordering::Equal);
    assert_eq!(card1.cmp(&card3), Ordering::Greater);
    assert_eq!(card1.cmp(&card4), Ordering::Less);
}

#[test]
fn test_eq() {
    let card1: Card = Card(Ten, Hearts);
    let card2: Card = Card(Ten, Diamonds);
    let card3: Card = Card(Five, Diamonds);
    assert!(card1 == card2);
    assert_eq!(card1 == card3, false);
}

#[test]
fn test_ne() {
    let card1: Card = Card(Ten, Hearts);
    let card2: Card = Card(Ten, Diamonds);
    let card3: Card = Card(Five, Diamonds);
    assert_eq!(card1 != card2, false);
    assert!(card1 != card3);
}

#[test]
fn test_partial_cmp() {
    let card1: Card = Card(Ten, Hearts);
    let card2: Card = Card(Ten, Diamonds);
    let card3: Card = Card(Five, Diamonds);
    let card4: Card = Card(AceHigh, Diamonds);
    assert_eq!(card1.partial_cmp(&card2), Some(Ordering::Equal));
    assert_eq!(card1.partial_cmp(&card3), Some(Ordering::Greater));
    assert_eq!(card1.partial_cmp(&card4), Some(Ordering::Less));
}

#[test]
fn test_lt() {
    let card1: Card = Card(Ten, Hearts);
    let card2: Card = Card(Jack, Diamonds);
    let card3: Card = Card(Five, Diamonds);
    assert!(card1 < card2);
    assert_eq!(card1 < card3, false);
}

#[test]
fn test_le() {
    let card1: Card = Card(Ten, Hearts);
    let card2: Card = Card(Ten, Diamonds);
    let card3: Card = Card(Jack, Diamonds);
    let card4: Card = Card(Five, Diamonds);
    assert!(card1 <= card2);
    assert!(card1 <= card3);
    assert_eq!(card1 <= card4, false);
}

#[test]
fn test_gt() {
    let card1: Card = Card(Ten, Hearts);
    let card2: Card = Card(Five, Diamonds);
    let card3: Card = Card(Jack, Diamonds);
    assert!(card1 > card2);
    assert_eq!(card1 > card3, false);
}

#[test]
fn test_ge() {
    let card1: Card = Card(Ten, Hearts);
    let card2: Card = Card(Ten, Diamonds);
    let card3: Card = Card(Five, Diamonds);
    let card4: Card = Card(Jack, Diamonds);
    assert!(card1 >= card2);
    assert!(card1 >= card3);
    assert_eq!(card1 >= card4, false);
}

#[test]
fn test_custom_fmt() {
    assert_eq!(poker::card::custom_fmt(Card(AceHigh, Hearts)), "A:H");
    assert_eq!(poker::card::custom_fmt(Card(Ten, Diamonds)), "10:D");
    assert_eq!(
        poker::card::custom_fmt(Card(poker::card::Name::AceLow, poker::card::Suit::Clubs)),
        "A:C"
    );
}
