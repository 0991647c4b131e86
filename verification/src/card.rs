//! The card model: rank names, suits, and cards ordered by rank alone.

use vstd::prelude::*;
use vstd::string::StringExecFns;
use core::cmp::Ordering;

verus! {

/// The rank name of a card. `AceLow` and `AceHigh` are distinct values by
/// design: an ace is dealt as `AceHigh` (value 14), and `AceLow` (value 1)
/// only appears transiently when a wheel straight (A-2-3-4-5) is built.
#[derive(Clone, Copy, Debug, PartialEq, Eq, Hash, Structural)]
pub enum Name {
    AceLow,
    Two,
    Three,
    Four,
    Five,
    Six,
    Seven,
    Eight,
    Nine,
    Ten,
    Jack,
    Queen,
    King,
    AceHigh,
}

/// The suit of a card. Suits carry no strength: they matter only for
/// grouping when a flush is looked for.
#[derive(Clone, Copy, Debug, PartialEq, Eq, Hash, Structural)]
pub enum Suit {
    Hearts,
    Diamonds,
    Spades,
    Clubs,
}

/// A playing card: a rank name and a suit. Comparisons (`==`, `<`, `cmp`)
/// look at the rank name only; two cards of the same rank and different
/// suits compare equal.
#[derive(Clone, Copy, Debug)]
pub struct Card(pub Name, pub Suit);

/// The numeric strength of a rank name: `AceLow` is 1, `Two` through
/// `King` are 2 through 13, and `AceHigh` is 14.
pub open spec fn name_value(n: Name) -> int {
    match n {
        Name::AceLow => 1,
        Name::Two => 2,
        Name::Three => 3,
        Name::Four => 4,
        Name::Five => 5,
        Name::Six => 6,
        Name::Seven => 7,
        Name::Eight => 8,
        Name::Nine => 9,
        Name::Ten => 10,
        Name::Jack => 11,
        Name::Queen => 12,
        Name::King => 13,
        Name::AceHigh => 14,
    }
}

/// The numeric strength of a card, taken from its rank name alone.
pub open spec fn card_value(c: Card) -> int {
    name_value(c.0)
}

impl Name {
    /// The numeric strength of this rank name, as an executable value.
    pub fn value(&self) -> (r: u8)
        ensures
            r as int == name_value(*self),
            1 <= r <= 14,
    {
        match self {
            Name::AceLow => 1,
            Name::Two => 2,
            Name::Three => 3,
            Name::Four => 4,
            Name::Five => 5,
            Name::Six => 6,
            Name::Seven => 7,
            Name::Eight => 8,
            Name::Nine => 9,
            Name::Ten => 10,
            Name::Jack => 11,
            Name::Queen => 12,
            Name::King => 13,
            Name::AceHigh => 14,
        }
    }
}

/// Rank names with equal values are equal: `name_value` is injective.
pub proof fn lemma_name_value_injective(a: Name, b: Name)
    ensures
        name_value(a) == name_value(b) ==> a == b,
{
}

impl PartialEq for Card {
    fn eq(&self, other: &Card) -> (r: bool) {
        self.0.value() == other.0.value()
    }
}

impl Eq for Card {
}

impl vstd::std_specs::cmp::PartialEqSpecImpl for Card {
    open spec fn obeys_eq_spec() -> bool {
        true
    }

    open spec fn eq_spec(&self, other: &Card) -> bool {
        card_value(*self) == card_value(*other)
    }
}

impl PartialOrd for Card {
    fn partial_cmp(&self, other: &Card) -> (r: Option<Ordering>) {
        let a = self.0.value();
        let b = other.0.value();
        if a < b {
            Some(Ordering::Less)
        } else if a == b {
            Some(Ordering::Equal)
        } else {
            Some(Ordering::Greater)
        }
    }
}

impl vstd::std_specs::cmp::PartialOrdSpecImpl for Card {
    open spec fn obeys_partial_cmp_spec() -> bool {
        true
    }

    open spec fn partial_cmp_spec(&self, other: &Card) -> Option<Ordering> {
        if card_value(*self) < card_value(*other) {
            Some(Ordering::Less)
        } else if card_value(*self) == card_value(*other) {
            Some(Ordering::Equal)
        } else {
            Some(Ordering::Greater)
        }
    }
}

impl Card {
    /// Total comparison of two cards by rank name alone; the suit is
    /// never consulted.
    pub fn cmp(&self, other: &Card) -> (r: Ordering)
        ensures
            r == Ordering::Less <==> card_value(*self) < card_value(*other),
            r == Ordering::Equal <==> card_value(*self) == card_value(*other),
            r == Ordering::Greater <==> card_value(*self) > card_value(*other),
    {
        let a = self.0.value();
        let b = other.0.value();
        if a < b {
            Ordering::Less
        } else if a == b {
            Ordering::Equal
        } else {
            Ordering::Greater
        }
    }
}

/// The display label of a rank name: aces of either value print as `A`.
pub open spec fn name_label(n: Name) -> Seq<char> {
    match n {
        Name::AceLow => "A"@,
        Name::Two => "2"@,
        Name::Three => "3"@,
        Name::Four => "4"@,
        Name::Five => "5"@,
        Name::Six => "6"@,
        Name::Seven => "7"@,
        Name::Eight => "8"@,
        Name::Nine => "9"@,
        Name::Ten => "10"@,
        Name::Jack => "J"@,
        Name::Queen => "Q"@,
        Name::King => "K"@,
        Name::AceHigh => "A"@,
    }
}

/// The display label of a suit.
pub open spec fn suit_label(s: Suit) -> Seq<char> {
    match s {
        Suit::Hearts => "H"@,
        Suit::Diamonds => "D"@,
        Suit::Spades => "S"@,
        Suit::Clubs => "C"@,
    }
}

/// Formats a card as its rank label, a colon, and its suit label,
/// for example `A:H` or `10:C`.
pub fn custom_fmt(card: Card) -> (r: String)
    ensures
        r@ == name_label(card.0) + ":"@ + suit_label(card.1),
{
    let name: &str = match card.0 {
        Name::AceLow => "A",
        Name::Two => "2",
        Name::Three => "3",
        Name::Four => "4",
        Name::Five => "5",
        Name::Six => "6",
        Name::Seven => "7",
        Name::Eight => "8",
        Name::Nine => "9",
        Name::Ten => "10",
        Name::Jack => "J",
        Name::Queen => "Q",
        Name::King => "K",
        Name::AceHigh => "A",
    };
    let suit: &str = match card.1 {
        Suit::Hearts => "H",
        Suit::Diamonds => "D",
        Suit::Spades => "S",
        Suit::Clubs => "C",
    };
    let mut out = name.to_owned();
    out.append(":");
    out.append(suit);
    out
}

} // verus!
