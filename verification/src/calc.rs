//! Hand evaluation: classifying a 5-to-7 card hand into one of the ten
//! strength categories, and selecting the best five cards for
//! tie-breaking.

use vstd::prelude::*;
use vstd::string::StringExecFns;
use core::cmp::Ordering;
use crate::card::{Card, Name, Suit, card_value};
use crate::counts::{
    value_count, suit_count, suited_value_count, within, group_count_push, lemma_counts_le_len,
    lemma_value_count_range, lemma_two_suits_le_len, lemma_counts_remove, lemma_counts_multiset,
    lemma_value_present, lemma_distinct_values_len,
};

verus! {

broadcast use {
    group_count_push,
    vstd::seq_lib::group_to_multiset_ensures,
    vstd::multiset::group_multiset_axioms,
};

/// The classification of a hand. The declaration order, from `HighCard`
/// up to `RoyalFlush`, is the hand-strength order: a later variant beats
/// an earlier one outright, and `<` between two classifications follows
/// exactly this order.
#[derive(Clone, Copy, Debug, PartialEq, Eq, Structural)]
pub enum Rank {
    HighCard,
    OnePair,
    TwoPair,
    ThreeOfKind,
    Straight,
    Flush,
    FullHouse,
    FourOfKind,
    StraightFlush,
    RoyalFlush,
}

/// The position of a classification in the strength order: 0 for
/// `HighCard` up to 9 for `RoyalFlush`.
pub open spec fn rank_order(r: Rank) -> int {
    match r {
        Rank::HighCard => 0,
        Rank::OnePair => 1,
        Rank::TwoPair => 2,
        Rank::ThreeOfKind => 3,
        Rank::Straight => 4,
        Rank::Flush => 5,
        Rank::FullHouse => 6,
        Rank::FourOfKind => 7,
        Rank::StraightFlush => 8,
        Rank::RoyalFlush => 9,
    }
}

/// The display label of a classification.
pub open spec fn rank_label(r: Rank) -> Seq<char> {
    match r {
        Rank::HighCard => "High Card"@,
        Rank::OnePair => "One Pair"@,
        Rank::TwoPair => "Two Pair"@,
        Rank::ThreeOfKind => "Three of a Kind"@,
        Rank::Straight => "Straight"@,
        Rank::Flush => "Flush"@,
        Rank::FullHouse => "Full House"@,
        Rank::FourOfKind => "Four of a Kind"@,
        Rank::StraightFlush => "Straight"@,
        Rank::RoyalFlush => "Royal Flush"@,
    }
}

impl Rank {
    /// The position of this classification in the strength order, as an
    /// executable value.
    pub fn strength(&self) -> (r: u8)
        ensures
            r as int == rank_order(*self),
    {
        match self {
            Rank::HighCard => 0,
            Rank::OnePair => 1,
            Rank::TwoPair => 2,
            Rank::ThreeOfKind => 3,
            Rank::Straight => 4,
            Rank::Flush => 5,
            Rank::FullHouse => 6,
            Rank::FourOfKind => 7,
            Rank::StraightFlush => 8,
            Rank::RoyalFlush => 9,
        }
    }

    /// The display label of this classification. A straight flush prints
    /// as `Straight`, as a plain straight does.
    pub fn text(&self) -> (t: String)
        ensures
            t@ == rank_label(*self),
    {
        let s: &str = match self {
            Rank::HighCard => "High Card",
            Rank::OnePair => "One Pair",
            Rank::TwoPair => "Two Pair",
            Rank::ThreeOfKind => "Three of a Kind",
            Rank::Straight => "Straight",
            Rank::Flush => "Flush",
            Rank::FullHouse => "Full House",
            Rank::FourOfKind => "Four of a Kind",
            Rank::StraightFlush => "Straight",
            Rank::RoyalFlush => "Royal Flush",
        };
        s.to_owned()
    }
}

impl PartialOrd for Rank {
    fn partial_cmp(&self, other: &Rank) -> (r: Option<Ordering>) {
        let a = self.strength();
        let b = other.strength();
        if a < b {
            Some(Ordering::Less)
        } else if a == b {
            Some(Ordering::Equal)
        } else {
            Some(Ordering::Greater)
        }
    }
}

impl vstd::std_specs::cmp::PartialOrdSpecImpl for Rank {
    open spec fn obeys_partial_cmp_spec() -> bool {
        true
    }

    open spec fn partial_cmp_spec(&self, other: &Rank) -> Option<Ordering> {
        if rank_order(*self) < rank_order(*other) {
            Some(Ordering::Less)
        } else if rank_order(*self) == rank_order(*other) {
            Some(Ordering::Equal)
        } else {
            Some(Ordering::Greater)
        }
    }
}

/// A rank value takes part in the straight test if a card carries it, or
/// if it is 1 and an ace is in the hand: the ace doubles as the lowest
/// value so that the wheel (A-2-3-4-5) is found.
pub open spec fn wheel_present(s: Seq<Card>, v: int) -> bool {
    value_count(s, v) > 0 || (v == 1 && value_count(s, 14) > 0)
}

/// As `wheel_present`, but restricted to the cards of one suit.
pub open spec fn suited_wheel_present(s: Seq<Card>, su: Suit, v: int) -> bool {
    suited_value_count(s, su, v) > 0 || (v == 1 && suited_value_count(s, su, 14) > 0)
}

/// Five consecutive rank values ending at `t` are all present.
pub open spec fn run_at(p: spec_fn(int) -> bool, t: int) -> bool {
    forall|k: int| t - 4 <= k <= t ==> #[trigger] p(k)
}

/// The highest `t` in 5 through `t0` whose run of five consecutive
/// values is fully present, or 0 when there is none.
pub open spec fn top_run_from(p: spec_fn(int) -> bool, t0: int) -> int
    decreases t0,
{
    if t0 < 5 {
        0
    } else if run_at(p, t0) {
        t0
    } else {
        top_run_from(p, t0 - 1)
    }
}

/// The rank values present in the whole hand, ace doubling as 1.
pub open spec fn hand_presence(s: Seq<Card>) -> spec_fn(int) -> bool {
    |v: int| wheel_present(s, v)
}

/// The rank values present within one suit of the hand, ace doubling as 1.
pub open spec fn suited_presence(s: Seq<Card>, su: Suit) -> spec_fn(int) -> bool {
    |v: int| suited_wheel_present(s, su, v)
}

/// The top value of the best straight in the hand: 5 through 14, or 0
/// when the hand holds no straight.
pub open spec fn best_straight_top(s: Seq<Card>) -> int {
    top_run_from(hand_presence(s), 14)
}

/// The top value of the best straight among the cards of suit `su`.
pub open spec fn suited_straight_top(s: Seq<Card>, su: Suit) -> int {
    top_run_from(suited_presence(s, su), 14)
}

/// Whether the hand holds five cards of consecutive rank values, the ace
/// doubling as value 1.
pub open spec fn has_straight(s: Seq<Card>) -> bool {
    best_straight_top(s) >= 5
}

/// Some rank value appears on exactly four cards.
pub open spec fn has_quad(s: Seq<Card>) -> bool {
    exists|v: int| #[trigger] value_count(s, v) == 4
}

/// Some rank value appears on exactly three cards.
pub open spec fn has_trip(s: Seq<Card>) -> bool {
    exists|v: int| #[trigger] value_count(s, v) == 3
}

/// Some rank value appears on exactly three cards while a second,
/// different value appears on two or three: a triple plus a pair, the
/// pair possibly borrowed from a second triple.
pub open spec fn has_full_house(s: Seq<Card>) -> bool {
    exists|v: int, w: int|
        v != w && #[trigger] value_count(s, v) == 3 && (#[trigger] value_count(s, w) == 2
            || value_count(s, w) == 3)
}

/// Two different rank values each appear on exactly two cards.
pub open spec fn has_two_pair(s: Seq<Card>) -> bool {
    exists|v: int, w: int|
        v != w && #[trigger] value_count(s, v) == 2 && #[trigger] value_count(s, w) == 2
}

/// Some rank value appears on exactly two cards.
pub open spec fn has_pair(s: Seq<Card>) -> bool {
    exists|v: int| #[trigger] value_count(s, v) == 2
}

/// The classification of a hand that holds neither a flush nor a
/// straight, from the multiplicities of its rank values.
pub open spec fn group_rank(s: Seq<Card>) -> Rank {
    if has_quad(s) {
        Rank::FourOfKind
    } else if has_full_house(s) {
        Rank::FullHouse
    } else if has_trip(s) {
        Rank::ThreeOfKind
    } else if has_two_pair(s) {
        Rank::TwoPair
    } else if has_pair(s) {
        Rank::OnePair
    } else {
        Rank::HighCard
    }
}

/// Some single suit covers at least five cards of the hand. The count is
/// per suit: four cards of one suit and four of another do not make a
/// flush.
pub open spec fn has_flush(s: Seq<Card>) -> bool {
    exists|su: Suit| #[trigger] suit_count(s, su) >= 5
}

/// The suit that covers at least five cards. For hands of at most nine
/// cards only one suit can do so.
pub open spec fn flush_suit_of(s: Seq<Card>) -> Suit {
    choose|su: Suit| #[trigger] suit_count(s, su) >= 5
}

/// The classification of a hand. A flush suit is looked for first; within
/// it a straight makes a straight flush, topped by the ace a royal flush.
/// Otherwise a straight across the whole hand is looked for, and failing
/// that the rank-value multiplicities decide.
pub open spec fn spec_classify(s: Seq<Card>) -> Rank {
    if has_flush(s) {
        let t = suited_straight_top(s, flush_suit_of(s));
        if t == 14 {
            Rank::RoyalFlush
        } else if t >= 5 {
            Rank::StraightFlush
        } else {
            Rank::Flush
        }
    } else if has_straight(s) {
        Rank::Straight
    } else {
        group_rank(s)
    }
}

/// The table of rank-value multiplicities of a hand: entry `v` holds how
/// many cards carry value `v`.
fn value_counts(cards: &Vec<Card>) -> (r: Vec<usize>)
    ensures
        r@.len() == 15,
        forall|v: int| 0 <= v < 15 ==> r@[v] == value_count(cards@, v),
{
    let mut counts: Vec<usize> = Vec::new();
    let mut k: usize = 0;
    while k < 15
        invariant
            counts@.len() == k,
            k <= 15,
            forall|v: int| 0 <= v < k ==> counts@[v] == 0,
        decreases 15 - k,
    {
        counts.push(0);
        k += 1;
    }
    let mut i: usize = 0;
    proof {
        assert(cards@.take(0) =~= Seq::<Card>::empty());
    }
    while i < cards.len()
        invariant
            counts@.len() == 15,
            i <= cards@.len(),
            forall|v: int| 0 <= v < 15 ==> counts@[v] == value_count(cards@.take(i as int), v),
        decreases cards@.len() - i,
    {
        let ghost pre = cards@.take(i as int);
        let c = cards[i];
        let v = c.0.value();
        proof {
            assert(cards@.take(i + 1) =~= pre.push(c));
            lemma_counts_le_len(pre);
            assert(value_count(pre, v as int) <= pre.len());
        }
        let idx = v as usize;
        let cur = counts[idx];
        counts[idx] = cur + 1;
        i += 1;
    }
    proof {
        assert(cards@.take(cards@.len() as int) =~= cards@);
    }
    counts
}

/// Whether rank value `k` takes part in the straight test, from the
/// multiplicity table of the hand `s`.
fn wheel_present_exec(counts: &Vec<usize>, k: u8, Ghost(s): Ghost<Seq<Card>>) -> (b: bool)
    requires
        counts@.len() == 15,
        forall|v: int| 0 <= v < 15 ==> counts@[v] == value_count(s, v),
        1 <= k <= 14,
    ensures
        b == wheel_present(s, k as int),
{
    counts[k as usize] > 0 || (k == 1 && counts[14] > 0)
}

/// The top value of the best straight among `cards`, or 0 when there is
/// none.
fn straight_top(cards: &Vec<Card>) -> (r: u8)
    ensures
        r as int == best_straight_top(cards@),
        r == 0 || 5 <= r <= 14,
{
    let ghost s = cards@;
    let ghost p = hand_presence(s);
    let counts = value_counts(cards);
    let mut t: u8 = 14;
    loop
        invariant
            5 <= t <= 14,
            counts@.len() == 15,
            forall|v: int| 0 <= v < 15 ==> counts@[v] == value_count(s, v),
            best_straight_top(s) == top_run_from(p, t as int),
            p == hand_presence(s),
            s == cards@,
        decreases t,
    {
        let p0 = wheel_present_exec(&counts, t, Ghost(s));
        let p1 = wheel_present_exec(&counts, t - 1, Ghost(s));
        let p2 = wheel_present_exec(&counts, t - 2, Ghost(s));
        let p3 = wheel_present_exec(&counts, t - 3, Ghost(s));
        let p4 = wheel_present_exec(&counts, t - 4, Ghost(s));
        if p0 && p1 && p2 && p3 && p4 {
            proof {
                assert forall|k: int| t - 4 <= k <= t implies #[trigger] p(k) by {
                    assert(p(k) == wheel_present(s, k));
                    if k == t {
                    } else if k == t - 1 {
                    } else if k == t - 2 {
                    } else if k == t - 3 {
                    } else {
                        assert(k == t - 4);
                    }
                }
                assert(run_at(p, t as int));
                assert(top_run_from(p, t as int) == t as int);
            }
            return t;
        }
        proof {
            if !p0 {
                assert(!p(t as int));
            } else if !p1 {
                assert(!p(t - 1 as int));
            } else if !p2 {
                assert(!p(t - 2 as int));
            } else if !p3 {
                assert(!p(t - 3 as int));
            } else {
                assert(!p(t - 4 as int));
            }
            assert(!run_at(p, t as int));
            assert(top_run_from(p, t as int) == top_run_from(p, t - 1));
        }
        if t == 5 {
            proof {
                assert(top_run_from(p, 4) == 0);
            }
            return 0;
        }
        t -= 1;
    }
}

/// Whether the hand holds a straight: five consecutive rank values, the
/// ace doubling as value 1 so that the wheel is found.
pub fn is_straight(hand: &Vec<Card>) -> (r: bool)
    ensures
        r == has_straight(hand@),
{
    straight_top(hand) >= 5
}

/// The suit that covers the most cards of the hand, or `None` for an
/// empty hand. Ties go to the suit listed first in the fixed order
/// hearts, diamonds, spades, clubs.
pub fn mode_suit(cards: &Vec<Card>) -> (r: Option<Suit>)
    ensures
        r is None <==> cards@.len() == 0,
        r matches Some(su) ==> forall|su2: Suit| #[trigger] suit_count(cards@, su2) <= suit_count(
            cards@,
            su,
        ),
{
    let mut hearts: usize = 0;
    let mut diamonds: usize = 0;
    let mut spades: usize = 0;
    let mut clubs: usize = 0;
    let mut i: usize = 0;
    proof {
        assert(cards@.take(0) =~= Seq::<Card>::empty());
    }
    while i < cards.len()
        invariant
            i <= cards@.len(),
            hearts == suit_count(cards@.take(i as int), Suit::Hearts),
            diamonds == suit_count(cards@.take(i as int), Suit::Diamonds),
            spades == suit_count(cards@.take(i as int), Suit::Spades),
            clubs == suit_count(cards@.take(i as int), Suit::Clubs),
        decreases cards@.len() - i,
    {
        let ghost pre = cards@.take(i as int);
        let c = cards[i];
        proof {
            assert(cards@.take(i + 1) =~= pre.push(c));
            lemma_counts_le_len(pre);
        }
        match c.1 {
            Suit::Hearts => {
                hearts += 1;
            },
            Suit::Diamonds => {
                diamonds += 1;
            },
            Suit::Spades => {
                spades += 1;
            },
            Suit::Clubs => {
                clubs += 1;
            },
        }
        i += 1;
    }
    proof {
        assert(cards@.take(cards@.len() as int) =~= cards@);
    }
    if cards.len() == 0 {
        return None;
    }
    let mut best = Suit::Hearts;
    let mut best_count = hearts;
    if diamonds > best_count {
        best = Suit::Diamonds;
        best_count = diamonds;
    }
    if spades > best_count {
        best = Suit::Spades;
        best_count = spades;
    }
    if clubs > best_count {
        best = Suit::Clubs;
        best_count = clubs;
    }
    Some(best)
}

/// The classification of a hand with neither a flush nor a straight:
/// four of a kind, a full house, three of a kind, two pair, one pair, or
/// a high card, decided by the rank-value multiplicities.
pub fn other_rank(hand: &Vec<Card>) -> (r: Rank)
    ensures
        r == group_rank(hand@),
{
    let ghost s = hand@;
    let counts = value_counts(hand);
    let mut found4 = false;
    let mut found3 = false;
    let mut found2 = false;
    let mut found22 = false;
    let mut found_fh = false;
    let mut v: usize = 1;
    while v < 15
        invariant
            1 <= v <= 15,
            counts@.len() == 15,
            forall|w: int| 0 <= w < 15 ==> counts@[w] == value_count(s, w),
            found4 <==> exists|w: int| 1 <= w < v && #[trigger] value_count(s, w) == 4,
            found3 <==> exists|w: int| 1 <= w < v && #[trigger] value_count(s, w) == 3,
            found2 <==> exists|w: int| 1 <= w < v && #[trigger] value_count(s, w) == 2,
            found22 <==> exists|w: int, x: int|
                1 <= w < v && 1 <= x < v && w != x && #[trigger] value_count(s, w) == 2
                    && #[trigger] value_count(s, x) == 2,
            found_fh <==> exists|w: int, x: int|
                1 <= w < v && 1 <= x < v && w != x && #[trigger] value_count(s, w) == 3 && (
                #[trigger] value_count(s, x) == 2 || value_count(s, x) == 3),
        decreases 15 - v,
    {
        let c = counts[v];
        let ghost vi = v as int;
        if c == 4 {
            found4 = true;
        }
        if c == 3 {
            if found3 || found2 {
                found_fh = true;
            }
            found3 = true;
        }
        if c == 2 {
            if found3 {
                found_fh = true;
            }
            if found2 {
                found22 = true;
            }
            found2 = true;
        }
        proof {
            assert(value_count(s, vi) == c);
        }
        v += 1;
    }
    proof {
        lemma_value_count_range(s);
        assert(has_quad(s) <==> found4) by {
            if has_quad(s) {
                let w = choose|w: int| value_count(s, w) == 4;
                assert(1 <= w < 15);
            }
        }
        assert(has_trip(s) <==> found3) by {
            if has_trip(s) {
                let w = choose|w: int| value_count(s, w) == 3;
                assert(1 <= w < 15);
            }
        }
        assert(has_pair(s) <==> found2) by {
            if has_pair(s) {
                let w = choose|w: int| value_count(s, w) == 2;
                assert(1 <= w < 15);
            }
        }
        assert(has_two_pair(s) <==> found22) by {
            if has_two_pair(s) {
                let (w, x) = choose|w: int, x: int|
                    w != x && #[trigger] value_count(s, w) == 2 && #[trigger] value_count(s, x)
                        == 2;
                assert(1 <= w < 15 && 1 <= x < 15);
            }
        }
        assert(has_full_house(s) <==> found_fh) by {
            if has_full_house(s) {
                let (w, x) = choose|w: int, x: int|
                    w != x && #[trigger] value_count(s, w) == 3 && (#[trigger] value_count(s, x)
                        == 2 || value_count(s, x) == 3);
                assert(1 <= w < 15 && 1 <= x < 15);
            }
        }
    }
    if found4 {
        Rank::FourOfKind
    } else if found_fh {
        Rank::FullHouse
    } else if found3 {
        Rank::ThreeOfKind
    } else if found22 {
        Rank::TwoPair
    } else if found2 {
        Rank::OnePair
    } else {
        Rank::HighCard
    }
}

/// The cards of `hand` that carry suit `su`, in hand order.
fn filter_suit(hand: &Vec<Card>, su: Suit) -> (r: Vec<Card>)
    ensures
        forall|i: int| 0 <= i < r@.len() ==> r@[i].1 == su,
        r@.len() == suit_count(hand@, su),
        forall|v: int| #[trigger] value_count(r@, v) == suited_value_count(hand@, su, v),
        forall|c: Card| #[trigger] r@.to_multiset().count(c) == if c.1 == su {
            hand@.to_multiset().count(c)
        } else {
            0nat
        },
        within(r@, hand@),
{
    let mut r: Vec<Card> = Vec::new();
    let mut i: usize = 0;
    proof {
        assert(hand@.take(0) =~= Seq::<Card>::empty());
    }
    while i < hand.len()
        invariant
            i <= hand@.len(),
            forall|j: int| 0 <= j < r@.len() ==> r@[j].1 == su,
            r@.len() == suit_count(hand@.take(i as int), su),
            forall|v: int| #[trigger] value_count(r@, v) == suited_value_count(
                hand@.take(i as int),
                su,
                v,
            ),
            forall|c: Card| #[trigger] r@.to_multiset().count(c) == if c.1 == su {
                hand@.take(i as int).to_multiset().count(c)
            } else {
                0nat
            },
        decreases hand@.len() - i,
    {
        let ghost pre = hand@.take(i as int);
        let ghost rpre = r@;
        let c = hand[i];
        proof {
            assert(hand@.take(i + 1) =~= pre.push(c));
            vstd::seq_lib::to_multiset_build(pre, c);
            assert(pre.push(c).to_multiset() == pre.to_multiset().insert(c));
        }
        if c.1 == su {
            r.push(c);
        }
        proof {
            assert forall|d: Card|
                #[trigger] r@.to_multiset().count(d) == (if d.1 == su {
                    hand@.take(i + 1).to_multiset().count(d)
                } else {
                    0nat
                }) by {
                assert(rpre.to_multiset().count(d) == if d.1 == su {
                    pre.to_multiset().count(d)
                } else {
                    0nat
                });
                assert(hand@.take(i + 1).to_multiset() == pre.to_multiset().insert(c));
                if c.1 == su {
                    vstd::seq_lib::to_multiset_build(rpre, c);
                    assert(r@.to_multiset() == rpre.to_multiset().insert(c));
                }
            }
        }
        i += 1;
    }
    proof {
        assert(hand@.take(hand@.len() as int) =~= hand@);
    }
    r
}

/// Whether the hand holds a flush, and of which kind: `RoyalFlush`,
/// `StraightFlush` or `Flush` when one suit covers at least five cards,
/// `None` otherwise.
pub fn check_flush(hand: &Vec<Card>) -> (r: Option<Rank>)
    requires
        hand@.len() <= 8,
    ensures
        r is Some <==> has_flush(hand@),
        has_flush(hand@) ==> r == Some(spec_classify(hand@)),
{
    let m = mode_suit(hand);
    let su = match m {
        None => {
            proof {
                lemma_counts_le_len(hand@);
                assert forall|su2: Suit| !(#[trigger] suit_count(hand@, su2) >= 5) by {
                    assert(suit_count(hand@, su2) <= hand@.len());
                }
            }
            return None;
        },
        Some(su) => su,
    };
    let f = filter_suit(hand, su);
    if f.len() < 5 {
        proof {
            assert forall|su2: Suit| !(#[trigger] suit_count(hand@, su2) >= 5) by {
                assert(suit_count(hand@, su2) <= suit_count(hand@, su));
            }
        }
        return None;
    }
    proof {
        assert(suit_count(hand@, su) >= 5);
        assert(has_flush(hand@));
        let su2 = flush_suit_of(hand@);
        assert(suit_count(hand@, su2) >= 5);
        if su2 != su {
            lemma_two_suits_le_len(hand@, su, su2);
        }
        assert(su2 == su);
        assert forall|v: int| #[trigger] hand_presence(f@)(v) == suited_presence(hand@, su)(
            v,
        ) by {
            assert(value_count(f@, v) == suited_value_count(hand@, su, v));
            assert(value_count(f@, 14) == suited_value_count(hand@, su, 14));
        }
        assert(hand_presence(f@) =~= suited_presence(hand@, su));
        assert(best_straight_top(f@) == suited_straight_top(hand@, su));
    }
    let t = straight_top(&f);
    if t == 14 {
        Some(Rank::RoyalFlush)
    } else if t >= 5 {
        Some(Rank::StraightFlush)
    } else {
        Some(Rank::Flush)
    }
}

/// The classification of a hand of up to eight cards: the flush check
/// first, then the straight check, then the rank-value multiplicities.
pub fn calc_rank(hand: &Vec<Card>) -> (r: Rank)
    requires
        hand@.len() <= 8,
    ensures
        r == spec_classify(hand@),
{
    if let Some(rank) = check_flush(hand) {
        rank
    } else if is_straight(hand) {
        Rank::Straight
    } else {
        other_rank(hand)
    }
}


/// Cards in descending rank-value order: earlier cards are at least as
/// strong.
pub open spec fn sorted_desc(r: Seq<Card>) -> bool {
    forall|i: int, j: int| 0 <= i <= j < r.len() ==> card_value(r[i]) >= card_value(r[j])
}

/// The grouped order on rank values of the hand `h`: a value comes first
/// when more cards carry it, and among equally frequent values the
/// higher one comes first.
pub open spec fn vkey_ge(h: Seq<Card>, v: int, w: int) -> bool {
    value_count(h, v) > value_count(h, w) || (value_count(h, v) == value_count(h, w) && v >= w)
}

/// Cards in descending grouped order with respect to the hand `h`.
pub open spec fn sorted_grouped(h: Seq<Card>, r: Seq<Card>) -> bool {
    forall|i: int, j: int|
        0 <= i <= j < r.len() ==> vkey_ge(h, card_value(r[i]), card_value(r[j]))
}

/// `r` holds `n` of the highest-valued cards of `pool`, in descending
/// order: whatever value is left behind is no higher than the last card
/// taken.
pub open spec fn top_of(pool: Seq<Card>, r: Seq<Card>, n: int) -> bool {
    &&& r.len() == n
    &&& sorted_desc(r)
    &&& within(r, pool)
    &&& forall|v: int|
        #[trigger] value_count(pool, v) > value_count(r, v) ==> n > 0 && v <= card_value(
            r[n - 1],
        )
}

/// `r` holds `n` cards of `pool` that come first in the grouped order of
/// the hand `h`: whatever value is left behind does not precede the last
/// card taken.
pub open spec fn grouped_top_of(h: Seq<Card>, pool: Seq<Card>, r: Seq<Card>, n: int) -> bool {
    &&& r.len() == n
    &&& sorted_grouped(h, r)
    &&& within(r, pool)
    &&& forall|v: int|
        #[trigger] value_count(pool, v) > value_count(r, v) ==> n > 0 && vkey_ge(
            h,
            card_value(r[n - 1]),
            v,
        )
}

/// The best hand of the flush family: the five highest cards of the
/// flush suit, in descending order.
pub open spec fn flush_pick_ok(h: Seq<Card>, r: Seq<Card>) -> bool {
    let su = flush_suit_of(h);
    &&& r.len() == 5
    &&& within(r, h)
    &&& (forall|i: int| 0 <= i < 5 ==> (#[trigger] r[i]).1 == su)
    &&& sorted_desc(r)
    &&& forall|v: int|
        #[trigger] suited_value_count(h, su, v) > value_count(r, v) ==> v <= card_value(r[4])
}

/// The best hand of the straight family: `r` runs down card by card from
/// the top value `t`, and `w` names the hand card behind each position.
/// A position holds its own hand card, except that the wheel closes with
/// an `AceLow` copy of the `AceHigh` hand card that supplied it.
pub open spec fn straight_pick_ok(h: Seq<Card>, r: Seq<Card>, w: Seq<Card>, t: int) -> bool {
    &&& r.len() == 5
    &&& w.len() == 5
    &&& within(w, h)
    &&& (forall|i: int| 0 <= i < 5 ==> card_value(#[trigger] r[i]) == t - i)
    &&& forall|i: int|
        0 <= i < 5 ==> (#[trigger] r[i] == w[i] || (r[i].0 == Name::AceLow && w[i].0
            == Name::AceHigh && w[i].1 == r[i].1))
}

/// The best straight of the whole hand, ending at its top value.
pub open spec fn straight_hand_ok(h: Seq<Card>, r: Seq<Card>) -> bool {
    exists|w: Seq<Card>| straight_pick_ok(h, r, w, best_straight_top(h))
}

/// The best straight within the flush suit, ending at its top value.
pub open spec fn straight_flush_ok(h: Seq<Card>, r: Seq<Card>) -> bool {
    let su = flush_suit_of(h);
    &&& (forall|i: int| 0 <= i < 5 ==> (#[trigger] r[i]).1 == su)
    &&& exists|w: Seq<Card>|
        straight_pick_ok(h, r, w, suited_straight_top(h, su)) && (forall|i: int|
            0 <= i < 5 ==> (#[trigger] w[i]).1 == su)
}

/// The highest rank value carried by exactly three cards, scanning from
/// `t` down; 0 when there is none.
pub open spec fn best_trip_from(h: Seq<Card>, t: int) -> int
    decreases t,
{
    if t < 1 {
        0
    } else if value_count(h, t) == 3 {
        t
    } else {
        best_trip_from(h, t - 1)
    }
}

/// The highest rank value carried by exactly three cards.
pub open spec fn best_trip_value(h: Seq<Card>) -> int {
    best_trip_from(h, 14)
}

/// The highest rank value other than `excl` carried by at least two
/// cards, scanning from `t` down; 0 when there is none.
pub open spec fn best_pair_from(h: Seq<Card>, excl: int, t: int) -> int
    decreases t,
{
    if t < 1 {
        0
    } else if t != excl && value_count(h, t) >= 2 {
        t
    } else {
        best_pair_from(h, excl, t - 1)
    }
}

/// The highest rank value other than `excl` carried by at least two
/// cards.
pub open spec fn best_pair_value(h: Seq<Card>, excl: int) -> int {
    best_pair_from(h, excl, 14)
}

/// The best full house: the highest triple first, then two cards of the
/// highest other value that still forms a pair.
pub open spec fn full_house_ok(h: Seq<Card>, r: Seq<Card>) -> bool {
    let n = best_trip_value(h);
    let m = best_pair_value(h, n);
    &&& r.len() == 5
    &&& within(r, h)
    &&& (forall|i: int| 0 <= i < 3 ==> card_value(#[trigger] r[i]) == n)
    &&& card_value(r[3]) == m
    &&& card_value(r[4]) == m
}

/// The four cards of the defining groups first, then the single
/// highest-valued remaining card as the kicker, when one exists.
pub open spec fn four_two_ok(h: Seq<Card>, r: Seq<Card>) -> bool {
    &&& r.len() == (if h.len() < 5 {
        4int
    } else {
        5int
    })
    &&& grouped_top_of(h, h, r.take(4), 4)
    &&& within(r, h)
    &&& (h.len() >= 5 ==> (forall|v: int|
        #[trigger] value_count(h, v) > value_count(r.take(4), v) ==> v <= card_value(r[4])))
}

/// What `calc_best_hand` returns for a hand of each classification.
pub open spec fn best_hand_ok(h: Seq<Card>, rank: Rank, r: Seq<Card>) -> bool {
    match rank {
        Rank::HighCard => top_of(
            h,
            r,
            if h.len() < 5 {
                h.len() as int
            } else {
                5int
            },
        ),
        Rank::OnePair | Rank::ThreeOfKind => grouped_top_of(
            h,
            h,
            r,
            if h.len() < 5 {
                h.len() as int
            } else {
                5int
            },
        ),
        Rank::TwoPair | Rank::FourOfKind => four_two_ok(h, r),
        Rank::Straight => straight_hand_ok(h, r),
        Rank::Flush | Rank::RoyalFlush => flush_pick_ok(h, r),
        Rank::FullHouse => full_house_ok(h, r),
        Rank::StraightFlush => straight_flush_ok(h, r),
    }
}

/// What `top_run_from` returns: either 0 with no run anywhere below
/// `t0`, or the highest top of a fully present run.
pub proof fn lemma_top_run_props(p: spec_fn(int) -> bool, t0: int)
    ensures
        top_run_from(p, t0) == 0 || (5 <= top_run_from(p, t0) <= t0 && run_at(
            p,
            top_run_from(p, t0),
        )),
        forall|k: int| top_run_from(p, t0) < k <= t0 && 5 <= k ==> !(#[trigger] run_at(p, k)),
    decreases (if t0 < 5 {
        0int
    } else {
        t0
    }),
{
    if t0 < 5 {
        assert(top_run_from(p, t0) == 0);
    } else if run_at(p, t0) {
        assert(top_run_from(p, t0) == t0);
    } else {
        lemma_top_run_props(p, t0 - 1);
        assert(top_run_from(p, t0) == top_run_from(p, t0 - 1));
        assert forall|k: int|
            top_run_from(p, t0) < k <= t0 && 5 <= k implies !(#[trigger] run_at(p, k)) by {
            if k == t0 {
            } else {
                assert(!run_at(p, k));
            }
        }
    }
}

/// A fully present run pushes the best top at least to its own top.
pub proof fn lemma_run_at_implies_top(p: spec_fn(int) -> bool, t: int)
    requires
        5 <= t <= 14,
        run_at(p, t),
    ensures
        top_run_from(p, 14) >= t,
{
    lemma_top_run_props(p, 14);
    if top_run_from(p, 14) < t {
        assert(!run_at(p, t));
    }
}

/// A fully present run with nothing above it is exactly the best top.
pub proof fn lemma_top_run_exact(p: spec_fn(int) -> bool, t: int)
    requires
        5 <= t <= 14,
        run_at(p, t),
        forall|k: int| t < k <= 14 ==> !(#[trigger] run_at(p, k)),
    ensures
        top_run_from(p, 14) == t,
{
    lemma_run_at_implies_top(p, t);
    lemma_top_run_props(p, 14);
    if top_run_from(p, 14) > t {
        assert(!run_at(p, top_run_from(p, 14)));
    }
}

/// For hands of at most nine cards, a suit that covers five cards is the
/// only one that does, so it is the flush suit.
pub proof fn lemma_flush_suit_unique(h: Seq<Card>, su: Suit)
    requires
        h.len() <= 9,
        suit_count(h, su) >= 5,
    ensures
        has_flush(h),
        flush_suit_of(h) == su,
{
    assert(has_flush(h));
    let su2 = flush_suit_of(h);
    assert(suit_count(h, su2) >= 5);
    if su2 != su {
        lemma_two_suits_le_len(h, su, su2);
    }
}

/// A hand that holds a straight holds at least five cards: the five
/// values of the run are carried by five different cards.
pub proof fn lemma_straight_len(s: Seq<Card>)
    requires
        best_straight_top(s) >= 5,
    ensures
        s.len() >= 5,
{
    let p = hand_presence(s);
    let t = best_straight_top(s);
    lemma_top_run_props(p, 14);
    assert(run_at(p, t));
    let vals = Seq::new(
        5,
        |i: int|
            if value_count(s, t - i) > 0 {
                t - i
            } else {
                14int
            },
    );
    assert forall|i: int| 0 <= i < vals.len() implies value_count(s, #[trigger] vals[i]) > 0 by {
        assert(p(t - i));
        assert(wheel_present(s, t - i));
    }
    assert forall|i: int, j: int| 0 <= i < j < vals.len() implies vals[i] != vals[j] by {
        assert(p(t - i));
        assert(p(t - j));
        if vals[i] == 14 && vals[j] == 14 {
            assert(t - i == 1 || value_count(s, t - i) > 0);
            assert(t - j == 1 || value_count(s, t - j) > 0);
            assert(t - i != 1 || t - j != 1);
            assert(false);
        }
    }
    lemma_distinct_values_len(s, vals);
}

/// The first `n` cards of `cards`, in order.
fn take_first(cards: &Vec<Card>, n: usize) -> (r: Vec<Card>)
    requires
        n <= cards@.len(),
    ensures
        r@ == cards@.take(n as int),
{
    let mut r: Vec<Card> = Vec::new();
    let mut i: usize = 0;
    proof {
        assert(cards@.take(0) =~= Seq::<Card>::empty());
    }
    while i < n
        invariant
            i <= n <= cards@.len(),
            r@ == cards@.take(i as int),
        decreases n - i,
    {
        r.push(cards[i]);
        proof {
            assert(cards@.take(i + 1) =~= cards@.take(i as int).push(cards@[i as int]));
        }
        i += 1;
    }
    r
}

/// The cards of `pool` in descending rank-value order.
fn sort_desc_by_value(pool: Vec<Card>) -> (r: Vec<Card>)
    ensures
        r@.to_multiset() == pool@.to_multiset(),
        r@.len() == pool@.len(),
        sorted_desc(r@),
        forall|v: int| #[trigger] value_count(r@, v) == value_count(pool@, v),
{
    let ghost orig = pool@;
    let mut pool = pool;
    let mut out: Vec<Card> = Vec::new();
    while pool.len() > 0
        invariant
            out@.to_multiset().add(pool@.to_multiset()) == orig.to_multiset(),
            out@.len() + pool@.len() == orig.len(),
            sorted_desc(out@),
            forall|v: int|
                value_count(pool@, v) > 0 ==> out@.len() == 0 || v <= card_value(
                    out@[out@.len() - 1],
                ),
        decreases pool@.len(),
    {
        let ghost pre = pool@;
        let mut best: usize = 0;
        let mut k: usize = 1;
        while k < pool.len()
            invariant
                pool@.len() > 0,
                1 <= k <= pool@.len(),
                best < k,
                forall|m: int| 0 <= m < k ==> card_value(pool@[m]) <= card_value(
                    pool@[best as int],
                ),
        decreases pool@.len() - k,
        {
            if pool[k].0.value() > pool[best].0.value() {
                best = k;
            }
            k += 1;
        }
        let c = pool.remove(best);
        let ghost outpre = out@;
        out.push(c);
        proof {
            assert(pre.remove(best as int).to_multiset() == pre.to_multiset().remove(c));
            vstd::seq_lib::to_multiset_build(outpre, c);
            assert(pre.contains(c));
            assert(pre.to_multiset().count(c) > 0);
            assert forall|d: Card|
                #[trigger] out@.to_multiset().add(pool@.to_multiset()).count(d)
                    == orig.to_multiset().count(d) by {
                assert(outpre.to_multiset().add(pre.to_multiset()).count(d)
                    == orig.to_multiset().count(d));
            }
            assert(out@.to_multiset().add(pool@.to_multiset()) =~= orig.to_multiset());
            if outpre.len() > 0 {
                lemma_value_present(pre, card_value(c));
                assert(card_value(pre[best as int]) == card_value(c));
                assert(value_count(pre, card_value(c)) > 0);
                assert(card_value(c) <= card_value(outpre[outpre.len() - 1]));
            }
            assert forall|i: int, j: int|
                0 <= i <= j < out@.len() implies card_value(out@[i]) >= card_value(out@[j]) by {
                if j < out@.len() - 1 {
                    assert(card_value(outpre[i]) >= card_value(outpre[j]));
                } else if i < j {
                    assert(card_value(out@[i]) == card_value(outpre[i]));
                }
            }
            lemma_counts_remove(pre, best as int);
            assert forall|v: int|
                value_count(pool@, v) > 0 implies out@.len() == 0 || v <= card_value(
                    out@[out@.len() - 1],
                ) by {
                lemma_value_present(pool@, v);
                let m = choose|m: int| 0 <= m < pool@.len() && card_value(pool@[m]) == v;
                if m < best {
                    assert(pool@[m] == pre[m]);
                } else {
                    assert(pool@[m] == pre[m + 1]);
                }
            }
        }
    }
    proof {
        assert(pool@.to_multiset().len() == 0);
        assert forall|d: Card| #[trigger] out@.to_multiset().count(d) == orig.to_multiset().count(
            d,
        ) by {
            assert(out@.to_multiset().add(pool@.to_multiset()).count(d) == orig.to_multiset().count(
                d,
            ));
            assert(pool@.to_multiset().count(d) == 0) by {
                if pool@.to_multiset().count(d) > 0 {
                    assert(pool@.to_multiset().contains(d));
                }
            }
        }
        assert(out@.to_multiset() =~= orig.to_multiset());
        lemma_counts_multiset(out@, orig);
    }
    out
}


/// The cards of `pool` in descending grouped order: the most frequent
/// rank value first, and among equally frequent values the higher first.
fn sort_grouped(pool: Vec<Card>) -> (r: Vec<Card>)
    ensures
        r@.to_multiset() == pool@.to_multiset(),
        r@.len() == pool@.len(),
        sorted_grouped(pool@, r@),
        forall|v: int| #[trigger] value_count(r@, v) == value_count(pool@, v),
{
    let ghost orig = pool@;
    let counts = value_counts(&pool);
    let mut pool = pool;
    let mut out: Vec<Card> = Vec::new();
    while pool.len() > 0
        invariant
            counts@.len() == 15,
            forall|v: int| 0 <= v < 15 ==> counts@[v] == value_count(orig, v),
            out@.to_multiset().add(pool@.to_multiset()) == orig.to_multiset(),
            out@.len() + pool@.len() == orig.len(),
            sorted_grouped(orig, out@),
            forall|v: int|
                value_count(pool@, v) > 0 ==> out@.len() == 0 || vkey_ge(
                    orig,
                    card_value(out@[out@.len() - 1]),
                    v,
                ),
        decreases pool@.len(),
    {
        let ghost pre = pool@;
        let mut best: usize = 0;
        let mut k: usize = 1;
        while k < pool.len()
            invariant
                pool@.len() > 0,
                1 <= k <= pool@.len(),
                best < k,
                counts@.len() == 15,
                forall|v: int| 0 <= v < 15 ==> counts@[v] == value_count(orig, v),
                forall|m: int|
                    0 <= m < k ==> vkey_ge(orig, card_value(pool@[best as int]), card_value(
                        pool@[m],
                    )),
            decreases pool@.len() - k,
        {
            let va = pool[k].0.value();
            let vb = pool[best].0.value();
            let ca = counts[va as usize];
            let cb = counts[vb as usize];
            if ca > cb || (ca == cb && va > vb) {
                best = k;
            }
            k += 1;
        }
        let c = pool.remove(best);
        let ghost outpre = out@;
        out.push(c);
        proof {
            assert(pre.remove(best as int).to_multiset() == pre.to_multiset().remove(c));
            assert(pre.contains(c));
            assert(pre.to_multiset().count(c) > 0);
            assert forall|d: Card|
                #[trigger] out@.to_multiset().add(pool@.to_multiset()).count(d)
                    == orig.to_multiset().count(d) by {
                assert(outpre.to_multiset().add(pre.to_multiset()).count(d)
                    == orig.to_multiset().count(d));
            }
            assert(out@.to_multiset().add(pool@.to_multiset()) =~= orig.to_multiset());
            if outpre.len() > 0 {
                lemma_value_present(pre, card_value(c));
                assert(card_value(pre[best as int]) == card_value(c));
                assert(value_count(pre, card_value(c)) > 0);
                assert(vkey_ge(orig, card_value(outpre[outpre.len() - 1]), card_value(c)));
            }
            assert forall|i: int, j: int|
                0 <= i <= j < out@.len() implies vkey_ge(
                orig,
                card_value(out@[i]),
                card_value(out@[j]),
            ) by {
                if j < out@.len() - 1 {
                    assert(vkey_ge(orig, card_value(outpre[i]), card_value(outpre[j])));
                } else if i < j {
                    assert(vkey_ge(orig, card_value(outpre[i]), card_value(
                        outpre[outpre.len() - 1],
                    )));
                }
            }
            lemma_counts_remove(pre, best as int);
            assert forall|v: int|
                value_count(pool@, v) > 0 implies out@.len() == 0 || vkey_ge(
                orig,
                card_value(out@[out@.len() - 1]),
                v,
            ) by {
                lemma_value_present(pool@, v);
                let m = choose|m: int| 0 <= m < pool@.len() && card_value(pool@[m]) == v;
                if m < best {
                    assert(pool@[m] == pre[m]);
                } else {
                    assert(pool@[m] == pre[m + 1]);
                }
            }
        }
    }
    proof {
        assert(pool@.to_multiset().len() == 0);
        assert forall|d: Card| #[trigger] out@.to_multiset().count(d) == orig.to_multiset().count(
            d,
        ) by {
            assert(out@.to_multiset().add(pool@.to_multiset()).count(d) == orig.to_multiset().count(
                d,
            ));
            assert(pool@.to_multiset().count(d) == 0) by {
                if pool@.to_multiset().count(d) > 0 {
                    assert(pool@.to_multiset().contains(d));
                }
            }
        }
        assert(out@.to_multiset() =~= orig.to_multiset());
        lemma_counts_multiset(out@, orig);
    }
    out
}


/// A card of `cards` that carries rank value `v`; the counts guarantee
/// one exists.
fn find_value(cards: &Vec<Card>, v: u8) -> (c: Card)
    requires
        value_count(cards@, v as int) > 0,
    ensures
        cards@.contains(c),
        card_value(c) == v as int,
{
    let mut i: usize = 0;
    while i < cards.len()
        invariant
            i <= cards@.len(),
            forall|j: int| 0 <= j < i ==> card_value(cards@[j]) != v as int,
            value_count(cards@, v as int) > 0,
        decreases cards@.len() - i,
    {
        if cards[i].0.value() == v {
            let c = cards[i];
            proof {
                assert(cards@[i as int] == c);
            }
            return c;
        }
        i += 1;
    }
    proof {
        lemma_value_present(cards@, v as int);
        assert(false);
    }
    vstd::pervasive::unreached()
}

/// The five cards of the straight ending at `t`, highest value first.
/// The ghost result names the card of `cards` standing behind each
/// position: the card itself, except that a wheel closes with an
/// `AceLow` copy of the `AceHigh` card that supplied it.
fn build_run(cards: &Vec<Card>, t: u8) -> (res: (Vec<Card>, Ghost<Seq<Card>>))
    requires
        5 <= t <= 14,
        run_at(hand_presence(cards@), t as int),
    ensures
        straight_pick_ok(cards@, res.0@, res.1@, t as int),
        forall|i: int| 0 <= i < 5 ==> cards@.contains(#[trigger] res.1@[i]),
{
    let ghost s = cards@;
    let mut r: Vec<Card> = Vec::new();
    let ghost mut w: Seq<Card> = Seq::empty();
    let mut i: usize = 0;
    while i < 5
        invariant
            i <= 5,
            r@.len() == i,
            w.len() == i,
            s == cards@,
            5 <= t <= 14,
            run_at(hand_presence(s), t as int),
            forall|j: int| 0 <= j < i ==> card_value(#[trigger] r@[j]) == t - j,
            forall|j: int| 0 <= j < i ==> s.contains(#[trigger] w[j]),
            forall|j: int|
                0 <= j < i ==> (#[trigger] r@[j] == w[j] || (r@[j].0 == Name::AceLow && w[j].0
                    == Name::AceHigh && w[j].1 == r@[j].1)),
            forall|j: int|
                0 <= j < i ==> card_value(#[trigger] w[j]) == t - j || (card_value(w[j]) == 14 && t
                    - j == 1),
        decreases 5 - i,
    {
        let k = t - (i as u8);
        proof {
            assert(hand_presence(s)(k as int));
            assert(wheel_present(s, k as int));
        }
        if value_count_positive(cards, k) {
            let c = find_value(cards, k);
            r.push(c);
            proof {
                w = w.push(c);
            }
        } else {
            proof {
                assert(k == 1 && value_count(s, 14) > 0);
            }
            let a = find_value(cards, 14);
            r.push(Card(Name::AceLow, a.1));
            proof {
                w = w.push(a);
            }
        }
        i += 1;
    }
    proof {
        assert forall|a: int, b: int|
            0 <= a < b < w.len() implies card_value(w[a]) != card_value(w[b]) by {
            assert(card_value(w[a]) == t - a || (card_value(w[a]) == 14 && t - a == 1));
            assert(card_value(w[b]) == t - b || (card_value(w[b]) == 14 && t - b == 1));
        }
        crate::counts::lemma_distinct_members_within(w, s);
    }
    (r, Ghost(w))
}

/// Whether any card of `cards` carries rank value `v`.
fn value_count_positive(cards: &Vec<Card>, v: u8) -> (b: bool)
    ensures
        b == (value_count(cards@, v as int) > 0),
{
    let mut i: usize = 0;
    while i < cards.len()
        invariant
            i <= cards@.len(),
            forall|j: int| 0 <= j < i ==> card_value(cards@[j]) != v as int,
        decreases cards@.len() - i,
    {
        if cards[i].0.value() == v {
            proof {
                lemma_value_present(cards@, v as int);
                assert(card_value(cards@[i as int]) == v as int);
            }
            return true;
        }
        i += 1;
    }
    proof {
        lemma_value_present(cards@, v as int);
    }
    false
}


/// The cards of `cards` that carry rank value `v`, in order.
fn filter_value(cards: &Vec<Card>, v: u8) -> (r: Vec<Card>)
    ensures
        forall|i: int| 0 <= i < r@.len() ==> card_value(#[trigger] r@[i]) == v as int,
        r@.len() == value_count(cards@, v as int),
        forall|c: Card| #[trigger] r@.to_multiset().count(c) == if card_value(c) == v as int {
            cards@.to_multiset().count(c)
        } else {
            0nat
        },
        within(r@, cards@),
{
    let mut r: Vec<Card> = Vec::new();
    let mut i: usize = 0;
    proof {
        assert(cards@.take(0) =~= Seq::<Card>::empty());
    }
    while i < cards.len()
        invariant
            i <= cards@.len(),
            forall|j: int| 0 <= j < r@.len() ==> card_value(#[trigger] r@[j]) == v as int,
            r@.len() == value_count(cards@.take(i as int), v as int),
            forall|c: Card| #[trigger] r@.to_multiset().count(c) == if card_value(c) == v as int {
                cards@.take(i as int).to_multiset().count(c)
            } else {
                0nat
            },
        decreases cards@.len() - i,
    {
        let ghost pre = cards@.take(i as int);
        let ghost rpre = r@;
        let c = cards[i];
        proof {
            assert(cards@.take(i + 1) =~= pre.push(c));
        }
        if c.0.value() == v {
            r.push(c);
        }
        proof {
            assert forall|d: Card|
                #[trigger] r@.to_multiset().count(d) == (if card_value(d) == v as int {
                    cards@.take(i + 1).to_multiset().count(d)
                } else {
                    0nat
                }) by {
                assert(rpre.to_multiset().count(d) == if card_value(d) == v as int {
                    pre.to_multiset().count(d)
                } else {
                    0nat
                });
                assert(cards@.take(i + 1).to_multiset() == pre.to_multiset().insert(c));
                if card_value(c) == v as int {
                    assert(r@.to_multiset() == rpre.to_multiset().insert(c));
                }
            }
        }
        i += 1;
    }
    proof {
        assert(cards@.take(cards@.len() as int) =~= cards@);
    }
    r
}

/// What `best_trip_from` returns: 0 with no triple at or below `t0`, or
/// the highest value carried by exactly three cards.
pub proof fn lemma_best_trip_props(h: Seq<Card>, t0: int)
    ensures
        best_trip_from(h, t0) == 0 || (1 <= best_trip_from(h, t0) <= t0 && value_count(
            h,
            best_trip_from(h, t0),
        ) == 3),
        forall|v: int|
            best_trip_from(h, t0) < v <= t0 ==> #[trigger] value_count(h, v) != 3,
    decreases (if t0 < 1 {
        0int
    } else {
        t0
    }),
{
    if t0 < 1 {
    } else if value_count(h, t0) == 3 {
    } else {
        lemma_best_trip_props(h, t0 - 1);
        assert(best_trip_from(h, t0) == best_trip_from(h, t0 - 1));
    }
}

/// What `best_pair_from` returns: 0 with no qualifying pair at or below
/// `t0`, or the highest value other than `excl` carried by at least two
/// cards.
pub proof fn lemma_best_pair_props(h: Seq<Card>, excl: int, t0: int)
    ensures
        best_pair_from(h, excl, t0) == 0 || (1 <= best_pair_from(h, excl, t0) <= t0
            && best_pair_from(h, excl, t0) != excl && value_count(h, best_pair_from(h, excl, t0))
            >= 2),
        forall|v: int|
            best_pair_from(h, excl, t0) < v <= t0 && v != excl ==> #[trigger] value_count(h, v)
                < 2,
    decreases (if t0 < 1 {
        0int
    } else {
        t0
    }),
{
    if t0 < 1 {
    } else if t0 != excl && value_count(h, t0) >= 2 {
    } else {
        lemma_best_pair_props(h, excl, t0 - 1);
        assert(best_pair_from(h, excl, t0) == best_pair_from(h, excl, t0 - 1));
    }
}

/// The highest rank value carried by exactly three cards of the hand
/// behind `counts`, or 0 when there is none.
fn best_trip_exec(counts: &Vec<usize>, Ghost(h): Ghost<Seq<Card>>) -> (n: u8)
    requires
        counts@.len() == 15,
        forall|v: int| 0 <= v < 15 ==> counts@[v] == value_count(h, v),
    ensures
        n as int == best_trip_value(h),
{
    let mut t: u8 = 14;
    loop
        invariant
            1 <= t <= 14,
            counts@.len() == 15,
            forall|v: int| 0 <= v < 15 ==> counts@[v] == value_count(h, v),
            best_trip_value(h) == best_trip_from(h, t as int),
        decreases t,
    {
        if counts[t as usize] == 3 {
            proof {
                assert(best_trip_from(h, t as int) == t as int);
            }
            return t;
        }
        proof {
            assert(best_trip_from(h, t as int) == best_trip_from(h, t - 1 as int));
        }
        if t == 1 {
            proof {
                assert(best_trip_from(h, 0) == 0);
            }
            return 0;
        }
        t -= 1;
    }
}

/// The highest rank value other than `excl` carried by at least two
/// cards of the hand behind `counts`, or 0 when there is none.
fn best_pair_exec(counts: &Vec<usize>, excl: u8, Ghost(h): Ghost<Seq<Card>>) -> (m: u8)
    requires
        counts@.len() == 15,
        forall|v: int| 0 <= v < 15 ==> counts@[v] == value_count(h, v),
    ensures
        m as int == best_pair_value(h, excl as int),
{
    let mut t: u8 = 14;
    loop
        invariant
            1 <= t <= 14,
            counts@.len() == 15,
            forall|v: int| 0 <= v < 15 ==> counts@[v] == value_count(h, v),
            best_pair_value(h, excl as int) == best_pair_from(h, excl as int, t as int),
        decreases t,
    {
        if t != excl && counts[t as usize] >= 2 {
            proof {
                assert(best_pair_from(h, excl as int, t as int) == t as int);
            }
            return t;
        }
        proof {
            assert(best_pair_from(h, excl as int, t as int) == best_pair_from(
                h,
                excl as int,
                t - 1 as int,
            ));
        }
        if t == 1 {
            proof {
                assert(best_pair_from(h, excl as int, 0) == 0);
            }
            return 0;
        }
        t -= 1;
    }
}

/// Up to five of the highest-valued cards of `pool`, in descending
/// order.
fn top_by_value(pool: &Vec<Card>) -> (r: Vec<Card>)
    ensures
        top_of(
            pool@,
            r@,
            if pool@.len() < 5 {
                pool@.len() as int
            } else {
                5int
            },
        ),
{
    let owned = take_first(pool, pool.len());
    proof {
        assert(pool@.take(pool@.len() as int) =~= pool@);
    }
    let sorted = sort_desc_by_value(owned);
    let n = if sorted.len() < 5 {
        sorted.len()
    } else {
        5
    };
    let r = take_first(&sorted, n);
    proof {
        crate::counts::lemma_take_skip_counts(sorted@, n as int);
        assert(within(r@, pool@)) by {
            assert forall|c: Card|
                #[trigger] r@.to_multiset().count(c) <= pool@.to_multiset().count(c) by {
                assert(sorted@.to_multiset().count(c) == pool@.to_multiset().count(c));
            }
        }
        assert forall|v: int|
            #[trigger] value_count(pool@, v) > value_count(r@, v) implies n > 0 && v <= card_value(
            r@[n - 1],
        ) by {
            assert(value_count(sorted@, v) == value_count(r@, v) + value_count(
                sorted@.skip(n as int),
                v,
            ));
            lemma_value_present(sorted@.skip(n as int), v);
            let j = choose|j: int|
                0 <= j < sorted@.skip(n as int).len() && card_value(sorted@.skip(n as int)[j])
                    == v;
            assert(sorted@.skip(n as int)[j] == sorted@[n + j]);
            assert(card_value(sorted@[n as int - 1]) >= card_value(sorted@[n + j]));
            assert(r@[n - 1] == sorted@[n - 1]);
        }
    }
    r
}


/// Up to five cards of `pool` that come first in its grouped order:
/// paired cards first, then higher values.
fn best_grouped_take(pool: &Vec<Card>) -> (r: Vec<Card>)
    ensures
        grouped_top_of(
            pool@,
            pool@,
            r@,
            if pool@.len() < 5 {
                pool@.len() as int
            } else {
                5int
            },
        ),
{
    let owned = take_first(pool, pool.len());
    proof {
        assert(pool@.take(pool@.len() as int) =~= pool@);
    }
    let sorted = sort_grouped(owned);
    let n = if sorted.len() < 5 {
        sorted.len()
    } else {
        5
    };
    let r = take_first(&sorted, n);
    proof {
        crate::counts::lemma_take_skip_counts(sorted@, n as int);
        assert(within(r@, pool@)) by {
            assert forall|c: Card|
                #[trigger] r@.to_multiset().count(c) <= pool@.to_multiset().count(c) by {
                assert(sorted@.to_multiset().count(c) == pool@.to_multiset().count(c));
            }
        }
        assert forall|v: int|
            #[trigger] value_count(pool@, v) > value_count(r@, v) implies n > 0 && vkey_ge(
            pool@,
            card_value(r@[n - 1]),
            v,
        ) by {
            assert(value_count(sorted@, v) == value_count(r@, v) + value_count(
                sorted@.skip(n as int),
                v,
            ));
            lemma_value_present(sorted@.skip(n as int), v);
            let j = choose|j: int|
                0 <= j < sorted@.skip(n as int).len() && card_value(sorted@.skip(n as int)[j])
                    == v;
            assert(sorted@.skip(n as int)[j] == sorted@[n + j]);
            assert(vkey_ge(pool@, card_value(sorted@[n as int - 1]), card_value(sorted@[n + j])));
            assert(r@[n - 1] == sorted@[n - 1]);
        }
    }
    r
}

/// The four cards of the defining groups, and the highest-valued
/// remaining card as the kicker when the hand has a fifth card.
fn best_four_two(hand: &Vec<Card>) -> (r: Vec<Card>)
    requires
        hand@.len() >= 4,
    ensures
        four_two_ok(hand@, r@),
{
    let ghost h = hand@;
    let owned = take_first(hand, hand.len());
    proof {
        assert(h.take(h.len() as int) =~= h);
    }
    let sorted = sort_grouped(owned);
    let four = take_first(&sorted, 4);
    proof {
        crate::counts::lemma_take_skip_counts(sorted@, 4);
        assert(within(four@, h)) by {
            assert forall|c: Card|
                #[trigger] four@.to_multiset().count(c) <= h.to_multiset().count(c) by {
                assert(sorted@.to_multiset().count(c) == h.to_multiset().count(c));
            }
        }
        assert forall|v: int|
            #[trigger] value_count(h, v) > value_count(four@, v) implies vkey_ge(
            h,
            card_value(four@[3]),
            v,
        ) by {
            assert(value_count(sorted@, v) == value_count(four@, v) + value_count(
                sorted@.skip(4),
                v,
            ));
            lemma_value_present(sorted@.skip(4), v);
            let j = choose|j: int|
                0 <= j < sorted@.skip(4).len() && card_value(sorted@.skip(4)[j]) == v;
            assert(sorted@.skip(4)[j] == sorted@[4 + j]);
            assert(vkey_ge(h, card_value(sorted@[3]), card_value(sorted@[4 + j])));
            assert(four@[3] == sorted@[3]);
        }
        assert(grouped_top_of(h, h, four@, 4));
    }
    let ghost fourseq = four@;
    let mut r = four;
    if sorted.len() > 4 {
        let mut best: usize = 4;
        let mut k: usize = 5;
        while k < sorted.len()
            invariant
                sorted@.len() > 4,
                4 <= best < k <= sorted@.len(),
                forall|m: int| 4 <= m < k ==> card_value(sorted@[m]) <= card_value(
                    sorted@[best as int],
                ),
            decreases sorted@.len() - k,
        {
            if sorted[k].0.value() > sorted[best].0.value() {
                best = k;
            }
            k += 1;
        }
        let kick = sorted[best];
        r.push(kick);
        proof {
            assert(r@ == fourseq.push(kick));
            assert(r@.take(4) =~= fourseq);
            crate::counts::lemma_take_skip_counts(sorted@, 4);
            assert(sorted@.skip(4)[best - 4] == kick);
            assert(sorted@.skip(4).contains(kick));
            assert(sorted@.skip(4).to_multiset().count(kick) > 0);
            assert forall|c: Card|
                #[trigger] r@.to_multiset().count(c) <= h.to_multiset().count(c) by {
                assert(r@.to_multiset() == fourseq.to_multiset().insert(kick));
                assert(sorted@.to_multiset().count(c) == h.to_multiset().count(c));
                assert(fourseq.to_multiset().count(c) + sorted@.skip(4).to_multiset().count(c)
                    == h.to_multiset().count(c));
            }
            assert forall|v: int|
                #[trigger] value_count(h, v) > value_count(r@.take(4), v) implies v <= card_value(
                r@[4],
            ) by {
                assert(value_count(sorted@, v) == value_count(fourseq, v) + value_count(
                    sorted@.skip(4),
                    v,
                ));
                lemma_value_present(sorted@.skip(4), v);
                let j = choose|j: int|
                    0 <= j < sorted@.skip(4).len() && card_value(sorted@.skip(4)[j]) == v;
                assert(sorted@.skip(4)[j] == sorted@[4 + j]);
                assert(card_value(sorted@[4 + j]) <= card_value(sorted@[best as int]));
                assert(r@[4] == kick);
            }
        }
    } else {
        proof {
            assert(h.len() == 4);
            assert(r@.take(4) =~= fourseq);
        }
    }
    r
}

/// The best full house: the three cards of the highest triple, then two
/// cards of the highest other value that forms a pair.
fn best_full_house(hand: &Vec<Card>) -> (r: Vec<Card>)
    requires
        1 <= best_trip_value(hand@),
        1 <= best_pair_value(hand@, best_trip_value(hand@)),
    ensures
        full_house_ok(hand@, r@),
{
    let ghost h = hand@;
    let counts = value_counts(hand);
    let n = best_trip_exec(&counts, Ghost(h));
    let m = best_pair_exec(&counts, n, Ghost(h));
    proof {
        lemma_best_trip_props(h, 14);
        lemma_best_pair_props(h, n as int, 14);
        assert(value_count(h, n as int) == 3);
        assert(value_count(h, m as int) >= 2);
        assert(m as int != n as int);
    }
    let trip = filter_value(hand, n);
    let pairs = filter_value(hand, m);
    let ghost tripseq = trip@;
    let ghost pairseq = pairs@;
    let p0 = pairs[0];
    let p1 = pairs[1];
    let mut r = trip;
    r.push(p0);
    r.push(p1);
    proof {
        assert(r@ =~= tripseq + pairseq.take(2));
        vstd::seq_lib::lemma_multiset_commutative(tripseq, pairseq.take(2));
        crate::counts::lemma_take_skip_counts(pairseq, 2);
        assert forall|c: Card|
            #[trigger] r@.to_multiset().count(c) <= h.to_multiset().count(c) by {
            assert(r@.to_multiset().count(c) == tripseq.to_multiset().count(c)
                + pairseq.take(2).to_multiset().count(c));
            assert(tripseq.to_multiset().count(c) == if card_value(c) == n as int {
                h.to_multiset().count(c)
            } else {
                0nat
            });
            assert(pairseq.to_multiset().count(c) == if card_value(c) == m as int {
                h.to_multiset().count(c)
            } else {
                0nat
            });
            assert(pairseq.take(2).to_multiset().count(c) <= pairseq.to_multiset().count(c));
        }
        assert(r@[3] == p0 && r@[4] == p1);
        assert(card_value(p0) == m as int && card_value(p1) == m as int);
        assert forall|i: int| 0 <= i < 3 implies card_value(#[trigger] r@[i]) == best_trip_value(
            h,
        ) by {
            assert(r@[i] == tripseq[i]);
        }
    }
    r
}


/// The five highest cards of the flush suit, in descending order.
fn best_flush_cards(hand: &Vec<Card>) -> (r: Vec<Card>)
    requires
        hand@.len() <= 9,
        has_flush(hand@),
    ensures
        flush_pick_ok(hand@, r@),
{
    let ghost h = hand@;
    proof {
        let fsu = flush_suit_of(h);
        assert(suit_count(h, fsu) >= 5);
        lemma_counts_le_len(h);
        assert(h.len() >= 5);
    }
    let su = match mode_suit(hand) {
        Some(su) => su,
        None => vstd::pervasive::unreached(),
    };
    proof {
        assert(suit_count(h, su) >= suit_count(h, flush_suit_of(h)));
        lemma_flush_suit_unique(h, su);
    }
    let f = filter_suit(hand, su);
    let ghost fs = f@;
    let sorted = sort_desc_by_value(f);
    let r = take_first(&sorted, 5);
    proof {
        crate::counts::lemma_take_skip_counts(sorted@, 5);
        assert forall|i: int| 0 <= i < 5 implies (#[trigger] r@[i]).1 == su by {
            assert(r@[i] == sorted@[i]);
            assert(sorted@.contains(sorted@[i]));
            assert(sorted@.to_multiset().count(sorted@[i]) > 0);
            assert(fs.to_multiset().count(sorted@[i]) > 0);
            assert(fs.contains(sorted@[i]));
            let j = choose|j: int| 0 <= j < fs.len() && fs[j] == sorted@[i];
            assert(fs[j].1 == su);
        }
        assert forall|c: Card|
            #[trigger] r@.to_multiset().count(c) <= h.to_multiset().count(c) by {
            assert(sorted@.to_multiset().count(c) == fs.to_multiset().count(c));
            assert(fs.to_multiset().count(c) <= h.to_multiset().count(c));
        }
        assert forall|v: int|
            #[trigger] suited_value_count(h, su, v) > value_count(r@, v) implies v <= card_value(
            r@[4],
        ) by {
            assert(value_count(fs, v) == suited_value_count(h, su, v));
            assert(value_count(sorted@, v) == value_count(fs, v));
            assert(value_count(sorted@, v) == value_count(r@, v) + value_count(sorted@.skip(5), v));
            lemma_value_present(sorted@.skip(5), v);
            let j = choose|j: int|
                0 <= j < sorted@.skip(5).len() && card_value(sorted@.skip(5)[j]) == v;
            assert(sorted@.skip(5)[j] == sorted@[5 + j]);
            assert(card_value(sorted@[4]) >= card_value(sorted@[5 + j]));
            assert(r@[4] == sorted@[4]);
        }
    }
    r
}

/// The five cards of the best straight of the whole hand.
fn best_straight_cards(hand: &Vec<Card>) -> (r: Vec<Card>)
    requires
        has_straight(hand@),
    ensures
        straight_hand_ok(hand@, r@),
{
    let ghost h = hand@;
    proof {
        lemma_top_run_props(hand_presence(h), 14);
    }
    let t = straight_top(hand);
    let (r, w) = build_run(hand, t);
    proof {
        assert(straight_pick_ok(h, r@, w@, best_straight_top(h)));
    }
    r
}

/// The five cards of the best straight within the flush suit.
fn best_straight_flush_cards(hand: &Vec<Card>) -> (r: Vec<Card>)
    requires
        hand@.len() <= 9,
        has_flush(hand@),
        suited_straight_top(hand@, flush_suit_of(hand@)) >= 5,
    ensures
        straight_flush_ok(hand@, r@),
{
    let ghost h = hand@;
    proof {
        let fsu = flush_suit_of(h);
        assert(suit_count(h, fsu) >= 5);
        lemma_counts_le_len(h);
        assert(h.len() >= 5);
    }
    let su = match mode_suit(hand) {
        Some(su) => su,
        None => vstd::pervasive::unreached(),
    };
    proof {
        assert(suit_count(h, su) >= suit_count(h, flush_suit_of(h)));
        lemma_flush_suit_unique(h, su);
    }
    let f = filter_suit(hand, su);
    proof {
        assert forall|v: int| #[trigger] hand_presence(f@)(v) == suited_presence(h, su)(v) by {
            assert(value_count(f@, v) == suited_value_count(h, su, v));
            assert(value_count(f@, 14) == suited_value_count(h, su, 14));
        }
        assert(hand_presence(f@) =~= suited_presence(h, su));
        assert(best_straight_top(f@) == suited_straight_top(h, su));
        lemma_top_run_props(hand_presence(f@), 14);
    }
    let t = straight_top(&f);
    let (r, w) = build_run(&f, t);
    proof {
        let ws = w@;
        assert forall|i: int| 0 <= i < 5 implies (#[trigger] ws[i]).1 == su by {
            assert(f@.contains(ws[i]));
            let j = choose|j: int| 0 <= j < f@.len() && f@[j] == ws[i];
            assert(f@[j].1 == su);
        }
        assert forall|c: Card|
            #[trigger] ws.to_multiset().count(c) <= h.to_multiset().count(c) by {
            assert(ws.to_multiset().count(c) <= f@.to_multiset().count(c));
            assert(f@.to_multiset().count(c) <= h.to_multiset().count(c));
        }
        assert(straight_pick_ok(h, r@, ws, suited_straight_top(h, su)));
        assert forall|i: int| 0 <= i < 5 implies (#[trigger] r@[i]).1 == su by {
            assert(r@[i] == ws[i] || (r@[i].0 == Name::AceLow && ws[i].0 == Name::AceHigh
                && ws[i].1 == r@[i].1));
        }
    }
    r
}

/// The best five cards of a hand already classified as `rank`, ordered
/// for card-by-card tie-breaking: the defining groups first, then the
/// kickers, each part in descending strength. A four-card hand of two
/// pair or four of a kind yields its four cards.
pub fn calc_best_hand(hand: &Vec<Card>, rank: Rank) -> (r: Vec<Card>)
    requires
        hand@.len() <= 8,
        rank == spec_classify(hand@),
    ensures
        best_hand_ok(hand@, rank, r@),
{
    let ghost h = hand@;
    match rank {
        Rank::HighCard => top_by_value(hand),
        Rank::OnePair | Rank::ThreeOfKind => best_grouped_take(hand),
        Rank::TwoPair | Rank::FourOfKind => {
            proof {
                lemma_counts_le_len(h);
                if rank == Rank::FourOfKind {
                    assert(has_quad(h));
                    let v = choose|v: int| #[trigger] value_count(h, v) == 4;
                    assert(value_count(h, v) <= h.len());
                } else {
                    assert(has_two_pair(h));
                    let (v, w0) = choose|v: int, w0: int|
                        v != w0 && #[trigger] value_count(h, v) == 2 && #[trigger] value_count(
                            h,
                            w0,
                        ) == 2;
                    crate::counts::lemma_two_values_le_len(h, v, w0);
                }
            }
            best_four_two(hand)
        },
        Rank::FullHouse => {
            proof {
                assert(has_full_house(h));
                assert(!has_quad(h));
                let (v, w0) = choose|v: int, w0: int|
                    v != w0 && #[trigger] value_count(h, v) == 3 && (#[trigger] value_count(h, w0)
                        == 2 || value_count(h, w0) == 3);
                lemma_value_count_range(h);
                assert(1 <= v <= 14);
                lemma_best_trip_props(h, 14);
                let n = best_trip_value(h);
                if n == 0 {
                    assert(value_count(h, v) != 3);
                }
                let q: int = if w0 != n {
                    w0
                } else {
                    v
                };
                assert(q != n && value_count(h, q) >= 2);
                assert(1 <= q <= 14);
                lemma_best_pair_props(h, n, 14);
                let m = best_pair_value(h, n);
                if m == 0 {
                    assert(value_count(h, q) < 2);
                }
            }
            best_full_house(hand)
        },
        Rank::Straight => best_straight_cards(hand),
        Rank::Flush | Rank::RoyalFlush => best_flush_cards(hand),
        Rank::StraightFlush => best_straight_flush_cards(hand),
    }
}

} // verus!
