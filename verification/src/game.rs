//! The table: a deck, two hands and the community cards, with the
//! dealing phases of seven card stud and Texas hold'em, and the showdown
//! that ranks both hands and compares them.

use vstd::prelude::*;
use core::cmp::Ordering;
use rand::seq::SliceRandom;
use crate::card::{Card, Name, Suit, card_value};
use crate::calc::{Rank, rank_order, spec_classify, best_hand_ok, calc_rank, calc_best_hand};

verus! {

/// The phases of a round, in the order a game steps through them.
pub enum Phase {
    Clean,
    DealStud,
    DealTexas,
    Flop,
    Turn,
    River,
    Winner,
}

/// The table state: the remaining deck, the two hands, and the shared
/// community cards.
pub struct Game {
    pub deck: Vec<Card>,
    pub player: Vec<Card>,
    pub computer: Vec<Card>,
    pub community: Vec<Card>,
}

/// The rank name of numeric strength `v`, for 2 through 14.
pub open spec fn spec_name_of(v: int) -> Name {
    if v == 2 {
        Name::Two
    } else if v == 3 {
        Name::Three
    } else if v == 4 {
        Name::Four
    } else if v == 5 {
        Name::Five
    } else if v == 6 {
        Name::Six
    } else if v == 7 {
        Name::Seven
    } else if v == 8 {
        Name::Eight
    } else if v == 9 {
        Name::Nine
    } else if v == 10 {
        Name::Ten
    } else if v == 11 {
        Name::Jack
    } else if v == 12 {
        Name::Queen
    } else {
        if v == 13 {
            Name::King
        } else {
            Name::AceHigh
        }
    }
}

/// The card at position `i` of a fresh deck: thirteen hearts first, from
/// `Two` up to `AceHigh`, then diamonds, spades and clubs alike.
pub open spec fn spec_deck_card(i: int) -> Card {
    if i < 13 {
        Card(spec_name_of(i + 2), Suit::Hearts)
    } else if i < 26 {
        Card(spec_name_of(i - 13 + 2), Suit::Diamonds)
    } else if i < 39 {
        Card(spec_name_of(i - 26 + 2), Suit::Spades)
    } else {
        Card(spec_name_of(i - 39 + 2), Suit::Clubs)
    }
}

/// The suit of deck block `k`: hearts, diamonds, spades, clubs in turn.
pub open spec fn spec_suit_of(k: int) -> Suit {
    if k == 0 {
        Suit::Hearts
    } else if k == 1 {
        Suit::Diamonds
    } else if k == 2 {
        Suit::Spades
    } else {
        Suit::Clubs
    }
}

/// The suit of deck block `k`, as an executable value.
fn suit_of_index(k: usize) -> (s: Suit)
    requires
        k < 4,
    ensures
        s == spec_suit_of(k as int),
{
    match k {
        0 => Suit::Hearts,
        1 => Suit::Diamonds,
        2 => Suit::Spades,
        _ => Suit::Clubs,
    }
}

/// The rank name of numeric strength `v`, as an executable value.
fn name_of_value(v: u8) -> (n: Name)
    requires
        2 <= v <= 14,
    ensures
        n == spec_name_of(v as int),
{
    match v {
        2 => Name::Two,
        3 => Name::Three,
        4 => Name::Four,
        5 => Name::Five,
        6 => Name::Six,
        7 => Name::Seven,
        8 => Name::Eight,
        9 => Name::Nine,
        10 => Name::Ten,
        11 => Name::Jack,
        12 => Name::Queen,
        13 => Name::King,
        _ => Name::AceHigh,
    }
}

/// A fresh 52-card deck in suit order: every rank of hearts, diamonds,
/// spades and clubs in turn.
pub fn build_deck() -> (deck: Vec<Card>)
    ensures
        deck@.len() == 52,
        forall|i: int| 0 <= i < 52 ==> deck@[i] == spec_deck_card(i),
{
    let mut deck: Vec<Card> = Vec::new();
    let mut si: usize = 0;
    while si < 4
        invariant
            si <= 4,
            deck@.len() == 13 * si,
            forall|i: int| 0 <= i < deck@.len() ==> deck@[i] == spec_deck_card(i),
        decreases 4 - si,
    {
        let suit = suit_of_index(si);
        let mut v: u8 = 2;
        while v <= 14
            invariant
                si < 4,
                suit == spec_suit_of(si as int),
                2 <= v <= 15,
                deck@.len() == 13 * si + (v - 2),
                forall|i: int| 0 <= i < deck@.len() ==> deck@[i] == spec_deck_card(i),
            decreases 15 - v,
        {
            let c = Card(name_of_value(v), suit);
            deck.push(c);
            proof {
                let i0 = deck@.len() - 1;
                if si == 0 {
                    assert(deck@[i0] == spec_deck_card(i0));
                } else if si == 1 {
                    assert(deck@[i0] == spec_deck_card(i0));
                } else if si == 2 {
                    assert(deck@[i0] == spec_deck_card(i0));
                } else {
                    assert(deck@[i0] == spec_deck_card(i0));
                }
            }
            v += 1;
        }
        si += 1;
    }
    deck
}

/// Relies on rand's `SliceRandom::shuffle` with `thread_rng`: a
/// Fisher-Yates shuffle that only swaps elements in place, so the deck
/// afterwards holds exactly the cards it held before, in some order.
#[verifier::external_body]
fn shuffle_cards(cards: &mut Vec<Card>)
    ensures
        final(cards)@.to_multiset() == old(cards)@.to_multiset(),
        final(cards)@.len() == old(cards)@.len(),
{
    cards.as_mut_slice().shuffle(&mut rand::thread_rng());
}

/// The card-by-card comparison of two best hands of equal rank: the
/// first position whose cards differ in value decides, and two hands
/// equal at every shared position tie.
pub open spec fn seq_cmp_values(p: Seq<Card>, c: Seq<Card>) -> Ordering
    decreases p.len(),
{
    if p.len() == 0 || c.len() == 0 {
        Ordering::Equal
    } else if card_value(p[0]) > card_value(c[0]) {
        Ordering::Greater
    } else if card_value(p[0]) < card_value(c[0]) {
        Ordering::Less
    } else {
        seq_cmp_values(p.drop_first(), c.drop_first())
    }
}

/// The outcome of a showdown: each side's classification and best hand,
/// and the comparison that decides the round, `Greater` when the player
/// wins.
pub struct Showdown {
    pub player_rank: Rank,
    pub player_best: Vec<Card>,
    pub computer_rank: Rank,
    pub computer_best: Vec<Card>,
    pub outcome: Ordering,
}

/// The cards of `a` followed by the cards of `b`.
fn concat_cards(a: &Vec<Card>, b: &Vec<Card>) -> (r: Vec<Card>)
    ensures
        r@ == a@ + b@,
{
    let mut r: Vec<Card> = Vec::new();
    let mut i: usize = 0;
    while i < a.len()
        invariant
            i <= a@.len(),
            r@ == a@.take(i as int),
        decreases a@.len() - i,
    {
        r.push(a[i]);
        proof {
            assert(a@.take(i + 1) =~= a@.take(i as int).push(a@[i as int]));
        }
        i += 1;
    }
    proof {
        assert(a@.take(a@.len() as int) =~= a@);
    }
    let mut j: usize = 0;
    while j < b.len()
        invariant
            j <= b@.len(),
            r@ == a@ + b@.take(j as int),
        decreases b@.len() - j,
    {
        r.push(b[j]);
        proof {
            assert(a@ + b@.take(j + 1) =~= (a@ + b@.take(j as int)).push(b@[j as int]));
        }
        j += 1;
    }
    proof {
        assert(a@ + b@.take(b@.len() as int) =~= a@ + b@);
    }
    r
}

impl Game {
    /// A fresh table: a full deck in suit order and no cards dealt.
    pub fn new() -> (g: Game)
        ensures
            g.deck@.len() == 52,
            forall|i: int| 0 <= i < 52 ==> g.deck@[i] == spec_deck_card(i),
            g.player@ == Seq::<Card>::empty(),
            g.computer@ == Seq::<Card>::empty(),
            g.community@ == Seq::<Card>::empty(),
    {
        Game {
            deck: build_deck(),
            player: Vec::new(),
            computer: Vec::new(),
            community: Vec::new(),
        }
    }

    /// Returns every dealt card to the back of the deck — the community
    /// first, then the player's hand, then the computer's — and leaves
    /// the table empty.
    pub fn clean(&mut self)
        ensures
            final(self).deck@ == old(self).deck@ + old(self).community@ + old(self).player@
                + old(self).computer@,
            final(self).player@ == Seq::<Card>::empty(),
            final(self).computer@ == Seq::<Card>::empty(),
            final(self).community@ == Seq::<Card>::empty(),
    {
        let ghost d0 = self.deck@;
        let ghost co0 = self.community@;
        let ghost p0 = self.player@;
        let ghost cp0 = self.computer@;
        let mut i: usize = 0;
        proof {
            assert(d0 + co0.take(0) =~= d0);
        }
        while i < self.community.len()
            invariant
                i <= self.community@.len(),
                self.community@ == co0,
                self.player@ == p0,
                self.computer@ == cp0,
                self.deck@ == d0 + co0.take(i as int),
            decreases self.community@.len() - i,
        {
            let c = self.community[i];
            self.deck.push(c);
            proof {
                assert(d0 + co0.take(i + 1) =~= (d0 + co0.take(i as int)).push(co0[i as int]));
            }
            i += 1;
        }
        self.community.clear();
        proof {
            assert(d0 + co0.take(co0.len() as int) =~= d0 + co0);
        }
        let ghost d1 = self.deck@;
        let mut j: usize = 0;
        proof {
            assert(d1 + p0.take(0) =~= d1);
        }
        while j < self.player.len()
            invariant
                j <= self.player@.len(),
                self.player@ == p0,
                self.computer@ == cp0,
                self.community@ == Seq::<Card>::empty(),
                self.deck@ == d1 + p0.take(j as int),
            decreases self.player@.len() - j,
        {
            let c = self.player[j];
            self.deck.push(c);
            proof {
                assert(d1 + p0.take(j + 1) =~= (d1 + p0.take(j as int)).push(p0[j as int]));
            }
            j += 1;
        }
        self.player.clear();
        proof {
            assert(d1 + p0.take(p0.len() as int) =~= d1 + p0);
        }
        let ghost d2 = self.deck@;
        let mut k: usize = 0;
        proof {
            assert(d2 + cp0.take(0) =~= d2);
        }
        while k < self.computer.len()
            invariant
                k <= self.computer@.len(),
                self.computer@ == cp0,
                self.player@ == Seq::<Card>::empty(),
                self.community@ == Seq::<Card>::empty(),
                self.deck@ == d2 + cp0.take(k as int),
            decreases self.computer@.len() - k,
        {
            let c = self.computer[k];
            self.deck.push(c);
            proof {
                assert(d2 + cp0.take(k + 1) =~= (d2 + cp0.take(k as int)).push(cp0[k as int]));
            }
            k += 1;
        }
        self.computer.clear();
        proof {
            assert(d2 + cp0.take(cp0.len() as int) =~= d2 + cp0);
            assert(d0 + co0 + p0 + cp0 =~= d2 + cp0);
        }
    }

    /// Shuffles the deck in place; the deck keeps exactly its cards.
    pub fn shuffle(&mut self)
        ensures
            final(self).deck@.to_multiset() == old(self).deck@.to_multiset(),
            final(self).deck@.len() == old(self).deck@.len(),
            final(self).player == old(self).player,
            final(self).computer == old(self).computer,
            final(self).community == old(self).community,
    {
        shuffle_cards(&mut self.deck);
    }

    /// Deals `n` cards to each side, alternating from the top of the
    /// deck: the player takes the cards at even offsets, the computer
    /// those at odd offsets.
    pub fn deal(&mut self, n: usize)
        requires
            old(self).deck@.len() >= 2 * n,
        ensures
            final(self).deck@ == old(self).deck@.skip(2 * n as int),
            final(self).player@ == old(self).player@ + Seq::new(
                n as nat,
                |i: int| old(self).deck@[2 * i],
            ),
            final(self).computer@ == old(self).computer@ + Seq::new(
                n as nat,
                |i: int| old(self).deck@[2 * i + 1],
            ),
            final(self).community == old(self).community,
    {
        let ghost d0 = self.deck@;
        let ghost p0 = self.player@;
        let ghost c0 = self.computer@;
        let mut i: usize = 0;
        proof {
            assert(d0.skip(0) =~= d0);
            assert(p0 + Seq::new(0, |j: int| d0[2 * j]) =~= p0);
            assert(c0 + Seq::new(0, |j: int| d0[2 * j + 1]) =~= c0);
        }
        while i < n
            invariant
                i <= n,
                d0.len() >= 2 * n,
                self.deck@ == d0.skip(2 * i as int),
                self.player@ == p0 + Seq::new(i as nat, |j: int| d0[2 * j]),
                self.computer@ == c0 + Seq::new(i as nat, |j: int| d0[2 * j + 1]),
                self.community == old(self).community,
            decreases n - i,
        {
            let c1 = self.deck.remove(0);
            let c2 = self.deck.remove(0);
            self.player.push(c1);
            self.computer.push(c2);
            proof {
                assert(d0.skip(2 * i as int).remove(0) =~= d0.skip(2 * i + 1));
                assert(d0.skip(2 * i + 1).remove(0) =~= d0.skip(2 * i + 2));
                assert(c1 == d0[2 * i as int]);
                assert(c2 == d0[2 * i + 1]);
                assert(p0 + Seq::new((i + 1) as nat, |j: int| d0[2 * j]) =~= (p0 + Seq::new(
                    i as nat,
                    |j: int| d0[2 * j],
                )).push(d0[2 * i as int]));
                assert(c0 + Seq::new((i + 1) as nat, |j: int| d0[2 * j + 1]) =~= (c0 + Seq::new(
                    i as nat,
                    |j: int| d0[2 * j + 1],
                )).push(d0[2 * i + 1]));
            }
            i += 1;
        }
    }

    /// Moves `n` cards from the top of the deck onto the community.
    pub fn update_community(&mut self, n: usize)
        requires
            old(self).deck@.len() >= n,
        ensures
            final(self).deck@ == old(self).deck@.skip(n as int),
            final(self).community@ == old(self).community@ + old(self).deck@.take(n as int),
            final(self).player == old(self).player,
            final(self).computer == old(self).computer,
    {
        let ghost d0 = self.deck@;
        let ghost co0 = self.community@;
        let mut i: usize = 0;
        proof {
            assert(d0.skip(0) =~= d0);
            assert(co0 + d0.take(0) =~= co0);
        }
        while i < n
            invariant
                i <= n,
                d0.len() >= n,
                self.deck@ == d0.skip(i as int),
                self.community@ == co0 + d0.take(i as int),
                self.player == old(self).player,
                self.computer == old(self).computer,
            decreases n - i,
        {
            let c = self.deck.remove(0);
            self.community.push(c);
            proof {
                assert(d0.skip(i as int).remove(0) =~= d0.skip(i + 1));
                assert(c == d0[i as int]);
                assert(co0 + d0.take(i + 1) =~= (co0 + d0.take(i as int)).push(d0[i as int]));
            }
            i += 1;
        }
    }

    /// Steps the table through one phase: cleaning re-collects and
    /// shuffles the deck, the deal phases hand out cards, the flop, turn
    /// and river grow the community, and the winner phase changes
    /// nothing — the showdown itself is read off with `winner`.
    pub fn update_game(&mut self, phase: Phase)
        requires
            match phase {
                Phase::DealStud => old(self).deck@.len() >= 14,
                Phase::DealTexas => old(self).deck@.len() >= 4,
                Phase::Flop => old(self).deck@.len() >= 3,
                Phase::Turn | Phase::River => old(self).deck@.len() >= 1,
                _ => true,
            },
        ensures
            match phase {
                Phase::Clean => {
                    &&& final(self).deck@.to_multiset() == (old(self).deck@ + old(self).community@
                        + old(self).player@ + old(self).computer@).to_multiset()
                    &&& final(self).player@ == Seq::<Card>::empty()
                    &&& final(self).computer@ == Seq::<Card>::empty()
                    &&& final(self).community@ == Seq::<Card>::empty()
                },
                Phase::DealStud | Phase::DealTexas => {
                    let n: int = if phase is DealStud {
                        7
                    } else {
                        2
                    };
                    &&& final(self).deck@ == old(self).deck@.skip(2 * n)
                    &&& final(self).player@ == old(self).player@ + Seq::new(
                        n as nat,
                        |i: int| old(self).deck@[2 * i],
                    )
                    &&& final(self).computer@ == old(self).computer@ + Seq::new(
                        n as nat,
                        |i: int| old(self).deck@[2 * i + 1],
                    )
                    &&& final(self).community == old(self).community
                },
                Phase::Flop | Phase::Turn | Phase::River => {
                    let n: int = if phase is Flop {
                        3
                    } else {
                        1
                    };
                    &&& final(self).deck@ == old(self).deck@.skip(n)
                    &&& final(self).community@ == old(self).community@ + old(self).deck@.take(n)
                    &&& final(self).player == old(self).player
                    &&& final(self).computer == old(self).computer
                },
                Phase::Winner => *final(self) == *old(self),
            },
    {
        match phase {
            Phase::Clean => {
                self.clean();
                self.shuffle();
            },
            Phase::DealStud => {
                self.deal(7);
            },
            Phase::DealTexas => {
                self.deal(2);
            },
            Phase::Flop => {
                self.update_community(3);
            },
            Phase::Turn | Phase::River => {
                self.update_community(1);
            },
            Phase::Winner => {
            },
        }
    }

    /// Compares two best hands card by card, in the order the cards were
    /// selected: the first position where one side's card outranks the
    /// other's decides, and hands equal at every shared position tie.
    pub fn tie_breaker(&self, player: &Vec<Card>, computer: &Vec<Card>) -> (r: Ordering)
        ensures
            r == seq_cmp_values(player@, computer@),
    {
        let n = if player.len() < computer.len() {
            player.len()
        } else {
            computer.len()
        };
        let mut i: usize = 0;
        proof {
            assert(player@.skip(0) =~= player@);
            assert(computer@.skip(0) =~= computer@);
        }
        while i < n
            invariant
                i <= n,
                n == if player@.len() < computer@.len() {
                    player@.len()
                } else {
                    computer@.len()
                },
                seq_cmp_values(player@, computer@) == seq_cmp_values(
                    player@.skip(i as int),
                    computer@.skip(i as int),
                ),
            decreases n - i,
        {
            let pv = player[i].0.value();
            let cv = computer[i].0.value();
            proof {
                assert(player@.skip(i as int)[0] == player@[i as int]);
                assert(computer@.skip(i as int)[0] == computer@[i as int]);
                assert(player@.skip(i as int).drop_first() =~= player@.skip(i + 1));
                assert(computer@.skip(i as int).drop_first() =~= computer@.skip(i + 1));
            }
            if pv > cv {
                return Ordering::Greater;
            }
            if pv < cv {
                return Ordering::Less;
            }
            i += 1;
        }
        proof {
            assert(player@.skip(n as int).len() == 0 || computer@.skip(n as int).len() == 0);
            assert(seq_cmp_values(player@.skip(n as int), computer@.skip(n as int))
                == Ordering::Equal);
        }
        Ordering::Equal
    }

    /// The showdown: joins each hand with the community cards, ranks
    /// both, selects both best hands, and compares — by classification
    /// first, then card by card on equal classifications.
    pub fn winner(&self) -> (s: Showdown)
        requires
            self.player@.len() + self.community@.len() <= 8,
            self.computer@.len() + self.community@.len() <= 8,
        ensures
            ({
                let ph = self.player@ + self.community@;
                let ch = self.computer@ + self.community@;
                &&& s.player_rank == spec_classify(ph)
                &&& best_hand_ok(ph, s.player_rank, s.player_best@)
                &&& s.computer_rank == spec_classify(ch)
                &&& best_hand_ok(ch, s.computer_rank, s.computer_best@)
                &&& s.outcome == (if rank_order(s.player_rank) > rank_order(s.computer_rank) {
                    Ordering::Greater
                } else if rank_order(s.player_rank) < rank_order(s.computer_rank) {
                    Ordering::Less
                } else {
                    seq_cmp_values(s.player_best@, s.computer_best@)
                })
            }),
    {
        let player_hand = concat_cards(&self.player, &self.community);
        let computer_hand = concat_cards(&self.computer, &self.community);
        let player_rank = calc_rank(&player_hand);
        let computer_rank = calc_rank(&computer_hand);
        let player_best = calc_best_hand(&player_hand, player_rank);
        let computer_best = calc_best_hand(&computer_hand, computer_rank);
        let ps = player_rank.strength();
        let cs = computer_rank.strength();
        let outcome = if ps > cs {
            Ordering::Greater
        } else if ps < cs {
            Ordering::Less
        } else {
            self.tie_breaker(&player_best, &computer_best)
        };
        Showdown { player_rank, player_best, computer_rank, computer_best, outcome }
    }
}

} // verus!
