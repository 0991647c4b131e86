//! Laws of the evaluator: properties that hold across its functions,
//! stated over the same spec functions that the contracts use.

use vstd::prelude::*;
use crate::card::{Card, Suit, card_value};
use crate::counts::{
    value_count, suit_count, suited_value_count, lemma_counts_multiset,
    lemma_counts_le_len, lemma_counts_within, lemma_two_suits_le_len, lemma_two_values_le_len,
    lemma_three_values_le_len, lemma_take_skip_counts, lemma_value_count_uniform,
    lemma_suit_count_uniform, lemma_value_count_full, lemma_suit_count_pointwise,
    lemma_no_dup_value_bound, lemma_value_present, lemma_two_indices_count,
    lemma_three_indices_count, lemma_count_two_indices,
};
use crate::calc::{
    Rank, spec_classify, has_flush, flush_suit_of, group_rank, has_quad, has_trip, has_full_house,
    has_two_pair, has_pair, hand_presence, suited_presence, best_straight_top,
    suited_straight_top, has_straight, wheel_present, suited_wheel_present, run_at, vkey_ge,
    top_of, grouped_top_of, flush_pick_ok, straight_pick_ok, straight_hand_ok, straight_flush_ok,
    full_house_ok, four_two_ok, best_hand_ok, best_trip_value, best_pair_value,
    lemma_straight_len, lemma_best_trip_props, lemma_best_pair_props, lemma_top_run_props,
    lemma_run_at_implies_top, lemma_top_run_exact,
};

verus! {

/// Classification does not depend on the order in which the cards are
/// held: two hands with the same multiset of cards classify alike.
pub proof fn lemma_classify_permutation(a: Seq<Card>, b: Seq<Card>)
    requires
        a.len() <= 9,
        a.to_multiset() == b.to_multiset(),
    ensures
        spec_classify(a) == spec_classify(b),
{
    broadcast use vstd::seq_lib::group_to_multiset_ensures;

    lemma_counts_multiset(a, b);
    assert(a.len() == b.len()) by {
        assert(a.to_multiset().len() == a.len());
        assert(b.to_multiset().len() == b.len());
    }
    assert(has_flush(a) <==> has_flush(b)) by {
        if has_flush(a) {
            let su = choose|su: Suit| #[trigger] suit_count(a, su) >= 5;
            assert(suit_count(b, su) >= 5);
        }
        if has_flush(b) {
            let su = choose|su: Suit| #[trigger] suit_count(b, su) >= 5;
            assert(suit_count(a, su) >= 5);
        }
    }
    if has_flush(a) {
        let sa = flush_suit_of(a);
        let sb = flush_suit_of(b);
        assert(suit_count(a, sa) >= 5);
        assert(suit_count(b, sb) >= 5);
        assert(suit_count(a, sb) >= 5);
        if sa != sb {
            lemma_two_suits_le_len(a, sa, sb);
        }
        assert(sa == sb);
        assert(suited_presence(a, sa) =~= suited_presence(b, sa)) by {
            assert forall|v: int|
                #[trigger] suited_presence(a, sa)(v) == suited_presence(b, sa)(v) by {}
        }
        assert(suited_straight_top(a, sa) == suited_straight_top(b, sb));
    } else {
        assert(hand_presence(a) =~= hand_presence(b)) by {
            assert forall|v: int| #[trigger] hand_presence(a)(v) == hand_presence(b)(v) by {}
        }
        assert(best_straight_top(a) == best_straight_top(b));
        assert(has_quad(a) <==> has_quad(b)) by {
            if has_quad(a) {
                let v = choose|v: int| #[trigger] value_count(a, v) == 4;
                assert(value_count(b, v) == 4);
            }
            if has_quad(b) {
                let v = choose|v: int| #[trigger] value_count(b, v) == 4;
                assert(value_count(a, v) == 4);
            }
        }
        assert(has_trip(a) <==> has_trip(b)) by {
            if has_trip(a) {
                let v = choose|v: int| #[trigger] value_count(a, v) == 3;
                assert(value_count(b, v) == 3);
            }
            if has_trip(b) {
                let v = choose|v: int| #[trigger] value_count(b, v) == 3;
                assert(value_count(a, v) == 3);
            }
        }
        assert(has_full_house(a) <==> has_full_house(b)) by {
            if has_full_house(a) {
                let (v, w) = choose|v: int, w: int|
                    v != w && #[trigger] value_count(a, v) == 3 && (#[trigger] value_count(a, w)
                        == 2 || value_count(a, w) == 3);
                assert(value_count(b, v) == 3 && (value_count(b, w) == 2 || value_count(b, w)
                    == 3));
            }
            if has_full_house(b) {
                let (v, w) = choose|v: int, w: int|
                    v != w && #[trigger] value_count(b, v) == 3 && (#[trigger] value_count(b, w)
                        == 2 || value_count(b, w) == 3);
                assert(value_count(a, v) == 3 && (value_count(a, w) == 2 || value_count(a, w)
                    == 3));
            }
        }
        assert(has_two_pair(a) <==> has_two_pair(b)) by {
            if has_two_pair(a) {
                let (v, w) = choose|v: int, w: int|
                    v != w && #[trigger] value_count(a, v) == 2 && #[trigger] value_count(a, w)
                        == 2;
                assert(value_count(b, v) == 2 && value_count(b, w) == 2);
            }
            if has_two_pair(b) {
                let (v, w) = choose|v: int, w: int|
                    v != w && #[trigger] value_count(b, v) == 2 && #[trigger] value_count(b, w)
                        == 2;
                assert(value_count(a, v) == 2 && value_count(a, w) == 2);
            }
        }
        assert(has_pair(a) <==> has_pair(b)) by {
            if has_pair(a) {
                let v = choose|v: int| #[trigger] value_count(a, v) == 2;
                assert(value_count(b, v) == 2);
            }
            if has_pair(b) {
                let v = choose|v: int| #[trigger] value_count(b, v) == 2;
                assert(value_count(a, v) == 2);
            }
        }
        assert(group_rank(a) == group_rank(b));
    }
}

/// The best hand always has five cards, except that a hand of fewer than
/// five cards yields all of its cards.
pub proof fn lemma_best_hand_len(h: Seq<Card>, r: Seq<Card>)
    requires
        best_hand_ok(h, spec_classify(h), r),
    ensures
        r.len() == if h.len() < 5 {
            h.len() as int
        } else {
            5int
        },
{
    let rank = spec_classify(h);
    lemma_counts_le_len(h);
    match rank {
        Rank::HighCard | Rank::OnePair | Rank::ThreeOfKind => {
        },
        Rank::TwoPair | Rank::FourOfKind => {
            assert(h.len() >= 4) by {
                if rank == Rank::FourOfKind {
                    assert(has_quad(h));
                    let v = choose|v: int| #[trigger] value_count(h, v) == 4;
                    assert(value_count(h, v) <= h.len());
                } else {
                    assert(has_two_pair(h));
                    let (v, w) = choose|v: int, w: int|
                        v != w && #[trigger] value_count(h, v) == 2 && #[trigger] value_count(
                            h,
                            w,
                        ) == 2;
                    lemma_two_values_le_len(h, v, w);
                }
            }
        },
        Rank::FullHouse => {
            assert(h.len() >= 5) by {
                assert(has_full_house(h));
                let (v, w) = choose|v: int, w: int|
                    v != w && #[trigger] value_count(h, v) == 3 && (#[trigger] value_count(h, w)
                        == 2 || value_count(h, w) == 3);
                lemma_two_values_le_len(h, v, w);
            }
        },
        Rank::Straight => {
            lemma_straight_len(h);
        },
        Rank::Flush | Rank::RoyalFlush | Rank::StraightFlush => {
            assert(h.len() >= 5) by {
                assert(has_flush(h));
                let su = flush_suit_of(h);
                assert(suit_count(h, su) >= 5);
                assert(suit_count(h, su) <= h.len());
            }
        },
    }
}

/// A flush needs five cards of one single suit: a hand in which no suit
/// reaches five cards never classifies as a flush of any kind, however
/// many cards its suits hold together.
pub proof fn lemma_flush_is_per_suit(s: Seq<Card>)
    requires
        forall|su: Suit| #[trigger] suit_count(s, su) < 5,
    ensures
        spec_classify(s) != Rank::Flush,
        spec_classify(s) != Rank::StraightFlush,
        spec_classify(s) != Rank::RoyalFlush,
{
    assert(!has_flush(s));
}


/// A hand without a flush lends none to any selection drawn from it.
proof fn lemma_no_new_flush(h: Seq<Card>, r: Seq<Card>)
    requires
        forall|su: Suit| #[trigger] suit_count(r, su) <= suit_count(h, su),
        !has_flush(h),
    ensures
        !has_flush(r),
{
    if has_flush(r) {
        let su = choose|su: Suit| #[trigger] suit_count(r, su) >= 5;
        assert(suit_count(h, su) >= 5);
    }
}

/// A selection whose rank values all occur in a hand without a straight
/// holds no straight either.
proof fn lemma_no_new_straight(h: Seq<Card>, r: Seq<Card>)
    requires
        forall|v: int| #[trigger] value_count(r, v) > 0 ==> value_count(h, v) > 0,
        !has_straight(h),
    ensures
        !has_straight(r),
{
    if has_straight(r) {
        let pr = hand_presence(r);
        let ph = hand_presence(h);
        lemma_top_run_props(pr, 14);
        let t = best_straight_top(r);
        assert(run_at(pr, t));
        assert forall|k: int| t - 4 <= k <= t implies #[trigger] ph(k) by {
            assert(pr(k));
            assert(wheel_present(r, k));
            assert(wheel_present(h, k));
        }
        assert(run_at(ph, t));
        lemma_run_at_implies_top(ph, t);
    }
}

/// The flush family keeps its flush suit: five cards of one suit have
/// that suit, and no other, as their flush suit.
proof fn lemma_uniform_flush_suit(r: Seq<Card>, su: Suit)
    requires
        r.len() == 5,
        forall|i: int| 0 <= i < 5 ==> (#[trigger] r[i]).1 == su,
    ensures
        has_flush(r),
        flush_suit_of(r) == su,
        suit_count(r, su) == 5,
        forall|v: int| #[trigger] suited_value_count(r, su, v) == value_count(r, v),
{
    lemma_suit_count_uniform(r, su);
    assert(has_flush(r));
    let su2 = flush_suit_of(r);
    assert(suit_count(r, su2) >= 5);
    if su2 != su {
        assert(suit_count(r, su2) == 0);
    }
}

/// The best hand of a high-card hand is itself a high-card hand.
proof fn lemma_rt_high_card(h: Seq<Card>, r: Seq<Card>)
    requires
        !has_flush(h),
        !has_straight(h),
        forall|v: int| #[trigger] value_count(h, v) <= 1,
        top_of(
            h,
            r,
            if h.len() < 5 {
                h.len() as int
            } else {
                5int
            },
        ),
    ensures
        spec_classify(r) == Rank::HighCard,
{
    lemma_counts_within(r, h);
    lemma_no_new_flush(h, r);
    lemma_no_new_straight(h, r);
    assert(!has_quad(r)) by {
        if has_quad(r) {
            let v = choose|v: int| #[trigger] value_count(r, v) == 4;
            assert(value_count(r, v) <= value_count(h, v));
        }
    }
    assert(!has_trip(r)) by {
        if has_trip(r) {
            let v = choose|v: int| #[trigger] value_count(r, v) == 3;
            assert(value_count(r, v) <= value_count(h, v));
        }
    }
    assert(!has_full_house(r));
    assert(!has_pair(r)) by {
        if has_pair(r) {
            let v = choose|v: int| #[trigger] value_count(r, v) == 2;
            assert(value_count(r, v) <= value_count(h, v));
        }
    }
    assert(!has_two_pair(r)) by {
        if has_two_pair(r) {
            let (v, w) = choose|v: int, w: int|
                v != w && #[trigger] value_count(r, v) == 2 && #[trigger] value_count(r, w) == 2;
            assert(value_count(r, v) <= value_count(h, v));
        }
    }
    assert(group_rank(r) == Rank::HighCard);
}

/// The best hand of a full house is itself a full house.
proof fn lemma_rt_full_house(h: Seq<Card>, r: Seq<Card>)
    requires
        !has_flush(h),
        !has_straight(h),
        !has_quad(h),
        1 <= best_trip_value(h),
        1 <= best_pair_value(h, best_trip_value(h)),
        full_house_ok(h, r),
    ensures
        spec_classify(r) == Rank::FullHouse,
{
    let n = best_trip_value(h);
    let m = best_pair_value(h, n);
    lemma_best_trip_props(h, 14);
    lemma_best_pair_props(h, n, 14);
    assert(value_count(h, n) == 3);
    assert(value_count(h, m) >= 2);
    assert(m != n);
    let a = r.take(3);
    let b = r.skip(3);
    lemma_take_skip_counts(r, 3);
    assert(forall|i: int| 0 <= i < a.len() ==> card_value(#[trigger] a[i]) == n);
    lemma_value_count_uniform(a, n);
    assert(forall|i: int| 0 <= i < b.len() ==> card_value(#[trigger] b[i]) == m);
    lemma_value_count_uniform(b, m);
    assert(value_count(r, n) == 3);
    assert(value_count(r, m) == 2);
    assert forall|w: int| w != n && w != m implies #[trigger] value_count(r, w) == 0 by {
        assert(value_count(a, w) == 0);
        assert(value_count(b, w) == 0);
    }
    lemma_counts_within(r, h);
    lemma_no_new_flush(h, r);
    lemma_no_new_straight(h, r);
    assert(!has_quad(r)) by {
        if has_quad(r) {
            let v = choose|v: int| #[trigger] value_count(r, v) == 4;
            assert(v != n && v != m);
        }
    }
    assert(has_full_house(r)) by {
        assert(value_count(r, n) == 3 && (value_count(r, m) == 2 || value_count(r, m) == 3));
    }
    assert(group_rank(r) == Rank::FullHouse);
}

/// The best hand of a straight is itself a straight.
proof fn lemma_rt_straight(h: Seq<Card>, r: Seq<Card>)
    requires
        !has_flush(h),
        has_straight(h),
        straight_hand_ok(h, r),
    ensures
        spec_classify(r) == Rank::Straight,
{
    let t = best_straight_top(h);
    lemma_top_run_props(hand_presence(h), 14);
    let w = choose|w: Seq<Card>| straight_pick_ok(h, r, w, t);
    assert(forall|i: int| 0 <= i < 5 ==> (#[trigger] r[i]).1 == w[i].1);
    lemma_suit_count_pointwise(r, w);
    lemma_counts_within(w, h);
    assert(forall|su: Suit| #[trigger] suit_count(r, su) <= suit_count(h, su)) by {
        assert(forall|su: Suit| #[trigger] suit_count(r, su) == suit_count(w, su));
    }
    lemma_no_new_flush(h, r);
    assert forall|k: int| t - 4 <= k <= t implies #[trigger] wheel_present(r, k) by {
        let i = t - k;
        assert(card_value(r[i]) == k);
        lemma_value_present(r, k);
    }
    assert forall|k: int| t - 4 <= k <= t implies #[trigger] hand_presence(r)(k) by {
        assert(wheel_present(r, k));
    }
    assert(run_at(hand_presence(r), t));
    lemma_run_at_implies_top(hand_presence(r), t);
    assert(has_straight(r));
    assert(!has_flush(r));
}

/// The best hand of a plain flush is itself a plain flush.
proof fn lemma_rt_flush(h: Seq<Card>, r: Seq<Card>)
    requires
        has_flush(h),
        suited_straight_top(h, flush_suit_of(h)) < 5,
        flush_pick_ok(h, r),
    ensures
        spec_classify(r) == Rank::Flush,
{
    let su = flush_suit_of(h);
    lemma_uniform_flush_suit(r, su);
    lemma_counts_within(r, h);
    assert(suited_straight_top(r, su) < 5) by {
        if suited_straight_top(r, su) >= 5 {
            let pr = suited_presence(r, su);
            let ph = suited_presence(h, su);
            lemma_top_run_props(pr, 14);
            let t = suited_straight_top(r, su);
            assert(run_at(pr, t));
            assert forall|k: int| t - 4 <= k <= t implies #[trigger] ph(k) by {
                assert(pr(k));
                assert(suited_wheel_present(r, su, k));
                assert(suited_value_count(r, su, k) <= suited_value_count(h, su, k));
                assert(suited_value_count(r, su, 14) <= suited_value_count(h, su, 14));
                assert(suited_wheel_present(h, su, k));
            }
            assert(run_at(ph, t));
            lemma_run_at_implies_top(ph, t);
        }
    }
}


/// The best hand of a royal flush is itself a royal flush.
proof fn lemma_rt_royal_flush(h: Seq<Card>, r: Seq<Card>)
    requires
        has_flush(h),
        suited_straight_top(h, flush_suit_of(h)) == 14,
        forall|c: Card| #[trigger] h.to_multiset().count(c) <= 1,
        flush_pick_ok(h, r),
    ensures
        spec_classify(r) == Rank::RoyalFlush,
{
    let su = flush_suit_of(h);
    lemma_uniform_flush_suit(r, su);
    lemma_counts_within(r, h);
    lemma_no_dup_value_bound(h);
    let ph = suited_presence(h, su);
    lemma_top_run_props(ph, 14);
    assert(run_at(ph, 14));
    assert forall|k: int| 10 <= k <= 14 implies #[trigger] suited_value_count(h, su, k) == 1 by {
        assert(ph(k));
        assert(suited_wheel_present(h, su, k));
    }
    assert forall|i: int, j: int|
        0 <= i < j < 5 implies card_value(r[i]) > card_value(r[j]) by {
        assert(card_value(r[i]) >= card_value(r[j]));
        if card_value(r[i]) == card_value(r[j]) {
            lemma_two_indices_count(r, i, j, card_value(r[i]));
            assert(suited_value_count(r, su, card_value(r[i])) == value_count(
                r,
                card_value(r[i]),
            ));
            assert(suited_value_count(r, su, card_value(r[i])) <= suited_value_count(
                h,
                su,
                card_value(r[i]),
            ));
            assert(suited_value_count(h, su, card_value(r[i])) <= 1);
        }
    }
    assert(1 <= card_value(r[0]) <= 14);
    assert(card_value(r[0]) > card_value(r[1]));
    assert(card_value(r[1]) > card_value(r[2]));
    assert(card_value(r[2]) > card_value(r[3]));
    assert(card_value(r[3]) > card_value(r[4]));
    assert(card_value(r[4]) <= card_value(r[0]) - 4);
    assert forall|k: int| 10 <= k <= 14 implies #[trigger] value_count(r, k) > 0 by {
        if value_count(r, k) == 0 {
            assert(suited_value_count(h, su, k) > value_count(r, k));
            assert(k <= card_value(r[4]));
            assert(k == 10 && card_value(r[4]) == 10);
            lemma_value_present(r, 10);
            assert(card_value(r[4]) == 10);
        }
    }
    let pr = suited_presence(r, su);
    assert forall|k: int| 10 <= k <= 14 implies #[trigger] pr(k) by {
        assert(value_count(r, k) > 0);
        assert(suited_value_count(r, su, k) == value_count(r, k));
        assert(suited_wheel_present(r, su, k));
    }
    assert(run_at(pr, 14));
    lemma_run_at_implies_top(pr, 14);
    lemma_top_run_props(pr, 14);
    assert(suited_straight_top(r, su) == 14);
}

/// The best hand of a straight flush is itself a straight flush.
proof fn lemma_rt_straight_flush(h: Seq<Card>, r: Seq<Card>)
    requires
        has_flush(h),
        5 <= suited_straight_top(h, flush_suit_of(h)) <= 13,
        straight_flush_ok(h, r),
    ensures
        spec_classify(r) == Rank::StraightFlush,
{
    let su = flush_suit_of(h);
    let t = suited_straight_top(h, su);
    let w = choose|w: Seq<Card>|
        straight_pick_ok(h, r, w, t) && (forall|i: int| 0 <= i < 5 ==> (#[trigger] w[i]).1 == su);
    lemma_uniform_flush_suit(r, su);
    let pr = suited_presence(r, su);
    assert forall|k: int| t - 4 <= k <= t implies #[trigger] pr(k) by {
        let i = t - k;
        assert(card_value(r[i]) == k);
        lemma_value_present(r, k);
        assert(suited_value_count(r, su, k) == value_count(r, k));
        assert(suited_wheel_present(r, su, k));
    }
    assert(run_at(pr, t));
    assert forall|k: int| t < k <= 14 implies !(#[trigger] run_at(pr, k)) by {
        if run_at(pr, k) {
            assert(pr(k));
            assert(suited_wheel_present(r, su, k));
            assert(suited_value_count(r, su, k) == value_count(r, k));
            assert(value_count(r, k) > 0);
            lemma_value_present(r, k);
            let i = choose|i: int| 0 <= i < r.len() && card_value(r[i]) == k;
            assert(card_value(r[i]) == t - i || (r[i].0 == crate::card::Name::AceLow && w[i].0
                == crate::card::Name::AceHigh));
            assert(card_value(r[i]) <= t);
        }
    }
    lemma_top_run_exact(pr, t);
}

/// The best hand of a one-pair hand is itself a one-pair hand.
proof fn lemma_rt_one_pair(h: Seq<Card>, r: Seq<Card>)
    requires
        !has_flush(h),
        !has_straight(h),
        has_pair(h),
        !has_two_pair(h),
        !has_trip(h),
        !has_quad(h),
        forall|c: Card| #[trigger] h.to_multiset().count(c) <= 1,
        grouped_top_of(
            h,
            h,
            r,
            if h.len() < 5 {
                h.len() as int
            } else {
                5int
            },
        ),
    ensures
        spec_classify(r) == Rank::OnePair,
{
    lemma_no_dup_value_bound(h);
    let P = choose|v: int| #[trigger] value_count(h, v) == 2;
    assert forall|w: int| w != P implies #[trigger] value_count(h, w) <= 1 by {
        if value_count(h, w) >= 2 {
            assert(value_count(h, w) <= 4);
            assert(value_count(h, w) == 2);
            assert(has_two_pair(h));
        }
    }
    lemma_counts_le_len(h);
    assert(h.len() >= 2);
    let n = r.len();
    assert(n >= 2);
    lemma_counts_within(r, h);
    assert(value_count(r, P) == 2) by {
        if value_count(r, P) < 2 {
            assert(value_count(h, P) > value_count(r, P));
            let q = card_value(r[n - 1]);
            assert(vkey_ge(h, q, P));
            assert(value_count(h, q) == 2);
            assert(q == P);
            assert(vkey_ge(h, card_value(r[n - 2]), card_value(r[n - 1])));
            let q2 = card_value(r[n - 2]);
            assert(value_count(h, q2) >= 2);
            assert(q2 == P);
            lemma_two_indices_count(r, n - 2, n - 1, P);
        }
    }
    assert(has_pair(r));
    assert(forall|v: int| #[trigger] value_count(r, v) <= 2) by {
        assert(forall|v: int| #[trigger] value_count(r, v) <= value_count(h, v));
    }
    assert(!has_quad(r)) by {
        if has_quad(r) {
            let v = choose|v: int| #[trigger] value_count(r, v) == 4;
            assert(value_count(r, v) <= 2);
        }
    }
    assert(!has_trip(r)) by {
        if has_trip(r) {
            let v = choose|v: int| #[trigger] value_count(r, v) == 3;
            assert(value_count(r, v) <= 2);
        }
    }
    assert(!has_full_house(r));
    assert(!has_two_pair(r)) by {
        if has_two_pair(r) {
            let (v, w) = choose|v: int, w: int|
                v != w && #[trigger] value_count(r, v) == 2 && #[trigger] value_count(r, w) == 2;
            assert(value_count(h, v) >= 2);
            assert(value_count(h, w) >= 2);
            assert(v == P && w == P);
        }
    }
    lemma_no_new_flush(h, r);
    lemma_no_new_straight(h, r);
    assert(group_rank(r) == Rank::OnePair);
}

/// The best hand of three of a kind is itself three of a kind.
proof fn lemma_rt_three_of_kind(h: Seq<Card>, r: Seq<Card>)
    requires
        !has_flush(h),
        !has_straight(h),
        has_trip(h),
        !has_full_house(h),
        !has_quad(h),
        forall|c: Card| #[trigger] h.to_multiset().count(c) <= 1,
        grouped_top_of(
            h,
            h,
            r,
            if h.len() < 5 {
                h.len() as int
            } else {
                5int
            },
        ),
    ensures
        spec_classify(r) == Rank::ThreeOfKind,
{
    lemma_no_dup_value_bound(h);
    let T = choose|v: int| #[trigger] value_count(h, v) == 3;
    assert forall|w: int| w != T implies #[trigger] value_count(h, w) <= 1 by {
        if value_count(h, w) >= 2 {
            assert(value_count(h, w) <= 4);
            assert(value_count(h, w) != 4);
            assert(value_count(h, w) == 2 || value_count(h, w) == 3);
            assert(has_full_house(h));
        }
    }
    lemma_counts_le_len(h);
    assert(h.len() >= 3);
    let n = r.len();
    assert(n >= 3);
    lemma_counts_within(r, h);
    assert(value_count(r, T) == 3) by {
        if value_count(r, T) < 3 {
            assert(value_count(h, T) > value_count(r, T));
            let q = card_value(r[n - 1]);
            assert(vkey_ge(h, q, T));
            assert(value_count(h, q) == 3);
            assert(q == T);
            assert(vkey_ge(h, card_value(r[n - 2]), card_value(r[n - 1])));
            assert(value_count(h, card_value(r[n - 2])) >= 3);
            assert(card_value(r[n - 2]) == T);
            assert(vkey_ge(h, card_value(r[n - 3]), card_value(r[n - 1])));
            assert(value_count(h, card_value(r[n - 3])) >= 3);
            assert(card_value(r[n - 3]) == T);
            lemma_three_indices_count(r, n - 3, n - 2, n - 1, T);
        }
    }
    assert(has_trip(r));
    assert(forall|v: int| v != T ==> #[trigger] value_count(r, v) <= 1) by {
        assert(forall|v: int| #[trigger] value_count(r, v) <= value_count(h, v));
    }
    assert(!has_quad(r)) by {
        if has_quad(r) {
            let v = choose|v: int| #[trigger] value_count(r, v) == 4;
            assert(v != T ==> value_count(r, v) <= 1);
        }
    }
    assert(!has_full_house(r)) by {
        if has_full_house(r) {
            let (v, w) = choose|v: int, w: int|
                v != w && #[trigger] value_count(r, v) == 3 && (#[trigger] value_count(r, w) == 2
                    || value_count(r, w) == 3);
            assert(v == T);
            assert(w != T ==> value_count(r, w) <= 1);
        }
    }
    lemma_no_new_flush(h, r);
    lemma_no_new_straight(h, r);
    assert(group_rank(r) == Rank::ThreeOfKind);
}

/// The best hand of four of a kind is itself four of a kind.
proof fn lemma_rt_four_of_kind(h: Seq<Card>, r: Seq<Card>)
    requires
        !has_flush(h),
        !has_straight(h),
        has_quad(h),
        forall|c: Card| #[trigger] h.to_multiset().count(c) <= 1,
        four_two_ok(h, r),
    ensures
        spec_classify(r) == Rank::FourOfKind,
{
    lemma_no_dup_value_bound(h);
    let t4 = r.take(4);
    lemma_counts_within(t4, h);
    lemma_counts_within(r, h);
    let q3 = card_value(t4[3]);
    let Q = choose|v: int| #[trigger] value_count(h, v) == 4;
    assert(value_count(h, q3) == 4) by {
        if value_count(t4, Q) < 4 {
            assert(value_count(h, Q) > value_count(t4, Q));
            assert(vkey_ge(h, q3, Q));
        } else {
            assert(value_count(t4, Q) == t4.len());
            lemma_value_count_full(t4, Q);
        }
    }
    assert forall|i: int| 0 <= i < 4 implies card_value(#[trigger] t4[i]) == q3 by {
        let vi = card_value(t4[i]);
        assert(vkey_ge(h, vi, q3));
        assert(value_count(h, vi) == 4);
        if vi != q3 {
            lemma_two_values_le_len(t4, vi, q3);
            lemma_value_present(t4, q3);
            assert(card_value(t4[3]) == q3);
            assert(value_count(t4, q3) > 0);
            assert(value_count(t4, vi) <= 3);
            assert(value_count(h, vi) > value_count(t4, vi));
            assert(vkey_ge(h, q3, vi));
        }
    }
    lemma_value_count_uniform(t4, q3);
    lemma_take_skip_counts(r, 4);
    assert(value_count(r, q3) >= 4);
    assert(value_count(r, q3) <= value_count(h, q3));
    assert(has_quad(r)) by {
        assert(value_count(r, q3) == 4);
    }
    lemma_no_new_flush(h, r);
    lemma_no_new_straight(h, r);
    assert(group_rank(r) == Rank::FourOfKind);
}


/// The best hand of a two-pair hand is itself a two-pair hand.
proof fn lemma_rt_two_pair(h: Seq<Card>, r: Seq<Card>)
    requires
        !has_flush(h),
        !has_straight(h),
        has_two_pair(h),
        !has_trip(h),
        !has_quad(h),
        forall|c: Card| #[trigger] h.to_multiset().count(c) <= 1,
        four_two_ok(h, r),
    ensures
        spec_classify(r) == Rank::TwoPair,
{
    lemma_no_dup_value_bound(h);
    assert forall|v: int| #[trigger] value_count(h, v) <= 2 by {
        assert(value_count(h, v) <= 4);
        if value_count(h, v) == 3 {
            assert(has_trip(h));
        }
        if value_count(h, v) == 4 {
            assert(has_quad(h));
        }
    }
    let (p1, p2) = choose|v: int, w: int|
        v != w && #[trigger] value_count(h, v) == 2 && #[trigger] value_count(h, w) == 2;
    let t4 = r.take(4);
    lemma_counts_within(t4, h);
    lemma_counts_within(r, h);
    let v0 = card_value(t4[0]);
    let v1 = card_value(t4[1]);
    let v2 = card_value(t4[2]);
    let v3 = card_value(t4[3]);
    assert forall|i: int|
        0 <= i < 4 implies value_count(h, card_value(#[trigger] t4[i])) == 2 by {
        let vi = card_value(t4[i]);
        if value_count(h, vi) <= 1 {
            assert(vi != p1 && vi != p2);
            lemma_value_present(t4, vi);
            assert(card_value(t4[i]) == vi);
            assert(value_count(t4, vi) > 0);
            lemma_three_values_le_len(t4, p1, p2, vi);
            let p: int = if value_count(t4, p1) < 2 {
                p1
            } else {
                p2
            };
            assert(value_count(t4, p) < 2);
            assert(value_count(h, p) > value_count(t4, p));
            assert(vkey_ge(h, v3, p));
            assert(value_count(h, v3) == 2);
            assert(vi != v3);
            assert(i < 3);
            assert(vkey_ge(h, card_value(t4[i]), card_value(t4[3])));
            assert(value_count(h, vi) >= 2);
        }
    }
    assert(value_count(h, v0) == 2);
    assert(value_count(h, v1) == 2);
    assert(value_count(h, v2) == 2);
    assert(value_count(h, v3) == 2);
    assert(v0 == v1) by {
        if v0 != v1 {
            assert(value_count(t4, v0) == 1) by {
                lemma_value_present(t4, v0);
                assert(card_value(t4[0]) == v0);
                if value_count(t4, v0) >= 2 {
                    lemma_count_two_indices(t4, v0);
                    let (i, j) = choose|i: int, j: int|
                        0 <= i < j < t4.len() && card_value(#[trigger] t4[i]) == v0 && card_value(
                            #[trigger] t4[j],
                        ) == v0;
                    if j == 1 {
                        assert(card_value(t4[1]) == v0);
                    } else {
                        assert(j >= 2);
                        assert(vkey_ge(h, card_value(t4[0]), card_value(t4[1])));
                        assert(vkey_ge(h, card_value(t4[1]), card_value(t4[j])));
                        assert(v1 == v0);
                    }
                }
            }
            assert(value_count(h, v0) > value_count(t4, v0));
            assert(vkey_ge(h, v3, v0));
            assert(vkey_ge(h, card_value(t4[0]), card_value(t4[3])));
            assert(v0 == v3);
            assert(vkey_ge(h, card_value(t4[0]), card_value(t4[1])));
            assert(vkey_ge(h, card_value(t4[1]), card_value(t4[3])));
            assert(v1 == v0);
        }
    }
    assert(v2 == v3) by {
        if v2 != v3 {
            assert(v2 != v0) by {
                if v2 == v0 {
                    lemma_three_indices_count(t4, 0, 1, 2, v0);
                    assert(value_count(t4, v0) <= value_count(h, v0));
                }
            }
            assert(value_count(t4, v2) == 1) by {
                lemma_value_present(t4, v2);
                assert(card_value(t4[2]) == v2);
                if value_count(t4, v2) >= 2 {
                    lemma_count_two_indices(t4, v2);
                    let (i, j) = choose|i: int, j: int|
                        0 <= i < j < t4.len() && card_value(#[trigger] t4[i]) == v2 && card_value(
                            #[trigger] t4[j],
                        ) == v2;
                    assert(i != 2 || j != 2);
                    assert(card_value(t4[0]) == v0 && card_value(t4[1]) == v0);
                    assert(card_value(t4[3]) == v3);
                }
            }
            assert(value_count(h, v2) > value_count(t4, v2));
            assert(vkey_ge(h, v3, v2));
            assert(vkey_ge(h, card_value(t4[2]), card_value(t4[3])));
            assert(v2 == v3);
        }
    }
    assert(v0 != v2) by {
        if v0 == v2 {
            lemma_three_indices_count(t4, 0, 1, 2, v0);
            assert(value_count(t4, v0) <= value_count(h, v0));
        }
    }
    lemma_two_indices_count(t4, 0, 1, v0);
    lemma_two_indices_count(t4, 2, 3, v2);
    lemma_take_skip_counts(r, 4);
    assert(value_count(r, v0) == 2);
    assert(value_count(r, v2) == 2);
    assert(has_two_pair(r)) by {
        assert(v0 != v2 && value_count(r, v0) == 2 && value_count(r, v2) == 2);
    }
    assert(forall|v: int| #[trigger] value_count(r, v) <= 2) by {
        assert(forall|v: int| #[trigger] value_count(r, v) <= value_count(h, v));
    }
    assert(!has_quad(r)) by {
        if has_quad(r) {
            let v = choose|v: int| #[trigger] value_count(r, v) == 4;
            assert(value_count(r, v) <= 2);
        }
    }
    assert(!has_trip(r)) by {
        if has_trip(r) {
            let v = choose|v: int| #[trigger] value_count(r, v) == 3;
            assert(value_count(r, v) <= 2);
        }
    }
    assert(!has_full_house(r));
    lemma_no_new_flush(h, r);
    lemma_no_new_straight(h, r);
    assert(group_rank(r) == Rank::TwoPair);
}

/// Classifying the selected best hand gives back the classification it
/// was selected for: on hands without duplicate cards, the five cards
/// that `calc_best_hand` picks carry exactly the strength that
/// `calc_rank` saw in the whole hand.
pub proof fn lemma_classify_round_trip(h: Seq<Card>, r: Seq<Card>)
    requires
        h.len() <= 8,
        forall|c: Card| #[trigger] h.to_multiset().count(c) <= 1,
        best_hand_ok(h, spec_classify(h), r),
    ensures
        spec_classify(r) == spec_classify(h),
{
    let rank = spec_classify(h);
    lemma_no_dup_value_bound(h);
    match rank {
        Rank::HighCard => {
            assert forall|v: int| #[trigger] value_count(h, v) <= 1 by {
                assert(value_count(h, v) <= 4);
                if value_count(h, v) == 2 {
                    assert(has_pair(h));
                }
                if value_count(h, v) == 3 {
                    assert(has_trip(h));
                }
                if value_count(h, v) == 4 {
                    assert(has_quad(h));
                }
            }
            lemma_rt_high_card(h, r);
        },
        Rank::OnePair => {
            lemma_rt_one_pair(h, r);
        },
        Rank::TwoPair => {
            lemma_rt_two_pair(h, r);
        },
        Rank::ThreeOfKind => {
            lemma_rt_three_of_kind(h, r);
        },
        Rank::Straight => {
            lemma_rt_straight(h, r);
        },
        Rank::Flush => {
            lemma_rt_flush(h, r);
        },
        Rank::FullHouse => {
            assert(has_full_house(h));
            assert(!has_quad(h));
            let (v, w0) = choose|v: int, w0: int|
                v != w0 && #[trigger] value_count(h, v) == 3 && (#[trigger] value_count(h, w0)
                    == 2 || value_count(h, w0) == 3);
            crate::counts::lemma_value_count_range(h);
            assert(1 <= v <= 14);
            lemma_best_trip_props(h, 14);
            let n = best_trip_value(h);
            if n == 0 {
                assert(value_count(h, v) != 3);
            }
            let q: int = if w0 != n {
                w0
            } else {
                v
            };
            assert(q != n && value_count(h, q) >= 2);
            assert(1 <= q <= 14);
            lemma_best_pair_props(h, n, 14);
            let m = best_pair_value(h, n);
            if m == 0 {
                assert(value_count(h, q) < 2);
            }
            lemma_rt_full_house(h, r);
        },
        Rank::FourOfKind => {
            lemma_rt_four_of_kind(h, r);
        },
        Rank::StraightFlush => {
            lemma_top_run_props(suited_presence(h, flush_suit_of(h)), 14);
            lemma_rt_straight_flush(h, r);
        },
        Rank::RoyalFlush => {
            lemma_rt_royal_flush(h, r);
        },
    }
}

} // verus!
