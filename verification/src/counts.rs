//! Counting specifications over card sequences: how many cards carry a
//! given rank value, a given suit, or both, together with the lemmas that
//! connect those counts to permutations and sub-collections.

use vstd::prelude::*;
use crate::card::{Card, Suit, card_value};

verus! {

/// How many cards of `s` have rank value `v`.
pub open spec fn value_count(s: Seq<Card>, v: int) -> nat
    decreases s.len(),
{
    if s.len() == 0 {
        0
    } else {
        value_count(s.drop_last(), v) + if card_value(s.last()) == v {
            1nat
        } else {
            0nat
        }
    }
}

/// How many cards of `s` have suit `su`.
pub open spec fn suit_count(s: Seq<Card>, su: Suit) -> nat
    decreases s.len(),
{
    if s.len() == 0 {
        0
    } else {
        suit_count(s.drop_last(), su) + if s.last().1 == su {
            1nat
        } else {
            0nat
        }
    }
}

/// How many cards of `s` have suit `su` and rank value `v`.
pub open spec fn suited_value_count(s: Seq<Card>, su: Suit, v: int) -> nat
    decreases s.len(),
{
    if s.len() == 0 {
        0
    } else {
        suited_value_count(s.drop_last(), su, v) + if s.last().1 == su && card_value(s.last())
            == v {
            1nat
        } else {
            0nat
        }
    }
}

/// `r` is drawn from `h`: no card appears in `r` more often than in `h`.
pub open spec fn within(r: Seq<Card>, h: Seq<Card>) -> bool {
    forall|c: Card| #[trigger] r.to_multiset().count(c) <= h.to_multiset().count(c)
}

pub broadcast proof fn lemma_value_count_push(s: Seq<Card>, c: Card, v: int)
    ensures
        #[trigger] value_count(s.push(c), v) == value_count(s, v) + if card_value(c) == v {
            1nat
        } else {
            0nat
        },
{
    assert(s.push(c).drop_last() =~= s);
}

pub broadcast proof fn lemma_suit_count_push(s: Seq<Card>, c: Card, su: Suit)
    ensures
        #[trigger] suit_count(s.push(c), su) == suit_count(s, su) + if c.1 == su {
            1nat
        } else {
            0nat
        },
{
    assert(s.push(c).drop_last() =~= s);
}

pub broadcast proof fn lemma_suited_value_count_push(s: Seq<Card>, c: Card, su: Suit, v: int)
    ensures
        #[trigger] suited_value_count(s.push(c), su, v) == suited_value_count(s, su, v) + if c.1
            == su && card_value(c) == v {
            1nat
        } else {
            0nat
        },
{
    assert(s.push(c).drop_last() =~= s);
}

pub broadcast group group_count_push {
    lemma_value_count_push,
    lemma_suit_count_push,
    lemma_suited_value_count_push,
}

/// Removing the card at index `i` lowers exactly the counts that the
/// removed card contributed to, by one.
pub proof fn lemma_counts_remove(s: Seq<Card>, i: int)
    requires
        0 <= i < s.len(),
    ensures
        forall|v: int| #[trigger] value_count(s.remove(i), v) == value_count(s, v) - (
        if card_value(s[i]) == v {
            1nat
        } else {
            0nat
        }),
        forall|su: Suit| #[trigger] suit_count(s.remove(i), su) == suit_count(s, su) - (if s[i].1
            == su {
            1nat
        } else {
            0nat
        }),
        forall|su: Suit, v: int|
            #[trigger] suited_value_count(s.remove(i), su, v) == suited_value_count(s, su, v) - (
            if s[i].1 == su && card_value(s[i]) == v {
                1nat
            } else {
                0nat
            }),
    decreases s.len(),
{
    let s2 = s.remove(i);
    if i == s.len() - 1 {
        assert(s2 =~= s.drop_last());
        assert forall|v: int|
            #[trigger] value_count(s2, v) == value_count(s, v) - (if card_value(s[i]) == v {
                1nat
            } else {
                0nat
            }) by {
            assert(value_count(s, v) == value_count(s.drop_last(), v) + if card_value(s.last())
                == v {
                1nat
            } else {
                0nat
            });
        }
        assert forall|su: Suit|
            #[trigger] suit_count(s2, su) == suit_count(s, su) - (if s[i].1 == su {
                1nat
            } else {
                0nat
            }) by {
            assert(suit_count(s, su) == suit_count(s.drop_last(), su) + if s.last().1 == su {
                1nat
            } else {
                0nat
            });
        }
        assert forall|su: Suit, v: int|
            #[trigger] suited_value_count(s2, su, v) == suited_value_count(s, su, v) - (if s[i].1
                == su && card_value(s[i]) == v {
                1nat
            } else {
                0nat
            }) by {
            assert(suited_value_count(s, su, v) == suited_value_count(s.drop_last(), su, v)
                + if s.last().1 == su && card_value(s.last()) == v {
                1nat
            } else {
                0nat
            });
        }
    } else {
        assert(s2.drop_last() =~= s.drop_last().remove(i));
        assert(s2.last() == s.last());
        assert(s.drop_last()[i] == s[i]);
        lemma_counts_remove(s.drop_last(), i);
        assert forall|v: int|
            #[trigger] value_count(s2, v) == value_count(s, v) - (if card_value(s[i]) == v {
                1nat
            } else {
                0nat
            }) by {
            assert(value_count(s2, v) == value_count(s2.drop_last(), v) + if card_value(s2.last())
                == v {
                1nat
            } else {
                0nat
            });
            assert(value_count(s, v) == value_count(s.drop_last(), v) + if card_value(s.last())
                == v {
                1nat
            } else {
                0nat
            });
            assert(value_count(s.drop_last().remove(i), v) == value_count(s.drop_last(), v) - (
            if card_value(s.drop_last()[i]) == v {
                1nat
            } else {
                0nat
            }));
        }
        assert forall|su: Suit|
            #[trigger] suit_count(s2, su) == suit_count(s, su) - (if s[i].1 == su {
                1nat
            } else {
                0nat
            }) by {
            assert(suit_count(s2, su) == suit_count(s2.drop_last(), su) + if s2.last().1 == su {
                1nat
            } else {
                0nat
            });
            assert(suit_count(s, su) == suit_count(s.drop_last(), su) + if s.last().1 == su {
                1nat
            } else {
                0nat
            });
            assert(suit_count(s.drop_last().remove(i), su) == suit_count(s.drop_last(), su) - (
            if s.drop_last()[i].1 == su {
                1nat
            } else {
                0nat
            }));
        }
        assert forall|su: Suit, v: int|
            #[trigger] suited_value_count(s2, su, v) == suited_value_count(s, su, v) - (if s[i].1
                == su && card_value(s[i]) == v {
                1nat
            } else {
                0nat
            }) by {
            assert(suited_value_count(s2, su, v) == suited_value_count(s2.drop_last(), su, v)
                + if s2.last().1 == su && card_value(s2.last()) == v {
                1nat
            } else {
                0nat
            });
            assert(suited_value_count(s, su, v) == suited_value_count(s.drop_last(), su, v)
                + if s.last().1 == su && card_value(s.last()) == v {
                1nat
            } else {
                0nat
            });
            assert(suited_value_count(s.drop_last().remove(i), su, v) == suited_value_count(
                s.drop_last(),
                su,
                v,
            ) - (if s.drop_last()[i].1 == su && card_value(s.drop_last()[i]) == v {
                1nat
            } else {
                0nat
            }));
        }
    }
}

/// Counts are bounded by the length of the sequence.
pub proof fn lemma_counts_le_len(s: Seq<Card>)
    ensures
        forall|v: int| #[trigger] value_count(s, v) <= s.len(),
        forall|su: Suit| #[trigger] suit_count(s, su) <= s.len(),
        forall|su: Suit, v: int| #[trigger] suited_value_count(s, su, v) <= suit_count(s, su),
        forall|su: Suit, v: int| #[trigger] suited_value_count(s, su, v) <= value_count(s, v),
    decreases s.len(),
{
    if s.len() > 0 {
        lemma_counts_le_len(s.drop_last());
        assert forall|v: int| #[trigger] value_count(s, v) <= s.len() by {
            assert(value_count(s.drop_last(), v) <= s.drop_last().len());
        }
        assert forall|su: Suit| #[trigger] suit_count(s, su) <= s.len() by {
            assert(suit_count(s.drop_last(), su) <= s.drop_last().len());
        }
        assert forall|su: Suit, v: int|
            #[trigger] suited_value_count(s, su, v) <= suit_count(s, su) && #[trigger] suited_value_count(
                s,
                su,
                v,
            ) <= value_count(s, v) by {
            assert(suited_value_count(s.drop_last(), su, v) <= suit_count(s.drop_last(), su));
            assert(suited_value_count(s.drop_last(), su, v) <= value_count(s.drop_last(), v));
        }
    }
}

/// Two sequences with the same multiset of cards have the same counts.
pub proof fn lemma_counts_multiset(s1: Seq<Card>, s2: Seq<Card>)
    requires
        s1.to_multiset() == s2.to_multiset(),
    ensures
        forall|v: int| #[trigger] value_count(s1, v) == value_count(s2, v),
        forall|su: Suit| #[trigger] suit_count(s1, su) == suit_count(s2, su),
        forall|su: Suit, v: int| #[trigger] suited_value_count(s1, su, v) == suited_value_count(
            s2,
            su,
            v,
        ),
    decreases s1.len(),
{
    broadcast use vstd::seq_lib::group_to_multiset_ensures;
    broadcast use vstd::multiset::group_multiset_axioms;

    if s1.len() == 0 {
        assert(s1.to_multiset().len() == 0);
        assert(s2.to_multiset().len() == 0);
        assert(s2.len() == 0);
    } else {
        let c = s1.last();
        assert(s1.contains(c));
        assert(s2.to_multiset().count(c) > 0);
        assert(s2.contains(c));
        let j = choose|j: int| 0 <= j < s2.len() && s2[j] == c;
        let i = s1.len() - 1;
        assert(s1.remove(i) =~= s1.drop_last());
        assert(s1.remove(i).to_multiset() == s1.to_multiset().remove(c));
        assert(s2.remove(j).to_multiset() == s2.to_multiset().remove(c));
        lemma_counts_remove(s1, i);
        lemma_counts_remove(s2, j);
        lemma_counts_multiset(s1.drop_last(), s2.remove(j));
        assert forall|v: int| #[trigger] value_count(s1, v) == value_count(s2, v) by {
            assert(value_count(s1.remove(i), v) == value_count(s1, v) - (if card_value(s1[i]) == v {
                1nat
            } else {
                0nat
            }));
            assert(value_count(s2.remove(j), v) == value_count(s2, v) - (if card_value(s2[j]) == v {
                1nat
            } else {
                0nat
            }));
            assert(value_count(s1.drop_last(), v) == value_count(s2.remove(j), v));
        }
        assert forall|su: Suit| #[trigger] suit_count(s1, su) == suit_count(s2, su) by {
            assert(suit_count(s1.remove(i), su) == suit_count(s1, su) - (if s1[i].1 == su {
                1nat
            } else {
                0nat
            }));
            assert(suit_count(s2.remove(j), su) == suit_count(s2, su) - (if s2[j].1 == su {
                1nat
            } else {
                0nat
            }));
            assert(suit_count(s1.drop_last(), su) == suit_count(s2.remove(j), su));
        }
        assert forall|su: Suit, v: int|
            #[trigger] suited_value_count(s1, su, v) == suited_value_count(s2, su, v) by {
            assert(suited_value_count(s1.remove(i), su, v) == suited_value_count(s1, su, v) - (
            if s1[i].1 == su && card_value(s1[i]) == v {
                1nat
            } else {
                0nat
            }));
            assert(suited_value_count(s2.remove(j), su, v) == suited_value_count(s2, su, v) - (
            if s2[j].1 == su && card_value(s2[j]) == v {
                1nat
            } else {
                0nat
            }));
            assert(suited_value_count(s1.drop_last(), su, v) == suited_value_count(
                s2.remove(j),
                su,
                v,
            ));
        }
    }
}

/// A sub-collection never exceeds the counts of the collection it is
/// drawn from.
pub proof fn lemma_counts_within(r: Seq<Card>, h: Seq<Card>)
    requires
        within(r, h),
    ensures
        forall|v: int| #[trigger] value_count(r, v) <= value_count(h, v),
        forall|su: Suit| #[trigger] suit_count(r, su) <= suit_count(h, su),
        forall|su: Suit, v: int| #[trigger] suited_value_count(r, su, v) <= suited_value_count(
            h,
            su,
            v,
        ),
    decreases r.len(),
{
    broadcast use vstd::seq_lib::group_to_multiset_ensures;
    broadcast use vstd::multiset::group_multiset_axioms;

    if r.len() == 0 {
    } else {
        let c = r.last();
        assert(r.contains(c));
        assert(r.to_multiset().count(c) > 0);
        assert(h.to_multiset().count(c) > 0);
        assert(h.contains(c));
        let j = choose|j: int| 0 <= j < h.len() && h[j] == c;
        let i = r.len() - 1;
        assert(r.remove(i) =~= r.drop_last());
        assert(r.remove(i).to_multiset() == r.to_multiset().remove(c));
        assert(h.remove(j).to_multiset() == h.to_multiset().remove(c));
        assert forall|d: Card|
            #[trigger] r.drop_last().to_multiset().count(d) <= h.remove(j).to_multiset().count(
                d,
            ) by {
            assert(r.to_multiset().count(d) <= h.to_multiset().count(d));
        }
        assert(within(r.drop_last(), h.remove(j)));
        lemma_counts_remove(r, i);
        lemma_counts_remove(h, j);
        lemma_counts_within(r.drop_last(), h.remove(j));
        assert forall|v: int| #[trigger] value_count(r, v) <= value_count(h, v) by {
            assert(value_count(r.remove(i), v) == value_count(r, v) - (if card_value(r[i]) == v {
                1nat
            } else {
                0nat
            }));
            assert(value_count(h.remove(j), v) == value_count(h, v) - (if card_value(h[j]) == v {
                1nat
            } else {
                0nat
            }));
            assert(value_count(r.drop_last(), v) <= value_count(h.remove(j), v));
        }
        assert forall|su: Suit| #[trigger] suit_count(r, su) <= suit_count(h, su) by {
            assert(suit_count(r.remove(i), su) == suit_count(r, su) - (if r[i].1 == su {
                1nat
            } else {
                0nat
            }));
            assert(suit_count(h.remove(j), su) == suit_count(h, su) - (if h[j].1 == su {
                1nat
            } else {
                0nat
            }));
            assert(suit_count(r.drop_last(), su) <= suit_count(h.remove(j), su));
        }
        assert forall|su: Suit, v: int|
            #[trigger] suited_value_count(r, su, v) <= suited_value_count(h, su, v) by {
            assert(suited_value_count(r.remove(i), su, v) == suited_value_count(r, su, v) - (
            if r[i].1 == su && card_value(r[i]) == v {
                1nat
            } else {
                0nat
            }));
            assert(suited_value_count(h.remove(j), su, v) == suited_value_count(h, su, v) - (
            if h[j].1 == su && card_value(h[j]) == v {
                1nat
            } else {
                0nat
            }));
            assert(suited_value_count(r.drop_last(), su, v) <= suited_value_count(
                h.remove(j),
                su,
                v,
            ));
        }
    }
}

/// A rank value is counted iff some card of the sequence carries it.
pub proof fn lemma_value_present(s: Seq<Card>, v: int)
    ensures
        value_count(s, v) > 0 <==> exists|i: int| 0 <= i < s.len() && card_value(s[i]) == v,
    decreases s.len(),
{
    if s.len() > 0 {
        lemma_value_present(s.drop_last(), v);
        if card_value(s.last()) == v {
            assert(card_value(s[s.len() - 1]) == v);
        }
        if value_count(s.drop_last(), v) > 0 {
            let i = choose|i: int|
                0 <= i < s.drop_last().len() && card_value(s.drop_last()[i]) == v;
            assert(card_value(s[i]) == v);
        }
        if exists|i: int| 0 <= i < s.len() && card_value(s[i]) == v {
            let i = choose|i: int| 0 <= i < s.len() && card_value(s[i]) == v;
            if i < s.len() - 1 {
                assert(card_value(s.drop_last()[i]) == v);
            }
        }
    }
}

/// A suited rank value is counted iff some card of the sequence carries
/// both the suit and the value.
pub proof fn lemma_suited_value_present(s: Seq<Card>, su: Suit, v: int)
    ensures
        suited_value_count(s, su, v) > 0 <==> exists|i: int|
            0 <= i < s.len() && s[i].1 == su && card_value(s[i]) == v,
    decreases s.len(),
{
    if s.len() > 0 {
        lemma_suited_value_present(s.drop_last(), su, v);
        if s.last().1 == su && card_value(s.last()) == v {
            assert(s[s.len() - 1].1 == su && card_value(s[s.len() - 1]) == v);
        }
        if suited_value_count(s.drop_last(), su, v) > 0 {
            let i = choose|i: int|
                0 <= i < s.drop_last().len() && s.drop_last()[i].1 == su && card_value(
                    s.drop_last()[i],
                ) == v;
            assert(s[i].1 == su && card_value(s[i]) == v);
        }
        if exists|i: int| 0 <= i < s.len() && s[i].1 == su && card_value(s[i]) == v {
            let i = choose|i: int| 0 <= i < s.len() && s[i].1 == su && card_value(s[i]) == v;
            if i < s.len() - 1 {
                assert(s.drop_last()[i].1 == su && card_value(s.drop_last()[i]) == v);
            }
        }
    }
}

/// Two different rank values cannot together account for more cards than
/// the sequence holds.
pub proof fn lemma_two_values_le_len(s: Seq<Card>, v: int, w: int)
    requires
        v != w,
    ensures
        value_count(s, v) + value_count(s, w) <= s.len(),
    decreases s.len(),
{
    if s.len() > 0 {
        lemma_two_values_le_len(s.drop_last(), v, w);
    }
}

/// Two different suits cannot together account for more cards than the
/// sequence holds.
pub proof fn lemma_two_suits_le_len(s: Seq<Card>, su1: Suit, su2: Suit)
    requires
        su1 != su2,
    ensures
        suit_count(s, su1) + suit_count(s, su2) <= s.len(),
    decreases s.len(),
{
    if s.len() > 0 {
        lemma_two_suits_le_len(s.drop_last(), su1, su2);
    }
}

/// A sequence in which several pairwise different rank values are all
/// present holds at least that many cards.
pub proof fn lemma_distinct_values_len(s: Seq<Card>, vals: Seq<int>)
    requires
        forall|i: int, j: int| 0 <= i < j < vals.len() ==> vals[i] != vals[j],
        forall|i: int| 0 <= i < vals.len() ==> value_count(s, #[trigger] vals[i]) > 0,
    ensures
        s.len() >= vals.len(),
    decreases vals.len(),
{
    if vals.len() > 0 {
        let v = vals.last();
        lemma_value_present(s, v);
        let i = choose|i: int| 0 <= i < s.len() && card_value(s[i]) == v;
        lemma_counts_remove(s, i);
        let s2 = s.remove(i);
        assert(forall|k: int|
            0 <= k < vals.drop_last().len() ==> value_count(s2, #[trigger] vals.drop_last()[k])
                > 0);
        lemma_distinct_values_len(s2, vals.drop_last());
    }
}

/// Counts add up over concatenation.
pub proof fn lemma_counts_concat(a: Seq<Card>, b: Seq<Card>)
    ensures
        forall|v: int| #[trigger] value_count(a + b, v) == value_count(a, v) + value_count(b, v),
        forall|su: Suit| #[trigger] suit_count(a + b, su) == suit_count(a, su) + suit_count(b, su),
        forall|su: Suit, v: int|
            #[trigger] suited_value_count(a + b, su, v) == suited_value_count(a, su, v)
                + suited_value_count(b, su, v),
    decreases b.len(),
{
    if b.len() == 0 {
        assert(a + b =~= a);
    } else {
        lemma_counts_concat(a, b.drop_last());
        assert((a + b).drop_last() =~= a + b.drop_last());
        assert((a + b).last() == b.last());
        assert forall|v: int|
            #[trigger] value_count(a + b, v) == value_count(a, v) + value_count(b, v) by {
            assert(value_count(a + b, v) == value_count((a + b).drop_last(), v) + if card_value(
                (a + b).last(),
            ) == v {
                1nat
            } else {
                0nat
            });
            assert(value_count(b, v) == value_count(b.drop_last(), v) + if card_value(b.last())
                == v {
                1nat
            } else {
                0nat
            });
        }
        assert forall|su: Suit|
            #[trigger] suit_count(a + b, su) == suit_count(a, su) + suit_count(b, su) by {
            assert(suit_count(a + b, su) == suit_count((a + b).drop_last(), su) + if (a
                + b).last().1 == su {
                1nat
            } else {
                0nat
            });
            assert(suit_count(b, su) == suit_count(b.drop_last(), su) + if b.last().1 == su {
                1nat
            } else {
                0nat
            });
        }
        assert forall|su: Suit, v: int|
            #[trigger] suited_value_count(a + b, su, v) == suited_value_count(a, su, v)
                + suited_value_count(b, su, v) by {
            assert(suited_value_count(a + b, su, v) == suited_value_count((a + b).drop_last(), su, v)
                + if (a + b).last().1 == su && card_value((a + b).last()) == v {
                1nat
            } else {
                0nat
            });
            assert(suited_value_count(b, su, v) == suited_value_count(b.drop_last(), su, v) + if b.last().1
                == su && card_value(b.last()) == v {
                1nat
            } else {
                0nat
            });
        }
    }
}

/// A sequence splits at any point into a prefix and a suffix whose
/// counts and card multiplicities add up to its own.
pub proof fn lemma_take_skip_counts(s: Seq<Card>, k: int)
    requires
        0 <= k <= s.len(),
    ensures
        forall|v: int| #[trigger] value_count(s, v) == value_count(s.take(k), v) + value_count(
            s.skip(k),
            v,
        ),
        forall|c: Card| #[trigger] s.to_multiset().count(c) == s.take(k).to_multiset().count(c)
            + s.skip(k).to_multiset().count(c),
{
    broadcast use vstd::multiset::group_multiset_axioms;

    assert(s =~= s.take(k) + s.skip(k));
    lemma_counts_concat(s.take(k), s.skip(k));
    vstd::seq_lib::lemma_multiset_commutative(s.take(k), s.skip(k));
}

/// Cards of pairwise different rank values that all come from `h` form a
/// sub-collection of `h`.
pub proof fn lemma_distinct_members_within(w: Seq<Card>, h: Seq<Card>)
    requires
        forall|i: int, j: int| 0 <= i < j < w.len() ==> card_value(w[i]) != card_value(w[j]),
        forall|i: int| 0 <= i < w.len() ==> h.contains(#[trigger] w[i]),
    ensures
        within(w, h),
{
    broadcast use vstd::seq_lib::group_to_multiset_ensures;

    assert(w.no_duplicates()) by {
        assert forall|i: int, j: int|
            0 <= i < w.len() && 0 <= j < w.len() && i != j implies w[i] != w[j] by {
            if i < j {
                assert(card_value(w[i]) != card_value(w[j]));
            } else {
                assert(card_value(w[j]) != card_value(w[i]));
            }
        }
    }
    w.lemma_multiset_has_no_duplicates();
    assert forall|c: Card| #[trigger] w.to_multiset().count(c) <= h.to_multiset().count(c) by {
        if w.to_multiset().count(c) > 0 {
            assert(w.contains(c));
            let i = choose|i: int| 0 <= i < w.len() && w[i] == c;
            assert(h.contains(w[i]));
            assert(h.to_multiset().count(c) > 0);
            assert(w.to_multiset().count(c) == 1);
        }
    }
}

/// Rank values outside 1 through 14 are never counted: every card
/// carries a value in that range.
pub proof fn lemma_value_count_range(s: Seq<Card>)
    ensures
        forall|v: int| v < 1 || v > 14 ==> #[trigger] value_count(s, v) == 0,
    decreases s.len(),
{
    if s.len() > 0 {
        lemma_value_count_range(s.drop_last());
        assert forall|v: int| v < 1 || v > 14 implies #[trigger] value_count(s, v) == 0 by {
            assert(value_count(s.drop_last(), v) == 0);
            assert(1 <= card_value(s.last()) <= 14);
        }
    }
}

/// Three different rank values cannot together account for more cards
/// than the sequence holds.
pub proof fn lemma_three_values_le_len(s: Seq<Card>, v: int, w: int, x: int)
    requires
        v != w,
        v != x,
        w != x,
    ensures
        value_count(s, v) + value_count(s, w) + value_count(s, x) <= s.len(),
    decreases s.len(),
{
    if s.len() > 0 {
        lemma_three_values_le_len(s.drop_last(), v, w, x);
    }
}

/// A sequence whose cards all carry value `v` counts only toward `v`.
pub proof fn lemma_value_count_uniform(s: Seq<Card>, v: int)
    requires
        forall|i: int| 0 <= i < s.len() ==> card_value(#[trigger] s[i]) == v,
    ensures
        value_count(s, v) == s.len(),
        forall|w: int| w != v ==> #[trigger] value_count(s, w) == 0,
    decreases s.len(),
{
    if s.len() > 0 {
        assert(forall|i: int|
            0 <= i < s.drop_last().len() ==> card_value(#[trigger] s.drop_last()[i]) == v);
        lemma_value_count_uniform(s.drop_last(), v);
        assert(card_value(s.last()) == v);
        assert forall|w: int| w != v implies #[trigger] value_count(s, w) == 0 by {
            assert(value_count(s.drop_last(), w) == 0);
        }
    }
}

/// A sequence whose cards all carry suit `su` counts only toward `su`.
pub proof fn lemma_suit_count_uniform(s: Seq<Card>, su: Suit)
    requires
        forall|i: int| 0 <= i < s.len() ==> (#[trigger] s[i]).1 == su,
    ensures
        suit_count(s, su) == s.len(),
        forall|su2: Suit| su2 != su ==> #[trigger] suit_count(s, su2) == 0,
        forall|v: int| #[trigger] suited_value_count(s, su, v) == value_count(s, v),
    decreases s.len(),
{
    if s.len() > 0 {
        assert(forall|i: int|
            0 <= i < s.drop_last().len() ==> (#[trigger] s.drop_last()[i]).1 == su);
        lemma_suit_count_uniform(s.drop_last(), su);
        assert(s.last().1 == su);
        assert forall|su2: Suit| su2 != su implies #[trigger] suit_count(s, su2) == 0 by {
            assert(suit_count(s.drop_last(), su2) == 0);
        }
        assert forall|v: int|
            #[trigger] suited_value_count(s, su, v) == value_count(s, v) by {
            assert(suited_value_count(s.drop_last(), su, v) == value_count(s.drop_last(), v));
        }
    }
}

/// A card that stands at two positions is counted at least twice in the
/// multiset.
pub proof fn lemma_dup_count(s: Seq<Card>, i: int, j: int)
    requires
        0 <= i < j < s.len(),
        s[i] == s[j],
    ensures
        s.to_multiset().count(s[i]) >= 2,
{
    broadcast use vstd::seq_lib::group_to_multiset_ensures;

    lemma_take_skip_counts(s, j);
    assert(s.take(j)[i] == s[i]);
    assert(s.take(j).contains(s[i]));
    assert(s.take(j).to_multiset().count(s[i]) > 0);
    assert(s.skip(j)[0] == s[j]);
    assert(s.skip(j).contains(s[j]));
    assert(s.skip(j).to_multiset().count(s[j]) > 0);
}

/// Two positions carrying the same value make that value count twice.
pub proof fn lemma_two_indices_count(s: Seq<Card>, i: int, j: int, v: int)
    requires
        0 <= i < j < s.len(),
        card_value(s[i]) == v,
        card_value(s[j]) == v,
    ensures
        value_count(s, v) >= 2,
{
    lemma_take_skip_counts(s, j);
    lemma_value_present(s.take(j), v);
    assert(card_value(s.take(j)[i]) == v);
    lemma_value_present(s.skip(j), v);
    assert(card_value(s.skip(j)[0]) == v);
}

/// A value counted at least twice stands at two positions.
pub proof fn lemma_count_two_indices(s: Seq<Card>, v: int)
    requires
        value_count(s, v) >= 2,
    ensures
        exists|i: int, j: int|
            0 <= i < j < s.len() && card_value(#[trigger] s[i]) == v && card_value(
                #[trigger] s[j],
            ) == v,
    decreases s.len(),
{
    if card_value(s.last()) == v {
        if value_count(s.drop_last(), v) >= 1 {
            lemma_value_present(s.drop_last(), v);
            let i = choose|i: int|
                0 <= i < s.drop_last().len() && card_value(s.drop_last()[i]) == v;
            assert(card_value(s[i]) == v && card_value(s[s.len() - 1]) == v);
        }
    } else {
        lemma_count_two_indices(s.drop_last(), v);
        let (i, j) = choose|i: int, j: int|
            0 <= i < j < s.drop_last().len() && card_value(#[trigger] s.drop_last()[i]) == v
                && card_value(#[trigger] s.drop_last()[j]) == v;
        assert(card_value(s[i]) == v && card_value(s[j]) == v);
    }
}

/// A value's count splits across the four suits.
pub proof fn lemma_value_count_by_suits(s: Seq<Card>)
    ensures
        forall|v: int|
            #[trigger] value_count(s, v) == suited_value_count(s, Suit::Hearts, v)
                + suited_value_count(s, Suit::Diamonds, v) + suited_value_count(
                s,
                Suit::Spades,
                v,
            ) + suited_value_count(s, Suit::Clubs, v),
    decreases s.len(),
{
    if s.len() > 0 {
        lemma_value_count_by_suits(s.drop_last());
        assert forall|v: int|
            #[trigger] value_count(s, v) == suited_value_count(s, Suit::Hearts, v)
                + suited_value_count(s, Suit::Diamonds, v) + suited_value_count(
                s,
                Suit::Spades,
                v,
            ) + suited_value_count(s, Suit::Clubs, v) by {
            assert(value_count(s.drop_last(), v) == suited_value_count(
                s.drop_last(),
                Suit::Hearts,
                v,
            ) + suited_value_count(s.drop_last(), Suit::Diamonds, v) + suited_value_count(
                s.drop_last(),
                Suit::Spades,
                v,
            ) + suited_value_count(s.drop_last(), Suit::Clubs, v));
        }
    }
}

/// In a hand without duplicate cards, one suit carries each value at
/// most once, so no value is carried by more than the four suits can
/// hold.
pub proof fn lemma_no_dup_value_bound(s: Seq<Card>)
    requires
        forall|c: Card| #[trigger] s.to_multiset().count(c) <= 1,
    ensures
        forall|su: Suit, v: int| #[trigger] suited_value_count(s, su, v) <= 1,
        forall|v: int| #[trigger] value_count(s, v) <= 4,
{
    assert forall|su: Suit, v: int| #[trigger] suited_value_count(s, su, v) <= 1 by {
        if suited_value_count(s, su, v) >= 2 {
            lemma_suited_two_indices(s, su, v);
            let (i, j) = choose|i: int, j: int|
                0 <= i < j < s.len() && (#[trigger] s[i]).1 == su && card_value(s[i]) == v && (
                #[trigger] s[j]).1 == su && card_value(s[j]) == v;
            crate::card::lemma_name_value_injective(s[i].0, s[j].0);
            assert(s[i] == s[j]);
            lemma_dup_count(s, i, j);
        }
    }
    lemma_value_count_by_suits(s);
}

/// A suited value counted at least twice stands at two positions.
proof fn lemma_suited_two_indices(s: Seq<Card>, su: Suit, v: int)
    requires
        suited_value_count(s, su, v) >= 2,
    ensures
        exists|i: int, j: int|
            0 <= i < j < s.len() && (#[trigger] s[i]).1 == su && card_value(s[i]) == v && (
            #[trigger] s[j]).1 == su && card_value(s[j]) == v,
    decreases s.len(),
{
    if s.last().1 == su && card_value(s.last()) == v {
        if suited_value_count(s.drop_last(), su, v) >= 1 {
            lemma_suited_value_present(s.drop_last(), su, v);
            let i = choose|i: int|
                0 <= i < s.drop_last().len() && s.drop_last()[i].1 == su && card_value(
                    s.drop_last()[i],
                ) == v;
            assert(s[i].1 == su && card_value(s[i]) == v);
            assert(s[s.len() - 1].1 == su && card_value(s[s.len() - 1]) == v);
        }
    } else {
        lemma_suited_two_indices(s.drop_last(), su, v);
        let (i, j) = choose|i: int, j: int|
            0 <= i < j < s.drop_last().len() && (#[trigger] s.drop_last()[i]).1 == su
                && card_value(s.drop_last()[i]) == v && (#[trigger] s.drop_last()[j]).1 == su
                && card_value(s.drop_last()[j]) == v;
        assert(s[i].1 == su && card_value(s[i]) == v);
        assert(s[j].1 == su && card_value(s[j]) == v);
    }
}


/// If every card of the sequence counts toward one value, every card
/// carries that value.
pub proof fn lemma_value_count_full(s: Seq<Card>, v: int)
    requires
        value_count(s, v) == s.len(),
    ensures
        forall|i: int| 0 <= i < s.len() ==> card_value(#[trigger] s[i]) == v,
    decreases s.len(),
{
    if s.len() > 0 {
        lemma_counts_le_len(s.drop_last());
        assert(value_count(s.drop_last(), v) == s.drop_last().len());
        lemma_value_count_full(s.drop_last(), v);
        assert(forall|i: int| 0 <= i < s.len() - 1 ==> s[i] == s.drop_last()[i]);
    }
}

/// Three positions carrying the same value make that value count three
/// times.
pub proof fn lemma_three_indices_count(s: Seq<Card>, i: int, j: int, k: int, v: int)
    requires
        0 <= i < j < k < s.len(),
        card_value(s[i]) == v,
        card_value(s[j]) == v,
        card_value(s[k]) == v,
    ensures
        value_count(s, v) >= 3,
{
    lemma_take_skip_counts(s, k);
    assert(card_value(s.take(k)[i]) == v);
    assert(card_value(s.take(k)[j]) == v);
    lemma_two_indices_count(s.take(k), i, j, v);
    lemma_value_present(s.skip(k), v);
    assert(card_value(s.skip(k)[0]) == v);
}

/// Two sequences that agree position by position on suits have the same
/// suit counts.
pub proof fn lemma_suit_count_pointwise(a: Seq<Card>, b: Seq<Card>)
    requires
        a.len() == b.len(),
        forall|i: int| 0 <= i < a.len() ==> (#[trigger] a[i]).1 == b[i].1,
    ensures
        forall|su: Suit| #[trigger] suit_count(a, su) == suit_count(b, su),
    decreases a.len(),
{
    if a.len() > 0 {
        assert(forall|i: int|
            0 <= i < a.drop_last().len() ==> (#[trigger] a.drop_last()[i]).1
                == b.drop_last()[i].1);
        lemma_suit_count_pointwise(a.drop_last(), b.drop_last());
        assert(a.last().1 == b.last().1);
        assert forall|su: Suit| #[trigger] suit_count(a, su) == suit_count(b, su) by {
            assert(suit_count(a.drop_last(), su) == suit_count(b.drop_last(), su));
        }
    }
}

} // verus!
