//! Why scores cannot overflow: every card of a game comes from one standard
//! deck, which bounds what a hand can score.
use vstd::prelude::*;
use vstd::multiset::Multiset;
use crate::card::Card;
use crate::deck::{
    action_cards, action_run, modifier_cards, number_cards, number_run, numbers_upto,
    plus_modifiers, standard_cards, standard_deck, EXPECTED_NUM_CARDS, lemma_standard_deck_len,
};
use crate::player::{
    fits_i32, mult_values, number_sum, plus_sum, product, round_points, scoring_fits, Player,
};

verus! {

/// An upper bound on the points a hand of cards from one deck can score in
/// a round.
pub const POINTS_BOUND: i32 = 4000;

/// The highest banked score with which a round can still be played: the
/// score plus any round's points still fits in an `i32`.
pub const SCORE_LIMIT: i32 = 2147479647;

/// The multiplier card.
pub open spec fn times_two() -> Card {
    Card::Modifier { is_mult: true, value: 2 }
}

/// A card as the deck has them: numbers from 0 to 12, `+` modifiers up to
/// 10, the `x2` modifier, and actions.
pub open spec fn standard_card(c: Card) -> bool {
    match c {
        Card::Number(v) => 0 <= v <= 12,
        Card::Modifier { is_mult, value } => if is_mult {
            value == 2
        } else {
            0 <= value <= 10
        },
        Card::Action(_) => true,
    }
}

/// Every card of the sequence is a standard card.
pub open spec fn all_standard(s: Seq<Card>) -> bool {
    forall|i: int| 0 <= i < s.len() ==> standard_card(#[trigger] s[i])
}

/// The cards could all have come from one deck: no card occurs more often
/// than in a full deck.
pub open spec fn from_one_deck(cards: Multiset<Card>) -> bool {
    cards.subset_of(standard_cards())
}

proof fn lemma_numbers_upto(k: nat)
    requires
        k <= 12,
    ensures
        forall|i: int|
            0 <= i < numbers_upto(k).len() ==> (#[trigger] numbers_upto(k)[i] is Number
                && standard_card(numbers_upto(k)[i])),
    decreases k,
{
    if k > 0 {
        lemma_numbers_upto((k - 1) as nat);
        let a = numbers_upto((k - 1) as nat);
        let b = number_run(k);
        assert forall|i: int| 0 <= i < numbers_upto(k).len() implies (
        #[trigger] numbers_upto(k)[i] is Number && standard_card(numbers_upto(k)[i])) by {
            if i < a.len() {
                assert(numbers_upto(k)[i] == a[i]);
            } else {
                assert(numbers_upto(k)[i] == b[i - a.len()]);
            }
        }
    }
}

/// Every card of a full deck is a standard card, and the deck holds one
/// `x2` modifier.
pub proof fn lemma_standard_deck()
    ensures
        all_standard(standard_deck()),
        standard_cards().count(times_two()) == 1,
{
    broadcast use vstd::seq_lib::group_to_multiset_ensures;
    broadcast use vstd::multiset::group_multiset_axioms;

    lemma_standard_deck_len();
    lemma_numbers_upto(12);
    let n = number_cards();
    let m = modifier_cards();
    let a = action_cards();
    let d = standard_deck();
    assert(d == n + m + a);
    assert forall|i: int| 0 <= i < d.len() implies standard_card(#[trigger] d[i]) by {
        if i < n.len() {
            assert(d[i] == n[i]);
        } else if i < n.len() + m.len() {
            assert(d[i] == m[i - n.len()]);
        } else {
            assert(d[i] == a[i - n.len() - m.len()]);
        }
    }
    vstd::seq_lib::lemma_multiset_commutative(n + m, a);
    vstd::seq_lib::lemma_multiset_commutative(n, m);
    assert(!n.contains(times_two())) by {
        if n.contains(times_two()) {
            let j = choose|j: int| 0 <= j < n.len() && n[j] == times_two();
            assert(n[j] is Number);
        }
    }
    assert(!a.contains(times_two())) by {
        if a.contains(times_two()) {
            let j = choose|j: int| 0 <= j < a.len() && a[j] == times_two();
            let r1 = action_run(crate::card::ActionType::Freeze, 3);
            let r2 = action_run(crate::card::ActionType::Flip3, 3);
            let r3 = action_run(crate::card::ActionType::SecondChance, 3);
            assert(a == r1 + r2 + r3);
            if j < 3 {
                assert(a[j] == r1[j]);
            } else if j < 6 {
                assert(a[j] == r2[j - 3]);
            } else {
                assert(a[j] == r3[j - 6]);
            }
        }
    }
    let p = plus_modifiers(5);
    assert(!p.contains(times_two())) by {
        if p.contains(times_two()) {
            let j = choose|j: int| 0 <= j < p.len() && p[j] == times_two();
            assert(p[j] is Modifier);
        }
    }
    assert(m == p.push(times_two()));
    assert(m.to_multiset().count(times_two()) == 1);
    assert(n.to_multiset().count(times_two()) == 0);
    assert(a.to_multiset().count(times_two()) == 0);
}

/// A multiset inside another is no larger.
pub proof fn lemma_subset_len(m1: Multiset<Card>, m2: Multiset<Card>)
    requires
        m1.subset_of(m2),
    ensures
        m1.len() <= m2.len(),
{
    broadcast use vstd::multiset::group_multiset_axioms;

    assert(m2.sub(m1).len() == m2.len() - m1.len());
}

proof fn lemma_sums(s: Seq<Card>)
    requires
        all_standard(s),
    ensures
        0 <= number_sum(s) <= 12 * s.len(),
        0 <= plus_sum(s) <= 10 * s.len(),
        mult_values(s).len() == s.to_multiset().count(times_two()),
        forall|j: int| 0 <= j < mult_values(s).len() ==> mult_values(s)[j] == 2,
    decreases s.len(),
{
    broadcast use vstd::seq_lib::group_to_multiset_ensures;
    broadcast use vstd::multiset::group_multiset_axioms;

    if s.len() > 0 {
        let t = s.drop_last();
        assert(all_standard(t)) by {
            assert forall|i: int| 0 <= i < t.len() implies standard_card(#[trigger] t[i]) by {
                assert(t[i] == s[i]);
            }
        }
        lemma_sums(t);
        assert(s == t.push(s.last()));
        assert(standard_card(s[s.len() - 1]));
    }
}

/// A hand of cards from one deck scores without overflow, and scores
/// between 0 and `POINTS_BOUND`.
pub proof fn lemma_hand_bounds(hand: Seq<Card>)
    requires
        from_one_deck(hand.to_multiset()),
    ensures
        scoring_fits(hand, true),
        scoring_fits(hand, false),
        forall|out: bool, flip7: bool|
            0 <= #[trigger] round_points(hand, out, flip7) <= POINTS_BOUND,
{
    broadcast use vstd::seq_lib::group_to_multiset_ensures;
    broadcast use vstd::multiset::group_multiset_axioms;

    lemma_standard_deck();
    lemma_standard_deck_len();
    lemma_subset_len(hand.to_multiset(), standard_cards());
    assert(hand.len() <= 94);
    assert(all_standard(hand)) by {
        assert forall|i: int| 0 <= i < hand.len() implies standard_card(#[trigger] hand[i]) by {
            let c = hand[i];
            assert(hand.contains(c));
            assert(hand.to_multiset().count(c) > 0);
            assert(standard_deck().contains(c));
            let j = choose|j: int| 0 <= j < standard_deck().len() && standard_deck()[j] == c;
            assert(standard_card(standard_deck()[j]));
        }
    }
    lemma_sums(hand);
    let m = mult_values(hand);
    assert(m.len() <= 1);
    let n = number_sum(hand);
    assert forall|k: int| 0 <= k <= hand.len() implies #[trigger] all_standard(hand.take(k)) by {
        let t = hand.take(k);
        assert forall|i: int| 0 <= i < t.len() implies standard_card(#[trigger] t[i]) by {
            assert(t[i] == hand[i]);
        }
    }
    assert forall|k: int| 0 <= k <= hand.len() implies fits_i32(
        #[trigger] number_sum(hand.take(k)),
    ) by {
        assert(all_standard(hand.take(k)));
        lemma_sums(hand.take(k));
    }
    assert forall|k: int| 0 <= k <= hand.len() implies fits_i32(
        #[trigger] plus_sum(hand.take(k)),
    ) by {
        assert(all_standard(hand.take(k)));
        lemma_sums(hand.take(k));
    }
    assert(product(m.take(0)) == 1);
    if m.len() == 1 {
        assert(m.take(1) == m);
        assert(m.take(1).drop_last() =~= m.take(0));
        assert(product(m) == 2);
    } else {
        assert(m.take(0) =~= m);
    }
    assert forall|j: int| 0 <= j <= m.len() implies fits_i32(n * #[trigger] product(m.take(j))) by {
        if j == 0 {
            assert(product(m.take(j)) == 1);
        } else {
            assert(m.take(j) =~= m);
            assert(product(m.take(j)) == 2);
        }
    }
    assert(0 <= product(m) <= 2);
    assert(0 <= n * product(m) <= 2 * n) by (nonlinear_arith)
        requires
            0 <= product(m) <= 2,
            0 <= n,
    ;
    assert(forall|k: int| 0 <= k <= hand.len() ==> fits_i32(#[trigger] number_sum(hand.take(k))));
    assert(forall|k: int| 0 <= k <= hand.len() ==> fits_i32(#[trigger] plus_sum(hand.take(k))));
    assert(fits_i32(n * product(m) + plus_sum(hand)));
    assert(fits_i32(n * product(m) + plus_sum(hand) + 15));
    assert forall|out: bool, flip7: bool| 0 <= #[trigger] round_points(hand, out, flip7) <= POINTS_BOUND by {
    }
}

/// A player whose hand comes from one deck and whose banked score is in
/// range scores without overflow, and this round's points are between 0 and
/// `POINTS_BOUND`.
pub proof fn lemma_player_fits(p: Player)
    requires
        from_one_deck(p.hand@.to_multiset()),
        0 <= p.score <= SCORE_LIMIT,
    ensures
        p.score_fits(),
        0 <= p.points() <= POINTS_BOUND,
{
    lemma_hand_bounds(p.hand@);
    assert(0 <= round_points(p.hand@, p.out, p.flip7) <= POINTS_BOUND);
}

} // verus!
