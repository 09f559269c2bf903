//! A player: the hand, the round flags, and the scoring of a hand.
use vstd::prelude::*;
use crate::card::Card;
use crate::strategy::Strategy;
use crate::text::{bool_text, int_text, nat_text, push_bool, push_int, push_nat};

verus! {

/// The sum of the number cards of a hand.
pub open spec fn number_sum(hand: Seq<Card>) -> int
    decreases hand.len(),
{
    if hand.len() == 0 {
        0
    } else {
        number_sum(hand.drop_last()) + match hand.last() {
            Card::Number(v) => v as int,
            _ => 0,
        }
    }
}

/// The sum of the adding (`+`) modifiers of a hand.
pub open spec fn plus_sum(hand: Seq<Card>) -> int
    decreases hand.len(),
{
    if hand.len() == 0 {
        0
    } else {
        plus_sum(hand.drop_last()) + match hand.last() {
            Card::Modifier { is_mult, value } => if is_mult {
                0
            } else {
                value as int
            },
            _ => 0,
        }
    }
}

/// The values of the multiplying (`x`) modifiers of a hand, in hand order.
pub open spec fn mult_values(hand: Seq<Card>) -> Seq<i32>
    decreases hand.len(),
{
    if hand.len() == 0 {
        Seq::empty()
    } else {
        let rest = mult_values(hand.drop_last());
        match hand.last() {
            Card::Modifier { is_mult, value } => if is_mult {
                rest.push(value)
            } else {
                rest
            },
            _ => rest,
        }
    }
}

/// The product of a sequence of factors.
pub open spec fn product(s: Seq<i32>) -> int
    decreases s.len(),
{
    if s.len() == 0 {
        1
    } else {
        product(s.drop_last()) * s.last()
    }
}

/// The points a hand scores in a round: nothing when the player is out;
/// else the number cards, multiplied by every `x` modifier, then the `+`
/// modifiers added, then 15 for a Flip 7.
pub open spec fn round_points(hand: Seq<Card>, out: bool, flip7: bool) -> int {
    if out {
        0
    } else {
        number_sum(hand) * product(mult_values(hand)) + plus_sum(hand) + if flip7 {
            15int
        } else {
            0int
        }
    }
}

/// Does an integer fit in an `i32`?
pub open spec fn fits_i32(x: int) -> bool {
    i32::MIN <= x <= i32::MAX
}

/// Every partial result of scoring the hand fits in an `i32`: the running
/// sums of number cards and of `+` modifiers, the running product, and the
/// final sums.
pub open spec fn scoring_fits(hand: Seq<Card>, flip7: bool) -> bool {
    let n = number_sum(hand);
    let m = mult_values(hand);
    let p = n * product(m) + plus_sum(hand);
    &&& forall|k: int| 0 <= k <= hand.len() ==> fits_i32(#[trigger] number_sum(hand.take(k)))
    &&& forall|k: int| 0 <= k <= hand.len() ==> fits_i32(#[trigger] plus_sum(hand.take(k)))
    &&& forall|j: int| 0 <= j <= m.len() ==> fits_i32(n * #[trigger] product(m.take(j)))
    &&& fits_i32(p)
    &&& fits_i32(p + if flip7 {
        15int
    } else {
        0int
    })
}

/// The number of number cards in a hand.
pub open spec fn count_numbers(hand: Seq<Card>) -> nat
    decreases hand.len(),
{
    if hand.len() == 0 {
        0
    } else {
        count_numbers(hand.drop_last()) + if hand.last() is Number {
            1nat
        } else {
            0nat
        }
    }
}

/// The number of modifier cards in a hand.
pub open spec fn count_modifiers(hand: Seq<Card>) -> nat
    decreases hand.len(),
{
    if hand.len() == 0 {
        0
    } else {
        count_modifiers(hand.drop_last()) + if hand.last() is Modifier {
            1nat
        } else {
            0nat
        }
    }
}

/// The number of action cards in a hand.
pub open spec fn count_actions(hand: Seq<Card>) -> nat
    decreases hand.len(),
{
    if hand.len() == 0 {
        0
    } else {
        count_actions(hand.drop_last()) + if hand.last() is Action {
            1nat
        } else {
            0nat
        }
    }
}

/// No two number cards of the hand are equal.
pub open spec fn numbers_distinct(hand: Seq<Card>) -> bool {
    forall|i: int, j: int|
        0 <= i < j < hand.len() && (#[trigger] hand[i]) is Number ==> hand[i] != #[trigger] hand[j]
}

/// A player of the game.
pub struct Player {
    pub name: String,
    pub hand: Vec<Card>,
    /// The round points at which the player chooses to stay.
    pub stay_value: i32,
    /// The points banked in earlier rounds.
    pub score: i32,
    pub second_chance: bool,
    pub out: bool,
    pub flip7: bool,
    pub stay: bool,
    pub strategies: Vec<Strategy>,
}

/// The text of `Player::to_string`.
pub open spec fn player_text(p: Player) -> Seq<char> {
    "Player Summary:\n\tName: "@ + p.name@ + "\n\tScore: "@ + int_text(p.score as int)
        + "\n\tLive Score: "@ + int_text(p.live_score()) + "\n\tHand Size: "@ + nat_text(
        p.hand@.len(),
    ) + "\n\tNumber Cards: "@ + nat_text(count_numbers(p.hand@)) + "\n\tModifier Cards: "@
        + nat_text(count_modifiers(p.hand@)) + "\n\tAction Cards: "@ + nat_text(
        count_actions(p.hand@),
    ) + "\n\tSecond Chance: "@ + bool_text(p.second_chance) + "\n\tOut: "@ + bool_text(p.out)
        + "\n\tStayed: "@ + bool_text(p.stay)
}

impl Player {
    /// The points of the player's hand this round.
    pub open spec fn points(self) -> int {
        round_points(self.hand@, self.out, self.flip7)
    }

    /// The banked score plus this round's points.
    pub open spec fn live_score(self) -> int {
        self.score + self.points()
    }

    /// Scoring the hand, and adding it to the score, cannot overflow.
    pub open spec fn score_fits(self) -> bool {
        &&& self.out || scoring_fits(self.hand@, self.flip7)
        &&& fits_i32(self.live_score())
    }

    /// The same player, with only the hand and the round flags possibly
    /// different.
    pub open spec fn same_identity(self, other: Player) -> bool {
        &&& self.name@ == other.name@
        &&& self.stay_value == other.stay_value
        &&& self.score == other.score
        &&& self.strategies@ == other.strategies@
    }

    /// A player with the given name and stay value: empty hand, score 0,
    /// no flag set, and the random Flip Three strategy.
    pub fn new(name: String, stay_value: i32) -> (p: Player)
        ensures
            p.name@ == name@,
            p.stay_value == stay_value,
            p.hand@.len() == 0,
            p.score == 0,
            !p.second_chance,
            !p.out,
            !p.flip7,
            !p.stay,
            p.strategies@ == seq![Strategy::RandomFlipThree],
    {
        let mut strategies: Vec<Strategy> = Vec::new();
        strategies.push(Strategy::RandomFlipThree);
        Player {
            name,
            hand: Vec::new(),
            stay_value,
            score: 0,
            second_chance: false,
            out: false,
            flip7: false,
            stay: false,
            strategies,
        }
    }

    /// Does the player follow this strategy?
    pub fn has_strategy(&self, strategy: Strategy) -> (r: bool)
        ensures
            r == self.strategies@.contains(strategy),
    {
        let mut i: usize = 0;
        while i < self.strategies.len()
            invariant
                i <= self.strategies@.len(),
                forall|j: int| 0 <= j < i ==> self.strategies@[j] != strategy,
            decreases self.strategies@.len() - i,
        {
            if self.strategies[i] == strategy {
                return true;
            }
            i = i + 1;
        }
        false
    }

    /// Does the hand hold this card?
    pub fn hand_contains(&self, card: Card) -> (r: bool)
        ensures
            r == self.hand@.contains(card),
    {
        let mut i: usize = 0;
        while i < self.hand.len()
            invariant
                i <= self.hand@.len(),
                forall|j: int| 0 <= j < i ==> self.hand@[j] != card,
            decreases self.hand@.len() - i,
        {
            if self.hand[i] == card {
                return true;
            }
            i = i + 1;
        }
        false
    }

    /// Takes a drawn card into the hand where it belongs there. A number card
    /// the hand does not hold yet, and any modifier, join the hand and `None`
    /// is returned. A number card the hand already holds, and an action card,
    /// are handed back and the hand is unchanged.
    pub fn draw(&mut self, card: Card) -> (r: Option<Card>)
        ensures
            final(self).name == old(self).name,
            final(self).stay_value == old(self).stay_value,
            final(self).score == old(self).score,
            final(self).second_chance == old(self).second_chance,
            final(self).out == old(self).out,
            final(self).flip7 == old(self).flip7,
            final(self).stay == old(self).stay,
            final(self).strategies == old(self).strategies,
            (card is Modifier || (card is Number && !old(self).hand@.contains(card))) ==> r
                is None && final(self).hand@ == old(self).hand@.push(card),
            (card is Action || (card is Number && old(self).hand@.contains(card))) ==> r
                == Some(card) && final(self).hand@ == old(self).hand@,
            numbers_distinct(old(self).hand@) ==> numbers_distinct(final(self).hand@),
    {
        match card {
            Card::Number(_) => {
                if self.hand_contains(card) {
                    Some(card)
                } else {
                    self.hand.push(card);
                    None
                }
            },
            Card::Modifier { is_mult: _, value: _ } => {
                self.hand.push(card);
                None
            },
            Card::Action(_) => Some(card),
        }
    }

    /// Gives up the hand: returns it and leaves the hand empty.
    pub fn discard_hand(&mut self) -> (hand: Vec<Card>)
        ensures
            hand@ == old(self).hand@,
            final(self).hand@.len() == 0,
            final(self).name == old(self).name,
            final(self).stay_value == old(self).stay_value,
            final(self).score == old(self).score,
            final(self).second_chance == old(self).second_chance,
            final(self).out == old(self).out,
            final(self).flip7 == old(self).flip7,
            final(self).stay == old(self).stay,
            final(self).strategies == old(self).strategies,
    {
        let mut hand: Vec<Card> = Vec::new();
        std::mem::swap(&mut hand, &mut self.hand);
        hand
    }

    /// The points of the hand this round (see `round_points`): 0 when out;
    /// else the number cards times every `x` modifier, plus the `+`
    /// modifiers, plus 15 for a Flip 7.
    pub fn get_points_scored(&self) -> (points: i32)
        requires
            self.out || scoring_fits(self.hand@, self.flip7),
        ensures
            points == self.points(),
    {
        let mut points_scored: i32 = 0;
        if !self.out {
            let ghost hand = self.hand@;
            let mut multipliers: Vec<i32> = Vec::new();
            let mut modifier_value: i32 = 0;
            let mut k: usize = 0;
            assert(hand.take(0) =~= Seq::<Card>::empty());
            while k < self.hand.len()
                invariant
                    hand == self.hand@,
                    scoring_fits(hand, self.flip7),
                    k <= hand.len(),
                    points_scored == number_sum(hand.take(k as int)),
                    modifier_value == plus_sum(hand.take(k as int)),
                    multipliers@ == mult_values(hand.take(k as int)),
                decreases hand.len() - k,
            {
                assert(hand.take(k + 1).drop_last() =~= hand.take(k as int));
                assert(hand.take(k + 1).last() == hand[k as int]);
                assert(fits_i32(number_sum(hand.take(k + 1))));
                assert(fits_i32(plus_sum(hand.take(k + 1))));
                match self.hand[k] {
                    Card::Number(value) => points_scored = points_scored + value,
                    Card::Modifier { is_mult, value } => {
                        if is_mult {
                            multipliers.push(value);
                        } else {
                            modifier_value = modifier_value + value;
                        }
                    },
                    Card::Action(_) => {},
                }
                k = k + 1;
            }
            assert(hand.take(hand.len() as int) =~= hand);
            let ghost n = number_sum(hand);
            let ghost m = mult_values(hand);
            let mut j: usize = 0;
            assert(m.take(0) =~= Seq::<i32>::empty());
            while j < multipliers.len()
                invariant
                    scoring_fits(hand, self.flip7),
                    n == number_sum(hand),
                    m == mult_values(hand),
                    multipliers@ == m,
                    j <= m.len(),
                    points_scored == n * product(m.take(j as int)),
                decreases m.len() - j,
            {
                assert(m.take(j + 1).drop_last() =~= m.take(j as int));
                let ghost p = product(m.take(j as int));
                let f = multipliers[j];
                assert(product(m.take(j + 1)) == p * f);
                assert(n * (p * f) == (n * p) * f) by (nonlinear_arith);
                assert(fits_i32(n * product(m.take(j + 1))));
                points_scored = points_scored * f;
                j = j + 1;
            }
            assert(m.take(m.len() as int) =~= m);
            points_scored = points_scored + modifier_value;
            if self.flip7 {
                points_scored = points_scored + 15;
            }
        }
        points_scored
    }

    /// The banked score plus this round's points.
    pub fn get_live_score(&self) -> (live: i32)
        requires
            self.score_fits(),
        ensures
            live == self.live_score(),
    {
        self.score + self.get_points_scored()
    }

    /// Does the player choose to stay: are this round's points at least the
    /// stay value?
    pub fn should_stay(&self) -> (r: bool)
        requires
            self.score_fits(),
        ensures
            r == (self.points() >= self.stay_value),
    {
        self.get_live_score() - self.score >= self.stay_value
    }

    /// Takes a turn with a drawn card: it joins the hand where `draw` takes
    /// it. A number card the hand already holds is a bust: a second chance
    /// is used up if the player has one, else the player is out; the card is
    /// handed back. An action card is handed back as is.
    pub fn take_turn(&mut self, card: Card) -> (r: Option<Card>)
        ensures
            final(self).name == old(self).name,
            final(self).stay_value == old(self).stay_value,
            final(self).score == old(self).score,
            final(self).flip7 == old(self).flip7,
            final(self).stay == old(self).stay,
            final(self).strategies == old(self).strategies,
            (card is Modifier || (card is Number && !old(self).hand@.contains(card))) ==> {
                &&& r is None
                &&& final(self).hand@ == old(self).hand@.push(card)
                &&& final(self).second_chance == old(self).second_chance
                &&& final(self).out == old(self).out
            },
            card is Action ==> {
                &&& r == Some(card)
                &&& final(self).hand@ == old(self).hand@
                &&& final(self).second_chance == old(self).second_chance
                &&& final(self).out == old(self).out
            },
            (card is Number && old(self).hand@.contains(card)) ==> {
                &&& r == Some(card)
                &&& final(self).hand@ == old(self).hand@
                &&& final(self).second_chance == false
                &&& final(self).out == (old(self).out || !old(self).second_chance)
            },
            numbers_distinct(old(self).hand@) ==> numbers_distinct(final(self).hand@),
    {
        let handle_card = self.draw(card);
        match handle_card {
            Some(c) => {
                match c {
                    Card::Number(_) => {
                        if self.second_chance {
                            self.second_chance = false;
                        } else {
                            self.out = true;
                        }
                        handle_card
                    },
                    _ => handle_card,
                }
            },
            None => None,
        }
    }

    /// Ends the round: banks the live score, returns the hand (leaving it
    /// empty) and clears the out, Flip 7, second chance and stayed flags.
    pub fn end_round(&mut self) -> (hand: Vec<Card>)
        requires
            old(self).score_fits(),
        ensures
            hand@ == old(self).hand@,
            final(self).score == old(self).live_score(),
            final(self).hand@.len() == 0,
            !final(self).out,
            !final(self).flip7,
            !final(self).second_chance,
            !final(self).stay,
            final(self).name == old(self).name,
            final(self).stay_value == old(self).stay_value,
            final(self).strategies == old(self).strategies,
    {
        self.score = self.get_live_score();
        let hand = self.discard_hand();
        self.out = false;
        self.flip7 = false;
        self.second_chance = false;
        self.stay = false;
        hand
    }

    /// How many cards of the hand are number cards.
    pub fn number_card_count(&self) -> (n: usize)
        ensures
            n == count_numbers(self.hand@),
    {
        let mut n: usize = 0;
        let mut i: usize = 0;
        while i < self.hand.len()
            invariant
                i <= self.hand@.len(),
                n == count_numbers(self.hand@.take(i as int)),
                n <= i,
            decreases self.hand@.len() - i,
        {
            assert(self.hand@.take(i + 1).drop_last() =~= self.hand@.take(i as int));
            if let Card::Number(_) = self.hand[i] {
                n = n + 1;
            }
            i = i + 1;
        }
        assert(self.hand@.take(self.hand@.len() as int) =~= self.hand@);
        n
    }

    /// How many cards of the hand are modifiers.
    pub fn modifier_card_count(&self) -> (n: usize)
        ensures
            n == count_modifiers(self.hand@),
    {
        let mut n: usize = 0;
        let mut i: usize = 0;
        while i < self.hand.len()
            invariant
                i <= self.hand@.len(),
                n == count_modifiers(self.hand@.take(i as int)),
                n <= i,
            decreases self.hand@.len() - i,
        {
            assert(self.hand@.take(i + 1).drop_last() =~= self.hand@.take(i as int));
            if let Card::Modifier { .. } = self.hand[i] {
                n = n + 1;
            }
            i = i + 1;
        }
        assert(self.hand@.take(self.hand@.len() as int) =~= self.hand@);
        n
    }

    /// How many cards of the hand are actions.
    pub fn action_card_count(&self) -> (n: usize)
        ensures
            n == count_actions(self.hand@),
    {
        let mut n: usize = 0;
        let mut i: usize = 0;
        while i < self.hand.len()
            invariant
                i <= self.hand@.len(),
                n == count_actions(self.hand@.take(i as int)),
                n <= i,
            decreases self.hand@.len() - i,
        {
            assert(self.hand@.take(i + 1).drop_last() =~= self.hand@.take(i as int));
            if let Card::Action(_) = self.hand[i] {
                n = n + 1;
            }
            i = i + 1;
        }
        assert(self.hand@.take(self.hand@.len() as int) =~= self.hand@);
        n
    }

    /// A summary of the player: name, score, live score, hand size, how many
    /// number, modifier and action cards the hand holds, and the second
    /// chance, out and stayed flags, one per line.
    pub fn to_string(&self) -> (s: String)
        requires
            self.score_fits(),
        ensures
            s@ == player_text(*self),
    {
        let mut s = String::from_str("Player Summary:\n\tName: ");
        s.append(self.name.as_str());
        s.append("\n\tScore: ");
        push_int(&mut s, self.score as i64);
        s.append("\n\tLive Score: ");
        push_int(&mut s, self.get_live_score() as i64);
        s.append("\n\tHand Size: ");
        push_nat(&mut s, self.hand.len() as u64);
        s.append("\n\tNumber Cards: ");
        push_nat(&mut s, self.number_card_count() as u64);
        s.append("\n\tModifier Cards: ");
        push_nat(&mut s, self.modifier_card_count() as u64);
        s.append("\n\tAction Cards: ");
        push_nat(&mut s, self.action_card_count() as u64);
        s.append("\n\tSecond Chance: ");
        push_bool(&mut s, self.second_chance);
        s.append("\n\tOut: ");
        push_bool(&mut s, self.out);
        s.append("\n\tStayed: ");
        push_bool(&mut s, self.stay);
        s
    }
}

} // verus!

verus! {

/// What a single card adds to the number sum.
pub open spec fn number_value(c: Card) -> int {
    match c {
        Card::Number(v) => v as int,
        _ => 0,
    }
}

/// What a single card adds to the `+` modifiers.
pub open spec fn plus_value(c: Card) -> int {
    match c {
        Card::Modifier { is_mult, value } => if is_mult {
            0
        } else {
            value as int
        },
        _ => 0,
    }
}

/// What a single card multiplies the number sum by.
pub open spec fn mult_factor(c: Card) -> int {
    match c {
        Card::Modifier { is_mult, value } => if is_mult {
            value as int
        } else {
            1
        },
        _ => 1,
    }
}

proof fn lemma_sums_concat(a: Seq<Card>, b: Seq<Card>)
    ensures
        number_sum(a + b) == number_sum(a) + number_sum(b),
        plus_sum(a + b) == plus_sum(a) + plus_sum(b),
        mult_values(a + b) == mult_values(a) + mult_values(b),
    decreases b.len(),
{
    if b.len() == 0 {
        assert(a + b =~= a);
        assert(mult_values(a) + mult_values(b) =~= mult_values(a));
    } else {
        lemma_sums_concat(a, b.drop_last());
        assert((a + b).drop_last() =~= a + b.drop_last());
        assert((a + b).last() == b.last());
        let m = mult_values(a);
        let mb = mult_values(b.drop_last());
        assert((m + mb).push(b.last()->value) =~= m + mb.push(b.last()->value)) by {
            if b.last() is Modifier {
            }
        }
    }
}

proof fn lemma_product_concat(a: Seq<i32>, b: Seq<i32>)
    ensures
        product(a + b) == product(a) * product(b),
    decreases b.len(),
{
    if b.len() == 0 {
        assert(a + b =~= a);
    } else {
        lemma_product_concat(a, b.drop_last());
        assert((a + b).drop_last() =~= a + b.drop_last());
        let pa = product(a);
        let pb = product(b.drop_last());
        let x = b.last() as int;
        assert(pa * pb * x == pa * (pb * x)) by (nonlinear_arith);
    }
}

proof fn lemma_one_card(c: Card)
    ensures
        number_sum(seq![c]) == number_value(c),
        plus_sum(seq![c]) == plus_value(c),
        product(mult_values(seq![c])) == mult_factor(c),
{
    assert(seq![c].drop_last() =~= Seq::<Card>::empty());
    assert(seq![c].last() == c);
    let e = Seq::<i32>::empty();
    assert(mult_values(Seq::<Card>::empty()) == e);
    assert(number_sum(Seq::<Card>::empty()) == 0);
    assert(plus_sum(Seq::<Card>::empty()) == 0);
    assert(number_sum(seq![c]) == number_sum(seq![c].drop_last()) + number_value(c));
    assert(plus_sum(seq![c]) == plus_sum(seq![c].drop_last()) + plus_value(c));
    if let Card::Modifier { is_mult, value } = c {
        if is_mult {
            assert(mult_values(seq![c]) == e.push(value));
            assert(e.push(value).drop_last() =~= e);
            assert(product(e) == 1);
            assert(product(e.push(value)) == product(e) * value);
        } else {
            assert(mult_values(seq![c]) == e);
            assert(product(e) == 1);
        }
    } else {
        assert(mult_values(seq![c]) == e);
        assert(product(e) == 1);
    }
}

proof fn lemma_remove_card(s: Seq<Card>, j: int)
    requires
        0 <= j < s.len(),
    ensures
        number_sum(s) == number_sum(s.remove(j)) + number_value(s[j]),
        plus_sum(s) == plus_sum(s.remove(j)) + plus_value(s[j]),
        product(mult_values(s)) == product(mult_values(s.remove(j))) * mult_factor(s[j]),
{
    let a = s.subrange(0, j);
    let b = s.subrange(j + 1, s.len() as int);
    let x = seq![s[j]];
    assert(s =~= a + x + b);
    assert(s.remove(j) =~= a + b);
    lemma_sums_concat(a + x, b);
    lemma_sums_concat(a, x);
    lemma_sums_concat(a, b);
    lemma_one_card(s[j]);
    let ma = mult_values(a);
    let mx = mult_values(x);
    let mb = mult_values(b);
    lemma_product_concat(ma + mx, mb);
    lemma_product_concat(ma, mx);
    lemma_product_concat(ma, mb);
    let pa = product(ma);
    let px = product(mx);
    let pb = product(mb);
    assert(pa * px * pb == pa * pb * px) by (nonlinear_arith);
}

/// A hand's sums and the product of its multipliers do not depend on the
/// order of its cards.
pub proof fn lemma_scoring_order_free(s: Seq<Card>, t: Seq<Card>)
    requires
        s.to_multiset() == t.to_multiset(),
    ensures
        number_sum(s) == number_sum(t),
        plus_sum(s) == plus_sum(t),
        product(mult_values(s)) == product(mult_values(t)),
    decreases t.len(),
{
    broadcast use vstd::seq_lib::group_to_multiset_ensures;
    broadcast use vstd::multiset::group_multiset_axioms;

    if t.len() == 0 {
        assert(s.to_multiset().len() == s.len());
        assert(t.to_multiset().len() == t.len());
        assert(s.len() == 0);
        assert(s =~= t);
    } else {
        let x = t.last();
        let t1 = t.drop_last();
        assert(t == t1.push(x));
        assert(t.to_multiset().count(x) > 0);
        assert(s.contains(x));
        let j = choose|j: int| 0 <= j < s.len() && s[j] == x;
        let s1 = s.remove(j);
        assert(s1.to_multiset() =~= t1.to_multiset());
        lemma_scoring_order_free(s1, t1);
        lemma_remove_card(s, j);
        lemma_remove_card(t, t.len() - 1);
        assert(t.remove(t.len() - 1) =~= t1);
    }
}

/// The points of a hand do not depend on the order of its cards.
pub proof fn lemma_points_order_free(s: Seq<Card>, t: Seq<Card>, out: bool, flip7: bool)
    requires
        s.to_multiset() == t.to_multiset(),
    ensures
        round_points(s, out, flip7) == round_points(t, out, flip7),
{
    lemma_scoring_order_free(s, t);
}

} // verus!
