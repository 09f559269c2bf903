//! The deck of Flip 7: its standard contents, dealing and reshuffling.
use vstd::prelude::*;
use crate::card::{ActionType, Card};
use crate::chance::shuffle_cards;
use vstd::multiset::Multiset;

verus! {

broadcast use vstd::seq_lib::group_to_multiset_ensures;

/// The number of cards in a full deck.
pub const EXPECTED_NUM_CARDS: usize = 94;

/// `v` number cards of value `v`.
pub open spec fn number_run(v: nat) -> Seq<Card> {
    Seq::new(v, |_i: int| Card::Number(v as i32))
}

/// One number card of value 0, then for each value `v` from 1 to `k`,
/// `v` number cards of value `v`.
pub open spec fn numbers_upto(k: nat) -> Seq<Card>
    decreases k,
{
    if k == 0 {
        seq![Card::Number(0)]
    } else {
        numbers_upto((k - 1) as nat) + number_run(k)
    }
}

/// The number cards of a deck, in the order they are added.
pub open spec fn number_cards() -> Seq<Card> {
    numbers_upto(12)
}

/// `+2`, `+4`, ..., `+2k`.
pub open spec fn plus_modifiers(k: nat) -> Seq<Card> {
    Seq::new(k, |i: int| Card::Modifier { is_mult: false, value: (2 * i + 2) as i32 })
}

/// The modifier cards of a deck: `+2`, `+4`, `+6`, `+8`, `+10` and `x2`.
pub open spec fn modifier_cards() -> Seq<Card> {
    plus_modifiers(5).push(Card::Modifier { is_mult: true, value: 2 })
}

/// `n` copies of an action card.
pub open spec fn action_run(t: ActionType, n: nat) -> Seq<Card> {
    Seq::new(n, |_i: int| Card::Action(t))
}

/// The action cards of a deck: three of each action, Freeze first, then
/// Flip Three, then Second Chance.
pub open spec fn action_cards() -> Seq<Card> {
    action_run(ActionType::Freeze, 3) + action_run(ActionType::Flip3, 3) + action_run(
        ActionType::SecondChance,
        3,
    )
}

/// A full deck before shuffling.
pub open spec fn standard_deck() -> Seq<Card> {
    number_cards() + modifier_cards() + action_cards()
}

/// The cards of a full deck, each as often as it occurs there.
pub open spec fn standard_cards() -> Multiset<Card> {
    standard_deck().to_multiset()
}

/// The deck has 79 number cards, 6 modifiers and 9 actions: 94 in all.
pub proof fn lemma_standard_deck_len()
    ensures
        number_cards().len() == 79,
        modifier_cards().len() == 6,
        action_cards().len() == 9,
        standard_deck().len() == EXPECTED_NUM_CARDS,
{
    reveal_with_fuel(numbers_upto, 13);
}

proof fn lemma_run_count(x: Card, n: nat, y: Card)
    ensures
        Seq::new(n, |_i: int| x).to_multiset().count(y) == if y == x {
            n
        } else {
            0
        },
    decreases n,
{
    broadcast use vstd::multiset::group_multiset_axioms;

    if n > 0 {
        lemma_run_count(x, (n - 1) as nat, y);
        assert(Seq::new(n, |_i: int| x) =~= Seq::new((n - 1) as nat, |_i: int| x).push(x));
    } else {
        assert(Seq::new(n, |_i: int| x) =~= Seq::<Card>::empty());
        assert(Seq::<Card>::empty().to_multiset().len() == 0);
    }
}

proof fn lemma_numbers_count(k: nat, v: i32)
    requires
        k <= 12,
    ensures
        numbers_upto(k).to_multiset().count(Card::Number(v)) == if v == 0 {
            1
        } else if 1 <= v <= k {
            v as nat
        } else {
            0
        },
    decreases k,
{
    broadcast use vstd::multiset::group_multiset_axioms;

    if k == 0 {
        assert(seq![Card::Number(0)] =~= Seq::<Card>::empty().push(Card::Number(0)));
        assert(Seq::<Card>::empty().to_multiset().len() == 0);
    } else {
        lemma_numbers_count((k - 1) as nat, v);
        vstd::seq_lib::lemma_multiset_commutative(numbers_upto((k - 1) as nat), number_run(k));
        lemma_run_count(Card::Number(k as i32), k, Card::Number(v));
        assert(number_run(k) == Seq::new(k, |_i: int| Card::Number(k as i32)));
    }
}

proof fn lemma_count_absent(s: Seq<Card>, c: Card)
    requires
        !s.contains(c),
    ensures
        s.to_multiset().count(c) == 0,
{
    broadcast use vstd::seq_lib::group_to_multiset_ensures;
}

/// A full deck holds one 0, `v` cards of each number `v` from 1 to 12 (79
/// number cards), one each of `+2`, `+4`, `+6`, `+8`, `+10` and `x2`, and
/// three of each action: 94 cards.
pub proof fn lemma_deck_contents()
    ensures
        standard_cards().count(Card::Number(0)) == 1,
        forall|v: i32| 1 <= v <= 12 ==> #[trigger] standard_cards().count(Card::Number(v)) == v,
        forall|v: i32| v < 0 || v > 12 ==> #[trigger] standard_cards().count(Card::Number(v)) == 0,
        forall|v: i32|
            v == 2 || v == 4 || v == 6 || v == 8 || v == 10 ==> #[trigger] standard_cards().count(
                Card::Modifier { is_mult: false, value: v },
            ) == 1,
        standard_cards().count(Card::Modifier { is_mult: true, value: 2 }) == 1,
        standard_cards().count(Card::Action(ActionType::Freeze)) == 3,
        standard_cards().count(Card::Action(ActionType::Flip3)) == 3,
        standard_cards().count(Card::Action(ActionType::SecondChance)) == 3,
        standard_cards().len() == EXPECTED_NUM_CARDS,
{
    broadcast use vstd::seq_lib::group_to_multiset_ensures;
    broadcast use vstd::multiset::group_multiset_axioms;

    lemma_standard_deck_len();
    let n = number_cards();
    let m = modifier_cards();
    let r1 = action_run(ActionType::Freeze, 3);
    let r2 = action_run(ActionType::Flip3, 3);
    let r3 = action_run(ActionType::SecondChance, 3);
    let a = action_cards();
    vstd::seq_lib::lemma_multiset_commutative(n + m, a);
    vstd::seq_lib::lemma_multiset_commutative(n, m);
    vstd::seq_lib::lemma_multiset_commutative(r1 + r2, r3);
    vstd::seq_lib::lemma_multiset_commutative(r1, r2);
    assert(a == r1 + r2 + r3);
    let p = plus_modifiers(5);
    assert(m == p.push(Card::Modifier { is_mult: true, value: 2 }));
    assert(p =~= seq![
        Card::Modifier { is_mult: false, value: 2 },
        Card::Modifier { is_mult: false, value: 4 },
        Card::Modifier { is_mult: false, value: 6 },
        Card::Modifier { is_mult: false, value: 8 },
        Card::Modifier { is_mult: false, value: 10 },
    ]);
    assert forall|c: Card| c is Number implies #[trigger] m.to_multiset().count(c) == 0
        && a.to_multiset().count(c) == 0 by {
        lemma_run_count(Card::Action(ActionType::Freeze), 3, c);
        lemma_run_count(Card::Action(ActionType::Flip3), 3, c);
        lemma_run_count(Card::Action(ActionType::SecondChance), 3, c);
        assert(!m.contains(c)) by {
            if m.contains(c) {
                let j = choose|j: int| 0 <= j < m.len() && m[j] == c;
                assert(m[j] is Modifier);
            }
        }
        lemma_count_absent(m, c);
    }
    assert forall|v: i32| #[trigger] standard_cards().count(Card::Number(v)) == n.to_multiset().count(
        Card::Number(v),
    ) by {
        assert(m.to_multiset().count(Card::Number(v)) == 0);
    }
    assert forall|v: i32| #[trigger] n.to_multiset().count(Card::Number(v)) == if v == 0 {
        1
    } else if 1 <= v <= 12 {
        v as nat
    } else {
        0
    } by {
        lemma_numbers_count(12, v);
    }
    lemma_numbers_count(12, 0);
    assert forall|c: Card| !(c is Number) implies #[trigger] n.to_multiset().count(c) == 0 by {
        lemma_numbers_all_numbers(12);
        assert(!n.contains(c)) by {
            if n.contains(c) {
                let j = choose|j: int| 0 <= j < n.len() && n[j] == c;
            }
        }
        lemma_count_absent(n, c);
    }
    assert forall|c: Card| c is Modifier implies #[trigger] a.to_multiset().count(c) == 0 by {
        lemma_run_count(Card::Action(ActionType::Freeze), 3, c);
        lemma_run_count(Card::Action(ActionType::Flip3), 3, c);
        lemma_run_count(Card::Action(ActionType::SecondChance), 3, c);
    }
    assert forall|c: Card| c is Action implies #[trigger] m.to_multiset().count(c) == 0 by {
        assert(!m.contains(c)) by {
            if m.contains(c) {
                let j = choose|j: int| 0 <= j < m.len() && m[j] == c;
                assert(m[j] is Modifier);
            }
        }
        lemma_count_absent(m, c);
    }
    assert forall|t: ActionType| #[trigger] a.to_multiset().count(Card::Action(t)) == 3 by {
        lemma_run_count(Card::Action(ActionType::Freeze), 3, Card::Action(t));
        lemma_run_count(Card::Action(ActionType::Flip3), 3, Card::Action(t));
        lemma_run_count(Card::Action(ActionType::SecondChance), 3, Card::Action(t));
    }
    let e = Seq::<Card>::empty();
    let s1 = e.push(Card::Modifier { is_mult: false, value: 2 });
    let s2 = s1.push(Card::Modifier { is_mult: false, value: 4 });
    let s3 = s2.push(Card::Modifier { is_mult: false, value: 6 });
    let s4 = s3.push(Card::Modifier { is_mult: false, value: 8 });
    let s5 = s4.push(Card::Modifier { is_mult: false, value: 10 });
    assert(p =~= s5);
    assert(e.to_multiset().len() == 0);
    assert(e.to_multiset() =~= Multiset::empty());
    assert(s1.to_multiset() =~= e.to_multiset().insert(Card::Modifier { is_mult: false, value: 2 }));
    assert(s2.to_multiset() =~= s1.to_multiset().insert(Card::Modifier { is_mult: false, value: 4 }));
    assert(s3.to_multiset() =~= s2.to_multiset().insert(Card::Modifier { is_mult: false, value: 6 }));
    assert(s4.to_multiset() =~= s3.to_multiset().insert(Card::Modifier { is_mult: false, value: 8 }));
    assert(s5.to_multiset() =~= s4.to_multiset().insert(Card::Modifier { is_mult: false, value: 10 }));
    assert(m.to_multiset() =~= s5.to_multiset().insert(Card::Modifier { is_mult: true, value: 2 }));
    assert forall|v: i32|
        v == 2 || v == 4 || v == 6 || v == 8 || v == 10 implies #[trigger] standard_cards().count(
            Card::Modifier { is_mult: false, value: v },
        ) == 1 by {
        let c = Card::Modifier { is_mult: false, value: v };
        assert(n.to_multiset().count(c) == 0);
        assert(a.to_multiset().count(c) == 0);
        assert(m.to_multiset().count(c) == 1);
    }
    assert(a.to_multiset().count(Card::Action(ActionType::Freeze)) == 3);
    assert(a.to_multiset().count(Card::Action(ActionType::Flip3)) == 3);
    assert(a.to_multiset().count(Card::Action(ActionType::SecondChance)) == 3);
    assert(standard_cards().len() == standard_deck().len());
}

proof fn lemma_numbers_all_numbers(k: nat)
    requires
        k <= 12,
    ensures
        forall|i: int| 0 <= i < numbers_upto(k).len() ==> #[trigger] numbers_upto(k)[i] is Number,
    decreases k,
{
    if k > 0 {
        lemma_numbers_all_numbers((k - 1) as nat);
        let a = numbers_upto((k - 1) as nat);
        let b = number_run(k);
        assert forall|i: int| 0 <= i < numbers_upto(k).len() implies #[trigger] numbers_upto(k)[i] is Number by {
            if i < a.len() {
                assert(numbers_upto(k)[i] == a[i]);
            } else {
                assert(numbers_upto(k)[i] == b[i - a.len()]);
            }
        }
    }
}

/// The draw pile.
pub struct Deck {
    pub cards: Vec<Card>,
}

/// How often a card occurs in a pile: a card and its count.
pub struct CardCount {
    pub card: Card,
    pub count: usize,
}

impl Deck {
    /// A full deck of 94 cards (79 number cards, 6 modifiers, 9 actions),
    /// shuffled.
    pub fn new() -> (deck: Deck)
        ensures
            deck.cards@.to_multiset() == standard_cards(),
            deck.cards@.len() == EXPECTED_NUM_CARDS,
    {
        let cards: Vec<Card> = Vec::new();
        let mut deck = Deck { cards };
        deck.add_numbers();
        deck.add_modifiers();
        deck.add_actions();
        proof {
            lemma_standard_deck_len();
            assert(deck.cards@ =~= standard_deck());
        }
        deck.shuffle();
        deck
    }

    /// Adds one number card of value 0 and, for each value `i` from 1 to 12,
    /// `i` number cards of value `i`: 79 cards.
    pub fn add_numbers(&mut self)
        ensures
            final(self).cards@ == old(self).cards@ + number_cards(),
    {
        self.cards.push(Card::Number(0));
        assert(self.cards@ =~= old(self).cards@ + numbers_upto(0));
        let mut i: i32 = 1;
        while i <= 12
            invariant
                1 <= i <= 13,
                self.cards@ == old(self).cards@ + numbers_upto((i - 1) as nat),
            decreases 13 - i,
        {
            let ghost before = self.cards@;
            let mut j: i32 = 0;
            while j < i
                invariant
                    1 <= i <= 12,
                    0 <= j <= i,
                    self.cards@ == before + number_run(i as nat).take(j as int),
                decreases i - j,
            {
                self.cards.push(Card::Number(i));
                assert(number_run(i as nat).take(j + 1) =~= number_run(i as nat).take(
                    j as int,
                ).push(Card::Number(i)));
                j = j + 1;
            }
            assert(number_run(i as nat).take(i as int) =~= number_run(i as nat));
            assert(self.cards@ =~= old(self).cards@ + numbers_upto(i as nat));
            i = i + 1;
        }
    }

    /// Adds the modifiers `+2`, `+4`, `+6`, `+8`, `+10` and `x2`: 6 cards.
    pub fn add_modifiers(&mut self)
        ensures
            final(self).cards@ == old(self).cards@ + modifier_cards(),
    {
        let mut i: i32 = 2;
        while i <= 10
            invariant
                2 <= i <= 12,
                i % 2 == 0,
                self.cards@ == old(self).cards@ + plus_modifiers(((i - 2) / 2) as nat),
            decreases 12 - i,
        {
            self.cards.push(Card::Modifier { is_mult: false, value: i });
            assert(plus_modifiers((i / 2) as nat) =~= plus_modifiers(
                ((i - 2) / 2) as nat,
            ).push(Card::Modifier { is_mult: false, value: i }));
            i = i + 2;
        }
        self.cards.push(Card::Modifier { is_mult: true, value: 2 });
        assert(self.cards@ =~= old(self).cards@ + modifier_cards());
    }

    fn add_action_run(&mut self, t: ActionType)
        ensures
            final(self).cards@ == old(self).cards@ + action_run(t, 3),
    {
        let mut k: usize = 0;
        while k < 3
            invariant
                k <= 3,
                self.cards@ == old(self).cards@ + action_run(t, k as nat),
            decreases 3 - k,
        {
            self.cards.push(Card::Action(t));
            assert(action_run(t, (k + 1) as nat) =~= action_run(t, k as nat).push(
                Card::Action(t),
            ));
            k = k + 1;
        }
    }

    /// Adds three Freeze, three Flip Three and three Second Chance cards:
    /// 9 cards.
    pub fn add_actions(&mut self)
        ensures
            final(self).cards@ == old(self).cards@ + action_cards(),
    {
        self.add_action_run(ActionType::Freeze);
        self.add_action_run(ActionType::Flip3);
        self.add_action_run(ActionType::SecondChance);
        assert(self.cards@ =~= old(self).cards@ + action_cards());
    }

    /// Shuffles the deck: the same cards, in an order left to chance.
    pub fn shuffle(&mut self)
        ensures
            final(self).cards@.to_multiset() == old(self).cards@.to_multiset(),
            final(self).cards@.len() == old(self).cards@.len(),
    {
        shuffle_cards(&mut self.cards);
    }

    /// Deals the top card (the last of `cards`), or `None` when the deck is
    /// empty.
    pub fn deal(&mut self) -> (card: Option<Card>)
        ensures
            old(self).cards@.len() == 0 ==> card is None && final(self).cards@ == old(
                self,
            ).cards@,
            old(self).cards@.len() > 0 ==> card == Some(old(self).cards@.last())
                && final(self).cards@ == old(self).cards@.drop_last(),
    {
        self.cards.pop()
    }

    /// Refills the empty deck with the discard pile, which is left empty, and
    /// shuffles it.
    pub fn reset_discard(&mut self, discard: &mut Vec<Card>)
        requires
            old(self).cards@.len() == 0,
        ensures
            final(discard)@.len() == 0,
            final(self).cards@.to_multiset() == old(discard)@.to_multiset(),
            final(self).cards@.len() == old(discard)@.len(),
    {
        let mut taken: Vec<Card> = Vec::new();
        std::mem::swap(&mut taken, discard);
        self.cards = taken;
        self.shuffle();
    }

    /// Each distinct card of the deck once, with how often it occurs.
    pub fn card_counts(&self) -> (counts: Vec<CardCount>)
        ensures
            forall|i: int, j: int|
                0 <= i < j < counts@.len() ==> counts@[i].card != counts@[j].card,
            forall|i: int|
                0 <= i < counts@.len() ==> #[trigger] counts@[i].count
                    == self.cards@.to_multiset().count(counts@[i].card),
            forall|c: Card|
                self.cards@.contains(c) <==> exists|i: int|
                    0 <= i < counts@.len() && #[trigger] counts@[i].card == c,
    {
        let mut counts: Vec<CardCount> = Vec::new();
        let mut k: usize = 0;
        while k < self.cards.len()
            invariant
                k <= self.cards@.len(),
                forall|i: int, j: int|
                    0 <= i < j < counts@.len() ==> counts@[i].card != counts@[j].card,
                forall|i: int|
                    0 <= i < counts@.len() ==> #[trigger] counts@[i].count
                        == self.cards@.take(k as int).to_multiset().count(counts@[i].card),
                forall|c: Card|
                    self.cards@.take(k as int).contains(c) <==> exists|i: int|
                        0 <= i < counts@.len() && #[trigger] counts@[i].card == c,
            decreases self.cards@.len() - k,
        {
            let c = self.cards[k];
            let ghost prefix = self.cards@.take(k as int);
            assert(self.cards@.take(k + 1) =~= prefix.push(c));
            let mut idx: usize = counts.len();
            let mut i: usize = 0;
            while i < counts.len()
                invariant
                    i <= counts@.len(),
                    idx == counts@.len() || (idx < i && counts@[idx as int].card == c),
                    idx == counts@.len() ==> forall|m: int| 0 <= m < i ==> counts@[m].card != c,
                decreases counts@.len() - i,
            {
                if idx == counts.len() && counts[i].card == c {
                    idx = i;
                }
                i = i + 1;
            }
            proof {
                broadcast use vstd::multiset::group_multiset_axioms;
                assert(prefix.to_multiset().len() == prefix.len());
                assert(prefix.to_multiset().count(c) <= prefix.to_multiset().len());
            }
            let ghost old_counts = counts@;
            if idx < counts.len() {
                let n = counts[idx].count;
                counts.set(idx, CardCount { card: c, count: n + 1 });
            } else {
                counts.push(CardCount { card: c, count: 1 });
            }
            proof {
                assert forall|d: Card|
                    #[trigger] self.cards@.take(k + 1).contains(d) <==> exists|m: int|
                        0 <= m < counts@.len() && #[trigger] counts@[m].card == d by {
                    if d == c {
                        if idx < old_counts.len() {
                            assert(counts@[idx as int].card == d);
                        } else {
                            assert(counts@[old_counts.len() as int].card == d);
                        }
                        assert(prefix.push(c)[k as int] == d);
                    } else {
                        if prefix.contains(d) {
                            let m = choose|m: int| 0 <= m < old_counts.len() && #[trigger] old_counts[m].card == d;
                            assert(counts@[m].card == d);
                            let j = choose|j: int| 0 <= j < prefix.len() && prefix[j] == d;
                            assert(prefix.push(c)[j] == d);
                        }
                        if exists|m: int| 0 <= m < counts@.len() && #[trigger] counts@[m].card == d {
                            let m = choose|m: int| 0 <= m < counts@.len() && #[trigger] counts@[m].card == d;
                            assert(old_counts[m].card == d);
                            assert(prefix.contains(d));
                            let j = choose|j: int| 0 <= j < prefix.len() && prefix[j] == d;
                            assert(prefix.push(c)[j] == d);
                        }
                        if prefix.push(c).contains(d) {
                            let j = choose|j: int| 0 <= j < prefix.push(c).len() && prefix.push(c)[j] == d;
                            assert(prefix[j] == d);
                        }
                    }
                }
            }
            k = k + 1;
        }
        assert(self.cards@.take(self.cards@.len() as int) =~= self.cards@);
        counts
    }
}

} // verus!
