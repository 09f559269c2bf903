//! A game of Flip 7: the players, the deck and the discard piles, and the
//! rules of turns and rounds.
use vstd::prelude::*;
use vstd::multiset::Multiset;
use std::collections::VecDeque;
use crate::chance::random_index;
use crate::bounds::{from_one_deck, lemma_player_fits, POINTS_BOUND, SCORE_LIMIT};
use crate::card::{ActionType, Card};
use crate::deck::{standard_cards, Deck, EXPECTED_NUM_CARDS};
use crate::event::{Event, GameError, ScoreLine};
use crate::player::{count_numbers, mult_values, Player};
use crate::strategy::Strategy;
use crate::text::{lemma_nat_text_injective, nat_text, push_nat};

verus! {

/// The cards in the hands of a sequence of players.
pub open spec fn hands(players: Seq<Player>) -> Multiset<Card>
    decreases players.len(),
{
    if players.len() == 0 {
        Multiset::empty()
    } else {
        hands(players.drop_last()).add(players.last().hand@.to_multiset())
    }
}

/// The name of the `i`th player of a new game: "Player 0", "Player 1", ...
pub open spec fn player_name(i: nat) -> Seq<char> {
    "Player "@ + nat_text(i)
}

/// A banked score with which a round can be played.
pub open spec fn score_in_range(p: Player) -> bool {
    0 <= p.score <= SCORE_LIMIT
}

/// The players in `players` whose banked score reaches the target.
pub open spec fn reaches(players: Seq<Player>, target: i32, j: int) -> bool {
    0 <= j < players.len() && players[j].score >= target
}

/// Player `i` wins: their score reaches the target, no player's reaching
/// score is higher, and every later reaching player scores less (among
/// equal best scores, the last player wins).
pub open spec fn is_winner(players: Seq<Player>, target: i32, i: int) -> bool {
    &&& reaches(players, target, i)
    &&& forall|j: int| #[trigger]
        reaches(players, target, j) ==> players[j].score <= players[i].score
    &&& forall|j: int| i < j && #[trigger] reaches(players, target, j) ==> players[j].score
        < players[i].score
}

/// A player's standing as the scoreboard shows it.
pub open spec fn shows(line: ScoreLine, p: Player) -> bool {
    &&& line.name@ == p.name@
    &&& line.out == p.out
    &&& line.stay == p.stay
    &&& line.score == p.score
    &&& line.live == p.live_score()
    &&& line.points == p.points()
}

/// An empty pile holds no card.
pub proof fn lemma_empty_pile(s: Seq<Card>)
    requires
        s.len() == 0,
    ensures
        s.to_multiset() =~= Multiset::empty(),
{
    broadcast use vstd::seq_lib::group_to_multiset_ensures;
    broadcast use vstd::multiset::lemma_multiset_empty_len;

    assert(s.to_multiset().len() == 0);
}

proof fn lemma_hands_push(s: Seq<Player>, p: Player)
    ensures
        hands(s.push(p)) == hands(s).add(p.hand@.to_multiset()),
{
    assert(s.push(p).drop_last() =~= s);
}

/// Taking a player out of the sequence takes their hand out of `hands`.
pub proof fn lemma_hands_remove(s: Seq<Player>, i: int)
    requires
        0 <= i < s.len(),
    ensures
        hands(s) == hands(s.remove(i)).add(s[i].hand@.to_multiset()),
    decreases s.len(),
{
    broadcast use vstd::multiset::group_multiset_axioms;

    if i == s.len() - 1 {
        assert(s.remove(i) =~= s.drop_last());
    } else {
        let d = s.drop_last();
        lemma_hands_remove(d, i);
        assert(d.remove(i) =~= s.remove(i).drop_last());
        assert(s.remove(i).last() == s.last());
        assert(d[i] == s[i]);
        assert(hands(s) =~= hands(s.remove(i)).add(s[i].hand@.to_multiset()));
    }
}

/// Putting a player into the sequence adds their hand to `hands`.
pub proof fn lemma_hands_insert(s: Seq<Player>, i: int, p: Player)
    requires
        0 <= i <= s.len(),
    ensures
        hands(s.insert(i, p)) == hands(s).add(p.hand@.to_multiset()),
{
    let t = s.insert(i, p);
    lemma_hands_remove(t, i);
    assert(t.remove(i) =~= s);
}

/// A player's hand is part of `hands`.
pub proof fn lemma_hand_in_hands(s: Seq<Player>, i: int)
    requires
        0 <= i < s.len(),
    ensures
        s[i].hand@.to_multiset().subset_of(hands(s)),
{
    broadcast use vstd::multiset::group_multiset_axioms;

    lemma_hands_remove(s, i);
}

/// A game in play.
pub struct Game {
    pub players: VecDeque<Player>,
    pub deck: Deck,
    pub discard: Vec<Card>,
    pub round_discard: Vec<Card>,
    pub target_score: i32,
    /// What has happened so far, oldest first.
    pub log: Vec<Event>,
}

impl Game {
    /// All the cards of the game: deck, discard piles and hands.
    pub open spec fn cards(self) -> Multiset<Card> {
        self.deck.cards@.to_multiset().add(self.discard@.to_multiset()).add(
            self.round_discard@.to_multiset(),
        ).add(hands(self.players@))
    }

    /// The cards left to deal: the deck and the discard pile.
    pub open spec fn stock(self) -> nat {
        self.deck.cards@.len() + self.discard@.len()
    }

    /// What every turn of a round that is not over lowers: the cards left
    /// to deal plus the players still in the round.
    pub open spec fn progress(self) -> nat {
        self.stock() + active_count(self.players@)
    }

    /// The game is sound: its cards could all have come from one deck, and
    /// every banked score leaves room for another round.
    pub open spec fn wf(self) -> bool {
        &&& from_one_deck(self.cards())
        &&& self.players@.len() < usize::MAX
        &&& forall|i: int| 0 <= i < self.players@.len() ==> score_in_range(#[trigger] self.players@[i])
    }

    /// The game is sound between rounds: its cards could all have come from
    /// one deck and no banked score is negative. A round starts only when,
    /// besides, every banked score leaves room for it (`wf`).
    pub open spec fn wf_between(self) -> bool {
        &&& from_one_deck(self.cards())
        &&& self.players@.len() < usize::MAX
        &&& forall|i: int| 0 <= i < self.players@.len() ==> 0 <= (#[trigger] self.players@[i]).score
    }

    /// Every player of a sound game scores without overflow.
    pub proof fn lemma_all_fit(self)
        requires
            self.wf(),
        ensures
            forall|i: int| 0 <= i < self.players@.len() ==> (#[trigger] self.players@[i]).score_fits(),
    {
        assert forall|i: int| 0 <= i < self.players@.len() implies (
        #[trigger] self.players@[i]).score_fits() by {
            self.lemma_players_fit(i);
        }
    }

    /// The game is sound with `p`, a player taken out of the queue for their
    /// turn, counted in.
    pub open spec fn wf_with(self, p: Player) -> bool {
        &&& from_one_deck(self.cards().add(p.hand@.to_multiset()))
        &&& self.players@.len() < usize::MAX
        &&& score_in_range(p)
        &&& forall|i: int| 0 <= i < self.players@.len() ==> score_in_range(#[trigger] self.players@[i])
    }

    /// In a sound game, every player scores without overflow.
    pub proof fn lemma_players_fit(self, i: int)
        requires
            self.wf(),
            0 <= i < self.players@.len(),
        ensures
            self.players@[i].score_fits(),
            0 <= self.players@[i].points() <= POINTS_BOUND,
    {
        broadcast use vstd::multiset::group_multiset_axioms;

        lemma_hand_in_hands(self.players@, i);
        assert(from_one_deck(self.players@[i].hand@.to_multiset()));
        lemma_player_fits(self.players@[i]);
    }

    /// With a player out for their turn, every player scores without
    /// overflow.
    pub proof fn lemma_players_fit_with(self, p: Player)
        requires
            self.wf_with(p),
        ensures
            p.score_fits(),
            0 <= p.points() <= POINTS_BOUND,
            forall|i: int|
                0 <= i < self.players@.len() ==> (#[trigger] self.players@[i]).score_fits()
                    && 0 <= self.players@[i].points() <= POINTS_BOUND,
    {
        broadcast use vstd::multiset::group_multiset_axioms;

        assert(from_one_deck(p.hand@.to_multiset()));
        lemma_player_fits(p);
        assert forall|i: int| 0 <= i < self.players@.len() implies (
        #[trigger] self.players@[i]).score_fits() && 0 <= self.players@[i].points()
            <= POINTS_BOUND by {
            lemma_hand_in_hands(self.players@, i);
            assert(from_one_deck(self.players@[i].hand@.to_multiset()));
            lemma_player_fits(self.players@[i]);
        }
    }

    /// A game of `num_players` players (none when it is not positive) named
    /// "Player 0", "Player 1", ..., each staying at `stay_value`, with a
    /// full shuffled deck, empty discard piles and the given target score.
    pub fn new(num_players: i32, target_score: i32, stay_value: i32) -> (game: Game)
        ensures
            game.wf(),
            game.wf_between(),
            game.players@.len() == if num_players > 0 {
                num_players as int
            } else {
                0
            },
            forall|i: int|
                0 <= i < game.players@.len() ==> {
                    let p = #[trigger] game.players@[i];
                    &&& p.name@ == player_name(i as nat)
                    &&& p.stay_value == stay_value
                    &&& p.score == 0
                    &&& p.hand@.len() == 0
                    &&& !p.second_chance && !p.out && !p.flip7 && !p.stay
                    &&& p.strategies@ == seq![Strategy::RandomFlipThree]
                },
            game.deck.cards@.to_multiset() == standard_cards(),
            game.deck.cards@.len() == EXPECTED_NUM_CARDS,
            game.discard@.len() == 0,
            game.round_discard@.len() == 0,
            game.target_score == target_score,
            game.log@.len() == 0,
    {
        broadcast use vstd::multiset::group_multiset_axioms;

        let mut game = Game {
            players: VecDeque::new(),
            deck: Deck::new(),
            discard: Vec::new(),
            round_discard: Vec::new(),
            target_score,
            log: Vec::new(),
        };
        let mut i: i32 = 0;
        while i < num_players
            invariant
                0 <= i,
                i <= num_players || (num_players <= 0 && i == 0),
                game.players@.len() == i,
                hands(game.players@) =~= Multiset::empty(),
                forall|k: int|
                    0 <= k < game.players@.len() ==> {
                        let p = #[trigger] game.players@[k];
                        &&& p.name@ == player_name(k as nat)
                        &&& p.stay_value == stay_value
                        &&& p.score == 0
                        &&& p.hand@.len() == 0
                        &&& !p.second_chance && !p.out && !p.flip7 && !p.stay
                        &&& p.strategies@ == seq![Strategy::RandomFlipThree]
                    },
                game.deck.cards@.to_multiset() == standard_cards(),
                game.deck.cards@.len() == EXPECTED_NUM_CARDS,
                game.discard@.len() == 0,
                game.round_discard@.len() == 0,
                game.target_score == target_score,
                game.log@.len() == 0,
            decreases num_players - i,
        {
            let mut name = String::from_str("Player ");
            push_nat(&mut name, i as u64);
            let player = Player::new(name, stay_value);
            proof {
                lemma_hands_push(game.players@, player);
                lemma_empty_pile(player.hand@);
            }
            game.players.push_back(player);
            i = i + 1;
        }
        proof {
            lemma_empty_pile(game.discard@);
            lemma_empty_pile(game.round_discard@);
            assert(game.cards() =~= standard_cards());
        }
        game
    }

    /// Is the round over: is every player out or stayed?
    pub fn round_over(&self) -> (over: bool)
        ensures
            over == forall|i: int|
                0 <= i < self.players@.len() ==> (#[trigger] self.players@[i]).out
                    || self.players@[i].stay,
    {
        let mut over = true;
        let mut i: usize = 0;
        while i < self.players.len()
            invariant
                i <= self.players@.len(),
                over == forall|k: int|
                    0 <= k < i ==> (#[trigger] self.players@[k]).out || self.players@[k].stay,
            decreases self.players@.len() - i,
        {
            let p = &self.players[i];
            over = over && (p.out || p.stay);
            i = i + 1;
        }
        over
    }

    /// The winner: among the players whose banked score reaches the target,
    /// the one with the highest score, the last of them on a tie; `None`
    /// when no score reaches the target.
    pub fn game_winner(&self) -> (winner: Option<&Player>)
        ensures
            winner is None <==> forall|j: int| !#[trigger] reaches(self.players@, self.target_score, j),
            winner matches Some(w) ==> exists|i: int|
                is_winner(self.players@, self.target_score, i) && *w == #[trigger] self.players@[i],
    {
        let n = self.players.len();
        let mut best: usize = n;
        let mut i: usize = 0;
        while i < n
            invariant
                n == self.players@.len(),
                i <= n,
                best <= n,
                best == n ==> forall|j: int|
                    0 <= j < i ==> !#[trigger] reaches(self.players@, self.target_score, j),
                best < n ==> best < i && reaches(self.players@, self.target_score, best as int),
                best < n ==> forall|j: int|
                    0 <= j < i && #[trigger] reaches(self.players@, self.target_score, j)
                        ==> self.players@[j].score <= self.players@[best as int].score,
                best < n ==> forall|j: int|
                    best < j < i && #[trigger] reaches(self.players@, self.target_score, j)
                        ==> self.players@[j].score < self.players@[best as int].score,
            decreases n - i,
        {
            let s = self.players[i].score;
            if s >= self.target_score && (best == n || s >= self.players[best].score) {
                best = i;
            }
            i = i + 1;
        }
        if best == n {
            None
        } else {
            proof {
                assert(is_winner(self.players@, self.target_score, best as int));
            }
            Some(&self.players[best])
        }
    }

    /// Is the game over: does some banked score reach the target?
    pub fn is_game_over(&self) -> (over: bool)
        ensures
            over <==> exists|j: int| #[trigger] reaches(self.players@, self.target_score, j),
    {
        self.game_winner().is_some()
    }

    /// The standing of one player.
    pub fn score_line(p: &Player) -> (line: ScoreLine)
        requires
            p.score_fits(),
        ensures
            shows(line, *p),
    {
        ScoreLine {
            name: p.name.clone(),
            out: p.out,
            stay: p.stay,
            score: p.score,
            live: p.get_live_score(),
            points: p.get_points_scored(),
        }
    }

    /// Deals a card from the deck; when the deck is empty, first refills
    /// it with the discard pile (shuffled). `None` when both are empty.
    pub fn deal_card(&mut self) -> (card: Option<Card>)
        ensures
            final(self).players == old(self).players,
            final(self).round_discard == old(self).round_discard,
            final(self).target_score == old(self).target_score,
            final(self).log == old(self).log,
            card is None <==> old(self).deck.cards@.len() == 0 && old(self).discard@.len() == 0,
            card is None ==> final(self).deck.cards@.len() == 0 && final(self).discard@.len() == 0,
            card is Some ==> final(self).stock() + 1 == old(self).stock(),
            card matches Some(c) ==> final(self).cards().insert(c) == old(self).cards(),
            old(self).deck.cards@.len() > 0 ==> card == Some(old(self).deck.cards@.last())
                && final(self).deck.cards@ == old(self).deck.cards@.drop_last()
                && final(self).discard == old(self).discard,
            old(self).deck.cards@.len() == 0 && old(self).discard@.len() > 0 ==> (card matches Some(
                c,
            ) && old(self).discard@.to_multiset().count(c) > 0 && final(self).discard@.len() == 0
                && final(self).deck.cards@.to_multiset().insert(c) == old(
                self,
            ).discard@.to_multiset()),
    {
        broadcast use vstd::seq_lib::group_to_multiset_ensures;
        broadcast use vstd::multiset::group_multiset_axioms;

        let ghost old_deck = self.deck.cards@;
        match self.deck.deal() {
            Some(c) => {
                proof {
                    assert(old_deck == old_deck.drop_last().push(c));
                    assert(self.cards().insert(c) =~= old(self).cards());
                }
                Some(c)
            },
            None => {
                self.deck.reset_discard(&mut self.discard);
                let ghost refilled = self.deck.cards@;
                let r = self.deck.deal();
                proof {
                    lemma_empty_pile(old_deck);
                    lemma_empty_pile(self.discard@);
                    match r {
                        Some(c) => {
                            assert(refilled == refilled.drop_last().push(c));
                            assert(refilled.len() == old(self).discard@.len());
                            assert(self.cards().insert(c) =~= old(self).cards());
                            assert(refilled.to_multiset().count(c) > 0);
                        },
                        None => {
                            assert(refilled.to_multiset().len() == 0);
                        },
                    }
                }
                r
            },
        }
    }

    /// The index of the player a Freeze targets, if any.
    pub fn find_freeze_target(&self) -> (t: Option<usize>)
        requires
            forall|i: int| 0 <= i < self.players@.len() ==> (#[trigger] self.players@[i]).score_fits(),
        ensures
            t is None <==> !exists|i: int| is_freeze_target(self.players@, i),
            t matches Some(i) ==> is_freeze_target(self.players@, i as int),
    {
        let n = self.players.len();
        let mut best: usize = n;
        let mut best_live: i32 = 0;
        let mut i: usize = 0;
        while i < n
            invariant
                n == self.players@.len(),
                forall|k: int| 0 <= k < n ==> (#[trigger] self.players@[k]).score_fits(),
                i <= n,
                best <= n,
                best == n ==> forall|j: int| 0 <= j < i ==> !can_freeze(#[trigger] self.players@[j]),
                best < n ==> best < i && can_freeze(self.players@[best as int]) && best_live
                    == self.players@[best as int].live_score(),
                best < n ==> forall|j: int|
                    0 <= j < i && can_freeze(#[trigger] self.players@[j])
                        ==> self.players@[j].live_score() <= best_live,
                best < n ==> forall|j: int|
                    best < j < i && can_freeze(#[trigger] self.players@[j])
                        ==> self.players@[j].live_score() < best_live,
            decreases n - i,
        {
            let p = &self.players[i];
            if !p.out && !p.stay {
                let live = p.get_live_score();
                if best == n || live >= best_live {
                    best = i;
                    best_live = live;
                }
            }
            i = i + 1;
        }
        if best == n {
            proof {
                assert forall|k: int| !is_freeze_target(self.players@, k) by {
                    if 0 <= k < n {
                        assert(!can_freeze(self.players@[k]));
                    }
                }
            }
            None
        } else {
            assert(is_freeze_target(self.players@, best as int));
            Some(best)
        }
    }

    /// The index of the player a spare Second Chance goes to, if any.
    pub fn find_second_chance_target(&self) -> (t: Option<usize>)
        requires
            forall|i: int| 0 <= i < self.players@.len() ==> (#[trigger] self.players@[i]).score_fits(),
        ensures
            t is None <==> !exists|i: int| is_second_chance_target(self.players@, i),
            t matches Some(i) ==> is_second_chance_target(self.players@, i as int),
    {
        let n = self.players.len();
        let mut best: usize = n;
        let mut best_live: i32 = 0;
        let mut i: usize = 0;
        while i < n
            invariant
                n == self.players@.len(),
                forall|k: int| 0 <= k < n ==> (#[trigger] self.players@[k]).score_fits(),
                i <= n,
                best <= n,
                best == n ==> forall|j: int|
                    0 <= j < i ==> !can_get_second_chance(#[trigger] self.players@[j]),
                best < n ==> best < i && can_get_second_chance(self.players@[best as int])
                    && best_live == self.players@[best as int].live_score(),
                best < n ==> forall|j: int|
                    0 <= j < i && can_get_second_chance(#[trigger] self.players@[j]) ==> best_live
                        <= self.players@[j].live_score(),
                best < n ==> forall|j: int|
                    0 <= j < best && can_get_second_chance(#[trigger] self.players@[j])
                        ==> best_live < self.players@[j].live_score(),
            decreases n - i,
        {
            let p = &self.players[i];
            if !p.out && !p.stay && !p.second_chance {
                let live = p.get_live_score();
                if best == n || live < best_live {
                    best = i;
                    best_live = live;
                }
            }
            i = i + 1;
        }
        if best == n {
            proof {
                assert forall|k: int| !is_second_chance_target(self.players@, k) by {
                    if 0 <= k < n {
                        assert(!can_get_second_chance(self.players@[k]));
                    }
                }
            }
            None
        } else {
            assert(is_second_chance_target(self.players@, best as int));
            Some(best)
        }
    }

    /// Plays a Freeze drawn by `player` (see `freeze_played`): the Freeze
    /// target among the queued players, or else `player`, takes the card and
    /// is forced to stay.
    pub fn play_freeze(&mut self, player: &mut Player, card: Card)
        requires
            old(player).score_fits(),
            forall|i: int|
                0 <= i < old(self).players@.len() ==> (#[trigger] old(self).players@[i]).score_fits(),
        ensures
            freeze_played(old(self).players@, *old(player), card, final(self).players@, *final(player)),
            final(self).log@ == old(self).log@ + freeze_events(old(self).players@, *old(player)),
            final(player).flip7 == old(player).flip7,
            identities_kept(old(self).players@, final(self).players@),
            settled_kept(old(self).players@, final(self).players@),
            settled(*old(player)) ==> settled(*final(player)),
            no_doubles(old(self).players@) ==> no_doubles(final(self).players@),
            !old(player).out ==> !double(*final(player)),
            final(self).deck == old(self).deck,
            final(self).discard == old(self).discard,
            final(self).round_discard == old(self).round_discard,
            final(self).target_score == old(self).target_score,
            final(self).cards().add(final(player).hand@.to_multiset()) == old(self).cards().add(
                old(player).hand@.to_multiset(),
            ).insert(card),
    {
        broadcast use vstd::seq_lib::group_to_multiset_ensures;
        broadcast use vstd::multiset::group_multiset_axioms;

        match self.find_freeze_target() {
            Some(i) => {
                let ghost before = self.players@;
                let mut t = self.players.remove(i).unwrap();
                self.log.push(Event::FreezeTarget(t.name.clone(), t.get_live_score()));
                t.hand.push(card);
                t.stay = true;
                self.log.push(Event::ForcedToStay(t.name.clone()));
                self.players.insert(i, t);
                proof {
                    let j = choose|j: int| is_freeze_target(before, j);
                    lemma_freeze_target_unique(before, i as int, j);
                    assert(self.log@ =~= old(self).log@ + freeze_events(before, *old(player)));
                    assert(received(before, self.players@, i as int, card, true, before[i as int].second_chance));
                    lemma_hands_received(before, self.players@, i as int, card, true, before[i as int].second_chance);
                    assert(self.cards().add(player.hand@.to_multiset()) =~= old(self).cards().add(
                        old(player).hand@.to_multiset()).insert(card));
                }
            },
            None => {
                self.log.push(Event::FreezeTarget(player.name.clone(), player.get_live_score()));
                player.hand.push(card);
                player.stay = true;
                self.log.push(Event::ForcedToStay(player.name.clone()));
                proof {
                    assert(self.log@ =~= old(self).log@ + freeze_events(self.players@, *old(player)));
                    assert(self.cards().add(player.hand@.to_multiset()) =~= old(self).cards().add(
                        old(player).hand@.to_multiset()).insert(card));
                }
            },
        }
    }

    /// Plays a Second Chance drawn by `player` (see `second_chance_played`):
    /// kept when `player` has none; else given to the Second Chance target
    /// among the queued players; else put on the round's discard pile.
    pub fn play_second_chance(&mut self, player: &mut Player, card: Card)
        requires
            old(player).score_fits(),
            forall|i: int|
                0 <= i < old(self).players@.len() ==> (#[trigger] old(self).players@[i]).score_fits(),
        ensures
            second_chance_played(
                old(self).players@,
                old(self).round_discard@,
                *old(player),
                card,
                final(self).players@,
                final(self).round_discard@,
                *final(player),
            ),
            final(self).log@ == old(self).log@ + second_chance_events(old(self).players@, *old(player)),
            final(player).flip7 == old(player).flip7,
            identities_kept(old(self).players@, final(self).players@),
            settled_kept(old(self).players@, final(self).players@),
            settled(*old(player)) ==> settled(*final(player)),
            no_doubles(old(self).players@) ==> no_doubles(final(self).players@),
            !old(player).out ==> !double(*final(player)),
            final(self).deck == old(self).deck,
            final(self).discard == old(self).discard,
            final(self).target_score == old(self).target_score,
            final(self).cards().add(final(player).hand@.to_multiset()) == old(self).cards().add(
                old(player).hand@.to_multiset(),
            ).insert(card),
    {
        broadcast use vstd::seq_lib::group_to_multiset_ensures;
        broadcast use vstd::multiset::group_multiset_axioms;

        if player.second_chance {
            self.log.push(Event::AlreadyHadSecondChance);
            match self.find_second_chance_target() {
                Some(i) => {
                    let ghost before = self.players@;
                    let mut t = self.players.remove(i).unwrap();
                    self.log.push(Event::SecondChanceTarget(t.name.clone(), t.get_live_score()));
                    t.hand.push(card);
                    t.second_chance = true;
                    self.players.insert(i, t);
                    proof {
                        let j = choose|j: int| is_second_chance_target(before, j);
                        lemma_second_chance_target_unique(before, i as int, j);
                        assert(self.log@ =~= old(self).log@ + second_chance_events(before, *old(player)));
                        assert(received(before, self.players@, i as int, card, before[i as int].stay, true));
                        lemma_hands_received(before, self.players@, i as int, card, before[i as int].stay, true);
                        assert(self.cards().add(player.hand@.to_multiset()) =~= old(self).cards().add(
                            old(player).hand@.to_multiset()).insert(card));
                    }
                },
                None => {
                    self.log.push(
                        Event::SecondChanceTarget(player.name.clone(), player.get_live_score()),
                    );
                    self.round_discard.push(card);
                    proof {
                        assert(self.log@ =~= old(self).log@ + second_chance_events(self.players@, *old(player)));
                        assert(self.cards().add(player.hand@.to_multiset()) =~= old(self).cards().add(
                            old(player).hand@.to_multiset()).insert(card));
                    }
                },
            }
        } else {
            player.second_chance = true;
            player.hand.push(card);
            proof {
                assert(self.log@ =~= old(self).log@ + second_chance_events(self.players@, *old(player)));
                assert(self.cards().add(player.hand@.to_multiset()) =~= old(self).cards().add(
                    old(player).hand@.to_multiset()).insert(card));
            }
        }
    }

    /// Takes a card dealt to `player` through the turn (see `resolves`).
    #[verifier::spinoff_prover]
    #[verifier::rlimit(40)]
    pub fn resolve_card(&mut self, player: &mut Player, card: Card) -> (r: Result<Option<Card>, GameError>)
        requires
            old(player).score_fits(),
            forall|i: int|
                0 <= i < old(self).players@.len() ==> (#[trigger] old(self).players@[i]).score_fits(),
        ensures
            no_stay_choices(final(self).log@, old(self).log@.len() as int),
            r matches Err(e) ==> play_error(e),
            resolves(
                old(self).players@,
                old(self).round_discard@,
                *old(player),
                card,
                final(self).players@,
                final(self).round_discard@,
                *final(player),
                r,
            ),
            final(self).log@ == old(self).log@ + resolve_events(
                old(self).players@,
                *old(player),
                card,
                *final(player),
            ),
            identities_kept(old(self).players@, final(self).players@),
            settled_kept(old(self).players@, final(self).players@),
            settled(*old(player)) ==> settled(*final(player)),
            no_doubles(old(self).players@) ==> no_doubles(final(self).players@),
            !settled(*old(player)) ==> !double(*final(player)),
            same_identity(*final(player), *old(player)),
            r == Ok::<Option<Card>, GameError>(Some(Card::Number(-1i32))) ==> final(player).flip7
                && count_numbers(final(player).hand@) == 7,
            r == Err::<Option<Card>, GameError>(GameError::TooManyNumberCards) ==> overfull(
                *final(player),
            ),
            r != Err::<Option<Card>, GameError>(GameError::DeckExhausted),
            r == Ok::<Option<Card>, GameError>(Some(Card::Number(-1i32))) ==> final(self).log@.len() > 0
                && final(self).log@.last() == Event::Flipped7(old(player).name),
            final(self).deck == old(self).deck,
            final(self).discard == old(self).discard,
            final(self).target_score == old(self).target_score,
            final(self).cards().add(final(player).hand@.to_multiset()).add(handed_back(r)) == old(
                self,
            ).cards().add(old(player).hand@.to_multiset()).insert(card),
    {
        broadcast use vstd::seq_lib::group_to_multiset_ensures;
        broadcast use vstd::multiset::group_multiset_axioms;

        self.log.push(Event::Drew(player.name.clone(), card));
        let dup = match card {
            Card::Number(_) => player.hand_contains(card),
            _ => false,
        };
        let had_second_chance = player.second_chance;
        let handle_card = player.take_turn(card);
        if dup {
            self.log.push(Event::AlreadyHas(player.name.clone(), card));
            self.log.push(Event::Busts(player.name.clone()));
            if had_second_chance {
                self.log.push(Event::SecondChanceSaves);
            } else {
                self.log.push(Event::OutOfRound(player.name.clone()));
            }
        }
        match handle_card {
            Some(c) => match c {
                Card::Number(_) => {
                    self.round_discard.push(c);
                    proof {
                        assert(self.cards().add(player.hand@.to_multiset()) =~= old(self).cards().add(
                            old(player).hand@.to_multiset()).insert(card));
                    }
                },
                Card::Modifier { .. } => {
                    return Err(GameError::InvalidState);
                },
                Card::Action(t) => match t {
                    ActionType::Freeze => {
                        self.log.push(Event::DrewFreeze(player.name.clone()));
                        self.play_freeze(player, c);
                    },
                    ActionType::Flip3 => {
                        self.log.push(Event::DrewFlip3(player.name.clone()));
                        let r = Ok(Some(c));
                        proof {
                            assert(self.log@ =~= old(self).log@ + resolve_events(
                                old(self).players@,
                                *old(player),
                                card,
                                *player,
                            ));
                            assert(self.cards().add(player.hand@.to_multiset()).add(handed_back(r)) =~= old(self).cards().add(
                                old(player).hand@.to_multiset()).insert(card));
                        }
                        return r;
                    },
                    ActionType::SecondChance => {
                        self.log.push(Event::DrewSecondChance(player.name.clone()));
                        self.play_second_chance(player, c);
                    },
                },
            },
            None => {
                proof {
                    assert(self.cards().add(player.hand@.to_multiset()) =~= old(self).cards().add(
                        old(player).hand@.to_multiset()).insert(card));
                }
            },
        }
        let ghost placed_cards = self.cards().add(player.hand@.to_multiset());
        let ghost placed_log = self.log@;
        let count = player.number_card_count();
        let r = if count == 7 {
            self.log.push(Event::Flipped7(player.name.clone()));
            player.flip7 = true;
            Ok(Some(Card::Number(-1)))
        } else if count > 7 {
            Err(GameError::TooManyNumberCards)
        } else {
            Ok(None)
        };
        proof {
            assert(self.log@ =~= old(self).log@ + resolve_events(
                old(self).players@,
                *old(player),
                card,
                *player,
            ));
            assert(handed_back(r) =~= Multiset::empty());
            assert(self.cards().add(player.hand@.to_multiset()).add(handed_back(r)) =~= placed_cards);
        }
        r
    }

    /// A player's turn. A player who is out, or has stayed, does nothing (a
    /// player both out and stayed is an error). Otherwise the player stays
    /// when not forced to hit and this round's points reach their stay value;
    /// else a card is dealt (see `deal_card`; the caller sees to it that the
    /// deck and the discard pile are not both empty then) and taken as
    /// `resolves` says.
    pub fn player_turn(&mut self, player: &mut Player, must_hit: bool) -> (r: Result<
        Option<Card>,
        GameError,
    >)
        requires
            old(self).wf_with(*old(player)),
            old(self).stock() > 0 || settled(*old(player)) || (!must_hit && old(player).points()
                >= old(player).stay_value),
        ensures
            must_hit ==> no_stay_choices(final(self).log@, old(self).log@.len() as int),
            r matches Err(e) ==> play_error(e),
            final(self).wf_with(*final(player)),
            log_extends(old(self).log@, final(self).log@),
            final(self).cards().add(final(player).hand@.to_multiset()).add(handed_back(r)) == old(
                self,
            ).cards().add(old(player).hand@.to_multiset()),
            identities_kept(old(self).players@, final(self).players@),
            settled_kept(old(self).players@, final(self).players@),
            settled(*old(player)) ==> settled(*final(player)),
            final(self).stock() <= old(self).stock(),
            !settled(*old(player)) && r is Ok ==> settled(*final(player)) || final(self).stock()
                < old(self).stock(),
            !settled(*old(player)) && must_hit && r is Ok ==> final(self).stock() + 1 == old(
                self,
            ).stock(),
            no_doubles(old(self).players@) ==> no_doubles(final(self).players@),
            !double(*old(player)) ==> !double(*final(player)),
            r == Err::<Option<Card>, GameError>(GameError::InvalidState) ==> double(*old(player)),
            r == Err::<Option<Card>, GameError>(GameError::TooManyNumberCards) ==> overfull(
                *final(player),
            ),
            r != Err::<Option<Card>, GameError>(GameError::DeckExhausted),
            r == Ok::<Option<Card>, GameError>(Some(Card::Number(-1i32))) ==> final(self).log@.len() > 0
                && final(self).log@.last() == Event::Flipped7(old(player).name),
            r matches Ok(Some(x)) ==> x == Card::Number(-1i32) || x == Card::Action(
                ActionType::Flip3,
            ),
            !settled(*old(player)) ==> log_extends(
                old(self).log@.push(choice_event(*old(player), must_hit)),
                final(self).log@,
            ),
            same_identity(*final(player), *old(player)),
            r == Ok::<Option<Card>, GameError>(Some(Card::Number(-1i32))) ==> final(player).flip7
                && count_numbers(final(player).hand@) == 7,
            final(self).target_score == old(self).target_score,
            old(player).out && old(player).stay ==> r == Err::<Option<Card>, GameError>(
                GameError::InvalidState,
            ),
            old(player).out || old(player).stay ==> final(self).players@ == old(self).players@
                && final(self).deck == old(self).deck && final(self).discard == old(self).discard
                && final(self).round_discard == old(self).round_discard && same_state(
                *final(player),
                *old(player),
            ),
            old(player).out != old(player).stay ==> r == Ok::<Option<Card>, GameError>(None),
            old(player).out && old(player).stay ==> final(self).log@ == old(self).log@,
            old(player).out && !old(player).stay ==> final(self).log@ == old(self).log@.push(
                Event::OutOfRound(old(player).name),
            ),
            !old(player).out && old(player).stay ==> final(self).log@ == old(self).log@.push(
                Event::HasStayed(old(player).name),
            ),
            !old(player).out && !old(player).stay && !must_hit && old(player).points() >= old(
                player,
            ).stay_value ==> {
                &&& r == Ok::<Option<Card>, GameError>(None)
                &&& final(self).players@ == old(self).players@
                &&& final(self).deck == old(self).deck
                &&& final(self).discard == old(self).discard
                &&& final(self).round_discard == old(self).round_discard
                &&& same_identity(*final(player), *old(player))
                &&& final(player).hand@ == old(player).hand@
                &&& final(player).second_chance == old(player).second_chance
                &&& final(player).out == old(player).out
                &&& final(player).flip7 == old(player).flip7
                &&& final(player).stay
                &&& final(self).log@ == old(self).log@.push(Event::ChoosesToStay(old(player).name))
            },
            !old(player).out && !old(player).stay && (must_hit || old(player).points() < old(
                player,
            ).stay_value) ==> {
                &&& r is Ok || r == Err::<Option<Card>, GameError>(GameError::TooManyNumberCards)
                &&& old(self).deck.cards@.len() > 0 ==> final(self).deck.cards@ == old(
                    self,
                ).deck.cards@.drop_last() && final(self).discard == old(self).discard
                    && final(self).log@ == old(self).log@.push(hit_event(*old(player), must_hit))
                    + resolve_events(
                    old(self).players@,
                    *old(player),
                    old(self).deck.cards@.last(),
                    *final(player),
                ) && resolves(
                    old(self).players@,
                    old(self).round_discard@,
                    *old(player),
                    old(self).deck.cards@.last(),
                    final(self).players@,
                    final(self).round_discard@,
                    *final(player),
                    r,
                )
                &&& old(self).deck.cards@.len() == 0 && old(self).discard@.len() > 0 ==> exists|
                    c: Card,
                |
                    #![trigger old(self).discard@.to_multiset().count(c)]
                    old(self).discard@.to_multiset().count(c) > 0 && final(self).discard@.len()
                        == 0 && final(self).deck.cards@.to_multiset().insert(c) == old(
                        self,
                    ).discard@.to_multiset() && final(self).log@ == old(self).log@.push(
                        hit_event(*old(player), must_hit),
                    ) + resolve_events(old(self).players@, *old(player), c, *final(player))
                        && resolves(
                        old(self).players@,
                        old(self).round_discard@,
                        *old(player),
                        c,
                        final(self).players@,
                        final(self).round_discard@,
                        *final(player),
                        r,
                    )
            },
    {
        broadcast use vstd::seq_lib::group_to_multiset_ensures;
        broadcast use vstd::multiset::group_multiset_axioms;

        proof {
            self.lemma_players_fit_with(*player);
            lemma_log_concat(old(self).log@, seq![hit_event(*old(player), must_hit)]);
            lemma_log_concat(old(self).log@, Seq::empty());
        }
        if !player.out && !player.stay {
            if !must_hit && player.should_stay() {
                self.log.push(Event::ChoosesToStay(player.name.clone()));
                player.stay = true;
                proof {
                    assert(self.cards().add(player.hand@.to_multiset()).add(
                        handed_back(Ok(None)),
                    ) =~= old(self).cards().add(old(player).hand@.to_multiset()));
                }
            } else {
                if must_hit {
                    self.log.push(Event::MustHit(player.name.clone()));
                } else {
                    self.log.push(Event::ChoosesToHit(player.name.clone()));
                }
                let ghost before = self.cards();
                let dealt = self.deal_card();
                match dealt {
                    Some(card) => {
                        proof {
                            assert(self.cards().add(player.hand@.to_multiset()).insert(card)
                                =~= old(self).cards().add(old(player).hand@.to_multiset()));
                            assert forall|i: int|
                                0 <= i < self.players@.len() implies (
                                #[trigger] self.players@[i]).score_fits() by {
                                assert(self.players@[i] == old(self).players@[i]);
                            }
                        }
                        let ghost log_mid = self.log@;
                        let r = self.resolve_card(player, card);
                        proof {
                            assert(log_mid == old(self).log@.push(hit_event(*old(player), must_hit)));
                            lemma_log_concat(log_mid, resolve_events(old(self).players@, *old(player), card, *player));
                            lemma_log_concat(old(self).log@, seq![hit_event(*old(player), must_hit)]);
                            assert(old(self).log@ + seq![hit_event(*old(player), must_hit)] =~= log_mid);
                            lemma_log_trans(old(self).log@, log_mid, self.log@);
                            let total = old(self).cards().add(old(player).hand@.to_multiset());
                            let now = self.cards().add(player.hand@.to_multiset());
                            assert(now.add(handed_back(r)) =~= total);
                            assert(now.subset_of(total));
                            assert forall|i: int|
                                0 <= i < self.players@.len() implies score_in_range(
                                #[trigger] self.players@[i],
                            ) by {
                                assert(same_identity(self.players@[i], old(self).players@[i]));
                            }
                        }
                        return r;
                    },
                    None => {
                        // `requires` leaves a card to deal here.
                        proof {
                            assert(false);
                        }
                        return Err(GameError::DeckExhausted);
                    },
                }
            }
        } else if player.out && !player.stay {
            self.log.push(Event::OutOfRound(player.name.clone()));
        } else if !player.out && player.stay {
            self.log.push(Event::HasStayed(player.name.clone()));
        } else {
            proof {
                assert(self.cards().add(player.hand@.to_multiset()).add(
                    handed_back(Err(GameError::InvalidState)),
                ) =~= old(self).cards().add(old(player).hand@.to_multiset()));
            }
            proof {
                assert(self.log@.subrange(0, old(self).log@.len() as int) =~= old(self).log@);
            }
            return Err(GameError::InvalidState);
        }
        proof {
            assert(self.cards().add(player.hand@.to_multiset()).add(handed_back(Ok(None)))
                =~= old(self).cards().add(old(player).hand@.to_multiset()));
            assert(self.log@.subrange(0, old(self).log@.len() as int) =~= old(self).log@);
            lemma_log_refl(self.log@);
        }
        Ok(None)
    }

    /// The target of a Flip Three, held out of the queue, must hit three
    /// times; what those turns hand back is dropped. A hit with the deck and
    /// the discard pile both empty records the forced hit and ends in
    /// `DeckExhausted`.
    pub fn flip_three(&mut self, target: &mut Player) -> (r: Result<(), GameError>)
        requires
            old(self).wf_with(*old(target)),
        ensures
            no_stay_choices(final(self).log@, old(self).log@.len() as int),
            r matches Err(e) ==> play_error(e),
            final(self).wf_with(*final(target)),
            log_extends(old(self).log@, final(self).log@),
            final(self).cards().add(final(target).hand@.to_multiset()).subset_of(
                old(self).cards().add(old(target).hand@.to_multiset()),
            ),
            identities_kept(old(self).players@, final(self).players@),
            settled_kept(old(self).players@, final(self).players@),
            settled(*old(target)) ==> settled(*final(target)),
            final(self).stock() <= old(self).stock(),
            same_identity(*final(target), *old(target)),
            final(self).target_score == old(self).target_score,
            r is Ok ==> three_hits(old(self).stock(), final(self).stock(), *final(target)),
            double(*old(target)) ==> r == Err::<(), GameError>(GameError::InvalidState),
            r == Err::<(), GameError>(GameError::InvalidState) ==> double(*old(target)),
            settled(*old(target)) && !double(*old(target)) ==> {
                &&& r is Ok
                &&& final(self).players@ == old(self).players@
                &&& final(self).deck == old(self).deck
                &&& final(self).discard == old(self).discard
                &&& final(self).round_discard == old(self).round_discard
                &&& same_state(*final(target), *old(target))
            },
            no_doubles(old(self).players@) ==> no_doubles(final(self).players@),
            !double(*old(target)) ==> !double(*final(target)),
            !settled(*old(target)) && old(self).stock() == 0 ==> r == Err::<(), GameError>(
                GameError::DeckExhausted,
            ),
            r == Err::<(), GameError>(GameError::DeckExhausted) ==> final(self).stock() == 0,
            r == Err::<(), GameError>(GameError::TooManyNumberCards) ==> overfull(*final(target)),
            old(self).deck.cards@.len() >= 3 && !double(*old(target)) ==> r is Ok || r == Err::<
                (),
                GameError,
            >(GameError::TooManyNumberCards),
            loses_only_flip3(
                old(self).cards().add(old(target).hand@.to_multiset()),
                final(self).cards().add(final(target).hand@.to_multiset()),
            ),
    {
        broadcast use vstd::multiset::group_multiset_axioms;

        proof {
            assert(self.log@.subrange(0, self.log@.len() as int) =~= self.log@);
        }
        let mut k: usize = 0;
        while k < 3
            invariant
                self.wf_with(*target),
                log_extends(old(self).log@, self.log@),
                no_stay_choices(self.log@, old(self).log@.len() as int),
                self.cards().add(target.hand@.to_multiset()).subset_of(
                    old(self).cards().add(old(target).hand@.to_multiset()),
                ),
                identities_kept(old(self).players@, self.players@),
                settled_kept(old(self).players@, self.players@),
                settled(*old(target)) ==> settled(*target),
                self.stock() <= old(self).stock(),
                same_identity(*target, *old(target)),
                self.target_score == old(self).target_score,
                k <= 3,
                old(self).stock() <= self.stock() + k,
                self.stock() + k == old(self).stock() || settled(*target),
                double(*old(target)) ==> k == 0 && same_state(*target, *old(target)),
                settled(*old(target)) && !double(*old(target)) ==> {
                    &&& self.players@ == old(self).players@
                    &&& self.deck == old(self).deck
                    &&& self.discard == old(self).discard
                    &&& self.round_discard == old(self).round_discard
                    &&& same_state(*target, *old(target))
                },
                no_doubles(old(self).players@) ==> no_doubles(self.players@),
                !double(*old(target)) ==> !double(*target),
                k == 0 ==> same_state(*target, *old(target)) && self.stock() == old(self).stock(),
                k > 0 ==> settled(*old(target)) || old(self).stock() > 0,
                old(self).deck.cards@.len() >= 3 ==> self.deck.cards@.len() + k >= 3,
                loses_only_flip3(
                    old(self).cards().add(old(target).hand@.to_multiset()),
                    self.cards().add(target.hand@.to_multiset()),
                ),
            decreases 3 - k,
        {
            if !target.out && !target.stay && self.deck.cards.len() == 0 && self.discard.len()
                == 0 {
                let ghost log_before = self.log@;
                self.log.push(Event::MustHit(target.name.clone()));
                proof {
                    assert(self.log@ =~= log_before + seq![Event::MustHit(target.name)]);
                    lemma_log_concat(log_before, seq![Event::MustHit(target.name)]);
                    lemma_log_trans(old(self).log@, log_before, self.log@);
                    lemma_no_stay_trans(log_before, self.log@, old(self).log@.len() as int);
                }
                return Err(GameError::DeckExhausted);
            }
            let ghost players_before = self.players@;
            let ghost log_before = self.log@;
            let ghost cards_before = self.cards().add(target.hand@.to_multiset());
            let r = self.player_turn(target, true);
            proof {
                lemma_identities_trans(old(self).players@, players_before, self.players@);
                lemma_settled_trans(old(self).players@, players_before, self.players@);
                lemma_log_trans(old(self).log@, log_before, self.log@);
                lemma_no_stay_trans(log_before, self.log@, old(self).log@.len() as int);
                assert(self.cards().add(target.hand@.to_multiset()).subset_of(cards_before));
                let now = self.cards().add(target.hand@.to_multiset());
                assert forall|c: Card| #[trigger] now.count(c) < cards_before.count(c) implies c
                    == Card::Action(ActionType::Flip3) by {
                    assert(now.add(handed_back(r)).count(c) == cards_before.count(c));
                }
                lemma_loses_only_flip3_trans(
                    old(self).cards().add(old(target).hand@.to_multiset()),
                    cards_before,
                    now,
                );
            }
            match r {
                Ok(_) => {},
                Err(e) => {
                    return Err(e);
                },
            }
            k = k + 1;
        }
        Ok(())
    }

    /// A Flip Three drawn by `current` (held out of the queue): three forced
    /// hits go to `current` when they follow the self Flip Three strategy,
    /// else to a player chosen at random among the queue and `current`.
    pub fn resolve_flip_three(&mut self, current: &mut Player) -> (r: Result<(), GameError>)
        requires
            old(self).wf_with(*old(current)),
        ensures
            no_stay_choices(final(self).log@, old(self).log@.len() as int),
            r matches Err(e) ==> play_error(e),
            final(self).wf_with(*final(current)),
            log_extends(
                old(self).log@.push(Event::ChoosingFlip3Target(old(current).name)),
                final(self).log@,
            ),
            old(current).strategies@.contains(Strategy::SelfFlipThree) ==> log_extends(
                old(self).log@.push(Event::ChoosingFlip3Target(old(current).name)).push(
                    Event::TargetingSelf(old(current).name),
                ),
                final(self).log@,
            ),
            final(self).cards().add(final(current).hand@.to_multiset()).subset_of(
                old(self).cards().add(old(current).hand@.to_multiset()),
            ),
            old(current).strategies@.contains(Strategy::SelfFlipThree) ==> hits_player(
                *old(self),
                *final(self),
                *old(current),
                *final(current),
                r,
            ),
            !old(current).strategies@.contains(Strategy::SelfFlipThree) ==> exists|idx: int|
                #[trigger] hits_at(*old(self), *final(self), *old(current), *final(current), r, idx),
            no_doubles(old(self).players@) ==> no_doubles(final(self).players@),
            r == Err::<(), GameError>(GameError::InvalidState) ==> double(*old(current))
                || !no_doubles(old(self).players@),
            !double(*old(current)) ==> !double(*final(current)),
            r == Err::<(), GameError>(GameError::DeckExhausted) ==> final(self).stock() == 0,
            r == Err::<(), GameError>(GameError::TooManyNumberCards) ==> overfull(*final(current))
                || some_overfull(final(self).players@),
            loses_only_flip3(
                old(self).cards().add(old(current).hand@.to_multiset()),
                final(self).cards().add(final(current).hand@.to_multiset()),
            ),
            identities_kept(old(self).players@, final(self).players@),
            settled_kept(old(self).players@, final(self).players@),
            settled(*old(current)) ==> settled(*final(current)),
            final(self).stock() <= old(self).stock(),
            same_identity(*final(current), *old(current)),
            final(self).target_score == old(self).target_score,
    {
        self.log.push(Event::ChoosingFlip3Target(current.name.clone()));
        let ghost log1 = self.log@;
        if current.has_strategy(Strategy::SelfFlipThree) {
            self.log.push(Event::TargetingSelf(current.name.clone()));
            let ghost log2 = self.log@;
            let r = self.flip_three(current);
            proof {
                lemma_no_stay_trans(log2, self.log@, old(self).log@.len() as int);
                lemma_log_concat(log1, seq![Event::TargetingSelf(old(current).name)]);
                assert(log1 + seq![Event::TargetingSelf(old(current).name)] =~= log2);
                lemma_log_trans(log1, log2, self.log@);
            }
            r
        } else {
            let idx = random_index(self.players.len() + 1);
            let r = self.flip_three_at(current, idx);
            proof {
                if idx == old(self).players@.len() {
                    assert(hits_player(*old(self), *self, *old(current), *current, r));
                } else {
                    assert(hits_player(
                        *old(self),
                        *self,
                        old(self).players@[idx as int],
                        self.players@[idx as int],
                        r,
                    ));
                }
                let e = if idx == old(self).players@.len() {
                    Event::Targeting(old(current).name)
                } else {
                    Event::Targeting(old(self).players@[idx as int].name)
                };
                lemma_log_concat(log1, seq![e]);
                assert(log1 + seq![e] =~= log1.push(e));
                lemma_log_trans(log1, log1.push(e), self.log@);
                assert(hits_at(*old(self), *self, *old(current), *current, r, idx as int));
                lemma_no_stay_trans(log1, self.log@, old(self).log@.len() as int);
            }
            r
        }
    }

    /// Three forced hits for the player at `idx` of the queue, or for
    /// `current` when `idx` is the length of the queue.
    pub fn flip_three_at(&mut self, current: &mut Player, idx: usize) -> (r: Result<(), GameError>)
        requires
            old(self).wf_with(*old(current)),
            idx <= old(self).players@.len(),
        ensures
            no_stay_choices(final(self).log@, old(self).log@.len() as int),
            r matches Err(e) ==> play_error(e),
            final(self).wf_with(*final(current)),
            idx == old(self).players@.len() ==> log_extends(
                old(self).log@.push(Event::Targeting(old(current).name)),
                final(self).log@,
            ),
            idx < old(self).players@.len() ==> log_extends(
                old(self).log@.push(Event::Targeting(old(self).players@[idx as int].name)),
                final(self).log@,
            ),
            final(self).cards().add(final(current).hand@.to_multiset()).subset_of(
                old(self).cards().add(old(current).hand@.to_multiset()),
            ),
            identities_kept(old(self).players@, final(self).players@),
            settled_kept(old(self).players@, final(self).players@),
            settled(*old(current)) ==> settled(*final(current)),
            final(self).stock() <= old(self).stock(),
            same_identity(*final(current), *old(current)),
            final(self).target_score == old(self).target_score,
            idx < old(self).players@.len() ==> final(current).hand@ == old(current).hand@
                && final(current).out == old(current).out && final(current).stay == old(
                current,
            ).stay,
            idx < old(self).players@.len() ==> same_state(*final(current), *old(current)),
            idx == old(self).players@.len() ==> {
                &&& r is Ok ==> three_hits(old(self).stock(), final(self).stock(), *final(current))
                &&& double(*old(current)) ==> r == Err::<(), GameError>(GameError::InvalidState)
                &&& settled(*old(current)) && !double(*old(current)) ==> {
                    &&& r is Ok
                    &&& final(self).players@ == old(self).players@
                    &&& final(self).deck == old(self).deck
                    &&& final(self).discard == old(self).discard
                    &&& final(self).round_discard == old(self).round_discard
                    &&& same_state(*final(current), *old(current))
                }
            },
            idx < old(self).players@.len() ==> {
                let t = old(self).players@[idx as int];
                let u = final(self).players@[idx as int];
                &&& r is Ok ==> three_hits(old(self).stock(), final(self).stock(), u)
                &&& double(t) ==> r == Err::<(), GameError>(GameError::InvalidState)
                &&& settled(t) && !double(t) ==> {
                    &&& r is Ok
                    &&& final(self).deck == old(self).deck
                    &&& final(self).discard == old(self).discard
                    &&& final(self).round_discard == old(self).round_discard
                    &&& same_state(u, t)
                }
            },
            no_doubles(old(self).players@) ==> no_doubles(final(self).players@),
            r == Err::<(), GameError>(GameError::InvalidState) ==> (idx == old(self).players@.len()
                ==> double(*old(current))) && (idx < old(self).players@.len() ==> double(
                old(self).players@[idx as int],
            )),
            !double(*old(current)) ==> !double(*final(current)),
            r == Err::<(), GameError>(GameError::DeckExhausted) ==> final(self).stock() == 0,
            r == Err::<(), GameError>(GameError::TooManyNumberCards) ==> (idx == old(
                self,
            ).players@.len() ==> overfull(*final(current))) && (idx < old(self).players@.len()
                ==> overfull(final(self).players@[idx as int])),
            loses_only_flip3(
                old(self).cards().add(old(current).hand@.to_multiset()),
                final(self).cards().add(final(current).hand@.to_multiset()),
            ),
    {
        broadcast use vstd::seq_lib::group_to_multiset_ensures;
        broadcast use vstd::multiset::group_multiset_axioms;

        if idx == self.players.len() {
            self.log.push(Event::Targeting(current.name.clone()));
            let ghost lg = self.log@;
            let r = self.flip_three(current);
            proof {
                lemma_no_stay_trans(lg, self.log@, old(self).log@.len() as int);
            }
            r
        } else {
            let ghost queue_mid = self.players@;
            let ghost game_mid = self.cards();
            let mut target = self.players.remove(idx).unwrap();
            let ghost rest = self.players@;
            proof {
                lemma_hands_remove(queue_mid, idx as int);
                assert(queue_mid.remove(idx as int) =~= rest);
                assert forall|m: int| 0 <= m < rest.len() implies score_in_range(#[trigger] rest[m]) by {
                    if m < idx {
                        assert(rest[m] == queue_mid[m]);
                    } else {
                        assert(rest[m] == queue_mid[m + 1]);
                    }
                }
                assert(score_in_range(queue_mid[idx as int]));
                assert(self.cards().add(target.hand@.to_multiset()) =~= game_mid);
            }
            self.log.push(Event::Targeting(target.name.clone()));
            let ghost lg = self.log@;
            let ghost with_target = self.cards().add(target.hand@.to_multiset());
            let r = self.flip_three(&mut target);
            proof {
                lemma_no_stay_trans(lg, self.log@, old(self).log@.len() as int);
            }
            let ghost rest2 = self.players@;
            let ghost cards_rest2 = self.cards();
            self.players.insert(idx, target);
            proof {
                lemma_hands_insert(rest2, idx as int, target);
                assert(self.cards() =~= cards_rest2.add(target.hand@.to_multiset()));
                assert(self.cards().subset_of(game_mid));
                assert(with_target == game_mid);
                assert(self.cards() == cards_rest2.add(target.hand@.to_multiset()));
                lemma_loses_only_flip3_add(game_mid, self.cards(), current.hand@.to_multiset());
                lemma_identities_insert(queue_mid, rest2, idx as int, target);
                assert(self.players@[idx as int] == target);
                if no_doubles(queue_mid) {
                    assert(no_doubles(rest)) by {
                        assert forall|m: int| 0 <= m < rest.len() implies !double(#[trigger] rest[m]) by {
                            if m < idx {
                                assert(rest[m] == queue_mid[m]);
                            } else {
                                assert(rest[m] == queue_mid[m + 1]);
                            }
                        }
                    }
                    assert(!double(queue_mid[idx as int]));
                    assert forall|m: int| 0 <= m < self.players@.len() implies !double(
                        #[trigger] self.players@[m],
                    ) by {
                        if m < idx {
                            assert(self.players@[m] == rest2[m]);
                        } else if m > idx {
                            assert(self.players@[m] == rest2[m - 1]);
                        }
                    }
                }
                lemma_settled_insert(queue_mid, rest2, idx as int, target);
                assert forall|m: int| 0 <= m < self.players@.len() implies score_in_range(
                    #[trigger] self.players@[m],
                ) by {
                    assert(same_identity(self.players@[m], queue_mid[m]));
                }
            }
            r
        }
    }

    /// One player's turn, the player held out of the queue: `player_turn`,
    /// then what the card handed back asks for. A Flip Three is resolved
    /// (`resolve_flip_three`) and discarded; the Flip 7 marker gives
    /// `Ok(true)`; any other card handed back is an error. A hit with the
    /// deck and the discard pile both empty records the choice to hit and
    /// ends in `DeckExhausted`.
    #[verifier::spinoff_prover]
    #[verifier::rlimit(40)]
    pub fn play_turn_of(&mut self, current: &mut Player, first_round: bool) -> (r: Result<
        bool,
        GameError,
    >)
        requires
            old(self).wf_with(*old(current)),
        ensures
            first_round ==> no_stay_choices(final(self).log@, old(self).log@.len() as int),
            r matches Err(e) ==> play_error(e),
            final(self).wf_with(*final(current)),
            log_extends(
                old(self).log@.push(Event::TakingTurn(old(current).name)),
                final(self).log@,
            ),
            final(self).cards().add(final(current).hand@.to_multiset()).subset_of(
                old(self).cards().add(old(current).hand@.to_multiset()),
            ),
            identities_kept(old(self).players@, final(self).players@),
            settled_kept(old(self).players@, final(self).players@),
            settled(*old(current)) ==> settled(*final(current)),
            final(self).stock() <= old(self).stock(),
            same_identity(*final(current), *old(current)),
            final(self).target_score == old(self).target_score,
            r == Ok::<bool, GameError>(true) ==> final(current).flip7 && count_numbers(
                final(current).hand@,
            ) == 7,
            old(current).out != old(current).stay ==> {
                &&& r == Ok::<bool, GameError>(false)
                &&& final(self).players@ == old(self).players@
                &&& final(self).deck == old(self).deck
                &&& final(self).discard == old(self).discard
                &&& final(self).round_discard == old(self).round_discard
                &&& same_state(*final(current), *old(current))
            },
            double(*old(current)) ==> r == Err::<bool, GameError>(GameError::InvalidState),
            no_doubles(old(self).players@) ==> no_doubles(final(self).players@),
            r == Err::<bool, GameError>(GameError::InvalidState) ==> double(*old(current))
                || !no_doubles(old(self).players@),
            !double(*old(current)) ==> !double(*final(current)),
            !settled(*old(current)) ==> log_extends(
                old(self).log@.push(Event::TakingTurn(old(current).name)).push(
                    choice_event(*old(current), first_round),
                ),
                final(self).log@,
            ),
            !settled(*old(current)) && r is Ok ==> settled(*final(current)) || final(self).stock()
                < old(self).stock(),
            !settled(*old(current)) && (first_round || old(current).points() < old(
                current,
            ).stay_value) && old(self).stock() == 0 ==> r == Err::<bool, GameError>(
                GameError::DeckExhausted,
            ),
            r == Err::<bool, GameError>(GameError::DeckExhausted) ==> final(self).stock() == 0,
            r == Err::<bool, GameError>(GameError::TooManyNumberCards) ==> overfull(*final(current))
                || some_overfull(final(self).players@),
            hits_from_deck(*old(self), *old(current), first_round) && (old(self).deck.cards@.last() is Number)
                && old(current).hand@.contains(old(self).deck.cards@.last()) ==> {
                &&& final(current).hand@ == old(current).hand@
                &&& final(current).out == !old(current).second_chance
                &&& !final(current).second_chance
                &&& final(self).round_discard@ == old(self).round_discard@.push(
                    old(self).deck.cards@.last(),
                )
                &&& final(self).deck.cards@ == old(self).deck.cards@.drop_last()
            },
            hits_from_deck(*old(self), *old(current), first_round) && (old(self).deck.cards@.last() is Number)
                && !old(current).hand@.contains(old(self).deck.cards@.last()) ==> {
                &&& final(current).hand@ == old(current).hand@.push(old(self).deck.cards@.last())
                &&& !final(current).out
                &&& final(current).second_chance == old(current).second_chance
                &&& final(self).round_discard@ == old(self).round_discard@
                &&& final(self).deck.cards@ == old(self).deck.cards@.drop_last()
            },
            r is Ok ==> loses_only_flip3(
                old(self).cards().add(old(current).hand@.to_multiset()),
                final(self).cards().add(final(current).hand@.to_multiset()),
            ),
            r is Ok && old(self).deck.cards@.len() > 0 && old(self).deck.cards@.last()
                != Card::Action(ActionType::Flip3) ==> final(self).cards().add(
                final(current).hand@.to_multiset(),
            ) == old(self).cards().add(old(current).hand@.to_multiset()),
            r is Ok && hits_from_deck(*old(self), *old(current), first_round)
                && old(self).deck.cards@.last() == Card::Action(ActionType::Flip3) ==> (final(
                self).round_discard@.len() > 0 && final(self).round_discard@.last()
                == Card::Action(ActionType::Flip3)),
            r == Ok::<bool, GameError>(true) ==> (final(self).log@.len() >= 2 && final(self).log@[
                final(self).log@.len() - 2] == Event::Flipped7(old(current).name) && (final(
                self).log@.last() is TurnSummary)),
            !settled(*old(current)) && !first_round && old(current).points() >= old(
                current,
            ).stay_value ==> {
                &&& r == Ok::<bool, GameError>(false)
                &&& final(self).players@ == old(self).players@
                &&& final(self).deck == old(self).deck
                &&& final(self).discard == old(self).discard
                &&& final(self).round_discard == old(self).round_discard
                &&& final(current).stay
                &&& !final(current).out
            },
            settled(*old(current)) && r is Ok ==> final(self).players@ == old(self).players@
                && final(self).stock() == old(self).stock(),
    {
        broadcast use vstd::seq_lib::group_to_multiset_ensures;
        broadcast use vstd::multiset::group_multiset_axioms;

        self.log.push(Event::TakingTurn(current.name.clone()));
        let ghost cards_before = self.cards().add(current.hand@.to_multiset());
        let ghost log1 = self.log@;
        proof {
            self.lemma_players_fit_with(*current);
            lemma_log_concat(old(self).log@, seq![Event::TakingTurn(old(current).name)]);
            assert(old(self).log@ + seq![Event::TakingTurn(old(current).name)] =~= log1);
        }
        if !current.out && !current.stay && (first_round || !current.should_stay())
            && self.deck.cards.len() == 0 && self.discard.len() == 0 {
            if first_round {
                self.log.push(Event::MustHit(current.name.clone()));
            } else {
                self.log.push(Event::ChoosesToHit(current.name.clone()));
            }
            proof {
                assert(self.log@ == log1.push(choice_event(*old(current), first_round)));
                lemma_log_concat(log1, seq![choice_event(*old(current), first_round)]);
                assert(log1 + seq![choice_event(*old(current), first_round)] =~= self.log@);
                lemma_log_refl(self.log@);
                lemma_no_stay_trans(log1, self.log@, old(self).log@.len() as int);
            }
            return Err(GameError::DeckExhausted);
        }
        let ghost pt_players = self.players@;
        let ghost pt_rd = self.round_discard@;
        let pt = self.player_turn(current, first_round);
        proof {
            if hits_from_deck(*old(self), *old(current), first_round) && (old(
                self,
            ).deck.cards@.last() is Number) {
                let c = old(self).deck.cards@.last();
                assert(resolves(
                    pt_players,
                    pt_rd,
                    *old(current),
                    c,
                    self.players@,
                    self.round_discard@,
                    *current,
                    pt,
                ));
                assert(c != Card::Action(ActionType::Flip3));
                assert(self.deck.cards@ == old(self).deck.cards@.drop_last());
            }
        }
        let action = match pt {
            Ok(a) => a,
            Err(e) => {
                return Err(e);
            },
        };
        let ghost log_pt = self.log@;
        proof {
            self.lemma_players_fit_with(*current);
        }
        self.log.push(Event::TurnSummary(Game::score_line(current)));
        proof {
            lemma_log_concat(log_pt, seq![self.log@.last()]);
            assert(log_pt + seq![self.log@.last()] =~= self.log@);
            if !settled(*old(current)) {
                lemma_log_trans(log1.push(choice_event(*old(current), first_round)), log_pt, self.log@);
            }
            if first_round {
                lemma_no_stay_trans(log1, log_pt, old(self).log@.len() as int);
                lemma_no_stay_trans(log_pt, self.log@, old(self).log@.len() as int);
            }
        }
        proof {
            lemma_log_concat(log1, self.log@.subrange(log1.len() as int, self.log@.len() as int));
            assert(log1 + self.log@.subrange(log1.len() as int, self.log@.len() as int) =~= self.log@) by {
                assert(self.log@.subrange(0, log1.len() as int) =~= log1);
            }
        }
        let ghost log2 = self.log@;
        match action {
            Some(card) => match card {
                Card::Number(value) => {
                    if value == -1 {
                        proof {
                            assert(self.log@ == log_pt.push(self.log@.last()));
                        }
                        Ok(true)
                    } else {
                        Err(GameError::InvalidState)
                    }
                },
                Card::Action(t) => match t {
                    ActionType::Flip3 => {
                        let ghost queue_mid = self.players@;
                        let ghost cards_mid = self.cards().add(current.hand@.to_multiset());
                        proof {
                            assert(handed_back(Ok(Some(card))) =~= Multiset::singleton(card));
                            assert(cards_mid.add(Multiset::singleton(card)) =~= cards_before);
                        }
                        let ghost name = current.name;
                        let ghost cards_mid_self = self.cards();
                        let ghost hand_mid = current.hand@.to_multiset();
                        let r3 = self.resolve_flip_three(current);
                        proof {
                            lemma_log_push(log2, Event::ChoosingFlip3Target(name), self.log@);
                            lemma_log_trans(log1, log2, self.log@);
                            if !settled(*old(current)) {
                                lemma_log_trans(
                                    log1.push(choice_event(*old(current), first_round)),
                                    log2,
                                    self.log@,
                                );
                            }
                            if first_round {
                                lemma_no_stay_trans(log2, self.log@, old(self).log@.len() as int);
                            }
                            if no_doubles(old(self).players@) {
                                assert(no_doubles(queue_mid));
                                assert(no_doubles(self.players@));
                            }
                        }
                        match r3 {
                            Ok(_) => {},
                            Err(e) => {
                                return Err(e);
                            },
                        }
                        proof {
                            lemma_identities_trans(old(self).players@, queue_mid, self.players@);
                            lemma_settled_trans(old(self).players@, queue_mid, self.players@);
                        }
                        let ghost cards_pre = self.cards();
                        let ghost log3 = self.log@;
                        let ghost rd_pre = self.round_discard@;
                        self.round_discard.push(card);
                        proof {
                            assert(self.log@ == log3);
                            assert(self.round_discard@ == rd_pre.push(card));
                            assert(self.cards() =~= cards_pre.insert(card));
                            assert(self.cards().add(current.hand@.to_multiset()).subset_of(
                                cards_before,
                            ));
                            let after = cards_pre.add(current.hand@.to_multiset());
                            assert(cards_mid == cards_mid_self.add(hand_mid));
                            lemma_loses_only_flip3_add(cards_mid, after, Multiset::singleton(card));
                            assert(self.cards().add(current.hand@.to_multiset()) =~= after.add(
                                Multiset::singleton(card),
                            ));
                            assert(cards_mid.add(Multiset::singleton(card)) == cards_before);
                        }
                        Ok(false)
                    },
                    _ => Err(GameError::InvalidState),
                },
                _ => Err(GameError::InvalidState),
            },
            None => Ok(false),
        }
    }

    /// Turns the queue `times` places: the first player moves to the back,
    /// `times` times.
    pub fn rotate_queue(&mut self, times: usize)
        requires
            times <= old(self).players@.len(),
        ensures
            final(self).players@ == rotated(old(self).players@, times as int),
            hands(final(self).players@) == hands(old(self).players@),
            final(self).log == old(self).log,
            final(self).deck == old(self).deck,
            final(self).discard == old(self).discard,
            final(self).round_discard == old(self).round_discard,
            final(self).target_score == old(self).target_score,
    {
        let ghost p0 = self.players@;
        let mut k: usize = 0;
        proof {
            assert(rotated(p0, 0) =~= p0);
        }
        while k < times
            invariant
                times <= p0.len(),
                k <= times,
                self.players@ == rotated(p0, k as int),
                hands(self.players@) == hands(p0),
                self.log == old(self).log,
                self.deck == old(self).deck,
                self.discard == old(self).discard,
                self.round_discard == old(self).round_discard,
                self.target_score == old(self).target_score,
            decreases times - k,
        {
            let ghost q = self.players@;
            let moved = self.players.pop_front().unwrap();
            let ghost q1 = self.players@;
            self.players.push_back(moved);
            proof {
                lemma_hands_remove(q, 0);
                assert(q.remove(0) =~= q1);
                lemma_hands_push(q1, moved);
                lemma_rotate_step(p0, k as int);
            }
            k = k + 1;
        }
    }

    /// A turn of the game: each player in queue order takes a turn
    /// (`play_turn_of`, forced to hit when `first_round`). A Flip 7 ends the
    /// turn at once: `Ok(true)`, with the queue turned one place from where
    /// it began. Otherwise `Ok(false)`, with the queue in its order.
    #[verifier::spinoff_prover]
    #[verifier::rlimit(80)]
    pub fn turn(&mut self, first_round: bool) -> (r: Result<bool, GameError>)
        requires
            old(self).wf(),
        ensures
            first_round ==> no_stay_choices(final(self).log@, old(self).log@.len() as int),
            r matches Err(e) ==> play_error(e),
            final(self).wf(),
            log_extends(old(self).log@.push(Event::TurnStart), final(self).log@),
            r == Ok::<bool, GameError>(false) ==> shows_scoreboard(
                final(self).log@.last(),
                final(self).players@,
            ),
            final(self).cards().subset_of(old(self).cards()),
            final(self).target_score == old(self).target_score,
            r == Ok::<bool, GameError>(false) ==> identities_kept(
                old(self).players@,
                final(self).players@,
            ),
            r == Ok::<bool, GameError>(true) ==> old(self).players@.len() > 0 && identities_kept(
                rotated(old(self).players@, 1),
                final(self).players@,
            ),
            r is Ok ==> final(self).progress() <= old(self).progress(),
            r == Ok::<bool, GameError>(false) && !all_settled(old(self).players@) ==> final(self).progress()
                < old(self).progress(),
            no_doubles(old(self).players@) ==> no_doubles(final(self).players@),
            r == Err::<bool, GameError>(GameError::InvalidState) ==> !no_doubles(
                old(self).players@,
            ),
            all_settled(old(self).players@) && !no_doubles(old(self).players@) ==> r == Err::<
                bool,
                GameError,
            >(GameError::InvalidState),
            r == Err::<bool, GameError>(GameError::DeckExhausted) ==> final(self).stock() == 0,
            r == Err::<bool, GameError>(GameError::TooManyNumberCards) ==> some_overfull(
                final(self).players@,
            ),
            !first_round && no_doubles(old(self).players@) && all_would_stay(old(self).players@) ==> r
                == Ok::<bool, GameError>(false) && all_settled(final(self).players@),
            r == Ok::<bool, GameError>(true) ==> final(self).log@.len() >= 3 && (final(
                self).log@[final(self).log@.len() - 2] is TurnSummary) && exists|j: int|
                0 <= j < final(self).players@.len() && (#[trigger] final(self).players@[j]).flip7
                    && count_numbers(final(self).players@[j].hand@) == 7 && final(self).log@[final(
                    self).log@.len() - 3] == Event::Flipped7(final(self).players@[j].name),
            r is Ok ==> exists|t: int|
                0 <= t <= final(self).players@.len() && #[trigger] shows_scoreboard(
                    final(self).log@.last(),
                    rotated(final(self).players@, t),
                ),
            old(self).players@.len() > 0 && double(old(self).players@[0]) ==> r == Err::<
                bool,
                GameError,
            >(GameError::InvalidState),
            all_settled(old(self).players@) && no_doubles(old(self).players@) ==> {
                &&& r == Ok::<bool, GameError>(false)
                &&& states_kept(old(self).players@, final(self).players@)
                &&& final(self).deck == old(self).deck
                &&& final(self).discard == old(self).discard
                &&& final(self).round_discard == old(self).round_discard
            },
            r == Ok::<bool, GameError>(true) ==> exists|j: int|
                0 <= j < final(self).players@.len() && (#[trigger] final(self).players@[j]).flip7
                    && count_numbers(final(self).players@[j].hand@) == 7,
    {
        broadcast use vstd::seq_lib::group_to_multiset_ensures;
        broadcast use vstd::multiset::group_multiset_axioms;

        self.log.push(Event::TurnStart);
        let ghost log1 = self.log@;
        proof {
            lemma_log_refl(log1);
        }
        let n = self.players.len();
        let ghost p0 = self.players@;
        let ghost c0 = self.cards();
        proof {
            assert(rotated(p0, 0) =~= p0);
            assert(identities_kept(p0, p0));
            assert(states_kept(p0, p0));
        }
        let mut i: usize = 0;
        while i < n
            invariant
                n == p0.len(),
                p0 == old(self).players@,
                c0 == old(self).cards(),
                i <= n,
                self.wf(),
                log1 == old(self).log@.push(Event::TurnStart),
                log_extends(log1, self.log@),
                first_round ==> no_stay_choices(self.log@, old(self).log@.len() as int),
                self.cards().subset_of(c0),
                identities_kept(rotated(p0, i as int), self.players@),
                self.target_score == old(self).target_score,
                self.progress() <= old(self).progress(),
                self.progress() < old(self).progress() || (self.stock() == old(self).stock() && (
                forall|m: int|
                    0 <= m < n ==> settled(#[trigger] self.players@[m]) == settled(
                        rotated(p0, i as int)[m],
                    )) && (forall|k: int| 0 <= k < i ==> settled(#[trigger] p0[k]))),
                no_doubles(p0) ==> no_doubles(self.players@),
                i == 0 ==> self.players@ == p0,
                i > 0 && n > 0 ==> !double(p0[0]),
                !first_round && no_doubles(p0) && all_would_stay(p0) ==> {
                    &&& forall|m: int|
                        0 <= m < n - i ==> same_state(#[trigger] self.players@[m], p0[i + m])
                    &&& forall|m: int| n - i <= m < n ==> settled(#[trigger] self.players@[m])
                },
                all_settled(p0) ==> {
                    &&& forall|k: int| 0 <= k < i ==> !double(#[trigger] p0[k])
                    &&& states_kept(rotated(p0, i as int), self.players@)
                    &&& self.deck == old(self).deck
                    &&& self.discard == old(self).discard
                    &&& self.round_discard == old(self).round_discard
                },
            decreases n - i,
        {
            let ghost before = self.players@;
            let ghost cards_before = self.cards();
            let ghost strict_before = self.progress() < old(self).progress();
            let mut current = self.players.pop_front().unwrap();
            proof {
                lemma_hands_remove(before, 0);
                assert(before.remove(0) =~= self.players@);
                assert(self.cards().add(current.hand@.to_multiset()) =~= cards_before);
                lemma_identities_front(rotated(p0, i as int), before);
                assert forall|k: int| 0 <= k < self.players@.len() implies score_in_range(
                    #[trigger] self.players@[k],
                ) by {
                    assert(self.players@[k] == before[k + 1]);
                }
            }
            let ghost queue_before = self.players@;
            let ghost current_start = current;
            let ghost log_before = self.log@;
            proof {
                if no_doubles(p0) {
                    assert(!double(before[0]));
                    assert forall|m: int| 0 <= m < queue_before.len() implies !double(
                        #[trigger] queue_before[m],
                    ) by {
                        assert(queue_before[m] == before[m + 1]);
                    }
                }
                if i == 0 {
                    assert(current_start == p0[0]);
                }
                if !first_round && no_doubles(p0) && all_would_stay(p0) {
                    assert(same_state(before[0], p0[i + 0]));
                    assert(!double(p0[i as int]));
                    assert(!settled(p0[i as int]) ==> p0[i as int].points() >= p0[i as int].stay_value);
                }
                if all_settled(p0) {
                    assert(rotated(p0, i as int)[0] == p0[i as int]);
                    assert(same_state(before[0], rotated(p0, i as int)[0]));
                    assert(settled(p0[i as int]));
                }
            }
            let turn_result = self.play_turn_of(&mut current, first_round);
            proof {
                lemma_log_push(log_before, Event::TakingTurn(current_start.name), self.log@);
                lemma_log_trans(log1, log_before, self.log@);
                if first_round {
                    assert(log_extends(old(self).log@, log_before)) by {
                        lemma_log_push(old(self).log@, Event::TurnStart, log_before);
                    }
                    lemma_no_stay_trans(log_before, self.log@, old(self).log@.len() as int);
                }
            }
            let ghost queue = self.players@;
            self.players.push_back(current);
            proof {
                if no_doubles(p0) {
                    assert forall|m: int| 0 <= m < self.players@.len() implies !double(
                        #[trigger] self.players@[m],
                    ) by {
                        if m < queue.len() {
                            assert(self.players@[m] == queue[m]);
                        }
                    }
                }
                if all_settled(p0) && turn_result is Ok {
                    assert(same_state(before[0], p0[i as int]));
                    assert(!double(p0[i as int]));
                    assert(queue == queue_before);
                    assert(queue_before =~= before.subrange(1, n as int));
                    lemma_states_step(p0, i as int, before, self.players@, current);
                }
                lemma_identities_trans(
                    rotated(p0, i as int).subrange(1, n as int),
                    queue_before,
                    queue,
                );
                lemma_hands_push(queue, current);
                lemma_identities_push(
                    rotated(p0, i as int).subrange(1, n as int),
                    queue,
                    rotated(p0, i as int)[0],
                    current,
                );
                lemma_rotate_step(p0, i as int);
                assert forall|k: int| 0 <= k < self.players@.len() implies score_in_range(
                    #[trigger] self.players@[k],
                ) by {
                    if k < queue.len() {
                        assert(self.players@[k] == queue[k]);
                    }
                }
                lemma_active_remove(before, 0);
                lemma_active_kept(queue_before, queue);
                assert(self.players@.drop_last() =~= queue);
                assert(active_count(self.players@) == active_count(queue) + if settled(current) {
                    0nat
                } else {
                    1nat
                });
                assert(before[0] == current_start);
                assert(rotated(p0, i as int)[0] == p0[i as int]);
                if !strict_before && settled(current_start) && turn_result is Ok {
                    assert forall|m: int|
                        0 <= m < n implies settled(#[trigger] self.players@[m]) == settled(
                            rotated(p0, i + 1)[m],
                        ) by {
                        if m < n - 1 {
                            assert(self.players@[m] == queue[m]);
                            assert(queue[m] == before[m + 1]);
                            assert(settled(before[m + 1]) == settled(rotated(p0, i as int)[m + 1]));
                        } else {
                            assert(settled(before[0]) == settled(rotated(p0, i as int)[0]));
                        }
                    }
                }
            }
            let flipped = match turn_result {
                Ok(f) => f,
                Err(e) => {
                    proof {
                        if turn_result == Err::<bool, GameError>(GameError::TooManyNumberCards) {
                            if overfull(current) {
                                assert(self.players@[queue.len() as int] == current);
                                assert(overfull(self.players@[queue.len() as int]));
                            } else {
                                let j = choose|j: int| 0 <= j < queue.len() && #[trigger] overfull(queue[j]);
                                assert(self.players@[j] == queue[j]);
                                assert(overfull(self.players@[j]));
                            }
                        }
                    }
                    return Err(e);
                },
            };
            proof {
                if !first_round && no_doubles(p0) && all_would_stay(p0) {
                    assert(queue == queue_before);
                    assert(settled(current));
                    assert forall|m: int| 0 <= m < n - (i + 1) implies same_state(
                        #[trigger] self.players@[m],
                        p0[(i + 1) + m],
                    ) by {
                        assert(self.players@[m] == queue_before[m]);
                        assert(queue_before[m] == before[m + 1]);
                        assert(same_state(before[m + 1], p0[i + (m + 1)]));
                    }
                    assert forall|m: int| n - (i + 1) <= m < n implies settled(
                        #[trigger] self.players@[m],
                    ) by {
                        if m < n - 1 {
                            assert(self.players@[m] == queue_before[m]);
                            assert(queue_before[m] == before[m + 1]);
                        } else {
                            assert(self.players@[m] == current);
                        }
                    }
                }
            }
            if flipped {
                proof {
                    self.lemma_all_fit();
                }
                let board = self.scoreboard();
                let ghost log_pre = self.log@;
                self.log.push(Event::Scoreboard(board));
                proof {
                    lemma_log_concat(log_pre, seq![self.log@.last()]);
                    assert(log_pre + seq![self.log@.last()] =~= self.log@);
                    lemma_log_trans(log1, log_pre, self.log@);
                }
                let ghost q = self.players@;
                self.rotate_queue(n - i);
                proof {
                    if no_doubles(p0) {
                        lemma_no_doubles_rotated(q, (n - i) as int);
                    }
                    let j: int = if i == 0 {
                        n - 1
                    } else {
                        i - 1
                    };
                    assert(q[n - 1] == current);
                    assert(self.players@[j] == q[n - 1]);
                    lemma_active_rotated(q, (n - i) as int);
                    lemma_rotated_identities(rotated(p0, i + 1), q, (n - i) as int);
                    lemma_rotated_twice(p0, i + 1, (n - i) as int);
                    lemma_rotated_back(q, (n - i) as int);
                    assert(rotated(self.players@, i as int) == q);
                    assert(shows_scoreboard(self.log@.last(), rotated(self.players@, i as int)));
                    assert(self.log@[self.log@.len() - 3] == log_pre[log_pre.len() - 2]);
                    assert(self.players@[j].name == current_start.name);
                    assert(self.log@[self.log@.len() - 3] == Event::Flipped7(self.players@[j].name));
                    assert forall|k: int| 0 <= k < self.players@.len() implies score_in_range(
                        #[trigger] self.players@[k],
                    ) by {
                        assert(same_identity(self.players@[k], rotated(p0, 1)[k]));
                        if k < n - 1 {
                            assert(rotated(p0, 1)[k] == p0[k + 1]);
                        } else {
                            assert(rotated(p0, 1)[k] == p0[0]);
                        }
                    }
                }
                return Ok(true);
            }
            i = i + 1;
        }
        proof {
            assert(rotated(p0, n as int) =~= p0);
            self.lemma_all_fit();
        }
        let board = self.scoreboard();
        let ghost log_pre = self.log@;
        self.log.push(Event::Scoreboard(board));
        proof {
            lemma_log_concat(log_pre, seq![self.log@.last()]);
            assert(log_pre + seq![self.log@.last()] =~= self.log@);
            lemma_log_trans(log1, log_pre, self.log@);
            assert(rotated(self.players@, 0) =~= self.players@);
            assert(shows_scoreboard(self.log@.last(), rotated(self.players@, 0)));
        }
        Ok(false)
    }

    /// Ends a round: every player banks their live score and gives their
    /// hand to the discard pile, in queue order, and the round's discard
    /// pile follows. An error afterwards when the deck and the discard pile
    /// do not hold all 94 cards.
    #[verifier::rlimit(50)]
    pub fn finish_round(&mut self) -> (r: Result<(), GameError>)
        requires
            old(self).wf(),
        ensures
            final(self).wf_between(),
            final(self).target_score == old(self).target_score,
            final(self).deck == old(self).deck,
            final(self).players@.len() == old(self).players@.len(),
            final(self).log@.len() == old(self).log@.len() + old(self).players@.len() + 2,
            final(self).log@.subrange(0, old(self).log@.len() as int) == old(self).log@,
            final(self).log@[old(self).log@.len() as int] == Event::RoundOver,
            forall|k: int|
                0 <= k < old(self).players@.len() ==> shows_round_result(
                    #[trigger] final(self).log@[old(self).log@.len() + 1 + k],
                    old(self).players@[k],
                ),
            shows_scoreboard(final(self).log@.last(), final(self).players@),
            forall|i: int|
                0 <= i < old(self).players@.len() ==> {
                    let p = #[trigger] final(self).players@[i];
                    let o = old(self).players@[i];
                    &&& p.name == o.name
                    &&& p.stay_value == o.stay_value
                    &&& p.strategies == o.strategies
                    &&& p.score == o.live_score()
                    &&& p.score >= o.score
                    &&& p.hand@.len() == 0
                    &&& !p.out && !p.flip7 && !p.second_chance && !p.stay
                },
            final(self).round_discard@.len() == 0,
            final(self).discard@.to_multiset() == old(self).discard@.to_multiset().add(
                hands(old(self).players@),
            ).add(old(self).round_discard@.to_multiset()),
            final(self).cards() == old(self).cards(),
            r is Ok <==> old(self).cards().len() == EXPECTED_NUM_CARDS,
            r is Err ==> r == Err::<(), GameError>(GameError::CardCountMismatch),
            r is Ok ==> final(self).deck.cards@.len() + final(self).discard@.len()
                == EXPECTED_NUM_CARDS,
    {
        broadcast use vstd::seq_lib::group_to_multiset_ensures;
        broadcast use vstd::multiset::group_multiset_axioms;

        let n = self.players.len();
        self.log.push(Event::RoundOver);
        let ghost log1 = self.log@;
        let ghost p0 = self.players@;
        let ghost d0 = self.discard@;
        let mut k: usize = 0;
        proof {
            assert(p0.subrange(0, 0) =~= Seq::<Player>::empty());
            assert(p0.subrange(0, n as int) =~= p0);
            assert forall|m: int| 0 <= m < n implies (#[trigger] p0[m]).score_fits() && 0 <= p0[m].points() && 0 <= p0[m].score by {
                self.lemma_players_fit(m);
            }
        }
        while k < n
            invariant
                n == p0.len(),
                p0 == old(self).players@,
                d0 == old(self).discard@,
                k <= n,
                self.players@.len() == n,
                forall|m: int| 0 <= m < n ==> (#[trigger] p0[m]).score_fits() && 0 <= p0[m].points()
                    && 0 <= p0[m].score,
                forall|m: int| 0 <= m < n - k ==> #[trigger] self.players@[m] == p0[m + k],
                forall|m: int|
                    n - k <= m < n ==> {
                        let p = #[trigger] self.players@[m];
                        let o = p0[m - (n - k)];
                        &&& p.name == o.name
                        &&& p.stay_value == o.stay_value
                        &&& p.strategies == o.strategies
                        &&& p.score == o.live_score()
                        &&& p.hand@.len() == 0
                        &&& !p.out && !p.flip7 && !p.second_chance && !p.stay
                    },
                self.discard@.to_multiset() == d0.to_multiset().add(hands(p0.subrange(0, k as int))),
                hands(self.players@) == hands(p0.subrange(k as int, n as int)),
                self.deck == old(self).deck,
                self.round_discard == old(self).round_discard,
                self.target_score == old(self).target_score,
                log1 == old(self).log@.push(Event::RoundOver),
                self.log@.len() == log1.len() + k,
                self.log@.subrange(0, log1.len() as int) == log1,
                forall|m: int| 0 <= m < k ==> shows_round_result(#[trigger] self.log@[log1.len() + m], p0[m]),
            decreases n - k,
        {
            let ghost q = self.players@;
            let mut current = self.players.pop_front().unwrap();
            let ghost q1 = self.players@;
            proof {
                assert(current == p0[k as int]);
            }
            let points = current.get_points_scored();
            let shown = copy_cards(&current.hand);
            let ghost log_before = self.log@;
            self.log.push(Event::RoundResult(current.name.clone(), points, shown));
            proof {
                assert(shows_round_result(self.log@[log1.len() + k], p0[k as int]));
                assert forall|m: int| 0 <= m < k implies shows_round_result(
                    #[trigger] self.log@[log1.len() + m],
                    p0[m],
                ) by {
                    assert(self.log@[log1.len() + m] == log_before[log1.len() + m]);
                }
                assert(self.log@.subrange(0, log1.len() as int) =~= log_before.subrange(
                    0,
                    log1.len() as int,
                ));
            }
            let ghost hand_before = current.hand@;
            let mut hand = current.end_round();
            let ghost disc = self.discard@;
            self.discard.append(&mut hand);
            self.players.push_back(current);
            proof {
                lemma_hands_remove(q, 0);
                assert(q.remove(0) =~= q1);
                lemma_hands_push(q1, current);
                lemma_empty_pile(current.hand@);
                vstd::seq_lib::lemma_multiset_commutative(disc, hand_before);
                let pre = p0.subrange(0, k as int);
                let pre1 = p0.subrange(0, k + 1);
                assert(pre1.drop_last() =~= pre);
                assert(pre1.last() == p0[k as int]);
                let suf = p0.subrange(k as int, n as int);
                let suf1 = p0.subrange(k + 1, n as int);
                lemma_hands_remove(suf, 0);
                assert(suf.remove(0) =~= suf1);
                assert(suf[0] == p0[k as int]);
                assert(hands(q) == hands(suf));
                assert(q[0] == p0[k as int]);
                let a = p0[k as int].hand@.to_multiset();
                assert(hands(q) == hands(q1).add(a));
                assert(hands(suf) == hands(suf1).add(a));
                assert forall|v: Card| hands(q1).count(v) == hands(suf1).count(v) by {
                    assert(hands(q1).add(a).count(v) == hands(suf1).add(a).count(v));
                }
                assert(hands(q1) =~= hands(suf1));
                assert(hands(self.players@) =~= hands(q1));
                assert(self.discard@.to_multiset() =~= d0.to_multiset().add(hands(pre1)));
                assert forall|m: int| 0 <= m < n - (k + 1) implies #[trigger] self.players@[m] == p0[
                    m + k + 1] by {
                    assert(self.players@[m] == q[m + 1]);
                }
                assert forall|m: int| n - (k + 1) <= m < n implies {
                    let p = #[trigger] self.players@[m];
                    let o = p0[m - (n - (k + 1))];
                    &&& p.name == o.name
                    &&& p.stay_value == o.stay_value
                    &&& p.strategies == o.strategies
                    &&& p.score == o.live_score()
                    &&& p.hand@.len() == 0
                    &&& !p.out && !p.flip7 && !p.second_chance && !p.stay
                } by {
                    if m < n - 1 {
                        assert(self.players@[m] == q[m + 1]);
                    }
                }
            }
            k = k + 1;
        }
        let ghost d1 = self.discard@;
        let mut rd: Vec<Card> = Vec::new();
        std::mem::swap(&mut rd, &mut self.round_discard);
        let ghost rd0 = rd@;
        self.discard.append(&mut rd);
        proof {
            assert(p0.subrange(0, n as int) =~= p0);
            assert(p0.subrange(n as int, n as int) =~= Seq::<Player>::empty());
            vstd::seq_lib::lemma_multiset_commutative(d1, rd0);
            lemma_empty_pile(self.round_discard@);
            assert(hands(self.players@) =~= Multiset::empty());
            assert(self.cards() =~= old(self).cards());
            assert forall|m: int| 0 <= m < n implies 0 <= (#[trigger] self.players@[m]).score
                && self.players@[m].score_fits() by {
                assert(self.players@[m].score == p0[m].live_score());
                assert(0 <= p0[m].points());
                lemma_empty_hand_fits(self.players@[m]);
            }
            crate::bounds::lemma_subset_len(self.cards(), standard_cards());
            crate::deck::lemma_standard_deck_len();
            assert(self.deck.cards@.len() + self.discard@.len() == self.cards().len());
        }
        let board = self.scoreboard();
        let ghost log2 = self.log@;
        self.log.push(Event::Scoreboard(board));
        proof {
            assert(self.log@.subrange(0, old(self).log@.len() as int) =~= log2.subrange(
                0,
                old(self).log@.len() as int,
            ));
            assert(log2.subrange(0, old(self).log@.len() as int) =~= log1.subrange(
                0,
                old(self).log@.len() as int,
            ));
            assert(log1.subrange(0, old(self).log@.len() as int) =~= old(self).log@);
            assert(log2[old(self).log@.len() as int] == log1[old(self).log@.len() as int]);
            assert forall|m: int| 0 <= m < n implies shows_round_result(
                #[trigger] self.log@[old(self).log@.len() + 1 + m],
                old(self).players@[m],
            ) by {
                assert(self.log@[old(self).log@.len() + 1 + m] == log2[log1.len() + m]);
            }
        }
        if self.deck.cards.len() + self.discard.len() != EXPECTED_NUM_CARDS {
            return Err(GameError::CardCountMismatch);
        }
        Ok(())
    }

    /// Plays a round: turns (the first forced to hit when `first_round`)
    /// until every player is out or has stayed, or a turn ends with a Flip
    /// 7; then the round ends (`finish_round`). Every turn of a round that
    /// is not over lowers `progress`, so a round always ends. Refused, with
    /// nothing changed, when a banked score exceeds `SCORE_LIMIT`: the round
    /// could then overflow it.
    #[verifier::spinoff_prover]
    #[verifier::rlimit(60)]
    pub fn round(&mut self, first_round: bool) -> (r: Result<(), GameError>)
        requires
            old(self).wf_between(),
        ensures
            final(self).wf_between(),
            (r == Err::<(), GameError>(GameError::ScoreOverflow)) <==> exists|i: int|
                0 <= i < old(self).players@.len() && (#[trigger] old(self).players@[i]).score
                    > SCORE_LIMIT,
            r == Err::<(), GameError>(GameError::ScoreOverflow) ==> *final(self) == *old(self),
            r != Err::<(), GameError>(GameError::ScoreOverflow) ==> log_extends(
                old(self).log@.push(Event::RoundStart),
                final(self).log@,
            ),
            final(self).target_score == old(self).target_score,
            final(self).cards().subset_of(old(self).cards()),
            no_doubles(old(self).players@) ==> no_doubles(final(self).players@),
            r == Err::<(), GameError>(GameError::InvalidState) ==> !no_doubles(old(self).players@),
            r == Err::<(), GameError>(GameError::CardCountMismatch) ==> final(self).cards().len()
                != EXPECTED_NUM_CARDS,
            !from_turns(r) && r != Err::<(), GameError>(GameError::ScoreOverflow) ==> ((r
                == Err::<(), GameError>(GameError::CardCountMismatch)) <==> final(self).cards().len()
                != EXPECTED_NUM_CARDS),
            all_settled(old(self).players@) && old(self).cards().len() == EXPECTED_NUM_CARDS && (
            forall|i: int|
                0 <= i < old(self).players@.len() ==> (#[trigger] old(self).players@[i]).score
                    <= SCORE_LIMIT) ==> r is Ok,
            r == Err::<(), GameError>(GameError::DeckExhausted) ==> final(self).stock() == 0,
            r == Err::<(), GameError>(GameError::TooManyNumberCards) ==> some_overfull(
                final(self).players@,
            ),
            r is Ok ==> exists|k: int, pre: Seq<Player>|
                #[trigger] round_banked(
                    old(self).players@,
                    pre,
                    final(self).log@,
                    final(self).players@,
                    k,
                ),
            r is Ok ==> {
                &&& shows_scoreboard(final(self).log@.last(), final(self).players@)
                &&& final(self).players@.len() == old(self).players@.len()
                &&& final(self).round_discard@.len() == 0
                &&& final(self).deck.cards@.len() + final(self).discard@.len() == EXPECTED_NUM_CARDS
                &&& forall|i: int|
                    0 <= i < final(self).players@.len() ==> {
                        let p = #[trigger] final(self).players@[i];
                        &&& p.hand@.len() == 0
                        &&& !p.out && !p.flip7 && !p.second_chance && !p.stay
                    }
            },
    {
        let n = self.players.len();
        let mut i: usize = 0;
        while i < n
            invariant
                n == self.players@.len(),
                i <= n,
                *self == *old(self),
                old(self).wf_between(),
                forall|j: int| 0 <= j < i ==> (#[trigger] self.players@[j]).score <= SCORE_LIMIT,
            decreases n - i,
        {
            if self.players[i].score > SCORE_LIMIT {
                return Err(GameError::ScoreOverflow);
            }
            i = i + 1;
        }
        self.log.push(Event::RoundStart);
        let ghost log1 = self.log@;
        proof {
            lemma_log_refl(log1);
            assert forall|j: int| 0 <= j < self.players@.len() implies score_in_range(
                #[trigger] self.players@[j],
            ) by {
                assert(self.players@[j] == old(self).players@[j]);
            }
        }
        let mut first = first_round;
        let ghost p0 = self.players@;
        let ghost c0 = self.cards();
        let ghost over0 = all_settled(p0);
        let ghost mut k: int = 0;
        let ghost mut played: bool = false;
        proof {
            assert(rotated(p0, 0) =~= p0);
            assert(identities_kept(p0, p0));
        }
        while !self.round_over()
            invariant
                !played ==> self.log@ == log1 && self.players@ == p0,
                played ==> exists|t: int|
                    0 <= t <= self.players@.len() && #[trigger] shows_scoreboard(
                        self.log@.last(),
                        rotated(self.players@, t),
                    ),
                self.wf(),
                p0 == old(self).players@,
                forall|j: int| 0 <= j < p0.len() ==> (#[trigger] p0[j]).score <= SCORE_LIMIT,
                c0 == old(self).cards(),
                over0 == all_settled(p0),
                self.cards().subset_of(c0),
                no_doubles(p0) ==> no_doubles(self.players@),
                0 <= k <= p0.len(),
                identities_kept(rotated(p0, k), self.players@),
                over0 ==> self.players@ == p0 && self.deck == old(self).deck && self.discard == old(
                    self,
                ).discard && self.round_discard == old(self).round_discard,
                log1 == old(self).log@.push(Event::RoundStart),
                log_extends(log1, self.log@),
                self.target_score == old(self).target_score,
                self.players@.len() == old(self).players@.len(),
            ensures
                all_settled(self.players@) || exists|j: int|
                    0 <= j < self.players@.len() && (#[trigger] self.players@[j]).flip7
                        && count_numbers(self.players@[j].hand@) == 7,
            decreases self.progress(),
        {
            let ghost log_before = self.log@;
            let ghost players_before = self.players@;
            let ghost cards_before = self.cards();
            let step = self.turn(first);
            proof {
                lemma_log_push(log_before, Event::TurnStart, self.log@);
                lemma_log_trans(log1, log_before, self.log@);
                assert(self.cards().subset_of(cards_before));
                if step == Ok::<bool, GameError>(false) {
                    lemma_identities_trans(rotated(p0, k), players_before, self.players@);
                } else if step == Ok::<bool, GameError>(true) {
                    lemma_rotated_identities(rotated(p0, k), players_before, 1);
                    lemma_identities_trans(
                        rotated(rotated(p0, k), 1),
                        rotated(players_before, 1),
                        self.players@,
                    );
                    if k < p0.len() {
                        lemma_rotated_once_more(p0, k);
                        k = k + 1;
                    } else {
                        assert(rotated(p0, k) =~= p0);
                        assert(rotated(p0, 0) =~= p0);
                        lemma_rotated_once_more(p0, 0);
                        k = 1;
                    }
                }
                if step is Ok {
                    played = true;
                }
            }
            match step {
                Ok(true) => {
                    break;
                },
                Ok(false) => {},
                Err(e) => {
                    return Err(e);
                },
            }
            first = false;
        }
        let ghost log_before = self.log@;
        let ghost pre = self.players@;
        proof {
            assert forall|m: int| 0 <= m < pre.len() implies 0 <= (#[trigger] pre[m]).points() by {
                self.lemma_players_fit(m);
            }
        }
        let r = self.finish_round();
        proof {
            if r is Ok {
                let fl = self.log@;
                assert(fl[fl.len() - p0.len() - 3] == log_before[log_before.len() - 1]);
                if !played {
                    assert(log_before.last() == Event::RoundStart);
                }
                assert forall|i: int| 0 <= i < p0.len() implies {
                    let a = #[trigger] self.players@[i];
                    let b = pre[i];
                    &&& a.name == b.name
                    &&& a.stay_value == b.stay_value
                    &&& a.strategies == b.strategies
                    &&& b.points() >= 0
                    &&& a.score == b.live_score()
                    &&& shows_round_result(fl[fl.len() - 1 - p0.len() + i], b)
                } by {
                    assert(shows_round_result(fl[log_before.len() + 1 + i], pre[i]));
                }
                assert(round_banked(p0, pre, self.log@, self.players@, k));
            }
            assert(self.log@.subrange(0, log_before.len() as int) == log_before);
            lemma_log_trans(log1, log_before, self.log@);
            if r is Ok {
                crate::bounds::lemma_subset_len(self.cards(), standard_cards());
            }
        }
        r
    }

    /// The standings of all players, in queue order.
    pub fn scoreboard(&self) -> (lines: Vec<ScoreLine>)
        requires
            forall|i: int| 0 <= i < self.players@.len() ==> (#[trigger] self.players@[i]).score_fits(),
        ensures
            lines@.len() == self.players@.len(),
            forall|i: int| 0 <= i < lines@.len() ==> shows(#[trigger] lines@[i], self.players@[i]),
    {
        let mut lines: Vec<ScoreLine> = Vec::new();
        let mut i: usize = 0;
        while i < self.players.len()
            invariant
                forall|k: int| 0 <= k < self.players@.len() ==> (#[trigger] self.players@[k]).score_fits(),
                i <= self.players@.len(),
                lines@.len() == i,
                forall|k: int| 0 <= k < i ==> shows(#[trigger] lines@[k], self.players@[k]),
            decreases self.players@.len() - i,
        {
            let line = Game::score_line(&self.players[i]);
            lines.push(line);
            i = i + 1;
        }
        lines
    }
}

/// The same player (name, stay value, banked score, strategies).
pub open spec fn same_identity(q: Player, p: Player) -> bool {
    &&& q.name == p.name
    &&& q.stay_value == p.stay_value
    &&& q.score == p.score
    &&& q.strategies == p.strategies
}

/// The same player in the same state.
pub open spec fn same_state(q: Player, p: Player) -> bool {
    &&& same_identity(q, p)
    &&& q.hand@ == p.hand@
    &&& q.second_chance == p.second_chance
    &&& q.out == p.out
    &&& q.flip7 == p.flip7
    &&& q.stay == p.stay
}

/// The same players in the same order, each keeping name, stay value,
/// banked score and strategies.
pub open spec fn identities_kept(players: Seq<Player>, players2: Seq<Player>) -> bool {
    &&& players2.len() == players.len()
    &&& forall|i: int| 0 <= i < players.len() ==> same_identity(#[trigger] players2[i], players[i])
}

/// The player is done for the round: out, or stayed.
pub open spec fn settled(p: Player) -> bool {
    p.out || p.stay
}

/// Every player is done for the round.
pub open spec fn all_settled(players: Seq<Player>) -> bool {
    forall|i: int| 0 <= i < players.len() ==> settled(#[trigger] players[i])
}

/// The number of players still in the round.
pub open spec fn active_count(players: Seq<Player>) -> nat
    decreases players.len(),
{
    if players.len() == 0 {
        0
    } else {
        active_count(players.drop_last()) + if settled(players.last()) {
            0nat
        } else {
            1nat
        }
    }
}

/// The same number of players, and no one who was done for the round is
/// back in it.
pub open spec fn settled_kept(players: Seq<Player>, players2: Seq<Player>) -> bool {
    &&& players2.len() == players.len()
    &&& forall|i: int|
        0 <= i < players.len() ==> (settled(#[trigger] players[i]) ==> settled(players2[i]))
}

/// Active players split over a concatenation.
pub proof fn lemma_active_concat(a: Seq<Player>, b: Seq<Player>)
    ensures
        active_count(a + b) == active_count(a) + active_count(b),
    decreases b.len(),
{
    if b.len() == 0 {
        assert(a + b =~= a);
    } else {
        lemma_active_concat(a, b.drop_last());
        assert((a + b).drop_last() =~= a + b.drop_last());
    }
}

/// Removing a player removes them from the count.
pub proof fn lemma_active_remove(s: Seq<Player>, i: int)
    requires
        0 <= i < s.len(),
    ensures
        active_count(s) == active_count(s.remove(i)) + if settled(s[i]) {
            0nat
        } else {
            1nat
        },
{
    let a = s.subrange(0, i);
    let b = s.subrange(i + 1, s.len() as int);
    assert(s =~= a.push(s[i]) + b);
    assert(s.remove(i) =~= a + b);
    lemma_active_concat(a.push(s[i]), b);
    lemma_active_concat(a, b);
    assert(a.push(s[i]).drop_last() =~= a);
}

/// Turning the queue keeps the count.
pub proof fn lemma_active_rotated(s: Seq<Player>, k: int)
    requires
        0 <= k <= s.len(),
    ensures
        active_count(rotated(s, k)) == active_count(s),
{
    let a = s.subrange(0, k);
    let b = s.subrange(k, s.len() as int);
    assert(s =~= a + b);
    lemma_active_concat(a, b);
    lemma_active_concat(b, a);
}

/// When no one returns to the round, the count does not grow, and it
/// shrinks when someone leaves.
pub proof fn lemma_active_kept(a: Seq<Player>, b: Seq<Player>)
    requires
        settled_kept(a, b),
    ensures
        active_count(b) <= active_count(a),
        (exists|i: int| 0 <= i < a.len() && !settled(a[i]) && settled(#[trigger] b[i]))
            ==> active_count(b) < active_count(a),
    decreases a.len(),
{
    if a.len() > 0 {
        let a1 = a.drop_last();
        let b1 = b.drop_last();
        assert(settled_kept(a1, b1)) by {
            assert forall|i: int| 0 <= i < a1.len() && settled(#[trigger] a1[i]) implies settled(
                b1[i],
            ) by {
                assert(a1[i] == a[i]);
                assert(b1[i] == b[i]);
            }
        }
        lemma_active_kept(a1, b1);
        assert(settled(a[a.len() - 1]) ==> settled(b[b.len() - 1]));
        if exists|i: int| 0 <= i < a.len() && !settled(a[i]) && settled(#[trigger] b[i]) {
            let i = choose|i: int| 0 <= i < a.len() && !settled(a[i]) && settled(#[trigger] b[i]);
            if i < a.len() - 1 {
                assert(a1[i] == a[i]);
                assert(b1[i] == b[i]);
            }
        }
    }
}

/// Keeping players in the round is transitive.
pub proof fn lemma_settled_trans(a: Seq<Player>, b: Seq<Player>, c: Seq<Player>)
    requires
        settled_kept(a, b),
        settled_kept(b, c),
    ensures
        settled_kept(a, c),
{
    assert forall|i: int| 0 <= i < a.len() && settled(#[trigger] a[i]) implies settled(c[i]) by {
        assert(settled(a[i]) ==> settled(b[i]));
        assert(settled(b[i]) ==> settled(c[i]));
    }
}

proof fn lemma_settled_insert(a: Seq<Player>, b: Seq<Player>, idx: int, t: Player)
    requires
        0 <= idx < a.len(),
        settled_kept(a.remove(idx), b),
        settled(a[idx]) ==> settled(t),
    ensures
        settled_kept(a, b.insert(idx, t)),
{
    let c = b.insert(idx, t);
    assert forall|i: int| 0 <= i < a.len() && settled(#[trigger] a[i]) implies settled(c[i]) by {
        if i < idx {
            assert(c[i] == b[i]);
            assert(a.remove(idx)[i] == a[i]);
        } else if i > idx {
            assert(c[i] == b[i - 1]);
            assert(a.remove(idx)[i - 1] == a[i]);
        }
    }
}

/// The player is both out and stayed, a state the rules never reach.
pub open spec fn double(p: Player) -> bool {
    p.out && p.stay
}

/// No player is both out and stayed.
pub open spec fn no_doubles(players: Seq<Player>) -> bool {
    forall|i: int| 0 <= i < players.len() ==> !double(#[trigger] players[i])
}

/// Three forced hits on a player who ends as `target`: the cards left to
/// deal fell by three, or by fewer when the player was done for the round.
pub open spec fn three_hits(old_stock: nat, new_stock: nat, target: Player) -> bool {
    &&& new_stock <= old_stock
    &&& old_stock <= new_stock + 3
    &&& (new_stock + 3 == old_stock || settled(target))
}

/// Three forced hits on a player, from `p` to `q`, while the game went from
/// `g` to `h`: a success lowers the cards left to deal as `three_hits`
/// says; a player both out and stayed is an error; a player done for the
/// round is left as they were, with the deck and piles.
pub open spec fn hits_player(g: Game, h: Game, p: Player, q: Player, r: Result<(), GameError>) -> bool {
    &&& r is Ok ==> three_hits(g.stock(), h.stock(), q)
    &&& double(p) ==> r == Err::<(), GameError>(GameError::InvalidState)
    &&& settled(p) && !double(p) ==> {
        &&& r is Ok
        &&& h.deck == g.deck
        &&& h.discard == g.discard
        &&& h.round_discard == g.round_discard
        &&& same_state(q, p)
    }
}

/// The Flip Three's forced hits went to the player at `idx` of the queue of
/// `g`, or to the drawer `p` (ending as `q`) when `idx` is the queue's length.
pub open spec fn hits_at(g: Game, h: Game, p: Player, q: Player, r: Result<(), GameError>, idx: int) -> bool {
    &&& 0 <= idx <= g.players@.len()
    &&& idx == g.players@.len() ==> hits_player(g, h, p, q, r)
    &&& idx < g.players@.len() ==> same_state(q, p) && hits_player(
        g,
        h,
        g.players@[idx],
        h.players@[idx],
        r,
    )
}

/// The same players in the same order, each in the same state.
pub open spec fn states_kept(players: Seq<Player>, players2: Seq<Player>) -> bool {
    &&& players2.len() == players.len()
    &&& forall|i: int| 0 <= i < players.len() ==> same_state(#[trigger] players2[i], players[i])
}

proof fn lemma_states_step(p0: Seq<Player>, i: int, before: Seq<Player>, after: Seq<Player>, c: Player)
    requires
        0 <= i < p0.len(),
        states_kept(rotated(p0, i), before),
        after == before.subrange(1, before.len() as int).push(c),
        same_state(c, before[0]),
    ensures
        states_kept(rotated(p0, i + 1), after),
{
    lemma_rotate_step(p0, i);
    let r = rotated(p0, i);
    let r1 = rotated(p0, i + 1);
    assert forall|m: int| 0 <= m < r1.len() implies same_state(#[trigger] after[m], r1[m]) by {
        if m < p0.len() - 1 {
            assert(after[m] == before[m + 1]);
            assert(r1[m] == r[m + 1]);
            assert(same_state(before[m + 1], r[m + 1]));
        } else {
            assert(after[m] == c);
            assert(r1[m] == r[0]);
            assert(same_state(before[0], r[0]));
        }
    }
}

proof fn lemma_no_doubles_rotated(q: Seq<Player>, t: int)
    requires
        no_doubles(q),
        0 <= t <= q.len(),
    ensures
        no_doubles(rotated(q, t)),
{
    let r = rotated(q, t);
    assert forall|m: int| 0 <= m < r.len() implies !double(#[trigger] r[m]) by {
        if m < q.len() - t {
            assert(r[m] == q[m + t]);
        } else {
            assert(r[m] == q[m - (q.len() - t)]);
        }
    }
}

/// After a round that began with `p0`, `pre` is the queue as play ended:
/// `p0` turned `k` places, each player keeping name, stay value, banked
/// score and strategies. Play ended because every player was out or had
/// stayed, or because someone flipped 7. The event just before the round's
/// end is the scoreboard that the last turn showed of `pre` (up to the
/// turning of the queue), or, when no turn was played, the round's start
/// with `pre` as the round began. The round-result events just before the
/// final scoreboard show each player of `pre` (points and hand), those
/// points are not negative, and each player of `players` is that player of
/// `pre` with the live score banked: the old score plus the points of the
/// hand they ended the round with.
pub open spec fn round_banked(
    p0: Seq<Player>,
    pre: Seq<Player>,
    log: Seq<Event>,
    players: Seq<Player>,
    k: int,
) -> bool {
    &&& 0 <= k <= p0.len()
    &&& identities_kept(rotated(p0, k), pre)
    &&& players.len() == p0.len()
    &&& log.len() >= p0.len() + 3
    &&& (all_settled(pre) || exists|j: int|
        0 <= j < pre.len() && (#[trigger] pre[j]).flip7 && count_numbers(pre[j].hand@) == 7)
    &&& ((pre == p0 && log[log.len() - p0.len() - 3] == Event::RoundStart) || exists|t: int|
        0 <= t <= pre.len() && #[trigger] shows_scoreboard(
            log[log.len() - p0.len() - 3],
            rotated(pre, t),
        ))
    &&& forall|i: int|
        0 <= i < p0.len() ==> {
            let a = #[trigger] players[i];
            let b = pre[i];
            &&& a.name == b.name
            &&& a.stay_value == b.stay_value
            &&& a.strategies == b.strategies
            &&& b.points() >= 0
            &&& a.score == b.live_score()
            &&& shows_round_result(log[log.len() - 1 - p0.len() + i], b)
        }
}

proof fn lemma_rotated_once_more(s: Seq<Player>, k: int)
    requires
        0 <= k < s.len(),
    ensures
        rotated(rotated(s, k), 1) =~= rotated(s, k + 1),
{
    lemma_rotate_step(s, k);
    assert(rotated(rotated(s, k), 1) =~= rotated(s, k).subrange(1, s.len() as int).push(
        rotated(s, k)[0],
    ));
}

/// An error that playing turns can end with (as opposed to ending a round).
pub open spec fn play_error(e: GameError) -> bool {
    e == GameError::DeckExhausted || e == GameError::TooManyNumberCards || e
        == GameError::InvalidState
}

/// Every player still in the round would stay rather than hit: their
/// points this round reach their stay value.
pub open spec fn all_would_stay(players: Seq<Player>) -> bool {
    forall|i: int|
        0 <= i < players.len() && !settled(#[trigger] players[i]) ==> players[i].points()
            >= players[i].stay_value
}

/// A player with an empty hand and no Flip 7 scores nothing this round, and
/// any banked score that is not negative fits.
pub proof fn lemma_empty_hand_fits(p: Player)
    requires
        p.hand@.len() == 0,
        !p.flip7,
        0 <= p.score,
    ensures
        p.score_fits(),
        p.points() == 0,
{
    let h = p.hand@;
    assert(h.take(0) =~= h);
    assert(mult_values(h) =~= Seq::<i32>::empty());
    assert(mult_values(h).take(0) =~= mult_values(h));
    assert(forall|k: int| 0 <= k <= h.len() ==> h.take(k) =~= h);
    assert(forall|j: int| 0 <= j <= mult_values(h).len() ==> mult_values(h).take(j) =~= mult_values(h));
}

/// The player, still in the round, hits on their turn (forced in the first
/// round, else because their points are below their stay value), and the
/// deck has a card for them.
pub open spec fn hits_from_deck(g: Game, p: Player, first_round: bool) -> bool {
    &&& !settled(p)
    &&& (first_round || p.points() < p.stay_value)
    &&& g.deck.cards@.len() > 0
}

/// `after` is `before` less some Flip Three cards, and nothing else.
pub open spec fn loses_only_flip3(before: Multiset<Card>, after: Multiset<Card>) -> bool {
    &&& after.subset_of(before)
    &&& forall|c: Card|
        #[trigger] after.count(c) < before.count(c) ==> c == Card::Action(ActionType::Flip3)
}

/// Losing only Flip Three cards twice loses only Flip Three cards.
pub proof fn lemma_loses_only_flip3_trans(a: Multiset<Card>, b: Multiset<Card>, c: Multiset<Card>)
    requires
        loses_only_flip3(a, b),
        loses_only_flip3(b, c),
    ensures
        loses_only_flip3(a, c),
{
    assert forall|x: Card| #[trigger] c.count(x) < a.count(x) implies x == Card::Action(
        ActionType::Flip3,
    ) by {
        if c.count(x) < b.count(x) {
        } else {
            assert(b.count(x) < a.count(x));
        }
    }
}

/// Adding the same cards on both sides keeps losing only Flip Three cards.
pub proof fn lemma_loses_only_flip3_add(a: Multiset<Card>, b: Multiset<Card>, h: Multiset<Card>)
    requires
        loses_only_flip3(a, b),
    ensures
        loses_only_flip3(a.add(h), b.add(h)),
{
    broadcast use vstd::multiset::group_multiset_axioms;

    assert forall|x: Card| #[trigger] b.add(h).count(x) < a.add(h).count(x) implies x
        == Card::Action(ActionType::Flip3) by {
        assert(b.count(x) < a.count(x));
    }
}

/// The player's hand holds more than seven number cards.
pub open spec fn overfull(p: Player) -> bool {
    count_numbers(p.hand@) > 7
}

/// Some player of `players` holds more than seven number cards.
pub open spec fn some_overfull(players: Seq<Player>) -> bool {
    exists|j: int| 0 <= j < players.len() && #[trigger] overfull(players[j])
}

/// The result is an error that a turn of play gave.
pub open spec fn from_turns(r: Result<(), GameError>) -> bool {
    r matches Err(e) && play_error(e)
}

/// The queue turned `k` places: its first `k` players moved to the back.
pub open spec fn rotated(players: Seq<Player>, k: int) -> Seq<Player> {
    players.subrange(k, players.len() as int) + players.subrange(0, k)
}

/// Turning the queue once more moves its first player to the back.
pub proof fn lemma_rotate_step(s: Seq<Player>, k: int)
    requires
        0 <= k < s.len(),
    ensures
        rotated(s, k).subrange(1, s.len() as int).push(rotated(s, k)[0]) =~= rotated(s, k + 1),
{
}

/// Identities kept is transitive.
pub proof fn lemma_identities_trans(a: Seq<Player>, b: Seq<Player>, c: Seq<Player>)
    requires
        identities_kept(a, b),
        identities_kept(b, c),
    ensures
        identities_kept(a, c),
{
    assert forall|i: int| 0 <= i < a.len() implies same_identity(#[trigger] c[i], a[i]) by {
        assert(same_identity(b[i], a[i]));
        assert(same_identity(c[i], b[i]));
    }
}

proof fn lemma_identities_front(a: Seq<Player>, b: Seq<Player>)
    requires
        identities_kept(a, b),
        a.len() > 0,
    ensures
        identities_kept(a.subrange(1, a.len() as int), b.subrange(1, b.len() as int)),
        same_identity(b[0], a[0]),
{
    let a1 = a.subrange(1, a.len() as int);
    let b1 = b.subrange(1, b.len() as int);
    assert forall|i: int| 0 <= i < a1.len() implies same_identity(#[trigger] b1[i], a1[i]) by {
        assert(same_identity(b[i + 1], a[i + 1]));
    }
}

proof fn lemma_identities_push(a: Seq<Player>, b: Seq<Player>, x: Player, y: Player)
    requires
        identities_kept(a, b),
        same_identity(y, x),
    ensures
        identities_kept(a.push(x), b.push(y)),
{
    assert forall|i: int| 0 <= i < a.push(x).len() implies same_identity(
        #[trigger] b.push(y)[i],
        a.push(x)[i],
    ) by {
        if i < a.len() {
            assert(same_identity(b[i], a[i]));
        }
    }
}

proof fn lemma_identities_insert(a: Seq<Player>, b: Seq<Player>, idx: int, t: Player)
    requires
        0 <= idx < a.len(),
        identities_kept(a.remove(idx), b),
        same_identity(t, a[idx]),
    ensures
        identities_kept(a, b.insert(idx, t)),
{
    let c = b.insert(idx, t);
    assert forall|i: int| 0 <= i < a.len() implies same_identity(#[trigger] c[i], a[i]) by {
        if i < idx {
            assert(c[i] == b[i]);
            assert(a.remove(idx)[i] == a[i]);
            assert(same_identity(b[i], a.remove(idx)[i]));
        } else if i > idx {
            assert(c[i] == b[i - 1]);
            assert(a.remove(idx)[i - 1] == a[i]);
            assert(same_identity(b[i - 1], a.remove(idx)[i - 1]));
        }
    }
}

proof fn lemma_rotated_identities(a: Seq<Player>, b: Seq<Player>, t: int)
    requires
        identities_kept(a, b),
        0 <= t <= a.len(),
    ensures
        identities_kept(rotated(a, t), rotated(b, t)),
{
    let ra = rotated(a, t);
    let rb = rotated(b, t);
    assert forall|i: int| 0 <= i < ra.len() implies same_identity(#[trigger] rb[i], ra[i]) by {
        if i < a.len() - t {
            assert(ra[i] == a[i + t]);
            assert(rb[i] == b[i + t]);
            assert(same_identity(b[i + t], a[i + t]));
        } else {
            assert(ra[i] == a[i - (a.len() - t)]);
            assert(rb[i] == b[i - (a.len() - t)]);
            assert(same_identity(b[i - (a.len() - t)], a[i - (a.len() - t)]));
        }
    }
}

/// Turning a queue `t` places and then the rest of the way round gives it
/// back.
proof fn lemma_rotated_back(s: Seq<Player>, t: int)
    requires
        0 <= t <= s.len(),
    ensures
        rotated(rotated(s, t), s.len() - t) =~= s,
{
    let n = s.len() as int;
    let r1 = rotated(s, t);
    let r2 = rotated(r1, n - t);
    assert forall|i: int| 0 <= i < n implies r2[i] == s[i] by {
        if i < t {
            assert(r2[i] == r1[i + (n - t)]);
            assert(r1[i + (n - t)] == s[i]);
        } else {
            assert(r2[i] == r1[i - t]);
            assert(r1[i - t] == s[i]);
        }
    }
}

proof fn lemma_rotated_twice(s: Seq<Player>, a: int, b: int)
    requires
        0 < a <= s.len(),
        0 <= b <= s.len(),
        a + b == s.len() + 1,
    ensures
        rotated(rotated(s, a), b) =~= rotated(s, 1),
{
    let n = s.len() as int;
    let r1 = rotated(s, a);
    let r2 = rotated(r1, b);
    assert forall|i: int| 0 <= i < n implies r2[i] == rotated(s, 1)[i] by {
        if i < n - b {
            assert(r2[i] == r1[i + b]);
            assert(r1[i + b] == s[i + b - (n - a)]);
        } else {
            assert(r2[i] == r1[i - (n - b)]);
            if i - (n - b) < n - a {
                assert(r1[i - (n - b)] == s[i - (n - b) + a]);
            } else {
                assert(r1[i - (n - b)] == s[i - (n - b) - (n - a)]);
            }
        }
    }
}

/// The same player in the same round state, save perhaps the Flip 7 flag.
pub open spec fn same_round_state(q: Player, p: Player) -> bool {
    &&& same_identity(q, p)
    &&& q.hand@ == p.hand@
    &&& q.second_chance == p.second_chance
    &&& q.out == p.out
    &&& q.stay == p.stay
}

/// Player `i` of `players` received card `c` and now has the given stay and
/// second-chance flags; no other player changed.
pub open spec fn received(
    players: Seq<Player>,
    players2: Seq<Player>,
    i: int,
    c: Card,
    stay: bool,
    second_chance: bool,
) -> bool {
    &&& 0 <= i < players.len()
    &&& players2.len() == players.len()
    &&& forall|j: int| 0 <= j < players.len() && j != i ==> #[trigger] players2[j] == players[j]
    &&& same_identity(players2[i], players[i])
    &&& players2[i].hand@ == players[i].hand@.push(c)
    &&& players2[i].out == players[i].out
    &&& players2[i].flip7 == players[i].flip7
    &&& players2[i].stay == stay
    &&& players2[i].second_chance == second_chance
}

/// A Freeze can target this player: they are neither out nor stayed.
pub open spec fn can_freeze(p: Player) -> bool {
    !p.out && !p.stay
}

/// Player `i` is the one a Freeze targets: among those it can target, the
/// highest live score, the last of them on a tie.
pub open spec fn is_freeze_target(players: Seq<Player>, i: int) -> bool {
    &&& 0 <= i < players.len()
    &&& can_freeze(players[i])
    &&& forall|j: int|
        0 <= j < players.len() && can_freeze(#[trigger] players[j]) ==> players[j].live_score()
            <= players[i].live_score()
    &&& forall|j: int|
        i < j < players.len() && can_freeze(#[trigger] players[j]) ==> players[j].live_score()
            < players[i].live_score()
}

/// A Second Chance can go to this player: neither out nor stayed, and
/// without one.
pub open spec fn can_get_second_chance(p: Player) -> bool {
    !p.out && !p.stay && !p.second_chance
}

/// Player `i` is the one a spare Second Chance goes to: among those it can
/// go to, the lowest live score, the first of them on a tie.
pub open spec fn is_second_chance_target(players: Seq<Player>, i: int) -> bool {
    &&& 0 <= i < players.len()
    &&& can_get_second_chance(players[i])
    &&& forall|j: int|
        0 <= j < players.len() && can_get_second_chance(#[trigger] players[j])
            ==> players[i].live_score() <= players[j].live_score()
    &&& forall|j: int|
        0 <= j < i && can_get_second_chance(#[trigger] players[j]) ==> players[i].live_score()
            < players[j].live_score()
}

/// Where a Freeze drawn by `p` goes: to the Freeze target among `players`,
/// who is forced to stay; to `p` when there is none.
pub open spec fn freeze_played(
    players: Seq<Player>,
    p: Player,
    c: Card,
    players2: Seq<Player>,
    q: Player,
) -> bool {
    if exists|i: int| is_freeze_target(players, i) {
        &&& same_round_state(q, p)
        &&& exists|i: int|
            is_freeze_target(players, i) && received(
                players,
                players2,
                i,
                c,
                true,
                players[i].second_chance,
            )
    } else {
        &&& players2 == players
        &&& same_identity(q, p)
        &&& q.hand@ == p.hand@.push(c)
        &&& q.second_chance == p.second_chance
        &&& q.out == p.out
        &&& q.stay
    }
}

/// Where a Second Chance drawn by `p` goes: to `p` when they have none;
/// else to the Second Chance target among `players`; else to the round's
/// discard pile.
pub open spec fn second_chance_played(
    players: Seq<Player>,
    rd: Seq<Card>,
    p: Player,
    c: Card,
    players2: Seq<Player>,
    rd2: Seq<Card>,
    q: Player,
) -> bool {
    if !p.second_chance {
        &&& players2 == players
        &&& rd2 == rd
        &&& same_identity(q, p)
        &&& q.hand@ == p.hand@.push(c)
        &&& q.second_chance
        &&& q.out == p.out
        &&& q.stay == p.stay
    } else if exists|i: int| is_second_chance_target(players, i) {
        &&& rd2 == rd
        &&& same_round_state(q, p)
        &&& exists|i: int|
            is_second_chance_target(players, i) && received(
                players,
                players2,
                i,
                c,
                players[i].stay,
                true,
            )
    } else {
        &&& players2 == players
        &&& rd2 == rd.push(c)
        &&& same_round_state(q, p)
    }
}

/// The end of a turn that did not draw a Flip Three: seven number cards in
/// the hand make a Flip 7 (the flag is set, and the marker card
/// `Number(-1)` is returned); more than seven is an error; fewer, nothing.
pub open spec fn flip7_checked(
    numbers: nat,
    before: bool,
    after: bool,
    r: Result<Option<Card>, GameError>,
) -> bool {
    if numbers == 7 {
        after && r == Ok::<Option<Card>, GameError>(Some(Card::Number(-1i32)))
    } else if numbers > 7 {
        after == before && r == Err::<Option<Card>, GameError>(GameError::TooManyNumberCards)
    } else {
        after == before && r == Ok::<Option<Card>, GameError>(None)
    }
}

/// What a card `c` drawn by `p` does, given the queued `players` and the
/// round's discard pile `rd`. A Flip Three is handed back untouched. A
/// modifier, or a number card the hand lacks, joins the hand. A number card
/// the hand holds is a bust: it goes to the round's discard pile, and a
/// second chance is used up or else the player is out. A Freeze and a Second
/// Chance are played as `freeze_played` and `second_chance_played` say.
/// After all but a Flip Three, the hand is checked for a Flip 7.
pub open spec fn resolves(
    players: Seq<Player>,
    rd: Seq<Card>,
    p: Player,
    c: Card,
    players2: Seq<Player>,
    rd2: Seq<Card>,
    q: Player,
    r: Result<Option<Card>, GameError>,
) -> bool {
    let dup = c is Number && p.hand@.contains(c);
    if c == Card::Action(ActionType::Flip3) {
        &&& players2 == players
        &&& rd2 == rd
        &&& same_state(q, p)
        &&& r == Ok::<Option<Card>, GameError>(Some(c))
    } else {
        &&& if c is Modifier || (c is Number && !dup) {
            &&& players2 == players
            &&& rd2 == rd
            &&& same_identity(q, p)
            &&& q.hand@ == p.hand@.push(c)
            &&& q.second_chance == p.second_chance
            &&& q.out == p.out
            &&& q.stay == p.stay
        } else if dup {
            &&& players2 == players
            &&& rd2 == rd.push(c)
            &&& same_identity(q, p)
            &&& q.hand@ == p.hand@
            &&& !q.second_chance
            &&& q.out == (p.out || !p.second_chance)
            &&& q.stay == p.stay
        } else if c == Card::Action(ActionType::Freeze) {
            &&& rd2 == rd
            &&& freeze_played(players, p, c, players2, q)
        } else {
            second_chance_played(players, rd, p, c, players2, rd2, q)
        }
        &&& flip7_checked(count_numbers(q.hand@), p.flip7, q.flip7, r)
    }
}

/// The card a turn hands back to the caller, if it is a real card (the Flip
/// 7 marker is not).
pub open spec fn handed_back(r: Result<Option<Card>, GameError>) -> Multiset<Card> {
    match r {
        Ok(Some(c)) => if c is Action {
            Multiset::singleton(c)
        } else {
            Multiset::empty()
        },
        _ => Multiset::empty(),
    }
}

/// At most one player is the Freeze target.
pub proof fn lemma_freeze_target_unique(players: Seq<Player>, i: int, j: int)
    requires
        is_freeze_target(players, i),
        is_freeze_target(players, j),
    ensures
        i == j,
{
    assert(can_freeze(players[i]));
    assert(can_freeze(players[j]));
}

/// At most one player is the Second Chance target.
pub proof fn lemma_second_chance_target_unique(players: Seq<Player>, i: int, j: int)
    requires
        is_second_chance_target(players, i),
        is_second_chance_target(players, j),
    ensures
        i == j,
{
    assert(can_get_second_chance(players[i]));
    assert(can_get_second_chance(players[j]));
}

/// What playing a Freeze drawn by `p` records: whom it targets, with their
/// live score, and that they are forced to stay.
pub open spec fn freeze_events(players: Seq<Player>, p: Player) -> Seq<Event> {
    if exists|i: int| is_freeze_target(players, i) {
        let i = choose|i: int| is_freeze_target(players, i);
        seq![
            Event::FreezeTarget(players[i].name, players[i].live_score() as i32),
            Event::ForcedToStay(players[i].name),
        ]
    } else {
        seq![Event::FreezeTarget(p.name, p.live_score() as i32), Event::ForcedToStay(p.name)]
    }
}

/// What playing a Second Chance drawn by `p` records: nothing when `p` had
/// none; else that they had one, and whom it goes to, with their live score.
pub open spec fn second_chance_events(players: Seq<Player>, p: Player) -> Seq<Event> {
    if !p.second_chance {
        Seq::empty()
    } else if exists|i: int| is_second_chance_target(players, i) {
        let i = choose|i: int| is_second_chance_target(players, i);
        seq![
            Event::AlreadyHadSecondChance,
            Event::SecondChanceTarget(players[i].name, players[i].live_score() as i32),
        ]
    } else {
        seq![
            Event::AlreadyHadSecondChance,
            Event::SecondChanceTarget(p.name, p.live_score() as i32),
        ]
    }
}

/// What taking a card `c` drawn by `p` records (`q` is `p` afterwards): the
/// draw; for a bust, the duplicate, the bust and the second chance used or
/// the player out; for an action, which one and how it was played; and a
/// Flip 7 when the hand then holds seven number cards.
pub open spec fn resolve_events(players: Seq<Player>, p: Player, c: Card, q: Player) -> Seq<Event> {
    let dup = c is Number && p.hand@.contains(c);
    let bust = if dup {
        seq![
            Event::AlreadyHas(p.name, c),
            Event::Busts(p.name),
            if p.second_chance {
                Event::SecondChanceSaves
            } else {
                Event::OutOfRound(p.name)
            },
        ]
    } else {
        Seq::empty()
    };
    let action = if c == Card::Action(ActionType::Freeze) {
        seq![Event::DrewFreeze(p.name)] + freeze_events(players, p)
    } else if c == Card::Action(ActionType::Flip3) {
        seq![Event::DrewFlip3(p.name)]
    } else if c == Card::Action(ActionType::SecondChance) {
        seq![Event::DrewSecondChance(p.name)] + second_chance_events(players, p)
    } else {
        Seq::empty()
    };
    let flip = if c != Card::Action(ActionType::Flip3) && count_numbers(q.hand@) == 7 {
        seq![Event::Flipped7(p.name)]
    } else {
        Seq::empty()
    };
    seq![Event::Drew(p.name, c)] + bust + action + flip
}

/// What a player who hits records: that they must hit, or that they choose
/// to.
pub open spec fn hit_event(p: Player, must_hit: bool) -> Event {
    if must_hit {
        Event::MustHit(p.name)
    } else {
        Event::ChoosesToHit(p.name)
    }
}

/// The event shows a player's round result: name, points this round, and
/// hand.
pub open spec fn shows_round_result(e: Event, p: Player) -> bool {
    match e {
        Event::RoundResult(name, points, cards) => name == p.name && points == p.points()
            && cards@ == p.hand@,
        _ => false,
    }
}

/// The event is a scoreboard showing these players.
pub open spec fn shows_scoreboard(e: Event, players: Seq<Player>) -> bool {
    match e {
        Event::Scoreboard(lines) => lines@.len() == players.len() && forall|i: int|
            0 <= i < players.len() ==> shows(#[trigger] lines@[i], players[i]),
        _ => false,
    }
}

/// A copy of a pile of cards.
pub fn copy_cards(cards: &Vec<Card>) -> (copy: Vec<Card>)
    ensures
        copy@ == cards@,
{
    let mut copy: Vec<Card> = Vec::new();
    let mut i: usize = 0;
    while i < cards.len()
        invariant
            i <= cards@.len(),
            copy@ == cards@.take(i as int),
        decreases cards@.len() - i,
    {
        copy.push(cards[i]);
        assert(cards@.take(i + 1) =~= cards@.take(i as int).push(cards@[i as int]));
        i = i + 1;
    }
    assert(cards@.take(cards@.len() as int) =~= cards@);
    copy
}

/// The log `new` begins with the log `old`: events were only added.
pub open spec fn log_extends(old: Seq<Event>, new: Seq<Event>) -> bool {
    old.len() <= new.len() && new.subrange(0, old.len() as int) == old
}

/// Adding to a log extends it.
pub proof fn lemma_log_concat(a: Seq<Event>, x: Seq<Event>)
    ensures
        log_extends(a, a + x),
{
    assert((a + x).subrange(0, a.len() as int) =~= a);
}

/// Extending a log is transitive.
pub proof fn lemma_log_trans(a: Seq<Event>, b: Seq<Event>, c: Seq<Event>)
    requires
        log_extends(a, b),
        log_extends(b, c),
    ensures
        log_extends(a, c),
{
    assert(c.subrange(0, a.len() as int) =~= b.subrange(0, a.len() as int));
}

/// No event of the log from position `from` on is a choice to stay.
pub open spec fn no_stay_choices(log: Seq<Event>, from: int) -> bool {
    forall|i: int| from <= i < log.len() ==> !(#[trigger] log[i] is ChoosesToStay)
}

/// No stay choice in what two extensions of a log added.
pub proof fn lemma_no_stay_trans(b: Seq<Event>, c: Seq<Event>, from: int)
    requires
        log_extends(b, c),
        0 <= from <= b.len(),
        no_stay_choices(b, from),
        no_stay_choices(c, b.len() as int),
    ensures
        no_stay_choices(c, from),
{
    assert forall|i: int| from <= i < c.len() implies !(#[trigger] c[i] is ChoosesToStay) by {
        if i < b.len() {
            assert(c[i] == c.subrange(0, b.len() as int)[i]);
            assert(c[i] == b[i]);
        }
    }
}

/// A log extends itself.
pub proof fn lemma_log_refl(a: Seq<Event>)
    ensures
        log_extends(a, a),
{
    assert(a.subrange(0, a.len() as int) =~= a);
}

/// A log that extends `a` followed by an event extends `a`.
pub proof fn lemma_log_push(a: Seq<Event>, e: Event, c: Seq<Event>)
    requires
        log_extends(a.push(e), c),
    ensures
        log_extends(a, c),
{
    assert(c.subrange(0, a.len() as int) =~= a.push(e).subrange(0, a.len() as int));
    assert(a.push(e).subrange(0, a.len() as int) =~= a);
}

/// What a player still in the round records first on their turn: that they
/// must hit; else that they stay, when this round's points reach their stay
/// value; else that they choose to hit.
pub open spec fn choice_event(p: Player, must_hit: bool) -> Event {
    if must_hit {
        Event::MustHit(p.name)
    } else if p.points() >= p.stay_value {
        Event::ChoosesToStay(p.name)
    } else {
        Event::ChoosesToHit(p.name)
    }
}

/// A player who received a card adds it to `hands`.
pub proof fn lemma_hands_received(
    players: Seq<Player>,
    players2: Seq<Player>,
    i: int,
    c: Card,
    stay: bool,
    second_chance: bool,
)
    requires
        received(players, players2, i, c, stay, second_chance),
    ensures
        hands(players2) == hands(players).insert(c),
{
    broadcast use vstd::seq_lib::group_to_multiset_ensures;
    broadcast use vstd::multiset::group_multiset_axioms;

    lemma_hands_remove(players, i);
    lemma_hands_remove(players2, i);
    assert(players2.remove(i) =~= players.remove(i));
    assert(players2[i].hand@ == players[i].hand@.push(c));
    assert(hands(players2) =~= hands(players).insert(c));
}

/// At most one player is the winner.
pub proof fn lemma_winner_unique(players: Seq<Player>, target: i32, i: int, j: int)
    requires
        is_winner(players, target, i),
        is_winner(players, target, j),
    ensures
        i == j,
{
    if i < j {
        assert(reaches(players, target, j));
        assert(reaches(players, target, i));
    } else if j < i {
        assert(reaches(players, target, i));
        assert(reaches(players, target, j));
    }
}

/// Player `i` wins among the first `k` players.
pub open spec fn wins_among(players: Seq<Player>, target: i32, i: int, k: int) -> bool {
    &&& 0 <= i < k
    &&& reaches(players, target, i)
    &&& forall|j: int|
        0 <= j < k && #[trigger] reaches(players, target, j) ==> players[j].score
            <= players[i].score
    &&& forall|j: int|
        i < j < k && #[trigger] reaches(players, target, j) ==> players[j].score < players[i].score
}

proof fn lemma_wins_among(players: Seq<Player>, target: i32, k: int)
    requires
        0 <= k <= players.len(),
        exists|j: int| 0 <= j < k && #[trigger] reaches(players, target, j),
    ensures
        exists|i: int| wins_among(players, target, i, k),
    decreases k,
{
    let last = k - 1;
    if exists|j: int| 0 <= j < last && #[trigger] reaches(players, target, j) {
        lemma_wins_among(players, target, last);
        let i = choose|i: int| wins_among(players, target, i, last);
        if reaches(players, target, last) && players[last].score >= players[i].score {
            assert(wins_among(players, target, last, k));
        } else {
            assert(wins_among(players, target, i, k));
        }
    } else {
        assert(reaches(players, target, last));
        assert(wins_among(players, target, last, k));
    }
}

/// The game is over (some score reaches the target) exactly when there is
/// a winner.
pub proof fn lemma_game_over_iff_winner(players: Seq<Player>, target: i32)
    ensures
        (exists|j: int| #[trigger] reaches(players, target, j)) <==> (exists|i: int|
            is_winner(players, target, i)),
{
    if exists|j: int| #[trigger] reaches(players, target, j) {
        let j = choose|j: int| #[trigger] reaches(players, target, j);
        assert(0 <= j < players.len() && reaches(players, target, j));
        lemma_wins_among(players, target, players.len() as int);
        let i = choose|i: int| wins_among(players, target, i, players.len() as int);
        assert(is_winner(players, target, i));
    }
    if exists|i: int| is_winner(players, target, i) {
        let i = choose|i: int| is_winner(players, target, i);
        assert(reaches(players, target, i));
    }
}

/// The players of a new game have different names.
pub proof fn lemma_player_names_distinct(i: nat, j: nat)
    requires
        player_name(i) == player_name(j),
    ensures
        i == j,
{
    let a = player_name(i);
    let b = player_name(j);
    let k = "Player "@.len() as int;
    assert(a.subrange(k, a.len() as int) =~= nat_text(i));
    assert(b.subrange(k, b.len() as int) =~= nat_text(j));
    lemma_nat_text_injective(i, j);
}

} // verus!
