//! What happens in a game, step by step, as plain values: the game records
//! these, and whoever runs the game shows them.
use vstd::prelude::*;
use crate::card::Card;

verus! {

/// One player's standing: name, whether out or stayed, banked score, live
/// score and this round's points.
pub struct ScoreLine {
    pub name: String,
    pub out: bool,
    pub stay: bool,
    pub score: i32,
    pub live: i32,
    pub points: i32,
}

/// Something that happened in the game. The `String` is the name of the
/// player concerned.
pub enum Event {
    /// A round begins.
    RoundStart,
    /// The round is over: everyone is out or has stayed, or someone flipped 7.
    RoundOver,
    /// A turn begins.
    TurnStart,
    /// A player takes their turn.
    TakingTurn(String),
    /// A player chooses to stay.
    ChoosesToStay(String),
    /// A player must hit (first round, or Flip Three).
    MustHit(String),
    /// A player chooses to hit.
    ChoosesToHit(String),
    /// A player has drawn a card.
    Drew(String, Card),
    /// A player drew a number card their hand already holds.
    AlreadyHas(String, Card),
    /// A player busts.
    Busts(String),
    /// The bust was saved by a second chance.
    SecondChanceSaves,
    /// A player is out of the round.
    OutOfRound(String),
    /// A player drew a Freeze.
    DrewFreeze(String),
    /// The Freeze goes to a player with this live score.
    FreezeTarget(String, i32),
    /// A player is forced to stay.
    ForcedToStay(String),
    /// A player drew a Flip Three.
    DrewFlip3(String),
    /// A player drew a Second Chance.
    DrewSecondChance(String),
    /// The player already had a second chance.
    AlreadyHadSecondChance,
    /// The Second Chance goes to a player with this live score.
    SecondChanceTarget(String, i32),
    /// A player flipped seven number cards.
    Flipped7(String),
    /// A player has stayed.
    HasStayed(String),
    /// A player's standing after their turn.
    TurnSummary(ScoreLine),
    /// A player chooses whom a Flip Three targets.
    ChoosingFlip3Target(String),
    /// The Flip Three targets the player who drew it.
    TargetingSelf(String),
    /// The Flip Three targets this player.
    Targeting(String),
    /// The standings of all players.
    Scoreboard(Vec<ScoreLine>),
    /// A player's points this round and the cards in their hand.
    RoundResult(String, i32, Vec<Card>),
}

/// Why a game cannot go on.
#[derive(Clone, Copy, PartialEq, Eq, Structural, Debug)]
pub enum GameError {
    /// The deck and the discard pile are both empty.
    DeckExhausted,
    /// A hand holds more than seven number cards.
    TooManyNumberCards,
    /// A state the rules do not lead to.
    InvalidState,
    /// After a round, the deck and the discard pile do not hold all the
    /// cards.
    CardCountMismatch,
    /// A banked score is too high for another round.
    ScoreOverflow,
}

} // verus!
