//! A simulator of the card game Flip 7: the deck, the players' hands and
//! scoring, and the turn and round rules of the game, with contracts that
//! state what each step does.
pub mod card;
pub mod text;
pub mod chance;
pub mod deck;
pub mod strategy;
pub mod player;
pub mod bounds;
pub mod event;
pub mod game;
