# flip7

A simulator of the card game Flip 7, written in Verus.

- `src/` is the verified library:
  - `card.rs`, `text.rs`: cards and their text;
  - `deck.rs`: the standard 94-card deck, dealing and reshuffling;
  - `chance.rs`: the two calls into `rand` (shuffling, a random index);
  - `strategy.rs`: player strategies and their command-line words;
  - `player.rs`: hands, the draw and bust rules, and scoring;
  - `bounds.rs`: why no score overflows (every card comes from one deck);
  - `event.rs`: what a game records as it is played;
  - `game.rs`: turns, Freeze / Flip Three / Second Chance, rounds and the
    winner, with the game invariant (`Game::wf`).
- `app/main.rs` is the command line: it parses arguments, runs the game
  loop and prints what the game recorded.
- `tests/` exercises the library.

Run the simulator with `simulation <players> <target score> <stay value>`.
