use flip7::card::{ActionType, Card};
use flip7::deck::Deck;
use flip7::event::{Event, GameError};
use flip7::game::Game;
use flip7::player::Player;
use flip7::strategy::Strategy;
use std::collections::VecDeque;

fn player(name: &str, score: i32, hand: Vec<Card>) -> Player {
    let mut p = Player::new(String::from(name), 100);
    p.score = score;
    p.hand = hand;
    p
}

fn game_with(players: Vec<Player>, deck: Vec<Card>, target_score: i32) -> Game {
    Game {
        players: players.into_iter().collect::<VecDeque<Player>>(),
        deck: Deck { cards: deck },
        discard: Vec::new(),
        round_discard: Vec::new(),
        target_score,
        log: Vec::new(),
    }
}

fn total_cards(game: &Game) -> usize {
    game.deck.cards.len()
        + game.discard.len()
        + game.round_discard.len()
        + game.players.iter().map(|p| p.hand.len()).sum::<usize>()
}

#[test]
fn new_game_names_players_in_order() {
    let game = Game::new(3, 200, 20);
    assert_eq!(game.players.len(), 3);
    for (i, p) in game.players.iter().enumerate() {
        assert_eq!(p.name, format!("Player {i}"));
        assert_eq!(p.stay_value, 20);
        assert_eq!(p.score, 0);
    }
    assert_eq!(game.deck.cards.len(), 94);
    assert_eq!(game.target_score, 200);
    assert!(game.discard.is_empty() && game.round_discard.is_empty());
    assert_eq!(Game::new(0, 200, 20).players.len(), 0);
    assert_eq!(Game::new(-4, 200, 20).players.len(), 0);
    let many = Game::new(12, 200, 20);
    assert_eq!(many.players[10].name, "Player 10");
    assert_eq!(many.players[11].name, "Player 11");
}

#[test]
fn round_over_when_everyone_is_done() {
    let mut game = game_with(vec![player("A", 0, vec![]), player("B", 0, vec![])], vec![], 100);
    assert!(!game.round_over());
    game.players[0].out = true;
    assert!(!game.round_over());
    game.players[1].stay = true;
    assert!(game.round_over());
    let empty = game_with(vec![], vec![], 100);
    assert!(empty.round_over());
}

#[test]
fn winner_is_the_highest_reaching_score_last_on_a_tie() {
    let game = game_with(
        vec![
            player("A", 10, vec![]),
            player("B", 30, vec![]),
            player("C", 30, vec![]),
            player("D", 25, vec![]),
        ],
        vec![],
        20,
    );
    assert_eq!(game.game_winner().map(|p| p.name.clone()), Some(String::from("C")));
    assert!(game.is_game_over());
    let none = game_with(vec![player("A", 19, vec![])], vec![], 20);
    assert!(none.game_winner().is_none());
    assert!(!none.is_game_over());
    let exact = game_with(vec![player("A", 20, vec![]), player("B", 3, vec![])], vec![], 20);
    assert_eq!(exact.game_winner().map(|p| p.name.clone()), Some(String::from("A")));
}

#[test]
fn player_turn_stays_when_points_reach_stay_value() {
    let mut game = game_with(vec![], vec![Card::Number(1)], 100);
    let mut p = player("A", 0, vec![Card::Number(12), Card::Number(11)]);
    p.stay_value = 20;
    assert_eq!(game.player_turn(&mut p, false), Ok(None));
    assert!(p.stay);
    assert_eq!(game.deck.cards.len(), 1);
    assert!(matches!(game.log[0], Event::ChoosesToStay(_)));
}

#[test]
fn player_turn_must_hit_deals_the_top_card() {
    let mut game = game_with(vec![], vec![Card::Number(1), Card::Number(8)], 100);
    let mut p = player("A", 0, vec![Card::Number(12), Card::Number(11)]);
    p.stay_value = 20;
    assert_eq!(game.player_turn(&mut p, true), Ok(None));
    assert!(!p.stay);
    assert_eq!(p.hand, vec![Card::Number(12), Card::Number(11), Card::Number(8)]);
    assert_eq!(game.deck.cards, vec![Card::Number(1)]);
}

#[test]
fn player_turn_refills_from_discard_and_fails_when_all_empty() {
    let mut game = game_with(vec![], vec![], 100);
    game.discard = vec![Card::Number(4)];
    let mut p = player("A", 0, vec![]);
    assert_eq!(game.player_turn(&mut p, true), Ok(None));
    assert_eq!(p.hand, vec![Card::Number(4)]);
    assert!(game.discard.is_empty());
    assert_eq!(game.play_turn_of(&mut p, true), Err(GameError::DeckExhausted));
    assert!(matches!(game.log.last(), Some(Event::MustHit(n)) if n == "A"));
    assert_eq!(game.play_turn_of(&mut p, false), Err(GameError::DeckExhausted));
    assert!(matches!(game.log.last(), Some(Event::ChoosesToHit(n)) if n == "A"));
    assert_eq!(game.flip_three(&mut p), Err(GameError::DeckExhausted));
    assert!(matches!(game.log.last(), Some(Event::MustHit(n)) if n == "A"));
    assert_eq!(p.hand, vec![Card::Number(4)]);
}

#[test]
fn player_turn_of_out_or_stayed_players_does_nothing() {
    let mut game = game_with(vec![], vec![Card::Number(1)], 100);
    let mut p = player("A", 0, vec![]);
    p.out = true;
    assert_eq!(game.player_turn(&mut p, true), Ok(None));
    assert_eq!(game.deck.cards.len(), 1);
    p.out = false;
    p.stay = true;
    assert_eq!(game.player_turn(&mut p, true), Ok(None));
    assert_eq!(game.deck.cards.len(), 1);
    p.out = true;
    assert_eq!(game.player_turn(&mut p, true), Err(GameError::InvalidState));
}

#[test]
fn bust_goes_to_the_round_discard() {
    let mut game = game_with(vec![], vec![Card::Number(5)], 100);
    let mut p = player("A", 0, vec![Card::Number(5)]);
    assert_eq!(game.player_turn(&mut p, true), Ok(None));
    assert!(p.out);
    assert_eq!(game.round_discard, vec![Card::Number(5)]);
    assert_eq!(p.hand, vec![Card::Number(5)]);
}

#[test]
fn freeze_targets_highest_live_score_last_on_tie() {
    let mut game = game_with(
        vec![
            player("A", 10, vec![]),
            player("B", 40, vec![]),
            player("C", 40, vec![]),
            player("D", 50, vec![]),
        ],
        vec![],
        1000,
    );
    game.players[3].out = true;
    let mut current = player("Me", 99, vec![]);
    let freeze = Card::Action(ActionType::Freeze);
    assert_eq!(game.resolve_card(&mut current, freeze), Ok(None));
    assert!(game.players[2].stay);
    assert_eq!(game.players[2].hand, vec![freeze]);
    assert!(!game.players[1].stay);
    assert!(current.hand.is_empty() && !current.stay);
}

#[test]
fn freeze_without_target_freezes_the_drawer() {
    let mut game = game_with(vec![player("A", 10, vec![])], vec![], 1000);
    game.players[0].stay = true;
    let mut current = player("Me", 0, vec![]);
    let freeze = Card::Action(ActionType::Freeze);
    assert_eq!(game.resolve_card(&mut current, freeze), Ok(None));
    assert!(current.stay);
    assert_eq!(current.hand, vec![freeze]);
}

#[test]
fn second_chance_kept_then_passed_to_lowest_first_on_tie() {
    let mut game = game_with(
        vec![
            player("A", 30, vec![]),
            player("B", 5, vec![]),
            player("C", 5, vec![]),
        ],
        vec![],
        1000,
    );
    let sc = Card::Action(ActionType::SecondChance);
    let mut current = player("Me", 0, vec![]);
    assert_eq!(game.resolve_card(&mut current, sc), Ok(None));
    assert!(current.second_chance);
    assert_eq!(current.hand, vec![sc]);
    assert_eq!(game.resolve_card(&mut current, sc), Ok(None));
    assert!(game.players[1].second_chance);
    assert_eq!(game.players[1].hand, vec![sc]);
    assert!(!game.players[2].second_chance);
    assert_eq!(current.hand, vec![sc]);
}

#[test]
fn spare_second_chance_with_no_taker_is_discarded() {
    let mut game = game_with(vec![player("A", 30, vec![])], vec![], 1000);
    game.players[0].second_chance = true;
    let sc = Card::Action(ActionType::SecondChance);
    let mut current = player("Me", 0, vec![sc]);
    current.second_chance = true;
    assert_eq!(game.resolve_card(&mut current, sc), Ok(None));
    assert_eq!(game.round_discard, vec![sc]);
    assert_eq!(current.hand, vec![sc]);
}

#[test]
fn flip_three_is_handed_back() {
    let mut game = game_with(vec![], vec![], 1000);
    let flip = Card::Action(ActionType::Flip3);
    let mut current = player("Me", 0, vec![]);
    assert_eq!(game.resolve_card(&mut current, flip), Ok(Some(flip)));
    assert!(current.hand.is_empty());
}

#[test]
fn seventh_number_is_a_flip_seven() {
    let hand: Vec<Card> = (1..=6).map(Card::Number).collect();
    let mut game = game_with(vec![], vec![], 1000);
    let mut current = player("Me", 0, hand);
    assert_eq!(game.resolve_card(&mut current, Card::Number(9)), Ok(Some(Card::Number(-1))));
    assert!(current.flip7);
    assert_eq!(current.get_points_scored(), 1 + 2 + 3 + 4 + 5 + 6 + 9 + 15);
    assert_eq!(
        game.resolve_card(&mut current, Card::Number(10)),
        Err(GameError::TooManyNumberCards)
    );
}

#[test]
fn flip_three_at_queue_player_hits_three_times() {
    let mut game = game_with(
        vec![player("A", 0, vec![]), player("B", 0, vec![])],
        vec![Card::Number(1), Card::Number(2), Card::Number(3)],
        1000,
    );
    let mut current = player("Me", 0, vec![]);
    assert_eq!(game.flip_three_at(&mut current, 1), Ok(()));
    assert_eq!(
        game.players[1].hand,
        vec![Card::Number(3), Card::Number(2), Card::Number(1)]
    );
    assert!(game.players[0].hand.is_empty());
    assert!(current.hand.is_empty());
    assert!(game.deck.cards.is_empty());
}

#[test]
fn self_flip_three_strategy_targets_the_drawer() {
    let mut game = game_with(
        vec![player("A", 0, vec![])],
        vec![Card::Number(1), Card::Number(2), Card::Number(3)],
        1000,
    );
    let mut current = player("Me", 0, vec![]);
    current.strategies.push(Strategy::SelfFlipThree);
    assert_eq!(game.resolve_flip_three(&mut current), Ok(()));
    assert_eq!(current.hand.len(), 3);
    assert!(game.players[0].hand.is_empty());
}

#[test]
fn turn_with_everyone_staying_keeps_order() {
    let mut game = game_with(
        vec![player("A", 0, vec![]), player("B", 0, vec![])],
        vec![],
        1000,
    );
    game.players[0].stay = true;
    game.players[1].out = true;
    assert_eq!(game.turn(false), Ok(false));
    assert_eq!(game.players[0].name, "A");
    assert_eq!(game.players[1].name, "B");
}

#[test]
fn flip_seven_ends_the_turn_and_turns_the_queue() {
    let hand: Vec<Card> = (1..=6).map(Card::Number).collect();
    let mut game = game_with(
        vec![player("A", 0, hand), player("B", 0, vec![]), player("C", 0, vec![])],
        vec![Card::Number(12)],
        1000,
    );
    game.players[1].stay = true;
    game.players[2].stay = true;
    assert_eq!(game.turn(true), Ok(true));
    assert!(game.players.iter().any(|p| p.flip7));
    let names: Vec<String> = game.players.iter().map(|p| p.name.clone()).collect();
    assert_eq!(names, vec!["B", "C", "A"]);
}

#[test]
fn finish_round_banks_scores_and_collects_cards() {
    let mut game = Game::new(2, 1000, 20);
    let c1 = game.deck.deal().unwrap();
    let c2 = game.deck.deal().unwrap();
    game.players[0].hand.push(c1);
    game.round_discard.push(c2);
    game.players[1].score = 5;
    let expected = game.players[0].get_live_score();
    assert_eq!(game.finish_round(), Ok(()));
    assert_eq!(game.players[0].score, expected);
    assert_eq!(game.players[1].score, 5);
    assert!(game.players.iter().all(|p| p.hand.is_empty()));
    assert!(game.round_discard.is_empty());
    assert_eq!(game.deck.cards.len() + game.discard.len(), 94);
}

#[test]
fn finish_round_reports_lost_cards() {
    let mut game = Game::new(1, 1000, 20);
    game.deck.deal();
    assert_eq!(game.finish_round(), Err(GameError::CardCountMismatch));
}

#[test]
fn finish_round_banks_scores_past_the_limit() {
    let mut game = Game::new(1, 1000, 20);
    game.players[0].score = flip7::bounds::SCORE_LIMIT;
    game.players[0].hand.push(Card::Number(0));
    let c = game.deck.deal();
    assert_eq!(c.is_some(), true);
    game.players[0].hand.pop();
    game.players[0].hand.push(Card::Number(1));
    assert_eq!(game.finish_round(), Ok(()));
    assert_eq!(game.players[0].score, flip7::bounds::SCORE_LIMIT + 1);
}

#[test]
fn scoreboard_shows_each_player() {
    let mut game = game_with(vec![player("A", 3, vec![Card::Number(4)])], vec![], 100);
    game.players[0].stay = true;
    let lines = game.scoreboard();
    assert_eq!(lines.len(), 1);
    assert_eq!(lines[0].name, "A");
    assert!(lines[0].stay && !lines[0].out);
    assert_eq!((lines[0].score, lines[0].live, lines[0].points), (3, 7, 4));
}

#[test]
fn a_round_keeps_or_reports_the_cards() {
    for _ in 0..20 {
        let mut game = Game::new(3, 1000, 20);
        match game.round(true) {
            Ok(()) => {
                assert_eq!(game.deck.cards.len() + game.discard.len(), 94);
                assert!(game.players.iter().all(|p| p.hand.is_empty() && !p.out && !p.stay));
            }
            Err(e) => assert_eq!(e, GameError::CardCountMismatch),
        }
        assert!(total_cards(&game) <= 94);
    }
}

#[test]
fn a_game_runs_to_a_winner() {
    let mut game = Game::new(3, 60, 20);
    let mut rounds = 0;
    let mut first = true;
    while !game.is_game_over() && rounds < 500 {
        if game.round(first).is_err() {
            return;
        }
        first = false;
        rounds += 1;
    }
    let winner = game.game_winner().unwrap();
    assert!(winner.score >= 60);
    assert!(game.players.iter().all(|p| p.score < 60 || p.score <= winner.score));
}

#[test]
fn a_turn_never_creates_cards() {
    for _ in 0..20 {
        let mut game = Game::new(4, 1000, 15);
        let before = total_cards(&game);
        let _ = game.turn(true);
        assert!(total_cards(&game) <= before);
    }
}

#[test]
fn turn_refuses_a_player_both_out_and_stayed() {
    let mut game = game_with(
        vec![player("A", 0, vec![]), player("B", 0, vec![])],
        vec![],
        1000,
    );
    game.players[0].stay = true;
    game.players[1].out = true;
    game.players[1].stay = true;
    assert_eq!(game.turn(false), Err(GameError::InvalidState));
}

#[test]
fn play_turn_of_refuses_a_player_both_out_and_stayed() {
    let mut game = game_with(vec![], vec![Card::Number(3)], 1000);
    let mut p = player("A", 0, vec![]);
    p.out = true;
    p.stay = true;
    assert_eq!(game.play_turn_of(&mut p, false), Err(GameError::InvalidState));
    assert_eq!(game.deck.cards.len(), 1);
}

#[test]
fn a_score_past_the_limit_is_banked_then_refused_before_the_next_round() {
    let mut cards: Vec<Card> = Game::new(1, 1000, 20).deck.cards;
    let at = cards
        .iter()
        .position(|c| matches!(c, Card::Number(10)))
        .unwrap();
    let ten = cards.remove(at);
    let mut game = game_with(vec![player("A", 2_147_479_647, vec![ten])], cards, 1000);
    game.players[0].stay = true;
    assert_eq!(game.round(false), Ok(()));
    assert_eq!(game.players[0].score, 2_147_479_657);
    let logged = game.log.len();
    assert_eq!(game.round(false), Err(GameError::ScoreOverflow));
    assert_eq!(game.log.len(), logged);
    assert_eq!(game.players[0].score, 2_147_479_657);
}

#[test]
fn a_round_already_over_with_all_cards_banks_the_points() {
    let mut cards: Vec<Card> = Game::new(1, 1000, 20).deck.cards;
    let hand: Vec<Card> = cards.split_off(cards.len() - 2);
    let points: i32 = hand
        .iter()
        .map(|c| match c {
            Card::Number(v) => *v,
            _ => 0,
        })
        .sum();
    let all_numbers = hand.iter().all(|c| matches!(c, Card::Number(_)));
    let mut game = game_with(vec![player("A", 10, hand)], cards, 1000);
    game.players[0].stay = true;
    assert_eq!(game.round(false), Ok(()));
    if all_numbers {
        assert_eq!(game.players[0].score, 10 + points);
    } else {
        assert!(game.players[0].score >= 10);
    }
    assert_eq!(game.deck.cards.len() + game.discard.len(), 94);
}

#[test]
fn turn_where_everyone_would_stay_settles_everyone() {
    let mut a = player("A", 0, vec![Card::Number(12)]);
    a.stay_value = 10;
    let mut b = player("B", 0, vec![]);
    b.out = true;
    let mut game = game_with(vec![a, b], vec![Card::Number(3)], 1000);
    assert_eq!(game.turn(false), Ok(false));
    assert!(game.players.iter().all(|p| p.out || p.stay));
    assert_eq!(game.deck.cards.len(), 1);
}

#[test]
fn flip_three_with_three_cards_in_the_deck_succeeds() {
    let mut game = game_with(
        vec![],
        vec![Card::Number(1), Card::Number(2), Card::Number(3)],
        1000,
    );
    let mut p = player("A", 0, vec![]);
    assert_eq!(game.flip_three(&mut p), Ok(()));
    assert_eq!(p.hand.len(), 3);
    assert!(game.deck.cards.is_empty());
}

#[test]
fn a_hit_after_a_flip_seven_holds_too_many_number_cards() {
    let hand: Vec<Card> = (1..=6).map(Card::Number).collect();
    let mut game = game_with(
        vec![],
        vec![Card::Number(9), Card::Number(8), Card::Number(7)],
        1000,
    );
    let mut p = player("A", 0, hand);
    assert_eq!(game.flip_three(&mut p), Err(GameError::TooManyNumberCards));
    let numbers = p.hand.iter().filter(|c| matches!(c, Card::Number(_))).count();
    assert!(numbers > 7);
}
