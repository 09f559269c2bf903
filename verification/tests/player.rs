use flip7::card::{ActionType, Card};
use flip7::player::Player;
use flip7::strategy::Strategy;

fn player_with(hand: Vec<Card>) -> Player {
    let mut p = Player::new(String::from("Ann"), 20);
    p.hand = hand;
    p
}

#[test]
fn new_player_starts_empty() {
    let p = Player::new(String::from("Bob"), 25);
    assert_eq!(p.name, "Bob");
    assert_eq!(p.stay_value, 25);
    assert_eq!(p.score, 0);
    assert!(p.hand.is_empty());
    assert!(!p.second_chance && !p.out && !p.flip7 && !p.stay);
    assert_eq!(p.strategies, vec![Strategy::RandomFlipThree]);
    assert!(p.has_strategy(Strategy::RandomFlipThree));
    assert!(!p.has_strategy(Strategy::SelfFlipThree));
}

#[test]
fn draw_rules() {
    let mut p = player_with(vec![Card::Number(4)]);
    assert_eq!(p.draw(Card::Number(5)), None);
    assert_eq!(p.hand, vec![Card::Number(4), Card::Number(5)]);
    assert_eq!(p.draw(Card::Number(4)), Some(Card::Number(4)));
    assert_eq!(p.hand.len(), 2);
    let plus = Card::Modifier { is_mult: false, value: 6 };
    assert_eq!(p.draw(plus), None);
    assert_eq!(p.draw(plus), None);
    assert_eq!(p.hand.len(), 4);
    let freeze = Card::Action(ActionType::Freeze);
    assert_eq!(p.draw(freeze), Some(freeze));
    assert_eq!(p.hand.len(), 4);
}

#[test]
fn scoring_multiplies_then_adds_then_bonus() {
    let mut p = player_with(vec![
        Card::Number(3),
        Card::Modifier { is_mult: false, value: 4 },
        Card::Number(5),
        Card::Modifier { is_mult: true, value: 2 },
        Card::Action(ActionType::SecondChance),
    ]);
    assert_eq!(p.get_points_scored(), (3 + 5) * 2 + 4);
    p.flip7 = true;
    assert_eq!(p.get_points_scored(), (3 + 5) * 2 + 4 + 15);
    p.score = 100;
    assert_eq!(p.get_live_score(), 100 + 35);
    p.out = true;
    assert_eq!(p.get_points_scored(), 0);
    assert_eq!(p.get_live_score(), 100);
}

#[test]
fn should_stay_compares_round_points() {
    let mut p = player_with(vec![Card::Number(12), Card::Number(7)]);
    p.score = 1000;
    assert!(!p.should_stay());
    p.hand.push(Card::Number(1));
    assert!(p.should_stay());
}

#[test]
fn bust_uses_second_chance_then_knocks_out() {
    let mut p = player_with(vec![Card::Number(9)]);
    p.second_chance = true;
    assert_eq!(p.take_turn(Card::Number(9)), Some(Card::Number(9)));
    assert!(!p.second_chance);
    assert!(!p.out);
    assert_eq!(p.take_turn(Card::Number(9)), Some(Card::Number(9)));
    assert!(p.out);
    assert_eq!(p.hand, vec![Card::Number(9)]);
    assert_eq!(p.get_points_scored(), 0);
}

#[test]
fn take_turn_hands_back_actions_and_keeps_numbers() {
    let mut p = player_with(vec![]);
    assert_eq!(p.take_turn(Card::Number(2)), None);
    let flip = Card::Action(ActionType::Flip3);
    assert_eq!(p.take_turn(flip), Some(flip));
    assert_eq!(p.hand, vec![Card::Number(2)]);
    assert!(!p.out);
}

#[test]
fn end_round_banks_and_resets() {
    let mut p = player_with(vec![Card::Number(6), Card::Number(1)]);
    p.score = 10;
    p.stay = true;
    p.second_chance = true;
    let hand = p.end_round();
    assert_eq!(hand, vec![Card::Number(6), Card::Number(1)]);
    assert_eq!(p.score, 17);
    assert!(p.hand.is_empty());
    assert!(!p.stay && !p.out && !p.flip7 && !p.second_chance);
}

#[test]
fn discard_hand_empties() {
    let mut p = player_with(vec![Card::Number(6)]);
    assert_eq!(p.discard_hand(), vec![Card::Number(6)]);
    assert!(p.hand.is_empty());
}

#[test]
fn player_summary_text() {
    let mut p = player_with(vec![
        Card::Number(3),
        Card::Modifier { is_mult: false, value: 2 },
        Card::Action(ActionType::Freeze),
    ]);
    p.score = 7;
    p.stay = true;
    assert_eq!(
        p.to_string(),
        "Player Summary:\n\tName: Ann\n\tScore: 7\n\tLive Score: 12\n\tHand Size: 3\n\tNumber Cards: 1\n\tModifier Cards: 1\n\tAction Cards: 1\n\tSecond Chance: false\n\tOut: false\n\tStayed: true"
    );
    assert_eq!(p.number_card_count(), 1);
    assert_eq!(p.modifier_card_count(), 1);
    assert_eq!(p.action_card_count(), 1);
}

#[test]
fn best_possible_hand_stays_within_the_bound() {
    let mut hand: Vec<Card> = (6..=12).map(Card::Number).collect();
    for v in [2, 4, 6, 8, 10] {
        hand.push(Card::Modifier { is_mult: false, value: v });
    }
    hand.push(Card::Modifier { is_mult: true, value: 2 });
    let mut p = player_with(hand);
    p.flip7 = true;
    let points = p.get_points_scored();
    assert_eq!(points, (6 + 7 + 8 + 9 + 10 + 11 + 12) * 2 + 30 + 15);
    assert!(points <= flip7::bounds::POINTS_BOUND);
}
