use flip7::card::{ActionType, Card};
use flip7::deck::{Deck, EXPECTED_NUM_CARDS};
use flip7::strategy::Strategy;
use flip7::text::int_to_string;

fn count_of(cards: &Vec<Card>, card: Card) -> usize {
    cards.iter().filter(|c| **c == card).count()
}

#[test]
fn card_text_of_each_kind() {
    assert_eq!(Card::Number(7).to_string(), "Number: 7");
    assert_eq!(Card::Number(0).to_string(), "Number: 0");
    assert_eq!(Card::Number(12).to_string(), "Number: 12");
    assert_eq!(Card::Number(-1).to_string(), "Number: -1");
    assert_eq!(
        Card::Modifier { is_mult: false, value: 4 }.to_string(),
        "Modifier: +4"
    );
    assert_eq!(
        Card::Modifier { is_mult: true, value: 2 }.to_string(),
        "Modifier: x2"
    );
    assert_eq!(
        Card::Action(ActionType::Flip3).to_string(),
        "Action: Flip Three"
    );
    assert_eq!(Card::Action(ActionType::Freeze).to_string(), "Action: Freeze");
    assert_eq!(
        Card::Action(ActionType::SecondChance).to_string(),
        "Action: Second Chance"
    );
}

#[test]
fn integer_text_matches_std() {
    for n in [0i64, 5, 9, 10, 99, 100, 12345, -1, -10, i64::MAX, i64::MIN] {
        assert_eq!(int_to_string(n), n.to_string());
    }
}

#[test]
fn new_deck_has_the_standard_cards() {
    let deck = Deck::new();
    assert_eq!(deck.cards.len(), EXPECTED_NUM_CARDS);
    assert_eq!(count_of(&deck.cards, Card::Number(0)), 1);
    for v in 1..=12 {
        assert_eq!(count_of(&deck.cards, Card::Number(v)), v as usize);
    }
    for v in [2, 4, 6, 8, 10] {
        assert_eq!(
            count_of(&deck.cards, Card::Modifier { is_mult: false, value: v }),
            1
        );
    }
    assert_eq!(
        count_of(&deck.cards, Card::Modifier { is_mult: true, value: 2 }),
        1
    );
    for t in [ActionType::Freeze, ActionType::Flip3, ActionType::SecondChance] {
        assert_eq!(count_of(&deck.cards, Card::Action(t)), 3);
    }
}

#[test]
fn deck_sections_in_order() {
    let mut deck = Deck { cards: Vec::new() };
    deck.add_numbers();
    assert_eq!(deck.cards.len(), 79);
    assert_eq!(deck.cards[0], Card::Number(0));
    assert_eq!(deck.cards[1], Card::Number(1));
    assert_eq!(deck.cards[2], Card::Number(2));
    assert_eq!(deck.cards[3], Card::Number(2));
    assert_eq!(deck.cards[78], Card::Number(12));
    deck.add_modifiers();
    assert_eq!(deck.cards.len(), 85);
    assert_eq!(deck.cards[79], Card::Modifier { is_mult: false, value: 2 });
    assert_eq!(deck.cards[83], Card::Modifier { is_mult: false, value: 10 });
    assert_eq!(deck.cards[84], Card::Modifier { is_mult: true, value: 2 });
    deck.add_actions();
    assert_eq!(deck.cards.len(), 94);
    assert_eq!(deck.cards[85], Card::Action(ActionType::Freeze));
    assert_eq!(deck.cards[88], Card::Action(ActionType::Flip3));
    assert_eq!(deck.cards[93], Card::Action(ActionType::SecondChance));
}

#[test]
fn shuffle_keeps_the_cards() {
    let mut deck = Deck::new();
    let mut before = deck.cards.clone();
    deck.shuffle();
    let mut after = deck.cards.clone();
    before.sort_by_key(|c| format!("{:?}", c));
    after.sort_by_key(|c| format!("{:?}", c));
    assert_eq!(before, after);
}

#[test]
fn deal_takes_the_last_card() {
    let mut deck = Deck {
        cards: vec![Card::Number(3), Card::Number(5)],
    };
    assert_eq!(deck.deal(), Some(Card::Number(5)));
    assert_eq!(deck.deal(), Some(Card::Number(3)));
    assert_eq!(deck.deal(), None);
    assert!(deck.cards.is_empty());
}

#[test]
fn reset_discard_moves_the_pile() {
    let mut deck = Deck { cards: Vec::new() };
    let mut discard = vec![Card::Number(1), Card::Number(2), Card::Number(2)];
    deck.reset_discard(&mut discard);
    assert!(discard.is_empty());
    assert_eq!(deck.cards.len(), 3);
    assert_eq!(count_of(&deck.cards, Card::Number(2)), 2);
    assert_eq!(count_of(&deck.cards, Card::Number(1)), 1);
}

#[test]
fn card_counts_of_a_pile() {
    let deck = Deck {
        cards: vec![Card::Number(2), Card::Number(1), Card::Number(2)],
    };
    let counts = deck.card_counts();
    assert_eq!(counts.len(), 2);
    assert_eq!(counts[0].card, Card::Number(2));
    assert_eq!(counts[0].count, 2);
    assert_eq!(counts[1].card, Card::Number(1));
    assert_eq!(counts[1].count, 1);
    let full = Deck::new().card_counts();
    assert_eq!(full.len(), 13 + 6 + 3);
    assert_eq!(full.iter().map(|c| c.count).sum::<usize>(), 94);
}

#[test]
fn strategy_words() {
    assert_eq!(Strategy::parse("ignore-modifiers"), Ok(Strategy::IgnoreModifiers));
    assert_eq!(Strategy::parse("self-flip-three"), Ok(Strategy::SelfFlipThree));
    assert_eq!(Strategy::parse("smart-flip-three"), Ok(Strategy::SmartFlipThree));
    assert_eq!(
        Strategy::parse("random-flip-three"),
        Err(String::from("invalid value: random-flip-three"))
    );
    assert_eq!(Strategy::parse(""), Err(String::from("invalid value: ")));
    let parsed: Strategy = "self-flip-three".parse().unwrap();
    assert_eq!(parsed, Strategy::SelfFlipThree);
    assert_eq!(Strategy::RandomFlipThree.name(), "RandomFlipThree");
    assert_eq!(Strategy::IgnoreModifiers.name(), "IgnoreModifiers");
}
