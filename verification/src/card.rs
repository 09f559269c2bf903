//! Cards of Flip 7 and their textual form.
use vstd::prelude::*;
use crate::text::{int_text, lemma_int_text_injective, push_int};

verus! {

/// The three kinds of action card.
#[derive(Clone, Copy, PartialEq, Eq, Structural, Hash, Debug)]
pub enum ActionType {
    Freeze,
    Flip3,
    SecondChance,
}

/// A card: a number card, a modifier (`+value`, or `xvalue` when it
/// multiplies), or an action.
#[derive(Clone, Copy, PartialEq, Eq, Structural, Hash, Debug)]
pub enum Card {
    Number(i32),
    Modifier { is_mult: bool, value: i32 },
    Action(ActionType),
}

/// The text of a card, as `Card::to_string` renders it.
pub open spec fn card_text(c: Card) -> Seq<char> {
    match c {
        Card::Number(v) => "Number: "@ + int_text(v as int),
        Card::Modifier { is_mult, value } => if is_mult {
            "Modifier: x"@ + int_text(value as int)
        } else {
            "Modifier: +"@ + int_text(value as int)
        },
        Card::Action(t) => match t {
            ActionType::Flip3 => "Action: Flip Three"@,
            ActionType::Freeze => "Action: Freeze"@,
            ActionType::SecondChance => "Action: Second Chance"@,
        },
    }
}

proof fn lemma_strip(p: Seq<char>, x: Seq<char>, y: Seq<char>)
    requires
        p + x == p + y,
    ensures
        x == y,
{
    assert(x =~= (p + x).subrange(p.len() as int, (p + x).len() as int));
    assert(y =~= (p + y).subrange(p.len() as int, (p + y).len() as int));
}

/// Different cards have different texts.
pub proof fn lemma_card_text_injective(c1: Card, c2: Card)
    requires
        card_text(c1) == card_text(c2),
    ensures
        c1 == c2,
{
    reveal_strlit("Number: ");
    reveal_strlit("Modifier: x");
    reveal_strlit("Modifier: +");
    reveal_strlit("Action: Flip Three");
    reveal_strlit("Action: Freeze");
    reveal_strlit("Action: Second Chance");
    let t = card_text(c1);
    match (c1, c2) {
        (Card::Number(a), Card::Number(b)) => {
            lemma_strip("Number: "@, int_text(a as int), int_text(b as int));
            lemma_int_text_injective(a as int, b as int);
        },
        (Card::Modifier { is_mult: m1, value: a }, Card::Modifier { is_mult: m2, value: b }) => {
            if m1 && m2 {
                lemma_strip("Modifier: x"@, int_text(a as int), int_text(b as int));
                lemma_int_text_injective(a as int, b as int);
            } else if !m1 && !m2 {
                lemma_strip("Modifier: +"@, int_text(a as int), int_text(b as int));
                lemma_int_text_injective(a as int, b as int);
            } else {
                assert(t[10] == card_text(c2)[10]);
            }
        },
        (Card::Action(a), Card::Action(b)) => {
            if a != b {
                assert(t.len() == card_text(c2).len());
                assert(t[8] == card_text(c2)[8]);
            }
        },
        _ => {
            assert(t[0] == card_text(c2)[0]);
        },
    }
}

impl Card {
    /// Is this a number card?
    pub open spec fn is_number(self) -> bool {
        self is Number
    }

    /// Is this a modifier card?
    pub open spec fn is_modifier(self) -> bool {
        self is Modifier
    }

    /// Is this an action card?
    pub open spec fn is_action(self) -> bool {
        self is Action
    }

    /// The text of the card: "Number: 7", "Modifier: +4", "Modifier: x2",
    /// "Action: Flip Three", "Action: Freeze" or "Action: Second Chance".
    pub fn to_string(&self) -> (s: String)
        ensures
            s@ == card_text(*self),
    {
        match self {
            Card::Number(value) => {
                let mut s = String::from_str("Number: ");
                push_int(&mut s, *value as i64);
                s
            },
            Card::Modifier { is_mult, value } => {
                if *is_mult {
                    let mut s = String::from_str("Modifier: x");
                    push_int(&mut s, *value as i64);
                    s
                } else {
                    let mut s = String::from_str("Modifier: +");
                    push_int(&mut s, *value as i64);
                    s
                }
            },
            Card::Action(t) => match t {
                ActionType::Flip3 => String::from_str("Action: Flip Three"),
                ActionType::Freeze => String::from_str("Action: Freeze"),
                ActionType::SecondChance => String::from_str("Action: Second Chance"),
            },
        }
    }
}

} // verus!
