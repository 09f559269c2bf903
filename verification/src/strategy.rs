//! Player strategies and their names on the command line.
use vstd::prelude::*;

verus! {

/// How a player plays beyond the stay rule.
#[derive(Clone, Copy, PartialEq, Eq, Structural, Debug)]
pub enum Strategy {
    IgnoreModifiers,
    SelfFlipThree,
    SmartFlipThree,
    RandomFlipThree,
}

/// The strategy a command-line word names, if any. `RandomFlipThree` has no
/// word: it is the default that every player starts with.
pub open spec fn strategy_named(s: Seq<char>) -> Option<Strategy> {
    if s == "ignore-modifiers"@ {
        Some(Strategy::IgnoreModifiers)
    } else if s == "self-flip-three"@ {
        Some(Strategy::SelfFlipThree)
    } else if s == "smart-flip-three"@ {
        Some(Strategy::SmartFlipThree)
    } else {
        None
    }
}

/// The name of a strategy, as it is displayed.
pub open spec fn strategy_text(s: Strategy) -> Seq<char> {
    match s {
        Strategy::IgnoreModifiers => "IgnoreModifiers"@,
        Strategy::SelfFlipThree => "SelfFlipThree"@,
        Strategy::SmartFlipThree => "SmartFlipThree"@,
        Strategy::RandomFlipThree => "RandomFlipThree"@,
    }
}

/// Do two strings hold the same characters?
pub fn str_equal(a: &str, b: &str) -> (r: bool)
    ensures
        r == (a@ == b@),
{
    let n = a.unicode_len();
    let m = b.unicode_len();
    if n != m {
        return false;
    }
    let mut i: usize = 0;
    while i < n
        invariant
            n == a@.len(),
            m == b@.len(),
            n == m,
            i <= n,
            forall|j: int| 0 <= j < i ==> a@[j] == b@[j],
        decreases n - i,
    {
        if a.get_char(i) != b.get_char(i) {
            return false;
        }
        i = i + 1;
    }
    assert(a@ =~= b@);
    true
}

impl Strategy {
    /// Parses a command-line word: `ignore-modifiers`, `self-flip-three` or
    /// `smart-flip-three`; any other word is refused with
    /// "invalid value: " followed by the word.
    pub fn parse(s: &str) -> (r: Result<Strategy, String>)
        ensures
            match r {
                Ok(st) => strategy_named(s@) == Some(st),
                Err(e) => strategy_named(s@) is None && e@ == "invalid value: "@ + s@,
            },
    {
        if str_equal(s, "ignore-modifiers") {
            Ok(Strategy::IgnoreModifiers)
        } else if str_equal(s, "self-flip-three") {
            Ok(Strategy::SelfFlipThree)
        } else if str_equal(s, "smart-flip-three") {
            Ok(Strategy::SmartFlipThree)
        } else {
            Err(String::from_str("invalid value: ").concat(s))
        }
    }

    /// The name of the strategy: "IgnoreModifiers", "SelfFlipThree",
    /// "SmartFlipThree" or "RandomFlipThree".
    pub fn name(&self) -> (s: String)
        ensures
            s@ == strategy_text(*self),
    {
        match self {
            Strategy::IgnoreModifiers => String::from_str("IgnoreModifiers"),
            Strategy::SelfFlipThree => String::from_str("SelfFlipThree"),
            Strategy::SmartFlipThree => String::from_str("SmartFlipThree"),
            Strategy::RandomFlipThree => String::from_str("RandomFlipThree"),
        }
    }
}

impl std::str::FromStr for Strategy {
    type Err = String;

    /// Parses a command-line word, as `Strategy::parse` does.
    fn from_str(s: &str) -> (r: Result<Self, Self::Err>)
        ensures
            match r {
                Ok(st) => strategy_named(s@) == Some(st),
                Err(e) => strategy_named(s@) is None && e@ == "invalid value: "@ + s@,
            },
    {
        Strategy::parse(s)
    }
}

} // verus!
