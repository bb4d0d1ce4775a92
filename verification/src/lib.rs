pub mod collection;
pub mod craft_suggester;
pub mod deck;
pub mod economy;
pub mod inventory;
pub mod names;
pub mod roster;
pub mod search;

pub use collection::CardData;
pub use deck::Deck;
pub use roster::Roster;
pub use economy::Ratio;
pub use economy::WildcardCoefficients;
pub use economy::Wildcards;

use vstd::prelude::*;

verus! {

/// The library's error type. `UnknownCard` carries the simplified name that
/// the ledger lacks; `DeckNotFound` carries the name that matched no deck.
#[derive(Debug, Clone, PartialEq, Eq)]
pub enum TrackerError {
    UnknownCard(String),
    DeckNotFound(String),
}

impl TrackerError {
    /// A human-readable description of the error.
    pub fn message(&self) -> (m: String)
        ensures
            match self {
                TrackerError::UnknownCard(n) => m@ == "unknown card: "@ + n@,
                TrackerError::DeckNotFound(n) => m@ == "no deck is named: "@ + n@,
            },
    {
        match self {
            TrackerError::UnknownCard(n) => {
                let base = String::from_str("unknown card: ");
                base.concat(n.as_str())
            },
            TrackerError::DeckNotFound(n) => {
                let base = String::from_str("no deck is named: ");
                base.concat(n.as_str())
            },
        }
    }
}

/// Rarity tiers of a card printing, in enumeration order.
/// `Land` and `Unknown` never consume wildcards.
#[derive(Debug, Clone, Copy, PartialEq, Eq, Structural, Hash, PartialOrd, Ord)]
pub enum Rarity {
    Common,
    Uncommon,
    Rare,
    Mythic,
    Land,
    Unknown,
}

impl Rarity {
    /// Position of the tier in the enumeration order, used to pick the
    /// printing with the lowest ordinal among a card's owned printings.
    pub open spec fn ordinal_spec(self) -> int {
        match self {
            Rarity::Common => 0,
            Rarity::Uncommon => 1,
            Rarity::Rare => 2,
            Rarity::Mythic => 3,
            Rarity::Land => 4,
            Rarity::Unknown => 5,
        }
    }

    pub fn ordinal(self) -> (r: u8)
        ensures
            r as int == self.ordinal_spec(),
    {
        match self {
            Rarity::Common => 0,
            Rarity::Uncommon => 1,
            Rarity::Rare => 2,
            Rarity::Mythic => 3,
            Rarity::Land => 4,
            Rarity::Unknown => 5,
        }
    }
}

} // verus!
