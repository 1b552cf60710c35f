//! Functionality involving cards: the `Suit`/`Rank` enumerations, the `Card`
//! with its configurable value function, the `Deck` and the `Meld` engine.

pub mod card;
pub mod meld;
pub mod deck;
pub mod suit_rank;
