//! A rules engine for Rummy-family card games.
//!
//! The crate owns the deck, the players' hands, the table's melds and the
//! legality of every move: cards and their configurable ordering
//! ([`cards::card`]), the deck with its stock and discard pile
//! ([`cards::deck`]), meld formation and layoff ([`cards::meld`]), and the
//! phase-based game state machine with the basic rule set ([`game`],
//! [`basic`]).

pub mod basic;
pub mod cards;
pub mod game;
pub mod player;
