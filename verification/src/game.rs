//! The phase-based game state machine and the rule-engine interfaces that a
//! Rummy variant implements.

pub mod action;
pub mod error;
pub mod game;
pub mod rules;
pub mod score;
pub mod state;
