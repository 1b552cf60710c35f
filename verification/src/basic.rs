//! The basic form of Rummy: default rules with configurable deal and draw
//! overrides.

pub mod config;
pub mod game;
pub mod rules;
pub mod score;
pub mod state;
