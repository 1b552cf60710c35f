//! A Rummy player: identity, hand, melds, and participation status.

use vstd::prelude::*;

use crate::cards::card::Card;
use crate::cards::meld::Meld;

verus! {

/// A Rummy player.
#[derive(Debug, Clone)]
pub struct Player {
    /// How they're identified.
    pub id: usize,
    /// Their hand.
    pub cards: Vec<Card>,
    /// Their melds.
    pub melds: Vec<Meld>,
    /// Whether they're currently playing.
    pub active: bool,
    /// The round they joined in.
    pub joined_in_round: usize,
}

impl Player {
    /// Creates a new player with an empty hand and no melds.
    pub fn new(id: usize, active: bool, joined_in_round: usize) -> (p: Player)
        ensures
            p.id == id,
            p.active == active,
            p.joined_in_round == joined_in_round,
            p.cards@.len() == 0,
            p.melds@.len() == 0,
    {
        Player { id, cards: Vec::new(), melds: Vec::new(), active, joined_in_round }
    }

    /// Get the player's ID.
    pub fn id(&self) -> (r: usize)
        ensures
            r == self.id,
    {
        self.id
    }

    /// Get the player's cards.
    pub fn cards(&self) -> (r: &Vec<Card>)
        ensures
            r == &self.cards,
    {
        &self.cards
    }

    /// Get the player's melds.
    pub fn melds(&self) -> (r: &Vec<Meld>)
        ensures
            r == &self.melds,
    {
        &self.melds
    }

    /// Whether the player is currently active.
    pub fn active(&self) -> (r: bool)
        ensures
            r == self.active,
    {
        self.active
    }

    /// Which round the player joined in.
    pub fn joined_in_round(&self) -> (r: usize)
        ensures
            r == self.joined_in_round,
    {
        self.joined_in_round
    }
}

} // verus!
