//! Score information for completed rounds.

use vstd::prelude::*;

use std::collections::HashMap;

verus! {

/// Score information for a completed round.
#[derive(Debug, Clone)]
pub struct RoundScore<P> {
    /// Map of player IDs to their scores.
    pub player_scores: HashMap<usize, P>,
    /// The ID of the player who won.
    pub winner_id: usize,
}

/// Represents a player's score in a Rummy variant.
pub trait VariantPlayerScore: Sized + Clone {

}

} // verus!
