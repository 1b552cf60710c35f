//! The `Game` trait: the single boundary surface a finished Rummy variant
//! offers to callers.

use vstd::prelude::*;

use crate::cards::card::Card;
use crate::game::action::GameAction;
use crate::game::error::{ActionError, GameError};
use crate::game::rules::GameRules;
use crate::game::state::GameState;

verus! {

/// Represents a Rummy game.
///
/// The exact, verified behaviour of the basic rule set is stated on the
/// methods of its implementing type; `ready` names whatever
/// well-formedness the implementation maintains across calls.
pub trait Game: Sized {
    /// The `GameRules` that this game follows.
    type Rules: GameRules;

    /// The well-formedness this game maintains across calls.
    spec fn ready(&self) -> bool;

    /// Attempt to execute the `GameAction` for the current player.
    ///
    /// Returns an `Err` if the action couldn't be executed for some reason.
    fn execute_action(&mut self, action: GameAction) -> (r: Result<(), ActionError>)
        requires
            old(self).ready(),
        ensures
            final(self).ready(),
    ;

    /// Inspect the game's current state.
    fn get_state(&self) -> &GameState<
        <Self::Rules as GameRules>::VariantScore,
        <Self::Rules as GameRules>::VariantState,
    >;

    /// Quit a player whose ID is `player_id`.
    ///
    /// Returns an `Err` if no such player exists.
    fn quit_player(&mut self, player_id: usize) -> (r: Result<(), GameError>)
        requires
            old(self).ready(),
        ensures
            final(self).ready(),
    ;

    /// Add a player using the given `player_id`.
    ///
    /// Returns an `Err` if a player with that ID already exists.
    fn add_player(&mut self, player_id: usize) -> (r: Result<(), GameError>)
        requires
            old(self).ready(),
        ensures
            final(self).ready(),
    ;

    /// Rearranges the player's cards according to what is present in
    /// `new_arrangement`.
    ///
    /// Returns an `Err` if no such player exists, `new_arrangement` doesn't
    /// contain the exact cards currently in that player's hand, or the game
    /// phase isn't `Draw` or `Play`.
    fn rearrange_player_hand(&mut self, player_id: usize, new_arrangement: Vec<Card>) -> (r:
        Result<(), GameError>)
        requires
            old(self).ready(),
        ensures
            final(self).ready(),
    ;

    /// Calculate and store round scores and start the next round.
    ///
    /// Returns an `Err` if the game phase is not `RoundEnd`, or the setup
    /// failed for some reason.
    fn next_round(&mut self) -> (r: Result<(), GameError>)
        requires
            old(self).ready(),
        ensures
            final(self).ready(),
    ;
}

/// Supertraits for a `Game`.
pub trait GameTraits: Sized + Clone {

}

impl<T> GameTraits for T where T: Sized + Clone {

}

} // verus!
