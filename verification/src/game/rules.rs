//! The `GameRules` trait, which encapsulates the action-evaluating
//! behaviour of a game: the "rule engine" a variant supplies.

use vstd::prelude::*;

use crate::game::action::{
    DiscardAction, DrawDeckAction, DrawDiscardPileAction, FormMeldAction, FormMeldsAction,
    GameAction, LayOffAction,
};
use crate::game::error::{ActionError, GameError};
use crate::game::score::RoundScore;
use crate::game::state::GameState;

verus! {

/// Represents the "rule engine" of a Rummy game, handling action execution
/// and score calculation.
///
/// Every handler receives mutable access to the shared `GameState`;
/// handlers are the only code expected to mutate hands, deck and melds.
/// The exact, verified behaviour of the basic rule set's handlers is
/// stated on the methods of its implementing type.
pub trait GameRules: Sized {
    /// The state that this variant requires.
    type VariantState;

    /// The score type of this variant (for each player).
    type VariantScore;

    /// Executes an action: the action's legality in the current phase is
    /// checked first, then the matching handler runs.
    fn execute_action(
        &self,
        state: &mut GameState<Self::VariantScore, Self::VariantState>,
        action: GameAction,
    ) -> Result<(), ActionError>;

    /// Handle drawing from the deck.
    fn handle_draw_deck(
        &self,
        state: &mut GameState<Self::VariantScore, Self::VariantState>,
        action: DrawDeckAction,
    ) -> Result<(), ActionError>;

    /// Handle drawing from the discard pile.
    fn handle_draw_discard_pile(
        &self,
        state: &mut GameState<Self::VariantScore, Self::VariantState>,
        action: DrawDiscardPileAction,
    ) -> Result<(), ActionError>;

    /// Handle laying off a card from the player's hand.
    fn handle_lay_off(
        &self,
        state: &mut GameState<Self::VariantScore, Self::VariantState>,
        action: LayOffAction,
    ) -> Result<(), ActionError>;

    /// Handle forming a single meld.
    fn handle_form_meld(
        &self,
        state: &mut GameState<Self::VariantScore, Self::VariantState>,
        action: FormMeldAction,
    ) -> Result<(), ActionError>;

    /// Handle forming multiple melds at one time. Either all melds
    /// successfully form, or none do.
    fn handle_form_melds(
        &self,
        state: &mut GameState<Self::VariantScore, Self::VariantState>,
        action: FormMeldsAction,
    ) -> Result<(), ActionError>;

    /// Handle discarding a card.
    fn handle_discard(
        &self,
        state: &mut GameState<Self::VariantScore, Self::VariantState>,
        action: DiscardAction,
    ) -> Result<(), ActionError>;

    /// Calculate the score for a round. Returns an `Err` if the round
    /// hasn't ended.
    fn calculate_round_score(
        &self,
        state: &GameState<Self::VariantScore, Self::VariantState>,
    ) -> Result<RoundScore<Self::VariantScore>, GameError>;
}

} // verus!
