//! The error types of the game layer: failed actions, internal
//! inconsistencies, game-level errors and setup errors.

use vstd::prelude::*;

use crate::cards::meld::MeldError;
use crate::game::state::GamePhase;

verus! {

/// Errors that may be returned from executing a `GameAction`.
#[derive(Debug, PartialEq, Eq)]
pub enum ActionError {
    /// The action failed to execute; the state is unchanged.
    FailedAction(FailedActionError),
    /// Serious; indicates something went wrong internally, such as an
    /// unexpected invalid state. May need to stop the game.
    Internal(InternalError),
}

/// Reasons that a `GameAction` couldn't be executed.
#[derive(Debug, PartialEq, Eq)]
pub enum FailedActionError {
    /// The action was executed in the wrong game phase.
    InvalidGamePhase { current_phase: GamePhase },
    /// Couldn't draw from the discard pile as it had no/not enough cards.
    DiscardPileTooSmall,
    /// The index for a card was invalid (likely out of bounds).
    InvalidCardIndex,
    /// The index for a meld was invalid (likely out of bounds).
    InvalidMeldIndex,
    /// The index for a player was invalid/doesn't exist.
    InvalidPlayerIndex,
    /// A meld layoff/formation failed.
    FailedMeld(MeldError),
}

/// Internal errors encountered during the game.
///
/// These possibly indicate invalid internal state; as a result, the game
/// may need to be terminated.
#[derive(Debug, Clone, Copy, PartialEq, Eq, Structural)]
pub enum InternalError {
    /// There are no/not enough cards left in deck and discard pile to draw
    /// the required amount.
    NoCardsInDeckOrDiscardPile,
    /// The current player index is invalid.
    InvalidCurrentPlayer { current: usize },
    /// The round has no winner despite having already ended.
    RoundHasNoWinner,
}

/// Errors pertaining to the game itself.
///
/// These don't indicate any issue with internal state, but rather that some
/// function was called at the "wrong" time.
#[derive(Debug, PartialEq, Eq)]
pub enum GameError {
    /// Attempted to perform some action in the wrong game phase.
    WrongGamePhase,
    /// Tried to reference a player ID which doesn't exist.
    PlayerDoesntExist,
    /// Tried to add a player ID when it already exists.
    AddedPlayerAlreadyExists,
    /// Failed to rearrange the hand.
    FailedHandRearrangement,
    /// The round setup failed.
    FailedRoundSetup(GameSetupError),
    /// An internal error occurred.
    Internal(InternalError),
}

/// Errors while creating a game.
#[derive(Debug, Clone, Copy, PartialEq, Eq, Structural)]
pub enum GameSetupError {
    /// The game has too many players.
    TooManyPlayers,
    /// The game has too few players.
    TooFewPlayers,
    /// The deck doesn't have enough cards for the number of players
    /// (enough meaning all players can be dealt + draw from deck once).
    NotEnoughCards,
}

} // verus!
