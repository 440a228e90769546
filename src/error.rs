use vstd::prelude::*;

verus! {

/// The errors that the engine reports.
#[derive(Clone, Copy, Debug, PartialEq, Eq, Structural)]
pub enum FreeCellError {
    /// A card id outside `0..=51`.
    InvalidCardId,
    /// A text that is not the two-character form of a card.
    InvalidCardText,
    /// A text that is not the canonical form of a game.
    InvalidGameText,
    /// A move that the rules do not allow.
    MoveRejected,
    /// A move or undo was asked for while no game is held.
    NoActiveGame,
    /// A move or undo was asked for on a game that is already won.
    AlreadyWon,
    /// An undo was asked for with no earlier state to go back to.
    EmptyHistory,
    /// Bytes that do not hold a journey.
    JourneyCorrupt,
}

} // verus!
