//! Why a call on a game is refused.

use vstd::prelude::*;

verus! {

/// The reasons for which a call is refused. A refused call changes nothing.
#[derive(Clone, Copy, Debug, PartialEq, Eq, Structural)]
pub enum GameError {
    /// The player has no game that is still running.
    NoActiveGame,
    /// The game is already over.
    GameEnded,
    /// The coordinates lie off the board.
    InvalidPosition,
    /// The cell already holds a stone.
    Occupied,
    /// The move retakes the ko point.
    KoViolation,
    /// The stone would have no liberty and would capture nothing.
    Suicide,
}

impl GameError {
    /// The text shown for this reason; each reason has its own.
    pub open spec fn text(self) -> Seq<char> {
        match self {
            GameError::NoActiveGame => "No active game found"@,
            GameError::GameEnded => "Game already ended"@,
            GameError::InvalidPosition => "Invalid position"@,
            GameError::Occupied => "Position is already occupied"@,
            GameError::KoViolation => "Move violates Ko rule"@,
            GameError::Suicide => "Move would be suicide"@,
        }
    }

    /// The text shown for this reason.
    pub fn message(&self) -> (text: &'static str)
        ensures
            text@ == self.text(),
    {
        match self {
            GameError::NoActiveGame => "No active game found",
            GameError::GameEnded => "Game already ended",
            GameError::InvalidPosition => "Invalid position",
            GameError::Occupied => "Position is already occupied",
            GameError::KoViolation => "Move violates Ko rule",
            GameError::Suicide => "Move would be suicide",
        }
    }
}

} // verus!
