//! Plain data that the game hands to and takes from its callers.

use vstd::prelude::*;

verus! {

/// What a cell of the board holds.
#[derive(Clone, Copy, Debug, PartialEq, Eq, Structural)]
pub enum Color {
    /// No stone.
    Empty,
    /// A stone of the player.
    White,
    /// A stone of the automated opponent.
    Black,
}

impl Color {
    /// The number that stands for this colour on the board and in results:
    /// 0 for `Empty`, 1 for `White`, 2 for `Black`.
    pub open spec fn code(self) -> u8 {
        match self {
            Color::Empty => 0,
            Color::White => 1,
            Color::Black => 2,
        }
    }

    /// The number that stands for this colour.
    pub fn to_code(self) -> (code: u8)
        ensures
            code == self.code(),
    {
        match self {
            Color::Empty => 0,
            Color::White => 1,
            Color::Black => 2,
        }
    }

    /// The colour that `code` stands for, if it stands for one.
    pub fn from_code(code: u8) -> (color: Option<Color>)
        ensures
            code <= 2 ==> color is Some && color->0.code() == code,
            code > 2 ==> color is None,
    {
        if code == 0 {
            Some(Color::Empty)
        } else if code == 1 {
            Some(Color::White)
        } else if code == 2 {
            Some(Color::Black)
        } else {
            None
        }
    }
}

/// A cell of the board by column and row.
#[derive(Clone, Copy, Debug, PartialEq, Eq, Structural)]
pub struct Position {
    pub x: u8,
    pub y: u8,
}

/// Who a record belongs to: the 160 bits of an account, the upper 32 in
/// `high` and the lower 128 in `low`.
#[derive(Clone, Copy, Debug, PartialEq, Eq, Structural)]
pub struct PlayerId {
    pub high: u32,
    pub low: u128,
}

impl PlayerId {
    /// The identity that stands for "nobody".
    pub open spec fn zero() -> PlayerId {
        PlayerId { high: 0, low: 0 }
    }

    /// This identity stands for "nobody".
    pub open spec fn is_nobody(self) -> bool {
        self == PlayerId::zero()
    }

    /// Whether this identity stands for "nobody".
    pub fn is_zero(&self) -> (zero: bool)
        ensures
            zero == self.is_nobody(),
    {
        self.high == 0 && self.low == 0
    }
}

/// Totals kept for one player.
#[derive(Clone, Copy, Debug, PartialEq, Eq, Structural)]
pub struct PlayerStats {
    pub player: PlayerId,
    pub total_captures: u32,
    pub games_played: u32,
}

/// How a game stands or ended: the stones each side has taken, and who is
/// ahead. `Color::Empty` as the winner means a tie.
#[derive(Clone, Copy, Debug, PartialEq, Eq, Structural)]
pub struct GameResult {
    pub white_captures: u32,
    pub black_captures: u32,
    pub winner: Color,
}

} // verus!
