//! One player's game against the automated opponent: creating it, placing a
//! stone, passing, the opponent's reply, the end of the game and its score.
//!
//! A `GoGame` value is what one call on behalf of one player reads and
//! writes. Every operation is a function of that value alone; a refused call
//! leaves it untouched.

use vstd::prelude::*;
use crate::board::{
    get_stone_at_position, in_bounds, place, reserved_bits, set_stone_at_position, stone_at,
    CREATED_BOARD, lemma_created_board, lemma_marked_board_is_a_game, lemma_place_keeps_reserved,
};
use crate::errors::GameError;
use crate::life::{
    sound, lemma_empty_board_is_sound, lemma_move_keeps_board_sound, lemma_sound_board_has_room,
};
use crate::opponent::{
    choose_contract_move, contract_choice, lemma_contract_choice_fits, CONTRACT_STONE,
};
use crate::rules::{
    capture_surrounded_stones, captured, check_move, ruling, lemma_captured_keeps_reserved,
    lemma_captured_stones,
};

verus! {

/// The colour of the player's stones.
pub const PLAYER_STONE: u8 = 1;

/// The state of one player's game.
#[derive(Clone, Copy, Debug, PartialEq, Eq, Structural)]
pub struct GameRecord {
    /// The packed board; 0 where the player has no game.
    pub board: u128,
    /// Stones that the player has taken.
    pub white_captures: u32,
    /// Stones that the opponent has taken.
    pub black_captures: u32,
    /// Column of the ko point; `(0, 0)` means that there is none.
    pub last_move_x: u8,
    /// Row of the ko point.
    pub last_move_y: u8,
    /// The player passed on their last turn.
    pub player_passed: bool,
    /// The opponent found no move on its last turn.
    pub contract_passed: bool,
    /// The game is over.
    pub game_ended: bool,
}

/// What one call on behalf of one player works on: that player's record and
/// score, their place in the list of participants, and the number of
/// participants.
#[derive(Clone, Copy, Debug, PartialEq, Eq, Structural)]
pub struct GoGame {
    /// The player's game.
    pub record: GameRecord,
    /// Points that the player has gathered over all finished games.
    pub player_points: u32,
    /// The player's number in the list of participants; 0 until the first
    /// game is scored.
    pub player_index: u32,
    /// The highest number given out in the list of participants.
    pub total_players: u32,
}

/// The record of a game that was just created: an empty board with the
/// created mark, nothing captured, nobody passed.
pub open spec fn fresh_record() -> GameRecord {
    GameRecord {
        board: CREATED_BOARD,
        white_captures: 0,
        black_captures: 0,
        last_move_x: 0,
        last_move_y: 0,
        player_passed: false,
        contract_passed: false,
        game_ended: false,
    }
}

/// The record that a finished game leaves behind.
pub open spec fn closed_record() -> GameRecord {
    GameRecord {
        board: 0,
        white_captures: 0,
        black_captures: 0,
        last_move_x: 0,
        last_move_y: 0,
        player_passed: false,
        contract_passed: false,
        game_ended: true,
    }
}

/// Every cell of the board holds a stone.
pub open spec fn board_full(board: u128) -> bool {
    forall|x: u8, y: u8| in_bounds(x, y) ==> #[trigger] stone_at(board, x, y) != 0
}

/// Points for a finished game: 3 where the player has taken more stones than
/// the opponent, 1 where fewer, 2 where as many.
pub open spec fn award(white_captures: u32, black_captures: u32) -> u32 {
    if white_captures > black_captures {
        3
    } else if white_captures < black_captures {
        1
    } else {
        2
    }
}

/// Who is ahead: 1 for the player, 2 for the opponent, 0 for a tie.
pub open spec fn winner_of(white_captures: u32, black_captures: u32) -> u8 {
    if white_captures > black_captures {
        1
    } else if white_captures < black_captures {
        2
    } else {
        0
    }
}

/// Whether every cell of `board` holds a stone.
pub fn is_board_full(board: u128) -> (full: bool)
    ensures
        full == board_full(board),
{
    let mut y: u8 = 0;
    while y < 7
        invariant
            y <= 7,
            forall|ox: u8, oy: u8| ox < 7 && oy < y ==> #[trigger] stone_at(board, ox, oy) != 0,
        decreases 7 - y,
    {
        let mut x: u8 = 0;
        while x < 7
            invariant
                y < 7,
                x <= 7,
                forall|ox: u8, oy: u8|
                    ox < 7 && oy < y ==> #[trigger] stone_at(board, ox, oy) != 0,
                forall|ox: u8| ox < x ==> #[trigger] stone_at(board, ox, y) != 0,
            decreases 7 - x,
        {
            if get_stone_at_position(board, x, y) == 0 {
                return false;
            }
            x = x + 1;
        }
        y = y + 1;
    }
    true
}

impl GoGame {
    /// The player has a game that is still running.
    pub open spec fn has_active_game(self) -> bool {
        self.record.board != 0 && !self.record.game_ended
    }

    /// The player is new: without points and without a record.
    pub open spec fn is_newcomer(self) -> bool {
        self.player_points == 0 && self.record.board == 0
    }

    /// The state after a game was created: a fresh record, and one more
    /// participant counted where the player is new. The count wraps around
    /// at the top of its range.
    pub open spec fn created(self) -> GoGame {
        GoGame {
            record: fresh_record(),
            total_players: if !self.is_newcomer() {
                self.total_players
            } else if self.total_players == u32::MAX {
                0
            } else {
                (self.total_players + 1) as u32
            },
            ..self
        }
    }

    /// The state with a new board, new counts of captured stones and a new ko
    /// point.
    pub open spec fn updated(
        self,
        board: u128,
        white_captures: u32,
        black_captures: u32,
        last_move_x: u8,
        last_move_y: u8,
    ) -> GoGame {
        GoGame {
            record: GameRecord {
                board,
                white_captures,
                black_captures,
                last_move_x,
                last_move_y,
                ..self.record
            },
            ..self
        }
    }

    /// The state after the player's stone went down at `(x, y)`: the stone is
    /// on the board, what it captured is off and counted for the player, the
    /// ko point is set, and the player no longer counts as having passed.
    pub open spec fn player_placed(self, x: u8, y: u8) -> GoGame {
        let taken = captured(place(self.record.board, x, y, PLAYER_STONE), x, y, PLAYER_STONE);
        GoGame {
            record: GameRecord {
                board: taken.board,
                white_captures: (self.record.white_captures + taken.count) as u32,
                last_move_x: taken.ko_x,
                last_move_y: taken.ko_y,
                player_passed: false,
                ..self.record
            },
            ..self
        }
    }

    /// The state after the opponent's stone went down at `(x, y)`.
    pub open spec fn contract_placed(self, x: u8, y: u8) -> GoGame {
        let taken = captured(place(self.record.board, x, y, CONTRACT_STONE), x, y, CONTRACT_STONE);
        GoGame {
            record: GameRecord {
                board: taken.board,
                black_captures: (self.record.black_captures + taken.count) as u32,
                last_move_x: taken.ko_x,
                last_move_y: taken.ko_y,
                contract_passed: false,
                ..self.record
            },
            ..self
        }
    }

    /// The state after the player's points were set to `new_points`. A player
    /// without a number and without points gets the next number in the list
    /// of participants, which thereby grows by one.
    pub open spec fn scored(self, new_points: u32) -> GoGame {
        if self.player_index == 0 && self.player_points == 0 {
            GoGame {
                player_points: new_points,
                player_index: (self.total_players + 1) as u32,
                total_players: (self.total_players + 1) as u32,
                ..self
            }
        } else {
            GoGame { player_points: new_points, ..self }
        }
    }

    /// A number is free for the player where one is needed.
    pub open spec fn score_fits(self) -> bool {
        self.player_index == 0 && self.player_points == 0 ==> self.total_players < u32::MAX
    }

    /// The state after the game was ended: the award is added to the player's
    /// points and the record is closed.
    pub open spec fn ended(self) -> GoGame {
        GoGame {
            record: closed_record(),
            ..self.scored(
                (self.player_points + award(
                    self.record.white_captures,
                    self.record.black_captures,
                )) as u32,
            )
        }
    }

    /// The award fits on top of the player's points, and a number is free for
    /// the player where one is needed.
    pub open spec fn end_fits(self) -> bool {
        self.player_points + award(self.record.white_captures, self.record.black_captures)
            <= u32::MAX && self.score_fits()
    }

    /// What ending the game gives: it is refused where the game is over
    /// already.
    pub open spec fn end_result(self) -> Result<GoGame, GameError> {
        if self.record.game_ended {
            Err(GameError::GameEnded)
        } else {
            Ok(self.ended())
        }
    }

    /// The game is to end: both sides have passed, or the board is full.
    pub open spec fn finished(self) -> bool {
        (self.record.player_passed && self.record.contract_passed) || board_full(
            self.record.board,
        )
    }

    /// What the check for the end of the game gives.
    pub open spec fn end_checked(self) -> Result<GoGame, GameError> {
        if self.finished() {
            self.end_result()
        } else {
            Ok(self)
        }
    }

    /// The opponent's move in this state, if it has one.
    pub open spec fn contract_move(self) -> Option<(u8, u8)> {
        contract_choice(self.record.board, self.record.last_move_x, self.record.last_move_y)
    }

    /// The state with the opponent marked as having passed.
    pub open spec fn contract_passes(self) -> GoGame {
        GoGame { record: GameRecord { contract_passed: true, ..self.record }, ..self }
    }

    /// What the opponent's turn gives. With a move, the stone goes down and
    /// the end of the game is checked. Without one, the opponent passes, and
    /// the game ends where the player has passed too.
    pub open spec fn replied(self) -> Result<GoGame, GameError> {
        match self.contract_move() {
            Some((x, y)) => self.contract_placed(x, y).end_checked(),
            None => if self.record.player_passed {
                self.contract_passes().end_result()
            } else {
                Ok(self.contract_passes())
            },
        }
    }

    /// The numbers that the opponent's turn computes fit their types.
    pub open spec fn reply_fits(self) -> bool {
        match self.contract_move() {
            Some((x, y)) => {
                &&& self.record.black_captures + captured(
                    place(self.record.board, x, y, CONTRACT_STONE),
                    x,
                    y,
                    CONTRACT_STONE,
                ).count <= u32::MAX
                &&& (self.contract_placed(x, y).finished() && !self.record.game_ended
                    ==> self.contract_placed(x, y).end_fits())
            },
            None => self.record.player_passed && !self.record.game_ended ==> self.end_fits(),
        }
    }

    /// The state with the player marked as having passed.
    pub open spec fn player_passes(self) -> GoGame {
        GoGame { record: GameRecord { player_passed: true, ..self.record }, ..self }
    }

    /// What the player's stone at `(x, y)` gives: the call is refused without
    /// a running game and for a move that breaks a rule; otherwise the stone
    /// goes down and the opponent replies.
    pub open spec fn after_set_piece(self, x: u8, y: u8) -> Result<GoGame, GameError> {
        if !self.has_active_game() {
            Err(GameError::NoActiveGame)
        } else {
            match ruling(
                self.record.board,
                self.record.last_move_x,
                self.record.last_move_y,
                x,
                y,
                PLAYER_STONE,
            ) {
                Err(reason) => Err(reason),
                Ok(_) => self.player_placed(x, y).replied(),
            }
        }
    }

    /// The numbers that the player's stone at `(x, y)` and the reply to it
    /// compute fit their types.
    pub open spec fn set_piece_fits(self, x: u8, y: u8) -> bool {
        self.accepts_piece(x, y) ==> {
            &&& self.record.white_captures + captured(
                place(self.record.board, x, y, PLAYER_STONE),
                x,
                y,
                PLAYER_STONE,
            ).count <= u32::MAX
            &&& self.player_placed(x, y).reply_fits()
        }
    }

    /// The player's stone at `(x, y)` is accepted.
    pub open spec fn accepts_piece(self, x: u8, y: u8) -> bool {
        self.has_active_game() && ruling(
            self.record.board,
            self.record.last_move_x,
            self.record.last_move_y,
            x,
            y,
            PLAYER_STONE,
        ) is Ok
    }

    /// What the player's pass gives: it is refused without a running game;
    /// otherwise the player is marked as having passed and the opponent
    /// replies.
    pub open spec fn after_pass_turn(self) -> Result<GoGame, GameError> {
        if !self.has_active_game() {
            Err(GameError::NoActiveGame)
        } else {
            self.player_passes().replied()
        }
    }

    /// The numbers that the player's pass and the reply to it compute fit
    /// their types.
    pub open spec fn pass_turn_fits(self) -> bool {
        self.has_active_game() ==> self.player_passes().reply_fits()
    }

    /// The counters leave room for what one call can add at most: 49 stones
    /// to either count of captured stones, 3 points and one participant.
    pub open spec fn headroom(self) -> bool {
        &&& self.record.white_captures + 49 <= u32::MAX
        &&& self.record.black_captures + 49 <= u32::MAX
        &&& self.player_points + 3 <= u32::MAX
        &&& self.total_players + 1 <= u32::MAX
    }

    /// With such room, the numbers of every call fit their types.
    pub proof fn lemma_headroom_suffices(self, x: u8, y: u8)
        requires
            self.headroom(),
        ensures
            self.score_fits(),
            self.end_fits(),
            self.reply_fits(),
            self.pass_turn_fits(),
            self.set_piece_fits(x, y),
    {
        self.lemma_reply_fits();
        self.player_passes().lemma_reply_fits();
        lemma_captured_stones(
            place(self.record.board, x, y, PLAYER_STONE),
            x,
            y,
            PLAYER_STONE,
            4,
        );
        self.player_placed(x, y).lemma_reply_fits();
    }

    proof fn lemma_reply_fits(self)
        requires
            self.record.black_captures + 49 <= u32::MAX,
            self.player_points + 3 <= u32::MAX,
            self.total_players + 1 <= u32::MAX,
        ensures
            self.reply_fits(),
    {
        match self.contract_move() {
            Some((x, y)) => {
                lemma_captured_stones(
                    place(self.record.board, x, y, CONTRACT_STONE),
                    x,
                    y,
                    CONTRACT_STONE,
                    4,
                );
            },
            None => {},
        }
    }

    /// The board of this state carries a reserved bit, as every board does
    /// that `create_game` made and moves have changed since.
    pub open spec fn is_marked(self) -> bool {
        reserved_bits(self.record.board) != 0
    }

    /// A game that was just created is running, and its board is marked and
    /// empty. Creating once more changes nothing: the player is counted as
    /// a participant at most once this way.
    pub proof fn lemma_created_is_running(self)
        ensures
            self.created().has_active_game(),
            self.created().is_marked(),
            board_full(self.created().record.board) == false,
            self.created().created() == self.created(),
    {
        lemma_created_board();
        assert(stone_at(CREATED_BOARD, 0, 0) == 0);
    }

    /// The opponent's turn leaves a marked board marked, unless it ends the
    /// game; it never takes points away, and it adds some where the game
    /// ends.
    pub proof fn lemma_reply_keeps_game(self)
        requires
            self.is_marked(),
            self.reply_fits(),
            self.replied() is Ok,
        ensures
            ({
                let next = self.replied()->Ok_0;
                &&& next.record.game_ended == self.record.game_ended || next.record
                    == closed_record()
                &&& next.record != closed_record() ==> next.is_marked() && next.record.board != 0
                    && next.player_points == self.player_points && next.total_players
                    == self.total_players
                &&& next.player_points >= self.player_points
                &&& next.total_players >= self.total_players
                &&& next.record == closed_record() && !self.record.game_ended
                    ==> next.player_points > self.player_points
            }),
    {
        lemma_marked_board_is_a_game(self.record.board);
        match self.contract_move() {
            Some((x, y)) => {
                lemma_place_keeps_reserved(self.record.board, x, y, CONTRACT_STONE);
                lemma_captured_keeps_reserved(
                    place(self.record.board, x, y, CONTRACT_STONE),
                    x,
                    y,
                    CONTRACT_STONE,
                    4,
                );
                lemma_marked_board_is_a_game(self.contract_placed(x, y).record.board);
            },
            None => {},
        }
    }

    /// A running game on a marked board is still running after an accepted
    /// move or pass, unless that call ended it. The player's points never
    /// fall, and they rise where the game ends.
    pub proof fn lemma_running_until_ended(self, x: u8, y: u8)
        requires
            self.is_marked(),
            self.has_active_game(),
            self.set_piece_fits(x, y),
            self.pass_turn_fits(),
        ensures
            match self.after_set_piece(x, y) {
                Ok(next) => (next.has_active_game() && next.player_points == self.player_points)
                    || (next.record == closed_record() && next.player_points
                    > self.player_points),
                Err(_) => true,
            },
            match self.after_pass_turn() {
                Ok(next) => (next.has_active_game() && next.player_points == self.player_points)
                    || (next.record == closed_record() && next.player_points
                    > self.player_points),
                Err(_) => false,
            },
    {
        self.player_passes().lemma_reply_never_refused();
        self.player_passes().lemma_reply_keeps_game();
        if self.after_set_piece(x, y) is Ok {
            let placed = self.player_placed(x, y);
            lemma_place_keeps_reserved(self.record.board, x, y, PLAYER_STONE);
            lemma_captured_keeps_reserved(
                place(self.record.board, x, y, PLAYER_STONE),
                x,
                y,
                PLAYER_STONE,
                4,
            );
            placed.lemma_reply_keeps_game();
        }
    }

    /// Numbers in the list of participants are given once and in rising
    /// order: a player who has a number keeps it, and a new number is one more
    /// than the highest given so far, which it then is.
    pub proof fn lemma_numbers_rise(self, new_points: u32)
        requires
            self.score_fits(),
        ensures
            self.player_index != 0 ==> self.scored(new_points).player_index == self.player_index,
            self.scored(new_points).player_index != self.player_index ==> self.scored(
                new_points,
            ).player_index == self.total_players + 1 && self.scored(new_points).total_players
                == self.scored(new_points).player_index,
            self.scored(new_points).total_players >= self.total_players,
            self.scored(new_points).player_points == new_points,
    {
    }

    /// The opponent's turn keeps a sound board sound: whether it moves,
    /// passes or ends the game, every stone left on the board belongs to a
    /// group with a liberty.
    pub proof fn lemma_reply_keeps_board_sound(self)
        requires
            sound(self.record.board),
            self.replied() is Ok,
        ensures
            sound(self.replied()->Ok_0.record.board),
    {
        lemma_created_board();
        lemma_empty_board_is_sound(0);
        lemma_contract_choice_fits(
            self.record.board,
            self.record.last_move_x,
            self.record.last_move_y,
        );
        match self.contract_move() {
            Some((x, y)) => {
                lemma_move_keeps_board_sound(
                    self.record.board,
                    self.record.last_move_x,
                    self.record.last_move_y,
                    x,
                    y,
                    CONTRACT_STONE,
                );
            },
            None => {},
        }
    }

    /// Games keep their boards sound. A game that was just created has a
    /// sound board, and an accepted move or pass on a sound board leaves a
    /// sound board: in every state that play can reach, every stone on the
    /// board belongs to a group with a liberty.
    pub proof fn lemma_play_keeps_board_sound(self, x: u8, y: u8)
        ensures
            sound(self.created().record.board),
            sound(self.record.board) ==> match self.after_set_piece(x, y) {
                Ok(next) => sound(next.record.board),
                Err(_) => true,
            },
            sound(self.record.board) ==> match self.after_pass_turn() {
                Ok(next) => sound(next.record.board),
                Err(_) => true,
            },
    {
        lemma_created_board();
        lemma_empty_board_is_sound(CREATED_BOARD);
        if sound(self.record.board) {
            if self.after_pass_turn() is Ok {
                self.player_passes().lemma_reply_keeps_board_sound();
            }
            if self.after_set_piece(x, y) is Ok {
                lemma_move_keeps_board_sound(
                    self.record.board,
                    self.record.last_move_x,
                    self.record.last_move_y,
                    x,
                    y,
                    PLAYER_STONE,
                );
                self.player_placed(x, y).lemma_reply_keeps_board_sound();
            }
        }
    }

    /// On a sound board the game ends by passing only: such a board is never
    /// full, so the end check ends the game exactly where both sides have
    /// passed.
    pub proof fn lemma_sound_game_ends_by_passing(self)
        requires
            sound(self.record.board),
        ensures
            self.finished() == (self.record.player_passed && self.record.contract_passed),
    {
        lemma_sound_board_has_room(self.record.board);
    }

    /// The opponent's turn is refused only in a game that is over.
    pub proof fn lemma_reply_never_refused(self)
        requires
            !self.record.game_ended,
        ensures
            self.replied() is Ok,
    {
    }

    /// Once a game is over, moves and passes are refused until a new game is
    /// created.
    pub proof fn lemma_ended_is_final(self, x: u8, y: u8)
        requires
            self.record.game_ended,
        ensures
            self.after_set_piece(x, y) == Err::<GoGame, GameError>(GameError::NoActiveGame),
            self.after_pass_turn() == Err::<GoGame, GameError>(GameError::NoActiveGame),
            self.created().has_active_game(),
    {
        lemma_created_board();
    }

    /// Whether the numbers of ending the game fit their types.
    pub fn can_end_game(&self) -> (fits: bool)
        ensures
            fits == self.end_fits(),
    {
        let white_captures = self.record.white_captures;
        let black_captures = self.record.black_captures;
        let award: u32 = if white_captures > black_captures {
            3
        } else if white_captures < black_captures {
            1
        } else {
            2
        };
        let unnumbered = self.player_index == 0 && self.player_points == 0;
        self.player_points <= u32::MAX - award && !(unnumbered && self.total_players
            == u32::MAX)
    }

    /// Whether the numbers of the opponent's turn fit their types.
    pub fn can_make_contract_move(&self) -> (fits: bool)
        ensures
            fits == self.reply_fits(),
    {
        let board = self.record.board;
        match choose_contract_move(board, self.record.last_move_x, self.record.last_move_y) {
            Some((contract_x, contract_y)) => {
                let placed = set_stone_at_position(board, contract_x, contract_y, CONTRACT_STONE);
                let (board_after_capture, captured_stones, ko_x, ko_y) = capture_surrounded_stones(
                    placed,
                    contract_x,
                    contract_y,
                    CONTRACT_STONE,
                );
                if captured_stones > u32::MAX - self.record.black_captures {
                    return false;
                }
                let mut next = *self;
                let white_captures = next.record.white_captures;
                let black_captures = next.record.black_captures + captured_stones;
                next.record.contract_passed = false;
                next.update_game(board_after_capture, white_captures, black_captures, ko_x, ko_y);
                if self.record.game_ended {
                    return true;
                }
                let due = (next.record.player_passed && next.record.contract_passed)
                    || is_board_full(next.record.board);
                if due {
                    next.can_end_game()
                } else {
                    true
                }
            },
            None => {
                if self.record.player_passed && !self.record.game_ended {
                    self.can_end_game()
                } else {
                    true
                }
            },
        }
    }

    /// Whether the numbers of the player's stone at `(x, y)` and of the
    /// reply to it fit their types. They always do where the stone is
    /// refused.
    pub fn can_set_piece(&self, x: u8, y: u8) -> (fits: bool)
        ensures
            fits == self.set_piece_fits(x, y),
    {
        if !self.has_game() {
            return true;
        }
        let board = self.record.board;
        if check_move(
            board,
            self.record.last_move_x,
            self.record.last_move_y,
            x,
            y,
            PLAYER_STONE,
        ).is_err() {
            return true;
        }
        let placed = set_stone_at_position(board, x, y, PLAYER_STONE);
        let (board_after_capture, captured_stones, ko_x, ko_y) = capture_surrounded_stones(
            placed,
            x,
            y,
            PLAYER_STONE,
        );
        if captured_stones > u32::MAX - self.record.white_captures {
            return false;
        }
        let mut next = *self;
        let white_captures = next.record.white_captures + captured_stones;
        let black_captures = next.record.black_captures;
        next.record.player_passed = false;
        next.update_game(board_after_capture, white_captures, black_captures, ko_x, ko_y);
        next.can_make_contract_move()
    }

    /// Whether the numbers of the player's pass and of the reply to it fit
    /// their types. They always do where the pass is refused.
    pub fn can_pass_turn(&self) -> (fits: bool)
        ensures
            fits == self.pass_turn_fits(),
    {
        if !self.has_game() {
            return true;
        }
        let mut next = *self;
        next.record.player_passed = true;
        next.can_make_contract_move()
    }

    /// Whether the counters leave room for one more call, whatever the call.
    pub fn has_headroom(&self) -> (roomy: bool)
        ensures
            roomy == self.headroom(),
    {
        self.record.white_captures <= u32::MAX - 49 && self.record.black_captures <= u32::MAX
            - 49 && self.player_points <= u32::MAX - 3 && self.total_players < u32::MAX
    }

    /// Starts a game for the player: the record is reset to an empty, created
    /// board, and a player without points and without a record is counted as
    /// a participant. Creating again leaves the count as it is.
    pub fn create_game(&mut self)
        ensures
            *final(self) == old(self).created(),
            final(self).has_active_game(),
            !old(self).is_newcomer() ==> final(self).total_players == old(self).total_players,
    {
        let newcomer = self.player_points == 0 && self.record.board == 0;
        self.record = GameRecord {
            board: CREATED_BOARD,
            white_captures: 0,
            black_captures: 0,
            last_move_x: 0,
            last_move_y: 0,
            player_passed: false,
            contract_passed: false,
            game_ended: false,
        };
        if newcomer {
            self.total_players = if self.total_players == u32::MAX {
                0
            } else {
                self.total_players + 1
            };
        }
    }

    /// Whether the player has a game that is still running.
    pub fn has_game(&self) -> (active: bool)
        ensures
            active == self.has_active_game(),
    {
        self.record.board != 0 && !self.record.game_ended
    }

    /// The packed board.
    pub fn get_board(&self) -> (board: u128)
        ensures
            board == self.record.board,
    {
        self.record.board
    }

    /// The board as 7 rows of 7 cells: `grid[y][x]` is the cell at `(x, y)`.
    pub fn get_board_as_array(&self) -> (grid: Vec<Vec<u8>>)
        ensures
            grid@.len() == 7,
            forall|y: int| 0 <= y < 7 ==> (#[trigger] grid@[y])@.len() == 7,
            forall|x: u8, y: u8|
                in_bounds(x, y) ==> grid@[y as int]@[x as int] == stone_at(
                    self.record.board,
                    x,
                    y,
                ),
    {
        let board = self.record.board;
        let mut result: Vec<Vec<u8>> = Vec::with_capacity(7);
        let mut y: u8 = 0;
        while y < 7
            invariant
                y <= 7,
                result@.len() == y,
                forall|oy: int| 0 <= oy < y ==> (#[trigger] result@[oy])@.len() == 7,
                forall|ox: u8, oy: u8|
                    ox < 7 && oy < y ==> result@[oy as int]@[ox as int] == stone_at(
                        board,
                        ox,
                        oy,
                    ),
            decreases 7 - y,
        {
            let mut row: Vec<u8> = Vec::with_capacity(7);
            let mut x: u8 = 0;
            while x < 7
                invariant
                    y < 7,
                    x <= 7,
                    row@.len() == x,
                    forall|ox: u8| ox < x ==> row@[ox as int] == stone_at(board, ox, y),
                decreases 7 - x,
            {
                let stone = get_stone_at_position(board, x, y);
                row.push(stone);
                x = x + 1;
            }
            result.push(row);
            y = y + 1;
        }
        result
    }

    /// The player's points.
    pub fn get_player_points(&self) -> (points: u32)
        ensures
            points == self.player_points,
    {
        self.player_points
    }

    /// The number of participants.
    pub fn get_total_players(&self) -> (total: u32)
        ensures
            total == self.total_players,
    {
        self.total_players
    }

    /// Whether the game is over.
    pub fn is_game_ended(&self) -> (ended: bool)
        ensures
            ended == self.record.game_ended,
    {
        self.record.game_ended
    }

    /// The stones taken by the player and by the opponent, and who is ahead:
    /// 1 for the player, 2 for the opponent, 0 for a tie.
    pub fn get_game_result(&self) -> (result: (u32, u32, u8))
        ensures
            result.0 == self.record.white_captures,
            result.1 == self.record.black_captures,
            result.2 == winner_of(self.record.white_captures, self.record.black_captures),
    {
        let white_captures = self.record.white_captures;
        let black_captures = self.record.black_captures;
        let winner: u8 = if white_captures > black_captures {
            1
        } else if white_captures < black_captures {
            2
        } else {
            0
        };
        (white_captures, black_captures, winner)
    }

    /// Stores a new board, new counts of captured stones and a new ko point.
    pub fn update_game(
        &mut self,
        board: u128,
        white_captures: u32,
        black_captures: u32,
        last_move_x: u8,
        last_move_y: u8,
    )
        ensures
            *final(self) == old(self).updated(
                board,
                white_captures,
                black_captures,
                last_move_x,
                last_move_y,
            ),
    {
        self.record.board = board;
        self.record.white_captures = white_captures;
        self.record.black_captures = black_captures;
        self.record.last_move_x = last_move_x;
        self.record.last_move_y = last_move_y;
    }

    /// Sets the player's points. A player without a number and without points
    /// first gets the next number in the list of participants.
    pub fn update_player_points(&mut self, new_points: u32)
        requires
            old(self).score_fits(),
        ensures
            *final(self) == old(self).scored(new_points),
            final(self).total_players >= old(self).total_players,
    {
        if self.player_index == 0 && self.player_points == 0 {
            let index = self.total_players + 1;
            self.player_index = index;
            self.total_players = index;
        }
        self.player_points = new_points;
    }

    /// Ends the game: the player gets 3 points for more captured stones than
    /// the opponent, 1 for fewer and 2 for as many, and the record is closed.
    /// A game that is over already is not ended again.
    pub fn end_game(&mut self) -> (outcome: Result<(), GameError>)
        requires
            !old(self).record.game_ended ==> old(self).end_fits(),
        ensures
            match old(self).end_result() {
                Ok(next) => outcome is Ok && *final(self) == next,
                Err(reason) => outcome == Err::<(), GameError>(reason) && *final(self) == *old(
                    self,
                ),
            },
    {
        if self.record.game_ended {
            return Err(GameError::GameEnded);
        }
        let white_captures = self.record.white_captures;
        let black_captures = self.record.black_captures;
        let player_points = self.player_points;
        let new_points = if white_captures > black_captures {
            player_points + 3
        } else if white_captures < black_captures {
            player_points + 1
        } else {
            player_points + 2
        };
        self.update_player_points(new_points);
        self.record = GameRecord {
            board: 0,
            white_captures: 0,
            black_captures: 0,
            last_move_x: 0,
            last_move_y: 0,
            player_passed: false,
            contract_passed: false,
            game_ended: true,
        };
        Ok(())
    }

    /// Ends the game where both sides have passed or the board is full, and
    /// does nothing otherwise.
    pub fn check_for_game_end(&mut self) -> (outcome: Result<(), GameError>)
        requires
            old(self).finished() && !old(self).record.game_ended ==> old(self).end_fits(),
        ensures
            match old(self).end_checked() {
                Ok(next) => outcome is Ok && *final(self) == next,
                Err(reason) => outcome == Err::<(), GameError>(reason) && *final(self) == *old(
                    self,
                ),
            },
    {
        if self.record.player_passed && self.record.contract_passed {
            return self.end_game();
        }
        if is_board_full(self.record.board) {
            return self.end_game();
        }
        Ok(())
    }

    /// The opponent's turn: it plays the first allowed cell of its search and
    /// the end of the game is checked, or it passes where no cell is allowed,
    /// which ends the game where the player has passed as well.
    pub fn make_contract_move(&mut self) -> (outcome: Result<(), GameError>)
        requires
            old(self).reply_fits(),
        ensures
            match old(self).replied() {
                Ok(next) => outcome is Ok && *final(self) == next,
                Err(reason) => outcome == Err::<(), GameError>(reason) && *final(self) == *old(
                    self,
                ),
            },
    {
        let board = self.record.board;
        let mut next = *self;
        let done = match choose_contract_move(
            board,
            self.record.last_move_x,
            self.record.last_move_y,
        ) {
            Some((contract_x, contract_y)) => {
                let placed = set_stone_at_position(board, contract_x, contract_y, CONTRACT_STONE);
                let (board_after_capture, captured_stones, ko_x, ko_y) = capture_surrounded_stones(
                    placed,
                    contract_x,
                    contract_y,
                    CONTRACT_STONE,
                );
                let white_captures = next.record.white_captures;
                let black_captures = next.record.black_captures + captured_stones;
                next.record.contract_passed = false;
                next.update_game(board_after_capture, white_captures, black_captures, ko_x, ko_y);
                next.check_for_game_end()
            },
            None => {
                next.record.contract_passed = true;
                if next.record.player_passed {
                    next.end_game()
                } else {
                    Ok(())
                }
            },
        };
        if done.is_ok() {
            *self = next;
        }
        done
    }

    /// The player puts a stone at `(x, y)`, and the opponent replies. The
    /// call is refused, and nothing changes, without a running game, off the
    /// board, on an occupied cell, on the ko point, and for suicide.
    pub fn set_piece(&mut self, x: u8, y: u8) -> (outcome: Result<(), GameError>)
        requires
            old(self).set_piece_fits(x, y),
        ensures
            match old(self).after_set_piece(x, y) {
                Ok(next) => outcome is Ok && *final(self) == next,
                Err(reason) => outcome == Err::<(), GameError>(reason) && *final(self) == *old(
                    self,
                ),
            },
            outcome != Err::<(), GameError>(GameError::GameEnded),
    {
        if !self.has_game() {
            return Err(GameError::NoActiveGame);
        }
        let board = self.record.board;
        match check_move(
            board,
            self.record.last_move_x,
            self.record.last_move_y,
            x,
            y,
            PLAYER_STONE,
        ) {
            Err(reason) => {
                return Err(reason);
            },
            Ok(_) => {},
        }
        let placed = set_stone_at_position(board, x, y, PLAYER_STONE);
        let (board_after_capture, captured_stones, ko_x, ko_y) = capture_surrounded_stones(
            placed,
            x,
            y,
            PLAYER_STONE,
        );
        let mut next = *self;
        let white_captures = next.record.white_captures + captured_stones;
        let black_captures = next.record.black_captures;
        next.record.player_passed = false;
        next.update_game(board_after_capture, white_captures, black_captures, ko_x, ko_y);
        let done = next.make_contract_move();
        if done.is_ok() {
            *self = next;
        }
        done
    }

    /// The player passes, and the opponent replies. The call is refused, and
    /// nothing changes, without a running game.
    pub fn pass_turn(&mut self) -> (outcome: Result<(), GameError>)
        requires
            old(self).pass_turn_fits(),
        ensures
            match old(self).after_pass_turn() {
                Ok(next) => outcome is Ok && *final(self) == next,
                Err(reason) => outcome == Err::<(), GameError>(reason) && *final(self) == *old(
                    self,
                ),
            },
            outcome is Ok <==> old(self).has_active_game(),
    {
        if !self.has_game() {
            return Err(GameError::NoActiveGame);
        }
        let mut next = *self;
        next.record.player_passed = true;
        let done = next.make_contract_move();
        if done.is_ok() {
            *self = next;
        }
        done
    }
}

} // verus!
