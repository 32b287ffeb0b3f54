//! The board: 49 cells of two bits each, packed row by row into a `u128`.

use vstd::prelude::*;

verus! {

/// Cells along one side of the board.
pub const BOARD_SIZE: usize = 7;

/// Cells on the board.
pub const CELL_COUNT: usize = 49;

/// Bits of the board that hold cells; the bits above them are reserved.
pub const PLAYABLE_BITS: usize = 98;

/// Value of an empty cell.
pub const EMPTY: u8 = 0;

/// Value of a cell that holds a stone of the player.
pub const WHITE: u8 = 1;

/// Value of a cell that holds a stone of the automated opponent.
pub const BLACK: u8 = 2;

/// The reserved bit that marks a board as created. It lies above every cell,
/// so a created board without stones differs from the all-zero "no game".
pub const CREATED_BOARD: u128 = 0x8000_0000_0000_0000_0000_0000_0000_0000;

/// Both coordinates lie on the board.
pub open spec fn in_bounds(x: u8, y: u8) -> bool {
    x < 7 && y < 7
}

/// Row-major number of the cell at column `x`, row `y`.
pub open spec fn cell_index(x: u8, y: u8) -> int {
    y * 7 + x
}

/// The number `p` names a cell of the board.
pub open spec fn on_grid(p: int) -> bool {
    0 <= p < 49
}

/// The two bits of `board` that start at bit `shift`.
pub open spec fn field_at(board: u128, shift: u128) -> u128 {
    (board >> shift) & 3
}

/// `board` with the two bits at `shift` cleared and `stone` or-ed in there.
pub open spec fn field_set(board: u128, shift: u128, stone: u8) -> u128 {
    (board & !(3u128 << shift)) | ((stone as u128) << shift)
}

/// Value of cell number `p`; 0 where `p` names no cell.
pub open spec fn cell_value(board: u128, p: int) -> u8 {
    if on_grid(p) {
        field_at(board, (2 * p) as u128) as u8
    } else {
        0
    }
}

/// `board` with cell number `p` rewritten to `stone`; unchanged where `p`
/// names no cell.
pub open spec fn cell_put(board: u128, p: int, stone: u8) -> u128 {
    if on_grid(p) {
        field_set(board, (2 * p) as u128, stone)
    } else {
        board
    }
}

/// Value read at coordinates `(x, y)`: that of cell `y * 7 + x`.
pub open spec fn stone_at(board: u128, x: u8, y: u8) -> u8 {
    cell_value(board, cell_index(x, y))
}

/// `board` after writing `stone` at coordinates `(x, y)`.
pub open spec fn place(board: u128, x: u8, y: u8, stone: u8) -> u128 {
    cell_put(board, cell_index(x, y), stone)
}

/// The reserved bits of `board`, those above the cells.
pub open spec fn reserved_bits(board: u128) -> u128 {
    board >> 98
}

proof fn lemma_field_range(board: u128, shift: u128)
    by (bit_vector)
    ensures
        field_at(board, shift) <= 3,
{
}

proof fn lemma_field_roundtrip(board: u128, shift: u128, stone: u8)
    by (bit_vector)
    requires
        shift < 98,
        stone <= 3,
    ensures
        field_at(field_set(board, shift, stone), shift) == stone as u128,
{
}

proof fn lemma_field_frame(board: u128, shift: u128, other: u128, stone: u8)
    by (bit_vector)
    requires
        shift < 98,
        other < 98,
        shift % 2 == 0,
        other % 2 == 0,
        shift != other,
        stone <= 3,
    ensures
        field_at(field_set(board, shift, stone), other) == field_at(board, other),
{
}

proof fn lemma_field_reserved(board: u128, shift: u128, stone: u8)
    by (bit_vector)
    requires
        shift < 98,
        shift % 2 == 0,
        stone <= 3,
    ensures
        field_set(board, shift, stone) >> 98 == board >> 98,
{
}

/// Writing a cell and reading it back gives what was written.
pub proof fn lemma_cell_put_same(board: u128, p: int, stone: u8)
    requires
        on_grid(p),
        stone <= 3,
    ensures
        cell_value(cell_put(board, p, stone), p) == stone,
{
    lemma_field_roundtrip(board, (2 * p) as u128, stone);
}

/// Writing a cell leaves every other cell as it was.
pub proof fn lemma_cell_put_other(board: u128, p: int, stone: u8, q: int)
    requires
        stone <= 3,
        p != q,
    ensures
        cell_value(cell_put(board, p, stone), q) == cell_value(board, q),
{
    if on_grid(p) && on_grid(q) {
        lemma_field_frame(board, (2 * p) as u128, (2 * q) as u128, stone);
    }
}

/// Writing a cell leaves the reserved bits as they were.
pub proof fn lemma_cell_put_reserved(board: u128, p: int, stone: u8)
    requires
        stone <= 3,
    ensures
        reserved_bits(cell_put(board, p, stone)) == reserved_bits(board),
{
    if on_grid(p) {
        lemma_field_reserved(board, (2 * p) as u128, stone);
    }
}

/// Whether `(x, y)` lies on the board.
pub fn is_valid_position(x: u8, y: u8) -> (valid: bool)
    ensures
        valid == in_bounds(x, y),
{
    x < 7 && y < 7
}

/// Reads the cell at `(x, y)`: 0 for empty, 1 for the player, 2 for the
/// opponent. Coordinates whose cell number is 49 or more read as 0.
pub fn get_stone_at_position(board: u128, x: u8, y: u8) -> (stone: u8)
    ensures
        stone == stone_at(board, x, y),
        stone <= 3,
{
    let position: usize = y as usize * BOARD_SIZE + x as usize;
    let shift: usize = position * 2;
    if shift >= PLAYABLE_BITS {
        return 0;
    }
    let value: u128 = (board >> shift) & 0b11;
    proof {
        lemma_field_range(board, shift as u128);
        assert(value == field_at(board, (2 * cell_index(x, y)) as u128));
    }
    value as u8
}

/// Writes `stone` into the cell at `(x, y)` and returns the new board.
/// Coordinates whose cell number is 49 or more leave the board unchanged.
pub fn set_stone_at_position(board: u128, x: u8, y: u8, stone: u8) -> (updated: u128)
    ensures
        updated == place(board, x, y, stone),
{
    let position: usize = y as usize * BOARD_SIZE + x as usize;
    let shift: usize = position * 2;
    if shift >= PLAYABLE_BITS {
        return board;
    }
    let cleared_board: u128 = board & !(0b11u128 << shift);
    let updated: u128 = cleared_board | ((stone as u128) << shift);
    proof {
        assert(updated == field_set(board, (2 * cell_index(x, y)) as u128, stone));
    }
    updated
}

/// Reading back what was just written gives the written stone, for every
/// cell of the board and every stone that fits in two bits. Beyond the board
/// nothing is written and 0 is read.
pub proof fn lemma_place_then_read(board: u128, x: u8, y: u8, stone: u8)
    requires
        stone <= 3,
        on_grid(cell_index(x, y)) || stone == 0,
    ensures
        stone_at(place(board, x, y, stone), x, y) == stone,
{
    if on_grid(cell_index(x, y)) {
        lemma_cell_put_same(board, cell_index(x, y), stone);
    }
}

/// Writing one cell leaves every other cell as it was: what is read at any
/// coordinates with another cell number does not change.
pub proof fn lemma_place_keeps_others(board: u128, x: u8, y: u8, stone: u8, ox: u8, oy: u8)
    requires
        stone <= 3 || !on_grid(cell_index(x, y)),
        cell_index(ox, oy) != cell_index(x, y),
    ensures
        stone_at(place(board, x, y, stone), ox, oy) == stone_at(board, ox, oy),
{
    if on_grid(cell_index(x, y)) {
        lemma_cell_put_other(board, cell_index(x, y), stone, cell_index(ox, oy));
    }
}

/// Writing a cell never touches the reserved bits, so a created board stays
/// created and "no game" is never produced by placing or removing stones.
pub proof fn lemma_place_keeps_reserved(board: u128, x: u8, y: u8, stone: u8)
    requires
        stone <= 3,
    ensures
        reserved_bits(place(board, x, y, stone)) == reserved_bits(board),
{
    lemma_cell_put_reserved(board, cell_index(x, y), stone);
}


proof fn lemma_created_field(shift: u128)
    by (bit_vector)
    requires
        shift < 98,
    ensures
        (0x8000_0000_0000_0000_0000_0000_0000_0000u128 >> shift) & 3 == 0,
        0x8000_0000_0000_0000_0000_0000_0000_0000u128 >> 98 != 0,
        (0u128 >> shift) & 3 == 0,
{
}

proof fn lemma_reserved_nonzero(board: u128)
    by (bit_vector)
    requires
        board >> 98 != 0,
    ensures
        board != 0,
{
}

/// A board that was just created holds no stone and differs from "no game",
/// which holds no stone either.
pub proof fn lemma_created_board()
    ensures
        forall|p: int| #[trigger] cell_value(CREATED_BOARD, p) == 0,
        forall|p: int| #[trigger] cell_value(0, p) == 0,
        reserved_bits(CREATED_BOARD) != 0,
        CREATED_BOARD != 0,
{
    assert forall|p: int| #[trigger] cell_value(CREATED_BOARD, p) == 0 by {
        if on_grid(p) {
            lemma_created_field((2 * p) as u128);
        }
    }
    assert forall|p: int| #[trigger] cell_value(0, p) == 0 by {
        if on_grid(p) {
            lemma_created_field((2 * p) as u128);
        }
    }
    lemma_created_field(0);
}

/// A board with a reserved bit set is not "no game".
pub proof fn lemma_marked_board_is_a_game(board: u128)
    requires
        reserved_bits(board) != 0,
    ensures
        board != 0,
{
    lemma_reserved_nonzero(board);
}

} // verus!
