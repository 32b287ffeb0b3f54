//! Which moves are allowed, and what a move captures.

use vstd::prelude::*;
use crate::board::{
    cell_index, cell_value, get_stone_at_position, in_bounds, is_valid_position, on_grid, place,
    reserved_bits, set_stone_at_position, stone_at, lemma_cell_put_other, lemma_cell_put_same,
};
use crate::errors::GameError;
use crate::group::{
    adjacent, connected, count_liberties, group, group_size, is_chain, is_liberty, liberties,
    liberty_cells, remove_group, without_group, lemma_cell_coords, lemma_cleared_cells,
    lemma_connected_colour, lemma_connected_self, lemma_subset_of_grid,
};

verus! {

/// The colour that `stone_color` plays against: 2 for the player's 1, and 1
/// for everything else.
pub open spec fn opponent_of(stone_color: u8) -> u8 {
    if stone_color == 1 {
        2
    } else {
        1
    }
}

/// The cell next to `(x, y)` in the given direction, where it lies on the
/// board: 0 is to the right, 1 below, 2 to the left, 3 above.
pub open spec fn neighbour_of(x: u8, y: u8, direction: int) -> Option<(u8, u8)> {
    if direction == 0 && x + 1 < 7 && y < 7 {
        Some(((x + 1) as u8, y))
    } else if direction == 1 && x < 7 && y + 1 < 7 {
        Some((x, (y + 1) as u8))
    } else if direction == 2 && 1 <= x <= 7 && y < 7 {
        Some(((x - 1) as u8, y))
    } else if direction == 3 && x < 7 && 1 <= y <= 7 {
        Some((x, (y - 1) as u8))
    } else {
        None
    }
}

/// The neighbour of `(x, y)` in `direction` holds a stone of the other colour
/// whose group has exactly one liberty.
pub open spec fn in_atari_toward(
    board: u128,
    x: u8,
    y: u8,
    stone_color: u8,
    direction: int,
) -> bool {
    match neighbour_of(x, y, direction) {
        Some((nx, ny)) => stone_at(board, nx, ny) == opponent_of(stone_color) && liberties(
            board,
            nx,
            ny,
        ) == 1,
        None => false,
    }
}

/// A stone of `stone_color` on the empty cell `(x, y)` would capture: some
/// neighbouring group of the other colour has that cell as its only liberty.
pub open spec fn would_capture(board: u128, x: u8, y: u8, stone_color: u8) -> bool {
    stone_at(board, x, y) == 0 && (in_atari_toward(board, x, y, stone_color, 0)
        || in_atari_toward(board, x, y, stone_color, 1) || in_atari_toward(
        board,
        x,
        y,
        stone_color,
        2,
    ) || in_atari_toward(board, x, y, stone_color, 3))
}

/// A stone of `stone_color` at `(x, y)` would capture nothing and its group
/// would have no liberty.
pub open spec fn suicide(board: u128, x: u8, y: u8, stone_color: u8) -> bool {
    !would_capture(board, x, y, stone_color) && liberties(
        place(board, x, y, stone_color),
        x,
        y,
    ) == 0
}

/// `(x, y)` is the ko point `(last_x, last_y)`. The point `(0, 0)` stands
/// for "no ko", so a ko at the corner `(0, 0)` is never enforced.
pub open spec fn ko_violation(last_x: u8, last_y: u8, x: u8, y: u8) -> bool {
    !(last_x == 0 && last_y == 0) && x == last_x && y == last_y
}

/// The first rule that a stone of `stone_color` at `(x, y)` breaks, if any:
/// the cell must lie on the board, be empty, not be the ko point, and the
/// move must not be suicide.
pub open spec fn ruling(
    board: u128,
    last_x: u8,
    last_y: u8,
    x: u8,
    y: u8,
    stone_color: u8,
) -> Result<(), GameError> {
    if !in_bounds(x, y) {
        Err(GameError::InvalidPosition)
    } else if stone_at(board, x, y) != 0 {
        Err(GameError::Occupied)
    } else if ko_violation(last_x, last_y, x, y) {
        Err(GameError::KoViolation)
    } else if suicide(board, x, y, stone_color) {
        Err(GameError::Suicide)
    } else {
        Ok(())
    }
}

/// A stone of `stone_color` may be put at `(x, y)`.
pub open spec fn legal(board: u128, last_x: u8, last_y: u8, x: u8, y: u8, stone_color: u8) -> bool {
    in_bounds(x, y) && stone_at(board, x, y) == 0 && !ko_violation(last_x, last_y, x, y)
        && !suicide(board, x, y, stone_color)
}

/// The colour that `stone_color` plays against.
pub fn opponent_color(stone_color: u8) -> (other: u8)
    ensures
        other == opponent_of(stone_color),
{
    if stone_color == 1 {
        2
    } else {
        1
    }
}

/// The cell next to `(x, y)` in `direction`, or `None` where that cell lies
/// off the board.
pub fn neighbor(x: u8, y: u8, direction: u8) -> (cell: Option<(u8, u8)>)
    ensures
        cell == neighbour_of(x, y, direction as int),
{
    if direction == 0 && x < 6 && y < 7 {
        Some((x + 1, y))
    } else if direction == 1 && x < 7 && y < 6 {
        Some((x, y + 1))
    } else if direction == 2 && 1 <= x && x <= 7 && y < 7 {
        Some((x - 1, y))
    } else if direction == 3 && x < 7 && 1 <= y && y <= 7 {
        Some((x, y - 1))
    } else {
        None
    }
}

/// Whether `(x, y)` retakes the ko point `(last_x, last_y)`.
pub fn is_ko_violation(last_x: u8, last_y: u8, x: u8, y: u8) -> (violated: bool)
    ensures
        violated == ko_violation(last_x, last_y, x, y),
{
    if last_x == 0 && last_y == 0 {
        return false;
    }
    x == last_x && y == last_y
}

/// Whether a stone of `stone_color` on `(x, y)` would take the last liberty
/// of a neighbouring group of the other colour.
pub fn would_capture_opponent_stones(board: u128, x: u8, y: u8, stone_color: u8) -> (captures: bool)
    ensures
        captures == would_capture(board, x, y, stone_color),
{
    let opponent = opponent_color(stone_color);
    let vacant = get_stone_at_position(board, x, y) == 0;
    let mut direction: u8 = 0;
    while direction < 4
        invariant
            direction <= 4,
            opponent == opponent_of(stone_color),
            vacant == (stone_at(board, x, y) == 0),
            forall|d: int|
                0 <= d < direction ==> !(vacant && #[trigger] in_atari_toward(
                    board,
                    x,
                    y,
                    stone_color,
                    d,
                )),
        decreases 4 - direction,
    {
        match neighbor(x, y, direction) {
            Some((nx, ny)) => {
                let neighbor_stone = get_stone_at_position(board, nx, ny);
                if neighbor_stone == opponent {
                    let opponent_liberties = count_liberties(board, nx, ny);
                    if opponent_liberties == 1 && vacant {
                        return true;
                    }
                }
            },
            None => {},
        }
        direction = direction + 1;
    }
    false
}

/// Whether a stone of `stone_color` at `(x, y)` would be suicide. A move that
/// captures is never suicide, whatever the liberties of the stone itself.
pub fn would_be_suicide(board: u128, x: u8, y: u8, stone_color: u8) -> (is_suicide: bool)
    ensures
        is_suicide == suicide(board, x, y, stone_color),
{
    if would_capture_opponent_stones(board, x, y, stone_color) {
        return false;
    }
    let temp_board = set_stone_at_position(board, x, y, stone_color);
    let liberties = count_liberties(temp_board, x, y);
    liberties == 0
}

/// Checks a stone of `stone_color` at `(x, y)` against the rules, with
/// `(last_x, last_y)` as the ko point, and names the first rule broken.
pub fn check_move(board: u128, last_x: u8, last_y: u8, x: u8, y: u8, stone_color: u8) -> (checked:
    Result<(), GameError>)
    ensures
        checked == ruling(board, last_x, last_y, x, y, stone_color),
{
    if !is_valid_position(x, y) {
        return Err(GameError::InvalidPosition);
    }
    if get_stone_at_position(board, x, y) != 0 {
        return Err(GameError::Occupied);
    }
    if is_ko_violation(last_x, last_y, x, y) {
        return Err(GameError::KoViolation);
    }
    if would_be_suicide(board, x, y, stone_color) {
        return Err(GameError::Suicide);
    }
    Ok(())
}

/// Whether a stone of `stone_color` may be put at `(x, y)`: on the board, on
/// an empty cell, not on the ko point, and not as suicide.
pub fn is_legal(board: u128, last_x: u8, last_y: u8, x: u8, y: u8, stone_color: u8) -> (allowed:
    bool)
    ensures
        allowed == legal(board, last_x, last_y, x, y, stone_color),
        allowed == (ruling(board, last_x, last_y, x, y, stone_color) is Ok),
{
    check_move(board, last_x, last_y, x, y, stone_color).is_ok()
}

/// What a move has captured so far: the board, the number of stones taken,
/// and the ko point.
pub struct Captured {
    pub board: u128,
    pub count: int,
    pub ko_x: u8,
    pub ko_y: u8,
}

/// Handles one neighbour of the stone just placed: where `target` holds a
/// stone of colour `opponent` whose group has no liberty left, the group is
/// taken off and counted, and a group of one stone becomes the ko point.
pub open spec fn capture_toward(
    so_far: Captured,
    target: Option<(u8, u8)>,
    opponent: u8,
) -> Captured {
    match target {
        Some((nx, ny)) => if stone_at(so_far.board, nx, ny) == opponent && liberties(
            so_far.board,
            nx,
            ny,
        ) == 0 {
            let size = group_size(so_far.board, nx, ny);
            Captured {
                board: without_group(so_far.board, nx, ny),
                count: so_far.count + size,
                ko_x: if size == 1 {
                    nx
                } else {
                    so_far.ko_x
                },
                ko_y: if size == 1 {
                    ny
                } else {
                    so_far.ko_y
                },
            }
        } else {
            so_far
        },
        None => so_far,
    }
}

/// What the first `steps` neighbours of the stone just placed at `(x, y)`
/// give up, each handled on the board that the ones before it left.
pub open spec fn captured_after(board: u128, x: u8, y: u8, stone_color: u8, steps: int) -> Captured
    decreases steps,
{
    if steps <= 0 {
        Captured { board, count: 0, ko_x: 0, ko_y: 0 }
    } else {
        capture_toward(
            captured_after(board, x, y, stone_color, steps - 1),
            neighbour_of(x, y, steps - 1),
            opponent_of(stone_color),
        )
    }
}

/// What a stone of `stone_color` just placed at `(x, y)` captures: its
/// neighbours to the right, below, to the left and above are handled in that
/// order. The ko point is that of the last group of one stone taken, and
/// `(0, 0)` where none was.
pub open spec fn captured(board: u128, x: u8, y: u8, stone_color: u8) -> Captured {
    captured_after(board, x, y, stone_color, 4)
}

/// The cells of `board` that hold a stone of `stone_color`.
pub open spec fn stones_of(board: u128, stone_color: u8) -> Set<int> {
    Set::new(|p: int| on_grid(p) && cell_value(board, p) == stone_color)
}

/// Taking a group off the board removes exactly its stones from the stones of
/// its colour.
pub proof fn lemma_without_group_stones(board: u128, x: u8, y: u8)
    requires
        in_bounds(x, y),
        stone_at(board, x, y) != 0,
    ensures
        stones_of(without_group(board, x, y), stone_at(board, x, y)) == stones_of(
            board,
            stone_at(board, x, y),
        ).difference(group(board, cell_index(x, y))),
        group(board, cell_index(x, y)).subset_of(stones_of(board, stone_at(board, x, y))),
        stones_of(board, stone_at(board, x, y)).finite(),
        stones_of(without_group(board, x, y), stone_at(board, x, y)).len() + group_size(
            board,
            x,
            y,
        ) == stones_of(board, stone_at(board, x, y)).len(),
{
    let seed = cell_index(x, y);
    let colour = stone_at(board, x, y);
    let members = group(board, seed);
    let before = stones_of(board, colour);
    let after = stones_of(without_group(board, x, y), colour);
    assert forall|p: int| members.contains(p) implies before.contains(p) by {
        lemma_connected_colour(board, seed, p);
    }
    assert forall|p: int| after.contains(p) == before.difference(members).contains(p) by {
        lemma_cleared_cells(board, members, 49, p);
    }
    assert(after =~= before.difference(members));
    lemma_subset_of_grid(before);
    lemma_subset_of_grid(members);
    vstd::set_lib::lemma_set_difference_len(before, members);
    assert(before.intersect(members) =~= members);
}

/// The stones that a move takes are stones of the other colour: their number
/// is what that colour loses on the board.
pub proof fn lemma_captured_stones(board: u128, x: u8, y: u8, stone_color: u8, steps: int)
    ensures
        stones_of(
            captured_after(board, x, y, stone_color, steps).board,
            opponent_of(stone_color),
        ).len() + captured_after(board, x, y, stone_color, steps).count == stones_of(
            board,
            opponent_of(stone_color),
        ).len(),
        0 <= captured_after(board, x, y, stone_color, steps).count <= 49,
    decreases steps,
{
    let opponent = opponent_of(stone_color);
    lemma_subset_of_grid(stones_of(board, opponent));
    if steps > 0 {
        lemma_captured_stones(board, x, y, stone_color, steps - 1);
        let so_far = captured_after(board, x, y, stone_color, steps - 1);
        match neighbour_of(x, y, steps - 1) {
            Some((nx, ny)) => {
                if stone_at(so_far.board, nx, ny) == opponent && liberties(so_far.board, nx, ny)
                    == 0 {
                    lemma_without_group_stones(so_far.board, nx, ny);
                }
            },
            None => {},
        }
    }
}

/// Removes the groups that the stone of `stone_color` just placed at
/// `(x, y)` has left without liberties. Returns the new board, the number of
/// stones taken and the new ko point.
pub fn capture_surrounded_stones(board: u128, x: u8, y: u8, stone_color: u8) -> (taken: (
    u128,
    u32,
    u8,
    u8,
))
    ensures
        taken.0 == captured(board, x, y, stone_color).board,
        taken.1 == captured(board, x, y, stone_color).count,
        taken.2 == captured(board, x, y, stone_color).ko_x,
        taken.3 == captured(board, x, y, stone_color).ko_y,
        taken.1 <= 49,
{
    let opponent = opponent_color(stone_color);
    let mut captured_count: u32 = 0;
    let mut updated_board = board;
    let mut ko_x: u8 = 0;
    let mut ko_y: u8 = 0;
    let mut direction: u8 = 0;
    while direction < 4
        invariant
            direction <= 4,
            opponent == opponent_of(stone_color),
            captured_count <= 49 * direction,
            captured_after(board, x, y, stone_color, direction as int) == (Captured {
                board: updated_board,
                count: captured_count as int,
                ko_x,
                ko_y,
            }),
        decreases 4 - direction,
    {
        match neighbor(x, y, direction) {
            Some((nx, ny)) => {
                let neighbor_stone = get_stone_at_position(updated_board, nx, ny);
                if neighbor_stone == opponent {
                    let liberties = count_liberties(updated_board, nx, ny);
                    if liberties == 0 {
                        let (new_board, stones_removed, removed_positions) = remove_group(
                            updated_board,
                            nx,
                            ny,
                        );
                        proof {
                            lemma_subset_of_grid(group(updated_board, cell_index(nx, ny)));
                        }
                        updated_board = new_board;
                        captured_count = captured_count + stones_removed;
                        if stones_removed == 1 && removed_positions.len() > 0 {
                            let captured_pos = removed_positions[0];
                            ko_x = captured_pos.0;
                            ko_y = captured_pos.1;
                        }
                    }
                }
            },
            None => {},
        }
        direction = direction + 1;
    }
    proof {
        lemma_captured_stones(board, x, y, stone_color, 4);
    }
    (updated_board, captured_count, ko_x, ko_y)
}


/// A neighbour of a cell of the board, as `neighbour_of` gives it, lies on
/// the board next to that cell.
pub proof fn lemma_neighbour_adjacent(x: u8, y: u8, direction: int)
    requires
        in_bounds(x, y),
        neighbour_of(x, y, direction) is Some,
    ensures
        match neighbour_of(x, y, direction) {
            Some((nx, ny)) => in_bounds(nx, ny) && adjacent(cell_index(nx, ny), cell_index(x, y)),
            None => true,
        },
{
    lemma_cell_coords(x, y);
    let cell = neighbour_of(x, y, direction)->0;
    lemma_cell_coords(cell.0, cell.1);
}

proof fn lemma_chain_on_other_board(first: u128, second: u128, path: Seq<int>)
    requires
        is_chain(first, path),
        forall|i: int|
            0 <= i < path.len() ==> cell_value(second, #[trigger] path[i]) == cell_value(
                first,
                path[i],
            ),
    ensures
        is_chain(second, path),
{
    assert(cell_value(second, path[0]) == cell_value(first, path[0]));
}

/// A stone put on an empty cell next to a group of another colour leaves
/// that group as it was and takes exactly that cell from its liberties.
pub proof fn lemma_stone_takes_liberty(board: u128, x: u8, y: u8, stone: u8, nx: u8, ny: u8)
    requires
        in_bounds(x, y),
        in_bounds(nx, ny),
        adjacent(cell_index(nx, ny), cell_index(x, y)),
        stone_at(board, x, y) == 0,
        1 <= stone <= 3,
        stone_at(board, nx, ny) != 0,
        stone_at(board, nx, ny) != stone,
    ensures
        group(place(board, x, y, stone), cell_index(nx, ny)) == group(board, cell_index(nx, ny)),
        liberty_cells(place(board, x, y, stone), cell_index(nx, ny)) == liberty_cells(
            board,
            cell_index(nx, ny),
        ).remove(cell_index(x, y)),
        liberties(place(board, x, y, stone), nx, ny) + 1 == liberties(board, nx, ny),
{
    let p = cell_index(x, y);
    let n = cell_index(nx, ny);
    let after = place(board, x, y, stone);
    lemma_cell_coords(x, y);
    lemma_cell_coords(nx, ny);
    lemma_cell_put_same(board, p, stone);
    assert forall|q: int| q != p implies cell_value(after, q) == cell_value(board, q) by {
        lemma_cell_put_other(board, p, stone, q);
    }
    assert forall|q: int| connected(after, n, q) == connected(board, n, q) by {
        if connected(board, n, q) {
            let path = choose|path: Seq<int>| #[trigger]
                is_chain(board, path) && path[0] == n && path.last() == q;
            lemma_chain_on_other_board(board, after, path);
        }
        if connected(after, n, q) {
            let path = choose|path: Seq<int>| #[trigger]
                is_chain(after, path) && path[0] == n && path.last() == q;
            lemma_chain_on_other_board(after, board, path);
        }
    }
    assert(group(after, n) =~= group(board, n));
    lemma_connected_self(board, n);
    assert(is_liberty(board, n, p)) by {
        assert(connected(board, n, n) && adjacent(n, p));
    }
    assert forall|e: int| liberty_cells(after, n).contains(e) == liberty_cells(board, n).remove(
        p,
    ).contains(e) by {
        if is_liberty(after, n, e) {
            let q = choose|q: int| #[trigger] connected(after, n, q) && adjacent(q, e);
            assert(connected(board, n, q) && adjacent(q, e));
        }
        if is_liberty(board, n, e) && e != p {
            let q = choose|q: int| #[trigger] connected(board, n, q) && adjacent(q, e);
            assert(connected(after, n, q) && adjacent(q, e));
        }
    }
    assert(liberty_cells(after, n) =~= liberty_cells(board, n).remove(p));
    lemma_subset_of_grid(liberty_cells(board, n));
}

/// The neighbour of `(x, y)` in `direction` holds a stone of the other
/// colour whose group has no liberty left once a stone of `stone_color`
/// stands on `(x, y)`.
pub open spec fn smothers_toward(
    board: u128,
    x: u8,
    y: u8,
    stone_color: u8,
    direction: int,
) -> bool {
    match neighbour_of(x, y, direction) {
        Some((nx, ny)) => stone_at(board, nx, ny) == opponent_of(stone_color) && liberties(
            place(board, x, y, stone_color),
            nx,
            ny,
        ) == 0,
        None => false,
    }
}

/// A move captures exactly where the stone leaves a neighbouring group of the
/// other colour without liberties: such a group had the cell of the move as
/// its only liberty.
pub proof fn lemma_capture_takes_last_liberty(
    board: u128,
    x: u8,
    y: u8,
    stone_color: u8,
    direction: int,
)
    requires
        in_bounds(x, y),
        stone_at(board, x, y) == 0,
        stone_color == 1 || stone_color == 2,
    ensures
        in_atari_toward(board, x, y, stone_color, direction) == smothers_toward(
            board,
            x,
            y,
            stone_color,
            direction,
        ),
{
    match neighbour_of(x, y, direction) {
        Some((nx, ny)) => {
            if stone_at(board, nx, ny) == opponent_of(stone_color) {
                lemma_neighbour_adjacent(x, y, direction);
                lemma_stone_takes_liberty(board, x, y, stone_color, nx, ny);
            }
        },
        None => {},
    }
}

/// Capture goes before suicide. On an empty cell of the board that is not the
/// ko point, a stone whose own group would have no liberty is allowed exactly
/// where it leaves some neighbouring group of the other colour without
/// liberties; a stone whose group keeps a liberty is always allowed there.
pub proof fn lemma_capture_before_suicide(
    board: u128,
    last_x: u8,
    last_y: u8,
    x: u8,
    y: u8,
    stone_color: u8,
)
    requires
        in_bounds(x, y),
        stone_at(board, x, y) == 0,
        !ko_violation(last_x, last_y, x, y),
        stone_color == 1 || stone_color == 2,
    ensures
        liberties(place(board, x, y, stone_color), x, y) > 0 ==> legal(
            board,
            last_x,
            last_y,
            x,
            y,
            stone_color,
        ),
        liberties(place(board, x, y, stone_color), x, y) == 0 ==> (legal(
            board,
            last_x,
            last_y,
            x,
            y,
            stone_color,
        ) <==> (smothers_toward(board, x, y, stone_color, 0) || smothers_toward(
            board,
            x,
            y,
            stone_color,
            1,
        ) || smothers_toward(board, x, y, stone_color, 2) || smothers_toward(
            board,
            x,
            y,
            stone_color,
            3,
        ))),
{
    lemma_capture_takes_last_liberty(board, x, y, stone_color, 0);
    lemma_capture_takes_last_liberty(board, x, y, stone_color, 1);
    lemma_capture_takes_last_liberty(board, x, y, stone_color, 2);
    lemma_capture_takes_last_liberty(board, x, y, stone_color, 3);
}


/// Capturing leaves the reserved bits of the board as they were.
pub proof fn lemma_captured_keeps_reserved(board: u128, x: u8, y: u8, stone_color: u8, steps: int)
    ensures
        reserved_bits(captured_after(board, x, y, stone_color, steps).board) == reserved_bits(
            board,
        ),
    decreases steps,
{
    if steps > 0 {
        lemma_captured_keeps_reserved(board, x, y, stone_color, steps - 1);
        let so_far = captured_after(board, x, y, stone_color, steps - 1);
        match neighbour_of(x, y, steps - 1) {
            Some((nx, ny)) => {
                lemma_cleared_cells(so_far.board, group(so_far.board, cell_index(nx, ny)), 49, 0);
            },
            None => {},
        }
    }
}

} // verus!
