//! Every group on the board has a liberty, and moves keep it so.
//!
//! A board is sound where each cell holds 0, 1 or 2 and every stone belongs
//! to a group with at least one liberty. An empty board is sound, and a move
//! that the rules allow, followed by its captures, leaves a sound board
//! sound: the groups that the stone has smothered are taken off, and the
//! stone's own group keeps a liberty or gains one from what was taken.

use vstd::prelude::*;
use crate::board::{
    cell_index, cell_value, in_bounds, on_grid, place, stone_at, lemma_cell_put_other,
    lemma_cell_put_same,
};
use crate::capture::{
    captured_stones, falls_toward, lemma_captures, lemma_connected_back, lemma_fallen_is_groups,
    lemma_group_outlives_captures, lemma_legal_move_breathes, neighbour_cell,
};
use crate::group::{
    adjacent, connected, group, is_chain, is_liberty, liberties, liberty_cells,
    lemma_adjacent_offsets, lemma_cell_coords, lemma_connected_colour, lemma_connected_self,
    lemma_connected_step, lemma_subset_of_grid,
};
use crate::rules::{captured, legal, neighbour_of, opponent_of};

verus! {

/// The stone at cell `p` belongs to a group with a liberty.
pub open spec fn alive(board: u128, p: int) -> bool {
    exists|e: int| #[trigger] is_liberty(board, p, e)
}

/// Each cell of `board` holds 0, 1 or 2, and every stone on it belongs to a
/// group with at least one liberty.
pub open spec fn sound(board: u128) -> bool {
    forall|p: int|
        on_grid(p) ==> #[trigger] cell_value(board, p) <= 2 && (cell_value(board, p) != 0
            ==> alive(board, p))
}

proof fn lemma_chain_reaches(board: u128, p: int, path: Seq<int>, i: int)
    requires
        connected(board, p, path[0]),
        is_chain(board, path),
        0 <= i < path.len(),
    ensures
        connected(board, p, path[i]),
    decreases i,
{
    if i > 0 {
        lemma_chain_reaches(board, p, path, i - 1);
        lemma_connected_colour(board, p, path[0]);
        assert(cell_value(board, path[i]) == cell_value(board, path[0]));
        assert(adjacent(path[i - 1], path[i]));
        lemma_connected_step(board, p, path[i - 1], path[i]);
    }
}

/// Connection carries on: what is connected to a connected stone is
/// connected.
pub proof fn lemma_connected_on(board: u128, p: int, q: int, r: int)
    requires
        connected(board, p, q),
        connected(board, q, r),
    ensures
        connected(board, p, r),
{
    let path = choose|path: Seq<int>| #[trigger]
        is_chain(board, path) && path[0] == q && path.last() == r;
    lemma_chain_reaches(board, p, path, path.len() - 1);
}

/// Connected stones have the same group and the same liberties.
pub proof fn lemma_same_group(board: u128, p: int, q: int)
    requires
        connected(board, p, q),
    ensures
        group(board, q) == group(board, p),
        liberty_cells(board, q) == liberty_cells(board, p),
        alive(board, q) == alive(board, p),
{
    lemma_connected_back(board, p, q);
    assert forall|r: int| connected(board, q, r) == connected(board, p, r) by {
        if connected(board, q, r) {
            lemma_connected_on(board, p, q, r);
        }
        if connected(board, p, r) {
            lemma_connected_on(board, q, p, r);
        }
    }
    assert(group(board, q) =~= group(board, p));
    assert forall|e: int| is_liberty(board, q, e) == is_liberty(board, p, e) by {
        if is_liberty(board, q, e) {
            let g = choose|g: int| #[trigger] connected(board, q, g) && adjacent(g, e);
            assert(connected(board, p, g) && adjacent(g, e));
        }
        if is_liberty(board, p, e) {
            let g = choose|g: int| #[trigger] connected(board, p, g) && adjacent(g, e);
            assert(connected(board, q, g) && adjacent(g, e));
        }
    }
    assert(liberty_cells(board, q) =~= liberty_cells(board, p));
    if alive(board, q) {
        let e = choose|e: int| #[trigger] is_liberty(board, q, e);
        assert(is_liberty(board, p, e));
    }
    if alive(board, p) {
        let e = choose|e: int| #[trigger] is_liberty(board, p, e);
        assert(is_liberty(board, q, e));
    }
}

/// A stone has liberties in number exactly where it is alive.
pub proof fn lemma_alive_counts(board: u128, x: u8, y: u8)
    requires
        in_bounds(x, y),
    ensures
        alive(board, cell_index(x, y)) == (liberties(board, x, y) > 0),
{
    let p = cell_index(x, y);
    let cells = liberty_cells(board, p);
    lemma_subset_of_grid(cells);
    vstd::set_lib::lemma_set_empty_equivalency_len(cells);
    if alive(board, p) {
        let e = choose|e: int| #[trigger] is_liberty(board, p, e);
        assert(cells.contains(e));
    }
    if cells.len() > 0 {
        let e = choose|e: int| cells.contains(e);
        assert(is_liberty(board, p, e));
    }
}

/// Chains of stones that a change of the board leaves untouched are chains
/// on the changed board.
proof fn lemma_connected_carries(first: u128, second: u128, p: int, q: int)
    requires
        connected(first, p, q),
        forall|r: int|
            cell_value(first, r) == cell_value(first, p) ==> #[trigger] cell_value(second, r)
                == cell_value(first, r),
    ensures
        connected(second, p, q),
{
    let path = choose|path: Seq<int>| #[trigger]
        is_chain(first, path) && path[0] == p && path.last() == q;
    assert forall|i: int| 0 <= i < path.len() implies on_grid(#[trigger] path[i]) && cell_value(
        second,
        path[i],
    ) == cell_value(second, path[0]) by {
        assert(cell_value(first, path[i]) == cell_value(first, path[0]));
        assert(cell_value(second, path[i]) == cell_value(first, path[i]));
        assert(cell_value(second, path[0]) == cell_value(first, path[0]));
    }
    assert(cell_value(second, path[0]) == cell_value(first, path[0]));
    assert(is_chain(second, path));
}

/// A board without stones is sound.
pub proof fn lemma_empty_board_is_sound(board: u128)
    requires
        forall|p: int| on_grid(p) ==> #[trigger] cell_value(board, p) == 0,
    ensures
        sound(board),
{
}

/// A sound board always has an empty cell: were every cell occupied, no
/// group would have a liberty.
pub proof fn lemma_sound_board_has_room(board: u128)
    requires
        sound(board),
    ensures
        exists|x: u8, y: u8| in_bounds(x, y) && #[trigger] stone_at(board, x, y) == 0,
{
    if cell_value(board, 0) == 0 {
        assert(in_bounds(0, 0) && stone_at(board, 0, 0) == 0);
    } else {
        assert(alive(board, 0));
        let e = choose|e: int| #[trigger] is_liberty(board, 0, e);
        let x = (e % 7) as u8;
        let y = (e / 7) as u8;
        assert(cell_index(x, y) == e);
        assert(in_bounds(x, y) && stone_at(board, x, y) == 0);
    }
}

/// A move that the rules allow, with its captures, keeps the board sound:
/// afterwards every stone on the board again belongs to a group with a
/// liberty.
pub proof fn lemma_move_keeps_board_sound(
    board: u128,
    last_x: u8,
    last_y: u8,
    x: u8,
    y: u8,
    stone_color: u8,
)
    requires
        sound(board),
        legal(board, last_x, last_y, x, y, stone_color),
        stone_color == 1 || stone_color == 2,
    ensures
        sound(captured(place(board, x, y, stone_color), x, y, stone_color).board),
{
    let p = cell_index(x, y);
    let opponent = opponent_of(stone_color);
    let placed = place(board, x, y, stone_color);
    let after = captured(placed, x, y, stone_color).board;
    let taken = captured_stones(placed, x, y, stone_color);
    lemma_cell_coords(x, y);
    lemma_cell_put_same(board, p, stone_color);
    assert forall|q: int| q != p implies cell_value(placed, q) == cell_value(board, q) by {
        lemma_cell_put_other(board, p, stone_color, q);
    }
    lemma_captures(placed, x, y, stone_color);
    lemma_fallen_is_groups(placed, x, y, stone_color, 4);
    lemma_legal_move_breathes(board, last_x, last_y, x, y, stone_color);
    lemma_alive_counts(after, x, y);
    assert forall|q: int| on_grid(q) implies #[trigger] cell_value(after, q) <= 2 && (cell_value(
        after,
        q,
    ) != 0 ==> alive(after, q)) by {
        assert(cell_value(after, q) == if taken.contains(q) {
            0
        } else {
            cell_value(placed, q)
        });
        assert(cell_value(board, q) <= 2);
        if cell_value(after, q) != 0 {
            if cell_value(after, q) == opponent {
                lemma_other_colour_stays_alive(board, x, y, stone_color, q);
            } else {
                lemma_own_colour_stays_alive(board, x, y, stone_color, q);
            }
        }
    }
}

proof fn lemma_other_colour_stays_alive(board: u128, x: u8, y: u8, stone_color: u8, q: int)
    requires
        sound(board),
        in_bounds(x, y),
        stone_at(board, x, y) == 0,
        stone_color == 1 || stone_color == 2,
        on_grid(q),
        cell_value(board, q) == opponent_of(stone_color),
        !captured_stones(place(board, x, y, stone_color), x, y, stone_color).contains(q),
    ensures
        alive(captured(place(board, x, y, stone_color), x, y, stone_color).board, q),
{
    let p = cell_index(x, y);
    let opponent = opponent_of(stone_color);
    let placed = place(board, x, y, stone_color);
    let after = captured(placed, x, y, stone_color).board;
    let taken = captured_stones(placed, x, y, stone_color);
    lemma_cell_coords(x, y);
    lemma_cell_put_same(board, p, stone_color);
    assert forall|r: int| r != p implies cell_value(placed, r) == cell_value(board, r) by {
        lemma_cell_put_other(board, p, stone_color, r);
    }
    lemma_captures(placed, x, y, stone_color);
    lemma_fallen_is_groups(placed, x, y, stone_color, 4);
    assert(cell_value(placed, q) == opponent);
    lemma_group_outlives_captures(placed, after, taken, q);
    // a liberty on the board before the move
    assert(alive(board, q));
    let e = choose|e: int| #[trigger] is_liberty(board, q, e);
    let g = choose|g: int| #[trigger] connected(board, q, g) && adjacent(g, e);
    assert forall|r: int|
        cell_value(board, r) == cell_value(board, q) implies #[trigger] cell_value(placed, r)
        == cell_value(board, r) by {}
    lemma_connected_carries(board, placed, q, g);
    if e != p {
        assert(is_liberty(placed, q, e)) by {
            assert(connected(placed, q, g) && adjacent(g, e));
        }
        assert(liberty_cells(after, q).contains(e));
        assert(is_liberty(after, q, e));
    } else {
        // the stone took this liberty: it stands next to `g`
        lemma_connected_colour(board, q, g);
        lemma_adjacent_offsets(g, p);
        let d: int = if g == p + 1 {
            0
        } else if g == p + 7 {
            1
        } else if g == p - 1 {
            2
        } else {
            3
        };
        assert(neighbour_of(x, y, d) is Some && neighbour_cell(x, y, d) == g);
        let cell = neighbour_of(x, y, d)->0;
        lemma_same_group(placed, q, g);
        lemma_connected_back(placed, q, g);
        lemma_alive_counts(placed, cell.0, cell.1);
        if !alive(placed, q) {
            assert(falls_toward(placed, x, y, stone_color, d, q));
            assert(taken.contains(q));
        }
        let other = choose|other: int| #[trigger] is_liberty(placed, q, other);
        assert(liberty_cells(after, q).contains(other));
        assert(is_liberty(after, q, other));
    }
}

proof fn lemma_own_colour_stays_alive(board: u128, x: u8, y: u8, stone_color: u8, q: int)
    requires
        sound(board),
        in_bounds(x, y),
        stone_at(board, x, y) == 0,
        stone_color == 1 || stone_color == 2,
        on_grid(q),
        cell_value(place(board, x, y, stone_color), q) == stone_color,
        alive(
            captured(place(board, x, y, stone_color), x, y, stone_color).board,
            cell_index(x, y),
        ),
    ensures
        alive(captured(place(board, x, y, stone_color), x, y, stone_color).board, q),
{
    let p = cell_index(x, y);
    let placed = place(board, x, y, stone_color);
    let after = captured(placed, x, y, stone_color).board;
    let taken = captured_stones(placed, x, y, stone_color);
    lemma_cell_coords(x, y);
    lemma_cell_put_same(board, p, stone_color);
    assert forall|r: int| r != p implies cell_value(placed, r) == cell_value(board, r) by {
        lemma_cell_put_other(board, p, stone_color, r);
    }
    lemma_captures(placed, x, y, stone_color);
    lemma_fallen_is_groups(placed, x, y, stone_color, 4);
    assert forall|r: int|
        cell_value(placed, r) == stone_color implies #[trigger] cell_value(after, r)
        == cell_value(placed, r) by {
        assert(cell_value(after, r) == if taken.contains(r) {
            0
        } else {
            cell_value(placed, r)
        });
    }
    if q != p {
        assert(alive(board, q));
        let e = choose|e: int| #[trigger] is_liberty(board, q, e);
        let g = choose|g: int| #[trigger] connected(board, q, g) && adjacent(g, e);
        lemma_connected_colour(board, q, g);
        assert forall|r: int|
            cell_value(board, r) == cell_value(board, q) implies #[trigger] cell_value(placed, r)
            == cell_value(board, r) by {}
        lemma_connected_carries(board, placed, q, g);
        assert forall|r: int|
            cell_value(placed, r) == cell_value(placed, q) implies #[trigger] cell_value(
            after,
            r,
        ) == cell_value(placed, r) by {}
        lemma_connected_carries(placed, after, q, g);
        if e != p {
            assert(cell_value(after, e) == if taken.contains(e) {
                0
            } else {
                cell_value(placed, e)
            });
            assert(is_liberty(after, q, e)) by {
                assert(connected(after, q, g) && adjacent(g, e));
            }
        } else {
            // the stone joined this group
            lemma_connected_self(after, g);
            lemma_connected_step(after, g, g, p);
            lemma_connected_on(after, q, g, p);
            lemma_same_group(after, q, p);
        }
    }
}

} // verus!
