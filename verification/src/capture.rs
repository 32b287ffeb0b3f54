//! What a move takes off the board, said all at once.
//!
//! The stone just placed is handled neighbour by neighbour, each on the board
//! that the ones before it left. The outcome does not depend on that order:
//! the stones taken are those of every neighbouring group of the other colour
//! that has no liberty on the board as it stands right after the stone went
//! down.

use vstd::prelude::*;
use crate::board::{
    cell_index, cell_value, in_bounds, on_grid, place, reserved_bits, stone_at,
    lemma_cell_put_other, lemma_cell_put_same,
};
use crate::errors::GameError;
use crate::group::{
    adjacent, connected, group, group_size, is_chain, is_liberty, liberties, liberty_cells,
    lemma_adjacent_offsets, lemma_cell_coords, lemma_cleared_cells, lemma_closed_set_holds_group,
    lemma_connected_colour, lemma_connected_self, lemma_connected_step, lemma_subset_of_grid,
};
use crate::rules::{
    captured, captured_after, in_atari_toward, legal, neighbour_of, opponent_of, ruling,
    would_capture, lemma_capture_takes_last_liberty, lemma_neighbour_adjacent,
};

verus! {

/// The neighbour of `(x, y)` in `direction` holds a stone of the other colour
/// whose group has no liberty on `board`, and `q` is a stone of that group.
pub open spec fn falls_toward(
    board: u128,
    x: u8,
    y: u8,
    stone_color: u8,
    direction: int,
    q: int,
) -> bool {
    match neighbour_of(x, y, direction) {
        Some((nx, ny)) => stone_at(board, nx, ny) == opponent_of(stone_color) && liberties(
            board,
            nx,
            ny,
        ) == 0 && connected(board, cell_index(nx, ny), q),
        None => false,
    }
}

/// The stones that fall to a stone of `stone_color` at `(x, y)`, looking at
/// the first `steps` of its neighbours only.
pub open spec fn fallen(board: u128, x: u8, y: u8, stone_color: u8, steps: int) -> Set<int> {
    Set::new(
        |q: int|
            exists|d: int|
                0 <= d < steps && #[trigger] falls_toward(board, x, y, stone_color, d, q),
    )
}

/// The neighbour of `(x, y)` in `direction` is a single stone of the other
/// colour without a liberty on `board`.
pub open spec fn lone_capture_toward(
    board: u128,
    x: u8,
    y: u8,
    stone_color: u8,
    direction: int,
) -> bool {
    match neighbour_of(x, y, direction) {
        Some((nx, ny)) => stone_at(board, nx, ny) == opponent_of(stone_color) && liberties(
            board,
            nx,
            ny,
        ) == 0 && group_size(board, nx, ny) == 1,
        None => false,
    }
}

/// The ko point after a stone of `stone_color` at `(x, y)`, looking at the
/// first `steps` of its neighbours only: the last of them that is a single
/// stone of the other colour without a liberty, and `(0, 0)` where there is
/// none.
pub open spec fn ko_point(board: u128, x: u8, y: u8, stone_color: u8, steps: int) -> (u8, u8)
    decreases steps,
{
    if steps <= 0 {
        (0, 0)
    } else if lone_capture_toward(board, x, y, stone_color, steps - 1) {
        neighbour_of(x, y, steps - 1)->0
    } else {
        ko_point(board, x, y, stone_color, steps - 1)
    }
}

/// Connection goes both ways.
pub proof fn lemma_connected_back(board: u128, p: int, q: int)
    requires
        connected(board, p, q),
    ensures
        connected(board, q, p),
{
    let path = choose|path: Seq<int>| #[trigger]
        is_chain(board, path) && path[0] == p && path.last() == q;
    let back = path.reverse();
    assert(back[0] == path[path.len() - 1]);
    assert(on_grid(path[path.len() - 1]));
    assert forall|i: int| 0 <= i < back.len() implies on_grid(#[trigger] back[i]) && cell_value(
        board,
        back[i],
    ) == cell_value(board, back[0]) by {
        assert(back[i] == path[path.len() - 1 - i]);
    }
    assert forall|i: int| 0 < i < back.len() implies adjacent(back[i - 1], #[trigger] back[i]) by {
        assert(back[i] == path[path.len() - 1 - i]);
        assert(back[i - 1] == path[path.len() - i]);
        lemma_adjacent_offsets(path[path.len() - 1 - i], path[path.len() - i]);
    }
    assert(is_chain(board, back));
    assert(back[0] == q && back.last() == p);
}

/// The fallen stones are whole groups of the other colour.
pub proof fn lemma_fallen_is_groups(board: u128, x: u8, y: u8, stone_color: u8, steps: int)
    ensures
        forall|q: int| #[trigger]
            fallen(board, x, y, stone_color, steps).contains(q) ==> on_grid(q) && cell_value(
                board,
                q,
            ) == opponent_of(stone_color),
        forall|q: int, r: int|
            fallen(board, x, y, stone_color, steps).contains(q) && #[trigger] adjacent(q, r)
                && cell_value(board, r) == opponent_of(stone_color) ==> fallen(
                board,
                x,
                y,
                stone_color,
                steps,
            ).contains(r),
        fallen(board, x, y, stone_color, steps).finite(),
{
    let taken = fallen(board, x, y, stone_color, steps);
    assert forall|q: int| #[trigger] taken.contains(q) implies on_grid(q) && cell_value(board, q)
        == opponent_of(stone_color) by {
        let d = choose|d: int|
            0 <= d < steps && #[trigger] falls_toward(board, x, y, stone_color, d, q);
        let cell = neighbour_of(x, y, d)->0;
        lemma_connected_colour(board, cell_index(cell.0, cell.1), q);
    }
    assert forall|q: int, r: int|
        taken.contains(q) && #[trigger] adjacent(q, r) && cell_value(board, r) == opponent_of(
            stone_color,
        ) implies taken.contains(r) by {
        let d = choose|d: int|
            0 <= d < steps && #[trigger] falls_toward(board, x, y, stone_color, d, q);
        let cell = neighbour_of(x, y, d)->0;
        let n = cell_index(cell.0, cell.1);
        lemma_connected_colour(board, n, q);
        lemma_connected_step(board, n, q, r);
        assert(falls_toward(board, x, y, stone_color, d, r));
    }
    lemma_subset_of_grid(taken);
}

proof fn lemma_chain_avoids(board: u128, path: Seq<int>, taken: Set<int>, i: int)
    requires
        is_chain(board, path),
        !taken.contains(path[0]),
        forall|q: int, r: int|
            taken.contains(q) && #[trigger] adjacent(q, r) && cell_value(board, r) == cell_value(
                board,
                path[0],
            ) ==> taken.contains(r),
        0 <= i < path.len(),
    ensures
        !taken.contains(path[i]),
    decreases i,
{
    if i > 0 {
        lemma_chain_avoids(board, path, taken, i - 1);
        assert(adjacent(path[i - 1], path[i]));
        lemma_adjacent_offsets(path[i - 1], path[i]);
        assert(cell_value(board, path[i - 1]) == cell_value(board, path[0]));
    }
}

/// Taking whole groups of one colour off the board changes neither the group
/// nor the liberties of a stone of that colour that stays.
pub proof fn lemma_group_outlives_captures(before: u128, after: u128, taken: Set<int>, n: int)
    requires
        on_grid(n),
        cell_value(before, n) != 0,
        !taken.contains(n),
        forall|q: int|
            cell_value(after, q) == if taken.contains(q) {
                0
            } else {
                #[trigger] cell_value(before, q)
            },
        forall|q: int| #[trigger]
            taken.contains(q) ==> on_grid(q) && cell_value(before, q) == cell_value(before, n),
        forall|q: int, r: int|
            taken.contains(q) && #[trigger] adjacent(q, r) && cell_value(before, r) == cell_value(
                before,
                n,
            ) ==> taken.contains(r),
    ensures
        group(after, n) == group(before, n),
        liberty_cells(after, n) == liberty_cells(before, n),
        forall|q: int| group(before, n).contains(q) ==> !taken.contains(q),
{
    assert forall|q: int| group(before, n).contains(q) implies !taken.contains(q) by {
        let path = choose|path: Seq<int>| #[trigger]
            is_chain(before, path) && path[0] == n && path.last() == q;
        lemma_chain_avoids(before, path, taken, path.len() - 1);
    }
    assert forall|q: int| connected(after, n, q) == connected(before, n, q) by {
        if connected(before, n, q) {
            let path = choose|path: Seq<int>| #[trigger]
                is_chain(before, path) && path[0] == n && path.last() == q;
            assert forall|i: int| 0 <= i < path.len() implies cell_value(after, #[trigger] path[i])
                == cell_value(before, path[i]) by {
                lemma_chain_avoids(before, path, taken, i);
            }
            assert(cell_value(after, path[0]) == cell_value(before, path[0]));
            assert(is_chain(after, path));
        }
        if connected(after, n, q) {
            let path = choose|path: Seq<int>| #[trigger]
                is_chain(after, path) && path[0] == n && path.last() == q;
            assert(cell_value(after, path[0]) == cell_value(before, path[0]));
            assert forall|i: int| 0 <= i < path.len() implies cell_value(
                before,
                #[trigger] path[i],
            ) == cell_value(after, path[i]) by {
                assert(cell_value(after, path[i]) == cell_value(after, path[0]));
            }
            assert(is_chain(before, path));
        }
    }
    assert(group(after, n) =~= group(before, n));
    assert forall|e: int| is_liberty(after, n, e) == is_liberty(before, n, e) by {
        if is_liberty(after, n, e) {
            let g = choose|g: int| #[trigger] connected(after, n, g) && adjacent(g, e);
            assert(connected(before, n, g));
            lemma_connected_colour(before, n, g);
            if taken.contains(e) {
                lemma_adjacent_offsets(g, e);
                assert(adjacent(e, g));
                assert(taken.contains(g));
                assert(group(before, n).contains(g));
            }
        }
        if is_liberty(before, n, e) {
            let g = choose|g: int| #[trigger] connected(before, n, g) && adjacent(g, e);
            assert(connected(after, n, g));
        }
    }
    assert(liberty_cells(after, n) =~= liberty_cells(before, n));
}

/// Number of the cell next to `(x, y)` in `direction`; -1 where that cell
/// lies off the board.
pub open spec fn neighbour_cell(x: u8, y: u8, direction: int) -> int {
    match neighbour_of(x, y, direction) {
        Some((nx, ny)) => cell_index(nx, ny),
        None => -1,
    }
}

/// The neighbours of a cell in two different directions are different cells.
pub proof fn lemma_neighbours_differ(x: u8, y: u8, first: int, second: int)
    requires
        first != second,
        neighbour_of(x, y, first) is Some,
        neighbour_of(x, y, second) is Some,
    ensures
        neighbour_cell(x, y, first) != neighbour_cell(x, y, second),
        on_grid(neighbour_cell(x, y, first)),
{
}


proof fn lemma_fallen_without_step(board: u128, x: u8, y: u8, stone_color: u8, k: int)
    requires
        k >= 0,
        forall|q: int| #[trigger]
            falls_toward(board, x, y, stone_color, k, q) ==> fallen(
                board,
                x,
                y,
                stone_color,
                k,
            ).contains(q),
    ensures
        fallen(board, x, y, stone_color, k + 1) == fallen(board, x, y, stone_color, k),
{
    let more = fallen(board, x, y, stone_color, k + 1);
    let less = fallen(board, x, y, stone_color, k);
    assert forall|q: int| more.contains(q) == less.contains(q) by {
        if more.contains(q) {
            let d = choose|d: int|
                0 <= d < k + 1 && #[trigger] falls_toward(board, x, y, stone_color, d, q);
            if d == k {
                assert(less.contains(q));
            } else {
                assert(0 <= d < k && falls_toward(board, x, y, stone_color, d, q));
            }
        }
        if less.contains(q) {
            let d = choose|d: int|
                0 <= d < k && #[trigger] falls_toward(board, x, y, stone_color, d, q);
            assert(0 <= d < k + 1 && falls_toward(board, x, y, stone_color, d, q));
        }
    }
    assert(more =~= less);
}

proof fn lemma_fallen_with_step(board: u128, x: u8, y: u8, stone_color: u8, k: int, n: int)
    requires
        k >= 0,
        forall|q: int| #[trigger]
            falls_toward(board, x, y, stone_color, k, q) == connected(board, n, q),
    ensures
        fallen(board, x, y, stone_color, k + 1) == fallen(board, x, y, stone_color, k).union(
            group(board, n),
        ),
{
    let more = fallen(board, x, y, stone_color, k + 1);
    let less = fallen(board, x, y, stone_color, k);
    assert forall|q: int| more.contains(q) == (less.contains(q) || group(board, n).contains(
        q,
    )) by {
        if more.contains(q) {
            let d = choose|d: int|
                0 <= d < k + 1 && #[trigger] falls_toward(board, x, y, stone_color, d, q);
            if d != k {
                assert(0 <= d < k && falls_toward(board, x, y, stone_color, d, q));
            }
        }
        if less.contains(q) {
            let d = choose|d: int|
                0 <= d < k && #[trigger] falls_toward(board, x, y, stone_color, d, q);
            assert(0 <= d < k + 1 && falls_toward(board, x, y, stone_color, d, q));
        }
        if group(board, n).contains(q) {
            assert(falls_toward(board, x, y, stone_color, k, q));
        }
    }
    assert(more =~= less.union(group(board, n)));
}

/// A group of one stone holds no second stone.
proof fn lemma_single_stone_group(board: u128, n: int, other: int)
    requires
        group(board, n).len() == 1,
        group(board, n).contains(n),
        group(board, n).contains(other),
    ensures
        other == n,
{
    let stones = group(board, n);
    lemma_subset_of_grid_group(board, n);
    if other != n {
        assert(stones.remove(n).contains(other));
        assert(stones.remove(n).len() == 0);
    }
}

proof fn lemma_subset_of_grid_group(board: u128, n: int)
    ensures
        group(board, n).finite(),
        group(board, n).len() <= 49,
{
    assert forall|q: int| #[trigger] group(board, n).contains(q) implies on_grid(q) by {
        lemma_connected_colour(board, n, q);
    }
    lemma_subset_of_grid(group(board, n));
}

/// The captures of a move do not depend on the order in which its neighbours
/// are handled. After the first `steps` neighbours, the board has lost
/// exactly the stones of those neighbouring groups of the other colour that
/// had no liberty on the board as it was given; every other cell and the
/// reserved bits are as they were; the count is the number of those stones;
/// and the ko point is the last neighbour that was such a group of one stone.
pub proof fn lemma_captured_at_once(board: u128, x: u8, y: u8, stone_color: u8, steps: int)
    requires
        0 <= steps <= 4,
    ensures
        forall|q: int| #[trigger]
            cell_value(captured_after(board, x, y, stone_color, steps).board, q) == if fallen(
                board,
                x,
                y,
                stone_color,
                steps,
            ).contains(q) {
                0
            } else {
                cell_value(board, q)
            },
        reserved_bits(captured_after(board, x, y, stone_color, steps).board) == reserved_bits(
            board,
        ),
        captured_after(board, x, y, stone_color, steps).count == fallen(
            board,
            x,
            y,
            stone_color,
            steps,
        ).len(),
        (
            captured_after(board, x, y, stone_color, steps).ko_x,
            captured_after(board, x, y, stone_color, steps).ko_y,
        ) == ko_point(board, x, y, stone_color, steps),
    decreases steps,
{
    let opponent = opponent_of(stone_color);
    if steps == 0 {
        assert(fallen(board, x, y, stone_color, 0) =~= Set::<int>::empty());
    } else {
        let k = steps - 1;
        lemma_captured_at_once(board, x, y, stone_color, k);
        lemma_fallen_is_groups(board, x, y, stone_color, k);
        let so_far = captured_after(board, x, y, stone_color, k);
        let result = captured_after(board, x, y, stone_color, steps);
        let taken = fallen(board, x, y, stone_color, k);
        match neighbour_of(x, y, k) {
            None => {
                lemma_fallen_without_step(board, x, y, stone_color, k);
            },
            Some((nx, ny)) => {
                let n = cell_index(nx, ny);
                lemma_cell_coords(nx, ny);
                let stones = group(board, n);
                lemma_subset_of_grid_group(board, n);
                assert(cell_value(so_far.board, n) == if taken.contains(n) {
                    0
                } else {
                    cell_value(board, n)
                });
                if taken.contains(n) {
                    // an earlier neighbour has taken this group already
                    lemma_closed_set_holds_group(board, n, taken);
                    lemma_fallen_without_step(board, x, y, stone_color, k);
                    if lone_capture_toward(board, x, y, stone_color, k) {
                        let d = choose|d: int|
                            0 <= d < k && #[trigger] falls_toward(board, x, y, stone_color, d, n);
                        let first = neighbour_cell(x, y, d);
                        lemma_neighbours_differ(x, y, d, k);
                        lemma_connected_back(board, first, n);
                        lemma_connected_self(board, n);
                        lemma_single_stone_group(board, n, first);
                    }
                } else if cell_value(board, n) == opponent {
                    lemma_group_outlives_captures(board, so_far.board, taken, n);
                    if liberties(board, nx, ny) == 0 {
                        let gone = group(so_far.board, n);
                        assert(gone == stones);
                        lemma_fallen_with_step(board, x, y, stone_color, k, n);
                        assert forall|q: int| #[trigger]
                            cell_value(result.board, q) == if taken.union(stones).contains(q) {
                                0
                            } else {
                                cell_value(board, q)
                            } by {
                            lemma_cleared_cells(so_far.board, gone, 49, q);
                            if stones.contains(q) {
                                lemma_connected_colour(board, n, q);
                            }
                        }
                        lemma_cleared_cells(so_far.board, gone, 49, 0);
                        assert(taken.disjoint(stones));
                        vstd::set_lib::lemma_set_disjoint_lens(taken, stones);
                    } else {
                        lemma_fallen_without_step(board, x, y, stone_color, k);
                    }
                } else {
                    lemma_fallen_without_step(board, x, y, stone_color, k);
                }
            },
        }
    }
}

/// The stones that a stone of `stone_color` just placed at `(x, y)` takes:
/// those of every neighbouring group of the other colour without a liberty.
pub open spec fn captured_stones(board: u128, x: u8, y: u8, stone_color: u8) -> Set<int> {
    fallen(board, x, y, stone_color, 4)
}

/// What a move captures, said all at once: the stones of every neighbouring
/// group of the other colour that has no liberty are taken off and counted,
/// nothing else on the board changes, and the ko point is the last
/// neighbour, in the order right, below, left, above, that was such a group
/// of a single stone.
pub proof fn lemma_captures(board: u128, x: u8, y: u8, stone_color: u8)
    ensures
        forall|q: int| #[trigger]
            cell_value(captured(board, x, y, stone_color).board, q) == if captured_stones(
                board,
                x,
                y,
                stone_color,
            ).contains(q) {
                0
            } else {
                cell_value(board, q)
            },
        reserved_bits(captured(board, x, y, stone_color).board) == reserved_bits(board),
        captured(board, x, y, stone_color).count == captured_stones(
            board,
            x,
            y,
            stone_color,
        ).len(),
        (captured(board, x, y, stone_color).ko_x, captured(board, x, y, stone_color).ko_y)
            == ko_point(board, x, y, stone_color, 4),
{
    lemma_captured_at_once(board, x, y, stone_color, 4);
}


/// A move that the rules allow never leaves its own stone without a liberty:
/// once its captures are off the board, the group of the stone just placed
/// has at least one.
pub proof fn lemma_legal_move_breathes(
    board: u128,
    last_x: u8,
    last_y: u8,
    x: u8,
    y: u8,
    stone_color: u8,
)
    requires
        legal(board, last_x, last_y, x, y, stone_color),
        stone_color == 1 || stone_color == 2,
    ensures
        liberties(captured(place(board, x, y, stone_color), x, y, stone_color).board, x, y) > 0,
        stone_at(captured(place(board, x, y, stone_color), x, y, stone_color).board, x, y)
            == stone_color,
{
    let p = cell_index(x, y);
    let placed = place(board, x, y, stone_color);
    let after = captured(placed, x, y, stone_color).board;
    let taken = captured_stones(placed, x, y, stone_color);
    lemma_cell_coords(x, y);
    lemma_cell_put_same(board, p, stone_color);
    lemma_captures(placed, x, y, stone_color);
    lemma_fallen_is_groups(placed, x, y, stone_color, 4);
    assert(cell_value(after, p) == if taken.contains(p) {
        0
    } else {
        cell_value(placed, p)
    });
    assert(!taken.contains(p));
    lemma_connected_self(after, p);
    lemma_subset_of_grid(liberty_cells(after, p));
    if would_capture(board, x, y, stone_color) {
        let d: int = if in_atari_toward(board, x, y, stone_color, 0) {
            0
        } else if in_atari_toward(board, x, y, stone_color, 1) {
            1
        } else if in_atari_toward(board, x, y, stone_color, 2) {
            2
        } else {
            3
        };
        lemma_capture_takes_last_liberty(board, x, y, stone_color, d);
        lemma_neighbour_adjacent(x, y, d);
        let n = neighbour_cell(x, y, d);
        lemma_cell_put_other(board, p, stone_color, n);
        lemma_connected_self(placed, n);
        assert(falls_toward(placed, x, y, stone_color, d, n));
        assert(taken.contains(n));
        assert(cell_value(after, n) == if taken.contains(n) {
            0
        } else {
            cell_value(placed, n)
        });
        lemma_adjacent_offsets(n, p);
        assert(connected(after, p, p) && adjacent(p, n));
        assert(liberty_cells(after, p).contains(n));
    } else {
        let before = liberty_cells(placed, p);
        lemma_subset_of_grid(before);
        assert(before.len() > 0);
        vstd::set_lib::lemma_set_empty_equivalency_len(before);
        let e = choose|e: int| before.contains(e);
        assert(is_liberty(placed, p, e));
        let g = choose|g: int| #[trigger] connected(placed, p, g) && adjacent(g, e);
        let path = choose|path: Seq<int>| #[trigger]
            is_chain(placed, path) && path[0] == p && path.last() == g;
        assert forall|i: int| 0 <= i < path.len() implies cell_value(after, #[trigger] path[i])
            == cell_value(placed, path[i]) by {
            assert(cell_value(placed, path[i]) == cell_value(placed, path[0]));
            assert(cell_value(after, path[i]) == if taken.contains(path[i]) {
                0
            } else {
                cell_value(placed, path[i])
            });
        }
        assert(cell_value(after, path[0]) == cell_value(placed, path[0]));
        assert(is_chain(after, path));
        assert(connected(after, p, g) && adjacent(g, e));
        assert(cell_value(after, e) == if taken.contains(e) {
            0
        } else {
            cell_value(placed, e)
        });
        assert(liberty_cells(after, p).contains(e));
    }
}


/// The last neighbour that was a single smothered stone is such a neighbour.
proof fn lemma_ko_point_is_lone_capture(board: u128, x: u8, y: u8, stone_color: u8, steps: int)
    requires
        0 <= steps <= 4,
        exists|d: int|
            0 <= d < steps && #[trigger] lone_capture_toward(board, x, y, stone_color, d),
    ensures
        exists|d: int|
            0 <= d < steps && #[trigger] lone_capture_toward(board, x, y, stone_color, d)
                && neighbour_of(x, y, d) == Some(ko_point(board, x, y, stone_color, steps)),
    decreases steps,
{
    if lone_capture_toward(board, x, y, stone_color, steps - 1) {
        assert(neighbour_of(x, y, steps - 1) == Some(
            ko_point(board, x, y, stone_color, steps),
        ));
    } else {
        let d = choose|d: int|
            0 <= d < steps && #[trigger] lone_capture_toward(board, x, y, stone_color, d);
        assert(0 <= d < steps - 1 && lone_capture_toward(board, x, y, stone_color, d));
        lemma_ko_point_is_lone_capture(board, x, y, stone_color, steps - 1);
        let e = choose|e: int|
            0 <= e < steps - 1 && #[trigger] lone_capture_toward(board, x, y, stone_color, e)
                && neighbour_of(x, y, e) == Some(ko_point(board, x, y, stone_color, steps - 1));
        assert(0 <= e < steps && lone_capture_toward(board, x, y, stone_color, e)
            && neighbour_of(x, y, e) == Some(ko_point(board, x, y, stone_color, steps)));
    }
}

/// A move that takes exactly one stone makes the cell of that stone the ko
/// point: the cell is empty afterwards, and unless it is the corner `(0, 0)`,
/// a stone of either colour on it is refused as a ko violation.
pub proof fn lemma_single_capture_sets_ko(board: u128, x: u8, y: u8, stone_color: u8, next: u8)
    requires
        captured(board, x, y, stone_color).count == 1,
    ensures
        ({
            let taken = captured(board, x, y, stone_color);
            &&& in_bounds(taken.ko_x, taken.ko_y)
            &&& captured_stones(board, x, y, stone_color) == Set::<int>::empty().insert(
                cell_index(taken.ko_x, taken.ko_y),
            )
            &&& stone_at(board, taken.ko_x, taken.ko_y) == opponent_of(stone_color)
            &&& stone_at(taken.board, taken.ko_x, taken.ko_y) == 0
            &&& !(taken.ko_x == 0 && taken.ko_y == 0) ==> ruling(
                taken.board,
                taken.ko_x,
                taken.ko_y,
                taken.ko_x,
                taken.ko_y,
                next,
            ) == Err::<(), GameError>(GameError::KoViolation)
        }),
{
    let taken = captured(board, x, y, stone_color);
    let stones = captured_stones(board, x, y, stone_color);
    lemma_captures(board, x, y, stone_color);
    lemma_fallen_is_groups(board, x, y, stone_color, 4);
    vstd::set_lib::lemma_set_empty_equivalency_len(stones);
    let q = choose|q: int| stones.contains(q);
    assert(stones.contains(q));
    assert(stones.remove(q).len() == 0);
    assert(stones =~= Set::<int>::empty().insert(q)) by {
        assert forall|r: int| stones.contains(r) implies r == q by {
            if r != q {
                assert(stones.remove(q).contains(r));
            }
        }
    }
    let d = choose|d: int| 0 <= d < 4 && #[trigger] falls_toward(board, x, y, stone_color, d, q);
    let n = neighbour_cell(x, y, d);
    let cell = neighbour_of(x, y, d)->0;
    lemma_cell_coords(cell.0, cell.1);
    lemma_subset_of_grid_group(board, n);
    assert(group(board, n) =~= stones) by {
        assert forall|r: int| group(board, n).contains(r) implies stones.contains(r) by {
            assert(falls_toward(board, x, y, stone_color, d, r));
        }
        lemma_connected_self(board, n);
        assert(group(board, n).contains(n));
    }
    assert(lone_capture_toward(board, x, y, stone_color, d));
    lemma_ko_point_is_lone_capture(board, x, y, stone_color, 4);
    let e = choose|e: int|
        0 <= e < 4 && #[trigger] lone_capture_toward(board, x, y, stone_color, e) && neighbour_of(
            x,
            y,
            e,
        ) == Some(ko_point(board, x, y, stone_color, 4));
    let ko = neighbour_of(x, y, e)->0;
    lemma_cell_coords(ko.0, ko.1);
    lemma_connected_self(board, cell_index(ko.0, ko.1));
    assert(falls_toward(board, x, y, stone_color, e, cell_index(ko.0, ko.1)));
    assert(stones.contains(cell_index(ko.0, ko.1)));
    assert(cell_value(taken.board, cell_index(ko.0, ko.1)) == if stones.contains(
        cell_index(ko.0, ko.1),
    ) {
        0
    } else {
        cell_value(board, cell_index(ko.0, ko.1))
    });
}

} // verus!
