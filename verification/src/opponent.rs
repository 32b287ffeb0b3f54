//! How the automated opponent picks its move.
//!
//! The opponent looks for the first cell on which it may put a stone: first
//! the centre and the cells around it, then the square rings around the
//! centre from the inside out, each ring row by row, then the whole board.
//! Every cell thereby has a fixed place in the search, its rank, and the
//! choice is the allowed cell of the lowest rank.

use vstd::prelude::*;
use crate::board::{get_stone_at_position, in_bounds, stone_at};
use crate::rules::{is_ko_violation, ko_violation, legal, suicide, would_be_suicide};

verus! {

/// The colour of the opponent's stones.
pub const CONTRACT_STONE: u8 = 2;

/// Distance of `(x, y)` from the centre `(3, 3)`, counted in rings: 0 for the
/// centre, 3 for the rim of the board.
pub open spec fn ring_of(x: u8, y: u8) -> int {
    let dx = if x >= 3 {
        x - 3
    } else {
        3 - x
    };
    let dy = if y >= 3 {
        y - 3
    } else {
        3 - y
    };
    if dx >= dy {
        dx
    } else {
        dy
    }
}

/// Place of the cell `(x, y)` in the opponent's search; a lower rank is tried
/// first. The centre and its eight neighbours come in a fixed order, then the
/// ring at distance 2 row by row, then the rim row by row.
pub open spec fn search_rank(x: u8, y: u8) -> int {
    if x == 3 && y == 3 {
        0
    } else if x == 4 && y == 3 {
        1
    } else if x == 2 && y == 3 {
        2
    } else if x == 3 && y == 4 {
        3
    } else if x == 3 && y == 2 {
        4
    } else if x == 4 && y == 4 {
        5
    } else if x == 2 && y == 4 {
        6
    } else if x == 4 && y == 2 {
        7
    } else if x == 2 && y == 2 {
        8
    } else if ring_of(x, y) <= 2 {
        100 + y * 7 + x
    } else {
        200 + y * 7 + x
    }
}

/// The opponent may put a stone on the cell `(x, y)`: it is empty, the stone
/// would not be suicide, and the cell is not the ko point.
pub open spec fn playable(board: u128, last_x: u8, last_y: u8, x: u8, y: u8) -> bool {
    stone_at(board, x, y) == 0 && !suicide(board, x, y, CONTRACT_STONE) && !ko_violation(
        last_x,
        last_y,
        x,
        y,
    )
}

/// `choice` is what the opponent plays on `board` with ko point
/// `(last_x, last_y)`: the allowed cell of the lowest rank, or nothing where
/// no cell is allowed.
pub open spec fn is_contract_choice(
    board: u128,
    last_x: u8,
    last_y: u8,
    choice: Option<(u8, u8)>,
) -> bool {
    match choice {
        Some((x, y)) => {
            &&& in_bounds(x, y)
            &&& legal(board, last_x, last_y, x, y, CONTRACT_STONE)
            &&& forall|ox: u8, oy: u8|
                in_bounds(ox, oy) && #[trigger] legal(board, last_x, last_y, ox, oy, CONTRACT_STONE)
                    ==> search_rank(x, y) <= search_rank(ox, oy)
        },
        None => forall|ox: u8, oy: u8|
            in_bounds(ox, oy) ==> !#[trigger] legal(board, last_x, last_y, ox, oy, CONTRACT_STONE),
    }
}

/// No two cells of the board share a rank, so the allowed cell of the lowest
/// rank is one cell.
pub proof fn lemma_search_rank_distinct(x: u8, y: u8, ox: u8, oy: u8)
    requires
        in_bounds(x, y),
        in_bounds(ox, oy),
        search_rank(x, y) == search_rank(ox, oy),
    ensures
        x == ox,
        y == oy,
{
}

/// At most one choice fits a position.
pub proof fn lemma_contract_choice_unique(
    board: u128,
    last_x: u8,
    last_y: u8,
    first: Option<(u8, u8)>,
    second: Option<(u8, u8)>,
)
    requires
        is_contract_choice(board, last_x, last_y, first),
        is_contract_choice(board, last_x, last_y, second),
    ensures
        first == second,
{
    match (first, second) {
        (Some((x, y)), Some((ox, oy))) => {
            lemma_search_rank_distinct(x, y, ox, oy);
        },
        _ => {},
    }
}

/// The opponent's move on `board` with ko point `(last_x, last_y)`: the one
/// choice that fits the position.
pub open spec fn contract_choice(board: u128, last_x: u8, last_y: u8) -> Option<(u8, u8)> {
    choose|choice: Option<(u8, u8)>| is_contract_choice(board, last_x, last_y, choice)
}

proof fn lemma_least_rank_below(board: u128, last_x: u8, last_y: u8, limit: int)
    ensures
        (exists|x: u8, y: u8| #[trigger]
            is_contract_choice(board, last_x, last_y, Some((x, y)))) || (forall|ox: u8, oy: u8|
            in_bounds(ox, oy) && search_rank(ox, oy) < limit ==> !#[trigger] legal(
                board,
                last_x,
                last_y,
                ox,
                oy,
                CONTRACT_STONE,
            )),
    decreases limit,
{
    if limit > 0 {
        lemma_least_rank_below(board, last_x, last_y, limit - 1);
        if !(exists|x: u8, y: u8| #[trigger]
            is_contract_choice(board, last_x, last_y, Some((x, y)))) {
            if exists|x: u8, y: u8|
                in_bounds(x, y) && search_rank(x, y) == limit - 1 && #[trigger] legal(
                    board,
                    last_x,
                    last_y,
                    x,
                    y,
                    CONTRACT_STONE,
                ) {
                let (x, y) = choose|x: u8, y: u8|
                    in_bounds(x, y) && search_rank(x, y) == limit - 1 && #[trigger] legal(
                        board,
                        last_x,
                        last_y,
                        x,
                        y,
                        CONTRACT_STONE,
                    );
                assert(is_contract_choice(board, last_x, last_y, Some((x, y))));
            }
        }
    }
}

/// The opponent's choice exists in every position, and it is an allowed move
/// or nothing.
pub proof fn lemma_contract_choice_fits(board: u128, last_x: u8, last_y: u8)
    ensures
        is_contract_choice(board, last_x, last_y, contract_choice(board, last_x, last_y)),
{
    lemma_least_rank_below(board, last_x, last_y, 249);
    if exists|x: u8, y: u8| #[trigger] is_contract_choice(board, last_x, last_y, Some((x, y))) {
        let (x, y) = choose|x: u8, y: u8| #[trigger]
            is_contract_choice(board, last_x, last_y, Some((x, y)));
        assert(is_contract_choice(board, last_x, last_y, Some((x, y))));
    } else {
        assert(is_contract_choice(board, last_x, last_y, None));
    }
}

/// Whether the opponent may put a stone on `(x, y)`.
pub fn is_playable(board: u128, last_x: u8, last_y: u8, x: u8, y: u8) -> (allowed: bool)
    ensures
        allowed == playable(board, last_x, last_y, x, y),
        in_bounds(x, y) ==> allowed == legal(board, last_x, last_y, x, y, CONTRACT_STONE),
{
    get_stone_at_position(board, x, y) == 0 && !would_be_suicide(board, x, y, CONTRACT_STONE)
        && !is_ko_violation(last_x, last_y, x, y)
}

/// Tries the four cells that lie `x_offset` columns and `y_offset` rows from
/// the centre: right and below first, then left and below, right and above,
/// left and above.
fn try_reflections(board: u128, last_x: u8, last_y: u8, x_offset: u8, y_offset: u8) -> (found:
    Option<(u8, u8)>)
    requires
        x_offset <= 3,
        y_offset <= 3,
    ensures
        ({
            let hx = (3 + x_offset) as u8;
            let hy = (3 + y_offset) as u8;
            let lx = (3 - x_offset) as u8;
            let ly = (3 - y_offset) as u8;
            match found {
                Some(cell) => {
                    &&& playable(board, last_x, last_y, cell.0, cell.1)
                    &&& (cell == (hx, hy) || (!playable(board, last_x, last_y, hx, hy) && (cell
                        == (lx, hy) || (!playable(board, last_x, last_y, lx, hy) && (cell == (
                        hx,
                        ly,
                    ) || (!playable(board, last_x, last_y, hx, ly) && cell == (lx, ly)))))))
                },
                None => {
                    &&& !playable(board, last_x, last_y, hx, hy)
                    &&& !playable(board, last_x, last_y, lx, hy)
                    &&& !playable(board, last_x, last_y, hx, ly)
                    &&& !playable(board, last_x, last_y, lx, ly)
                },
            }
        }),
{
    let center: u8 = 3;
    let try_x = center + x_offset;
    let try_y = center + y_offset;
    let low_x = center - x_offset;
    let low_y = center - y_offset;
    if is_playable(board, last_x, last_y, try_x, try_y) {
        return Some((try_x, try_y));
    }
    if is_playable(board, last_x, last_y, low_x, try_y) {
        return Some((low_x, try_y));
    }
    if is_playable(board, last_x, last_y, try_x, low_y) {
        return Some((try_x, low_y));
    }
    if is_playable(board, last_x, last_y, low_x, low_y) {
        return Some((low_x, low_y));
    }
    None
}

/// Every cell of the board whose rank lies below `limit` is closed to the
/// opponent.
spec fn closed_below(board: u128, last_x: u8, last_y: u8, limit: int) -> bool {
    forall|ox: u8, oy: u8|
        in_bounds(ox, oy) && search_rank(ox, oy) < limit ==> !#[trigger] playable(
            board,
            last_x,
            last_y,
            ox,
            oy,
        )
}

/// Searches the centre and the cells around it.
fn search_centre(board: u128, last_x: u8, last_y: u8) -> (found: Option<(u8, u8)>)
    ensures
        match found {
            Some((x, y)) => in_bounds(x, y) && playable(board, last_x, last_y, x, y)
                && closed_below(board, last_x, last_y, search_rank(x, y)),
            None => closed_below(board, last_x, last_y, 9),
        },
{
    let mut y_offset: u8 = 0;
    while y_offset <= 1
        invariant
            y_offset <= 2,
            closed_below(
                board,
                last_x,
                last_y,
                if y_offset == 0 {
                    0int
                } else if y_offset == 1 {
                    3
                } else {
                    9
                },
            ),
        decreases 2 - y_offset,
    {
        let mut x_offset: u8 = 0;
        while x_offset <= 1
            invariant
                y_offset <= 1,
                x_offset <= 2,
                closed_below(
                    board,
                    last_x,
                    last_y,
                    if y_offset == 0 {
                        if x_offset == 0 { 0int } else if x_offset == 1 { 1 } else { 3 }
                    } else {
                        if x_offset == 0 { 3int } else if x_offset == 1 { 5 } else { 9 }
                    },
                ),
            decreases 2 - x_offset,
        {
            match try_reflections(board, last_x, last_y, x_offset, y_offset) {
                Some(cell) => {
                    return Some(cell);
                },
                None => {},
            }
            x_offset = x_offset + 1;
        }
        y_offset = y_offset + 1;
    }
    None
}


/// `(x, y)` lies on the edge of the square of cells from `low` to `high` in
/// both directions.
spec fn on_ring(x: u8, y: u8, low: u8, high: u8) -> bool {
    low <= x <= high && low <= y <= high && (x == low || x == high || y == low || y == high)
}

/// Searches the square rings around the centre, from the inside out, each
/// along its edge and row by row.
fn search_rings(board: u128, last_x: u8, last_y: u8) -> (found: Option<(u8, u8)>)
    requires
        closed_below(board, last_x, last_y, 9),
    ensures
        match found {
            Some((x, y)) => in_bounds(x, y) && playable(board, last_x, last_y, x, y)
                && closed_below(board, last_x, last_y, search_rank(x, y)),
            None => forall|ox: u8, oy: u8|
                in_bounds(ox, oy) ==> !#[trigger] playable(board, last_x, last_y, ox, oy),
        },
{
    let center: u8 = 3;
    let mut radius: u8 = 1;
    while radius < 7
        invariant
            1 <= radius <= 7,
            center == 3,
            closed_below(board, last_x, last_y, 9),
            forall|ox: u8, oy: u8|
                in_bounds(ox, oy) && ring_of(ox, oy) < radius ==> !#[trigger] playable(
                    board,
                    last_x,
                    last_y,
                    ox,
                    oy,
                ),
        decreases 7 - radius,
    {
        let low: u8 = if radius >= center {
            0
        } else {
            center - radius
        };
        let high: u8 = if center + radius > 6 {
            6
        } else {
            center + radius
        };
        let mut y: u8 = low;
        while y <= high
            invariant
                1 <= radius < 7,
                low == (if radius >= 3 { 0int } else { 3 - radius }),
                high == (if radius >= 3 { 6int } else { 3 + radius }),
                low <= y <= high + 1,
                closed_below(board, last_x, last_y, 9),
                forall|ox: u8, oy: u8|
                    in_bounds(ox, oy) && ring_of(ox, oy) < radius ==> !#[trigger] playable(
                        board,
                        last_x,
                        last_y,
                        ox,
                        oy,
                    ),
                forall|ox: u8, oy: u8|
                    on_ring(ox, oy, low, high) && oy < y ==> !#[trigger] playable(
                        board,
                        last_x,
                        last_y,
                        ox,
                        oy,
                    ),
            decreases high + 1 - y,
        {
            let mut x: u8 = low;
            while x <= high
                invariant
                    1 <= radius < 7,
                    low == (if radius >= 3 { 0int } else { 3 - radius }),
                    high == (if radius >= 3 { 6int } else { 3 + radius }),
                    low <= y <= high,
                    low <= x <= high + 1,
                    closed_below(board, last_x, last_y, 9),
                    forall|ox: u8, oy: u8|
                        in_bounds(ox, oy) && ring_of(ox, oy) < radius ==> !#[trigger] playable(
                            board,
                            last_x,
                            last_y,
                            ox,
                            oy,
                        ),
                    forall|ox: u8, oy: u8|
                        on_ring(ox, oy, low, high) && (oy < y || (oy == y && ox < x))
                            ==> !#[trigger] playable(board, last_x, last_y, ox, oy),
                decreases high + 1 - x,
            {
                if x == low || x == high || y == low || y == high {
                    if is_playable(board, last_x, last_y, x, y) {
                        proof {
                            assert forall|ox: u8, oy: u8|
                                in_bounds(ox, oy) && search_rank(ox, oy) < search_rank(
                                    x,
                                    y,
                                ) implies !#[trigger] playable(board, last_x, last_y, ox, oy) by {
                                if search_rank(ox, oy) >= 9 && ring_of(ox, oy) >= radius {
                                    assert(on_ring(ox, oy, low, high));
                                }
                            }
                        }
                        return Some((x, y));
                    }
                }
                x = x + 1;
            }
            y = y + 1;
        }
        proof {
            assert forall|ox: u8, oy: u8|
                in_bounds(ox, oy) && ring_of(ox, oy) < radius + 1 implies !#[trigger] playable(
                board,
                last_x,
                last_y,
                ox,
                oy,
            ) by {
                if ring_of(ox, oy) == radius {
                    assert(on_ring(ox, oy, low, high));
                }
            }
        }
        radius = radius + 1;
    }
    None
}

/// Searches the whole board row by row, for the first cell that is open to the opponent.
fn search_board(board: u128, last_x: u8, last_y: u8) -> (found: Option<(u8, u8)>)
    ensures
        match found {
            Some((x, y)) => {
                &&& in_bounds(x, y)
                &&& playable(board, last_x, last_y, x, y)
                &&& forall|ox: u8, oy: u8|
                    in_bounds(ox, oy) && (oy < y || (oy == y && ox < x)) ==> !#[trigger] playable(
                        board,
                        last_x,
                        last_y,
                        ox,
                        oy,
                    )
            },
            None => forall|ox: u8, oy: u8|
                in_bounds(ox, oy) ==> !#[trigger] playable(board, last_x, last_y, ox, oy),
        },
{
    let mut y: u8 = 0;
    while y < 7
        invariant
            y <= 7,
            forall|ox: u8, oy: u8|
                ox < 7 && oy < y ==> !#[trigger] playable(board, last_x, last_y, ox, oy),
        decreases 7 - y,
    {
        let mut x: u8 = 0;
        while x < 7
            invariant
                y < 7,
                x <= 7,
                forall|ox: u8, oy: u8|
                    ox < 7 && (oy < y || (oy == y && ox < x)) ==> !#[trigger] playable(
                        board,
                        last_x,
                        last_y,
                        ox,
                        oy,
                    ),
            decreases 7 - x,
        {
            if is_playable(board, last_x, last_y, x, y) {
                return Some((x, y));
            }
            x = x + 1;
        }
        y = y + 1;
    }
    None
}

/// Picks the opponent's move on `board` with ko point `(last_x, last_y)`:
/// the first allowed cell of its search, or `None` where no cell of the
/// board is allowed.
pub fn choose_contract_move(board: u128, last_x: u8, last_y: u8) -> (choice: Option<(u8, u8)>)
    ensures
        is_contract_choice(board, last_x, last_y, choice),
        choice == contract_choice(board, last_x, last_y),
{
    let mut choice = search_centre(board, last_x, last_y);
    if choice.is_none() {
        choice = search_rings(board, last_x, last_y);
        if choice.is_none() {
            choice = search_board(board, last_x, last_y);
        }
    }
    proof {
        match choice {
            Some((x, y)) => {
                assert forall|ox: u8, oy: u8|
                    in_bounds(ox, oy) && #[trigger] legal(
                        board,
                        last_x,
                        last_y,
                        ox,
                        oy,
                        CONTRACT_STONE,
                    ) implies search_rank(x, y) <= search_rank(ox, oy) by {
                    assert(playable(board, last_x, last_y, ox, oy));
                }
            },
            None => {
                assert forall|ox: u8, oy: u8| in_bounds(ox, oy) implies !#[trigger] legal(
                    board,
                    last_x,
                    last_y,
                    ox,
                    oy,
                    CONTRACT_STONE,
                ) by {
                    assert(!playable(board, last_x, last_y, ox, oy));
                }
            },
        }
        assert(is_contract_choice(board, last_x, last_y, choice));
        lemma_contract_choice_unique(
            board,
            last_x,
            last_y,
            choice,
            contract_choice(board, last_x, last_y),
        );
    }
    choice
}

} // verus!
