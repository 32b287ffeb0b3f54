//! Groups of stones and their liberties.
//!
//! A group is a maximal set of stones of one colour that hang together by
//! steps to a neighbour in the same row or column. Its liberties are the empty
//! cells next to any of its stones.

use vstd::prelude::*;
use crate::board::{
    cell_index, cell_put, cell_value, get_stone_at_position, in_bounds, is_valid_position,
    on_grid, place, reserved_bits, set_stone_at_position, stone_at, BOARD_SIZE, CELL_COUNT,
    lemma_cell_put_other, lemma_cell_put_reserved, lemma_cell_put_same,
};

verus! {

/// Cells `p` and `q` lie next to each other in a row or in a column.
pub open spec fn adjacent(p: int, q: int) -> bool {
    on_grid(p) && on_grid(q) && ((q == p + 1 && p % 7 != 6) || (q == p - 1 && p % 7 != 0) || q
        == p + 7 || q == p - 7)
}

/// `path` walks over stones of one colour, each step going to a neighbour.
pub open spec fn is_chain(board: u128, path: Seq<int>) -> bool {
    &&& path.len() > 0
    &&& cell_value(board, path[0]) != 0
    &&& forall|i: int|
        0 <= i < path.len() ==> on_grid(#[trigger] path[i]) && cell_value(board, path[i])
            == cell_value(board, path[0])
    &&& forall|i: int| 0 < i < path.len() ==> adjacent(path[i - 1], #[trigger] path[i])
}

/// Some chain leads from the stone at `p` to the stone at `q`.
pub open spec fn connected(board: u128, p: int, q: int) -> bool {
    exists|path: Seq<int>| #[trigger] is_chain(board, path) && path[0] == p && path.last() == q
}

/// The group of the stone at cell `p`; empty where `p` holds no stone.
pub open spec fn group(board: u128, p: int) -> Set<int> {
    Set::new(|q: int| connected(board, p, q))
}

/// The empty cell `e` lies next to a stone of the group of `p`.
pub open spec fn is_liberty(board: u128, p: int, e: int) -> bool {
    &&& on_grid(e)
    &&& cell_value(board, e) == 0
    &&& exists|q: int| #[trigger] connected(board, p, q) && adjacent(q, e)
}

/// The liberties of the group of the stone at cell `p`.
pub open spec fn liberty_cells(board: u128, p: int) -> Set<int> {
    Set::new(|e: int| is_liberty(board, p, e))
}

/// Number of liberties of the group of the stone at `(x, y)`: each empty
/// neighbouring cell counts once. It is 0 for an empty cell and for
/// coordinates off the board.
pub open spec fn liberties(board: u128, x: u8, y: u8) -> nat {
    if in_bounds(x, y) {
        liberty_cells(board, cell_index(x, y)).len()
    } else {
        0
    }
}

/// Number of stones in the group of the stone at `(x, y)`; 0 for an empty
/// cell and for coordinates off the board.
pub open spec fn group_size(board: u128, x: u8, y: u8) -> nat {
    if in_bounds(x, y) {
        group(board, cell_index(x, y)).len()
    } else {
        0
    }
}

/// Bit `p` of `mask` is set.
pub open spec fn has_bit(mask: u128, p: int) -> bool {
    0 <= p < 128 && (mask >> (p as u128)) & 1 == 1
}

/// The cells whose bit is set in `mask`.
pub open spec fn cells_of(mask: u128) -> Set<int> {
    Set::new(|p: int| on_grid(p) && has_bit(mask, p))
}

proof fn lemma_bit_test(mask: u128, i: u128)
    by (bit_vector)
    requires
        i < 128,
    ensures
        (mask & (1u128 << i) != 0) == ((mask >> i) & 1 == 1),
{
}

proof fn lemma_bit_insert(mask: u128, i: u128, j: u128)
    by (bit_vector)
    requires
        i < 128,
        j < 128,
    ensures
        (((mask | (1u128 << i)) >> j) & 1 == 1) == (j == i || (mask >> j) & 1 == 1),
{
}

proof fn lemma_bit_none(j: u128)
    by (bit_vector)
    requires
        j < 128,
    ensures
        (0u128 >> j) & 1 == 0,
{
}

/// No bit of the empty mask is set.
proof fn lemma_no_bits()
    ensures
        forall|j: int| !has_bit(0, j),
{
    assert forall|j: int| !has_bit(0, j) by {
        if 0 <= j < 128 {
            lemma_bit_none(j as u128);
        }
    }
}

/// Tests bit `index` of `mask`.
pub fn bit_is_set(mask: u128, index: usize) -> (set: bool)
    requires
        index < 128,
    ensures
        set == has_bit(mask, index as int),
{
    proof {
        lemma_bit_test(mask, index as u128);
    }
    mask & (1u128 << index) != 0
}

/// Sets bit `index` of `mask`.
pub fn with_bit(mask: u128, index: usize) -> (updated: u128)
    requires
        index < 128,
    ensures
        forall|j: int| has_bit(updated, j) == (j == index || has_bit(mask, j)),
{
    let updated: u128 = mask | (1u128 << index);
    proof {
        assert forall|j: int| has_bit(updated, j) == (j == index || has_bit(mask, j)) by {
            if 0 <= j < 128 {
                lemma_bit_insert(mask, index as u128, j as u128);
            }
        }
    }
    updated
}

/// The cells of a mask are finitely many, at most 49.
pub proof fn lemma_cells_of_bounded(mask: u128)
    ensures
        cells_of(mask).finite(),
        cells_of(mask).len() <= 49,
{
    lemma_subset_of_grid(cells_of(mask));
}

/// A set of cells is finite and has at most 49 elements.
pub proof fn lemma_subset_of_grid(cells: Set<int>)
    requires
        forall|p: int| #[trigger] cells.contains(p) ==> on_grid(p),
    ensures
        cells.finite(),
        cells.len() <= 49,
{
    let grid = vstd::set_lib::set_int_range(0, 49);
    vstd::set_lib::lemma_int_range(0, 49);
    assert(cells.subset_of(grid));
    vstd::set_lib::lemma_len_subset(cells, grid);
}

/// A stone is connected to itself.
pub proof fn lemma_connected_self(board: u128, p: int)
    requires
        on_grid(p),
        cell_value(board, p) != 0,
    ensures
        connected(board, p, p),
{
    let path = seq![p];
    assert(is_chain(board, path));
    assert(path[0] == p && path.last() == p);
}

/// A chain can be extended by a neighbouring stone of the same colour.
pub proof fn lemma_connected_step(board: u128, p: int, q: int, r: int)
    requires
        connected(board, p, q),
        adjacent(q, r),
        cell_value(board, r) == cell_value(board, p),
    ensures
        connected(board, p, r),
{
    let path = choose|path: Seq<int>| #[trigger]
        is_chain(board, path) && path[0] == p && path.last() == q;
    let longer = path.push(r);
    assert forall|i: int| 0 <= i < longer.len() implies on_grid(#[trigger] longer[i])
        && cell_value(board, longer[i]) == cell_value(board, longer[0]) by {
        if i < path.len() {
            assert(longer[i] == path[i]);
        }
    }
    assert forall|i: int| 0 < i < longer.len() implies adjacent(
        longer[i - 1],
        #[trigger] longer[i],
    ) by {
        if i < path.len() {
            assert(longer[i] == path[i]);
            assert(longer[i - 1] == path[i - 1]);
        } else {
            assert(longer[i - 1] == path.last());
        }
    }
    assert(is_chain(board, longer));
    assert(longer[0] == p && longer.last() == r);
}

/// Every stone of a group has the colour of the stone it was named by, and
/// that colour is not empty.
pub proof fn lemma_connected_colour(board: u128, p: int, q: int)
    requires
        connected(board, p, q),
    ensures
        on_grid(p),
        on_grid(q),
        cell_value(board, p) != 0,
        cell_value(board, q) == cell_value(board, p),
{
    let path = choose|path: Seq<int>| #[trigger]
        is_chain(board, path) && path[0] == p && path.last() == q;
    assert(on_grid(path[0]));
    assert(on_grid(path[path.len() - 1]));
}

proof fn lemma_chain_stays_inside(board: u128, path: Seq<int>, cells: Set<int>, i: int)
    requires
        is_chain(board, path),
        cells.contains(path[0]),
        forall|a: int, b: int|
            cells.contains(a) && adjacent(a, b) && cell_value(board, b) == cell_value(
                board,
                path[0],
            ) ==> cells.contains(b),
        0 <= i < path.len(),
    ensures
        cells.contains(path[i]),
    decreases i,
{
    if i > 0 {
        lemma_chain_stays_inside(board, path, cells, i - 1);
        assert(adjacent(path[i - 1], path[i]));
        assert(on_grid(path[i]) && cell_value(board, path[i]) == cell_value(board, path[0]));
    }
}

/// A set that holds the stone at `p` and, with each of its cells, every
/// neighbouring stone of that colour, holds the whole group of `p`.
pub proof fn lemma_closed_set_holds_group(board: u128, p: int, cells: Set<int>)
    requires
        cells.contains(p),
        forall|a: int, b: int|
            cells.contains(a) && adjacent(a, b) && cell_value(board, b) == cell_value(board, p)
                ==> cells.contains(b),
    ensures
        group(board, p).subset_of(cells),
{
    assert forall|q: int| group(board, p).contains(q) implies cells.contains(q) by {
        let path = choose|path: Seq<int>| #[trigger]
            is_chain(board, path) && path[0] == p && path.last() == q;
        lemma_chain_stays_inside(board, path, cells, path.len() - 1);
    }
}


/// Column and row of a cell follow from its number.
pub proof fn lemma_cell_coords(x: u8, y: u8)
    requires
        in_bounds(x, y),
    ensures
        on_grid(cell_index(x, y)),
        cell_index(x, y) % 7 == x,
        cell_index(x, y) / 7 == y,
{
}

/// Some entry of `cells` names cell number `q`.
spec fn lists(cells: Seq<(u8, u8)>, q: int) -> bool {
    exists|i: int| 0 <= i < cells.len() && cell_index((#[trigger] cells[i]).0, cells[i].1) == q
}

/// `longer` starts with the entries of `shorter`.
spec fn extends(longer: Seq<(u8, u8)>, shorter: Seq<(u8, u8)>) -> bool {
    &&& shorter.len() <= longer.len()
    &&& forall|i: int| 0 <= i < shorter.len() ==> longer[i] == shorter[i]
}

proof fn lemma_lists_extended(longer: Seq<(u8, u8)>, shorter: Seq<(u8, u8)>, q: int)
    requires
        extends(longer, shorter),
        lists(shorter, q),
    ensures
        lists(longer, q),
{
    let i = choose|i: int|
        0 <= i < shorter.len() && cell_index((#[trigger] shorter[i]).0, shorter[i].1) == q;
    assert(longer[i] == shorter[i]);
}

proof fn lemma_lists_last(cells: Seq<(u8, u8)>)
    requires
        cells.len() > 0,
    ensures
        lists(cells, cell_index(cells.last().0, cells.last().1)),
{
    let i = cells.len() - 1;
    assert(cell_index(cells[i].0, cells[i].1) == cell_index(cells.last().0, cells.last().1));
}

proof fn lemma_lists_without_last(cells: Seq<(u8, u8)>, q: int)
    requires
        lists(cells, q),
    ensures
        lists(cells.drop_last(), q) || cell_index(cells.last().0, cells.last().1) == q,
{
    let i = choose|i: int|
        0 <= i < cells.len() && cell_index((#[trigger] cells[i]).0, cells[i].1) == q;
    if i < cells.len() - 1 {
        assert(cells.drop_last()[i] == cells[i]);
    }
}

/// A cell marked in `visited` lies next to cell `e`.
spec fn touched(visited: u128, e: int) -> bool {
    ||| (adjacent(e + 1, e) && has_bit(visited, e + 1))
    ||| (adjacent(e - 1, e) && has_bit(visited, e - 1))
    ||| (adjacent(e + 7, e) && has_bit(visited, e + 7))
    ||| (adjacent(e - 7, e) && has_bit(visited, e - 7))
}

/// The neighbour `q` of the cell `p`, if it holds a stone of the colour that
/// is being walked, is visited or waits on the stack.
spec fn reached(
    board: u128,
    colour: u8,
    visited: u128,
    stack: Seq<(u8, u8)>,
    p: int,
    q: int,
) -> bool {
    adjacent(p, q) && cell_value(board, q) == colour ==> has_bit(visited, q) || lists(stack, q)
}

/// Neighbours differ by one column or by one row.
pub proof fn lemma_adjacent_offsets(p: int, q: int)
    requires
        adjacent(p, q),
    ensures
        q == p + 1 || q == p - 1 || q == p + 7 || q == p - 7,
        adjacent(q, p),
{
}

/// What one walk over a group found.
struct GroupTrace {
    /// The stones of the group, in the order in which the walk reached them.
    members: Vec<(u8, u8)>,
    /// One bit for each cell of the group.
    stones: u128,
    /// One bit for each liberty of the group.
    liberties: u128,
}

/// `trace` describes the group of the stone at `(x, y)` on `board`.
spec fn traces(trace: GroupTrace, board: u128, x: u8, y: u8) -> bool {
    let p = cell_index(x, y);
    &&& forall|j: int| has_bit(trace.stones, j) ==> on_grid(j)
    &&& forall|j: int| has_bit(trace.liberties, j) ==> on_grid(j)
    &&& cells_of(trace.stones) == group(board, p)
    &&& cells_of(trace.liberties) == liberty_cells(board, p)
    &&& trace.members@.len() == group(board, p).len()
    &&& trace.members@.len() > 0
    &&& trace.members@[0] == (x, y)
    &&& forall|i: int|
        0 <= i < trace.members@.len() ==> in_bounds(
            (#[trigger] trace.members@[i]).0,
            trace.members@[i].1,
        )
            && group(board, p).contains(cell_index(trace.members@[i].0, trace.members@[i].1))
    &&& forall|i: int, j: int|
        0 <= i < j < trace.members@.len() ==> cell_index(
            (#[trigger] trace.members@[i]).0,
            trace.members@[i].1,
        ) != cell_index((#[trigger] trace.members@[j]).0, trace.members@[j].1)
}

/// Looks at one neighbour of the stone that the walk stands on: an empty
/// neighbour is a liberty, an unvisited stone of the walked colour is put on
/// the stack, anything else is passed over.
fn inspect_neighbor(
    board: u128,
    nx: u8,
    ny: u8,
    stone_color: u8,
    visited: u128,
    liberty_set: &mut u128,
    stack: &mut Vec<(u8, u8)>,
)
    requires
        in_bounds(nx, ny),
    ensures
        forall|j: int|
            has_bit(*final(liberty_set), j) == ((j == cell_index(nx, ny) && stone_at(board, nx, ny)
                == 0) || has_bit(*old(liberty_set), j)),
        final(stack)@ == if stone_at(board, nx, ny) != 0 && stone_at(board, nx, ny) == stone_color
            && !has_bit(visited, cell_index(nx, ny)) {
            old(stack)@.push((nx, ny))
        } else {
            old(stack)@
        },
{
    let neighbor_stone = get_stone_at_position(board, nx, ny);
    let neighbor_idx: usize = ny as usize * 7 + nx as usize;
    if neighbor_stone == 0 {
        *liberty_set = with_bit(*liberty_set, neighbor_idx);
    } else if neighbor_stone == stone_color && !bit_is_set(visited, neighbor_idx) {
        stack.push((nx, ny));
    }
}


/// Looks at the four neighbours of the stone at `(curr_x, curr_y)`, to the
/// right, below, to the left and above, in that order.
fn expand(
    board: u128,
    curr_x: u8,
    curr_y: u8,
    stone_color: u8,
    visited: u128,
    liberty_set: &mut u128,
    stack: &mut Vec<(u8, u8)>,
)
    requires
        in_bounds(curr_x, curr_y),
        stone_color != 0,
    ensures
        extends(final(stack)@, old(stack)@),
        forall|i: int|
            old(stack)@.len() <= i < final(stack)@.len() ==> in_bounds(
                (#[trigger] final(stack)@[i]).0,
                final(stack)@[i].1,
            ) && adjacent(
                cell_index(curr_x, curr_y),
                cell_index(final(stack)@[i].0, final(stack)@[i].1),
            ) && cell_value(board, cell_index(final(stack)@[i].0, final(stack)@[i].1))
                == stone_color,
        forall|q: int|
            #[trigger] adjacent(cell_index(curr_x, curr_y), q) && cell_value(board, q)
                == stone_color && !has_bit(visited, q) ==> lists(final(stack)@, q),
        forall|e: int|
            #[trigger] has_bit(*final(liberty_set), e) <==> has_bit(*old(liberty_set), e) || (
            adjacent(cell_index(curr_x, curr_y), e) && cell_value(board, e) == 0),
{
    let ghost t = cell_index(curr_x, curr_y);
    let ghost rest = stack@;
    proof {
        lemma_cell_coords(curr_x, curr_y);
    }
    if curr_x + 1 < 7 {
        inspect_neighbor(board, curr_x + 1, curr_y, stone_color, visited, liberty_set, stack);
    }
    let ghost stack_r = stack@;
    if curr_y + 1 < 7 {
        inspect_neighbor(board, curr_x, curr_y + 1, stone_color, visited, liberty_set, stack);
    }
    let ghost stack_d = stack@;
    if curr_x > 0 {
        inspect_neighbor(board, curr_x - 1, curr_y, stone_color, visited, liberty_set, stack);
    }
    let ghost stack_l = stack@;
    if curr_y > 0 {
        inspect_neighbor(board, curr_x, curr_y - 1, stone_color, visited, liberty_set, stack);
    }
    proof {
        let now = stack@;
        assert(extends(stack_r, rest));
        assert(extends(stack_d, stack_r));
        assert(extends(stack_l, stack_d));
        assert(extends(now, stack_l));
        assert(extends(now, stack_d));
        assert(extends(now, stack_r));
        assert(extends(now, rest));
        assert forall|q: int|
            #[trigger] adjacent(t, q) && cell_value(board, q) == stone_color && !has_bit(
                visited,
                q,
            ) implies lists(now, q) by {
            if q == t + 1 {
                lemma_lists_last(stack_r);
                lemma_lists_extended(now, stack_r, q);
            } else if q == t + 7 {
                lemma_lists_last(stack_d);
                lemma_lists_extended(now, stack_d, q);
            } else if q == t - 1 {
                lemma_lists_last(stack_l);
                lemma_lists_extended(now, stack_l, q);
            } else {
                lemma_lists_last(now);
            }
        }
    }
}

/// Walks the group of the stone at `(x, y)` with an explicit stack, marking
/// each stone once and noting every empty cell beside it.
fn trace_group(board: u128, x: u8, y: u8) -> (trace: GroupTrace)
    requires
        in_bounds(x, y),
        stone_at(board, x, y) != 0,
    ensures
        traces(trace, board, x, y),
{
    let stone_color = get_stone_at_position(board, x, y);
    let ghost seed = cell_index(x, y);
    let mut visited: u128 = 0;
    let mut liberty_set: u128 = 0;
    let mut members: Vec<(u8, u8)> = Vec::new();
    let mut stack: Vec<(u8, u8)> = Vec::with_capacity(BOARD_SIZE);
    stack.push((x, y));
    proof {
        lemma_no_bits();
        lemma_cell_coords(x, y);
        lemma_connected_self(board, seed);
        lemma_lists_last(stack@);
        lemma_cells_of_bounded(visited);
        assert(cells_of(visited) =~= Set::<int>::empty());
    }
    while stack.len() > 0
        invariant
            in_bounds(x, y),
            seed == cell_index(x, y),
            stone_color == cell_value(board, seed),
            stone_color != 0,
            forall|j: int| #[trigger] has_bit(visited, j) ==> on_grid(j),
            forall|j: int| #[trigger] has_bit(liberty_set, j) ==> on_grid(j),
            forall|p: int| #[trigger] has_bit(visited, p) ==> connected(board, seed, p),
            forall|i: int|
                0 <= i < stack@.len() ==> in_bounds((#[trigger] stack@[i]).0, stack@[i].1)
                    && connected(board, seed, cell_index(stack@[i].0, stack@[i].1)),
            forall|p: int, q: int|
                has_bit(visited, p) && #[trigger] adjacent(p, q) ==> reached(
                    board,
                    stone_color,
                    visited,
                    stack@,
                    p,
                    q,
                ),
            has_bit(visited, seed) || lists(stack@, seed),
            forall|e: int|
                #[trigger] has_bit(liberty_set, e) <==> on_grid(e) && cell_value(board, e) == 0
                    && touched(visited, e),
            members@.len() == cells_of(visited).len(),
            cells_of(visited).finite(),
            forall|i: int|
                0 <= i < members@.len() ==> in_bounds((#[trigger] members@[i]).0, members@[i].1)
                    && has_bit(visited, cell_index(members@[i].0, members@[i].1)),
            forall|i: int, j: int|
                0 <= i < j < members@.len() ==> cell_index(
                    (#[trigger] members@[i]).0,
                    members@[i].1,
                ) != cell_index((#[trigger] members@[j]).0, members@[j].1),
            members@.len() > 0 ==> members@[0] == (x, y),
            members@.len() == 0 ==> stack@.len() == 1 && stack@[0] == (x, y) && visited == 0,
        decreases 49 - cells_of(visited).len(), stack@.len(),
    {
        let ghost before = stack@;
        let ghost seen = visited;
        let ghost found = liberty_set;
        let (curr_x, curr_y) = stack.pop().unwrap();
        let ghost rest = stack@;
        let ghost t = cell_index(curr_x, curr_y);
        let pos_idx: usize = curr_y as usize * BOARD_SIZE + curr_x as usize;
        proof {
            lemma_no_bits();
            lemma_cell_coords(curr_x, curr_y);
            lemma_cells_of_bounded(visited);
            assert(before[before.len() - 1] == (curr_x, curr_y));
            assert(connected(board, seed, t));
            lemma_connected_colour(board, seed, t);
        }
        if !bit_is_set(visited, pos_idx) {
            visited = with_bit(visited, pos_idx);
            members.push((curr_x, curr_y));
            expand(board, curr_x, curr_y, stone_color, visited, &mut liberty_set, &mut stack);
            proof {
                let now = stack@;
                assert(cells_of(visited) =~= cells_of(seen).insert(t));
                lemma_cells_of_bounded(visited);
                assert forall|i: int| 0 <= i < now.len() implies in_bounds(
                    (#[trigger] now[i]).0,
                    now[i].1,
                ) && connected(board, seed, cell_index(now[i].0, now[i].1)) by {
                    if i < rest.len() {
                        assert(now[i] == rest[i]);
                        assert(rest[i] == before[i]);
                    } else {
                        lemma_connected_step(board, seed, t, cell_index(now[i].0, now[i].1));
                    }
                }
                assert forall|p: int, q: int|
                    has_bit(visited, p) && #[trigger] adjacent(p, q) implies reached(
                    board,
                    stone_color,
                    visited,
                    now,
                    p,
                    q,
                ) by {
                    if p != t {
                        lemma_kept_reach(board, stone_color, seen, before, visited, now, p, q);
                    }
                }
                if !has_bit(seen, seed) && seed != t {
                    lemma_lists_without_last(before, seed);
                    lemma_lists_extended(now, rest, seed);
                }
                assert forall|e: int|
                    #[trigger] has_bit(liberty_set, e) <==> on_grid(e) && cell_value(board, e)
                        == 0 && touched(visited, e) by {
                    lemma_touched_grows(seen, visited, t, e);
                }
            }
        } else {
            proof {
                assert forall|p: int, q: int|
                    has_bit(visited, p) && #[trigger] adjacent(p, q) implies reached(
                    board,
                    stone_color,
                    visited,
                    rest,
                    p,
                    q,
                ) by {
                    lemma_kept_reach(board, stone_color, seen, before, visited, rest, p, q);
                }
                if !has_bit(seen, seed) {
                    lemma_lists_without_last(before, seed);
                }
            }
        }
    }
    proof {
        let cells = cells_of(visited);
        assert forall|a: int, b: int|
            cells.contains(a) && adjacent(a, b) && cell_value(board, b) == cell_value(
                board,
                seed,
            ) implies cells.contains(b) by {
            assert(reached(board, stone_color, visited, stack@, a, b));
        }
        lemma_closed_set_holds_group(board, seed, cells);
        assert(cells =~= group(board, seed));
        assert forall|e: int| cells_of(liberty_set).contains(e) == liberty_cells(
            board,
            seed,
        ).contains(e) by {
            if has_bit(liberty_set, e) {
                assert(touched(visited, e));
                let q = if adjacent(e + 1, e) && has_bit(visited, e + 1) {
                    e + 1
                } else if adjacent(e - 1, e) && has_bit(visited, e - 1) {
                    e - 1
                } else if adjacent(e + 7, e) && has_bit(visited, e + 7) {
                    e + 7
                } else {
                    e - 7
                };
                assert(has_bit(visited, q));
                assert(connected(board, seed, q) && adjacent(q, e));
            }
            if is_liberty(board, seed, e) {
                let q = choose|q: int| #[trigger] connected(board, seed, q) && adjacent(q, e);
                assert(cells.contains(q));
                lemma_adjacent_offsets(q, e);
                assert(touched(visited, e));
            }
        }
        assert(cells_of(liberty_set) =~= liberty_cells(board, seed));
    }
    GroupTrace { members, stones: visited, liberties: liberty_set }
}

proof fn lemma_touched_grows(seen: u128, visited: u128, t: int, e: int)
    requires
        forall|j: int| has_bit(visited, j) == (j == t || has_bit(seen, j)),
    ensures
        touched(visited, e) == (touched(seen, e) || adjacent(t, e)),
{
    if adjacent(t, e) {
        lemma_adjacent_offsets(t, e);
    }
}

proof fn lemma_kept_reach(
    board: u128,
    colour: u8,
    seen: u128,
    before: Seq<(u8, u8)>,
    visited: u128,
    now: Seq<(u8, u8)>,
    p: int,
    q: int,
)
    requires
        before.len() > 0,
        reached(board, colour, seen, before, p, q),
        forall|j: int| has_bit(seen, j) ==> has_bit(visited, j),
        has_bit(visited, cell_index(before.last().0, before.last().1)),
        extends(now, before.drop_last()),
    ensures
        reached(board, colour, visited, now, p, q),
{
    if adjacent(p, q) && cell_value(board, q) == colour && !has_bit(seen, q) {
        lemma_lists_without_last(before, q);
        if lists(before.drop_last(), q) {
            lemma_lists_extended(now, before.drop_last(), q);
        }
    }
}


/// The cells below number `upto` whose bit is set in `mask`.
spec fn cells_below(mask: u128, upto: int) -> Set<int> {
    Set::new(|p: int| 0 <= p < upto && has_bit(mask, p))
}

/// Counts the cells whose bit is set in `mask`.
pub fn count_cells(mask: u128) -> (count: u32)
    ensures
        count == cells_of(mask).len(),
{
    let mut count: u32 = 0;
    let mut index: usize = 0;
    proof {
        assert(cells_below(mask, 0) =~= Set::<int>::empty());
    }
    while index < CELL_COUNT
        invariant
            index <= 49,
            count == cells_below(mask, index as int).len(),
            count <= index,
            cells_below(mask, index as int).finite(),
        decreases 49 - index,
    {
        let ghost prior = cells_below(mask, index as int);
        if bit_is_set(mask, index) {
            count = count + 1;
            proof {
                assert(cells_below(mask, index + 1) =~= prior.insert(index as int));
            }
        } else {
            proof {
                assert(cells_below(mask, index + 1) =~= prior);
            }
        }
        index = index + 1;
    }
    proof {
        assert(cells_below(mask, 49) =~= cells_of(mask));
    }
    count
}

/// A cell without a stone has no group and no liberties.
pub proof fn lemma_no_stone_no_group(board: u128, p: int)
    requires
        !on_grid(p) || cell_value(board, p) == 0,
    ensures
        group(board, p) == Set::<int>::empty(),
        liberty_cells(board, p) == Set::<int>::empty(),
{
    assert forall|q: int| !connected(board, p, q) by {
        if connected(board, p, q) {
            lemma_connected_colour(board, p, q);
        }
    }
    assert(group(board, p) =~= Set::<int>::empty());
    assert(liberty_cells(board, p) =~= Set::<int>::empty());
}

/// Counts the liberties of the group of the stone at `(x, y)`: the distinct
/// empty cells next to any stone of the group. An empty cell, and coordinates
/// off the board, have none.
pub fn count_liberties(board: u128, x: u8, y: u8) -> (count: u32)
    ensures
        count == liberties(board, x, y),
{
    if !is_valid_position(x, y) {
        return 0;
    }
    let stone_color = get_stone_at_position(board, x, y);
    if stone_color == 0 {
        proof {
            lemma_no_stone_no_group(board, cell_index(x, y));
        }
        return 0;
    }
    let trace = trace_group(board, x, y);
    count_cells(trace.liberties)
}

/// `board` with every cell of `cells` that lies below number `upto` emptied.
pub open spec fn cleared(board: u128, cells: Set<int>, upto: int) -> u128
    decreases upto,
{
    if upto <= 0 {
        board
    } else if cells.contains(upto - 1) {
        cell_put(cleared(board, cells, upto - 1), upto - 1, 0)
    } else {
        cleared(board, cells, upto - 1)
    }
}

/// `board` after the group of the stone at `(x, y)` was taken off.
pub open spec fn without_group(board: u128, x: u8, y: u8) -> u128 {
    if in_bounds(x, y) {
        cleared(board, group(board, cell_index(x, y)), 49)
    } else {
        board
    }
}

/// Emptying cells turns exactly those cells to 0 and leaves every other cell
/// and the reserved bits as they were.
pub proof fn lemma_cleared_cells(board: u128, cells: Set<int>, upto: int, p: int)
    ensures
        cell_value(cleared(board, cells, upto), p) == if 0 <= p < upto && cells.contains(p)
            && on_grid(p) {
            0
        } else {
            cell_value(board, p)
        },
        reserved_bits(cleared(board, cells, upto)) == reserved_bits(board),
    decreases upto,
{
    if upto > 0 {
        lemma_cleared_cells(board, cells, upto - 1, p);
        if cells.contains(upto - 1) {
            let prior = cleared(board, cells, upto - 1);
            lemma_cell_put_reserved(prior, upto - 1, 0);
            if p == upto - 1 {
                if on_grid(p) {
                    lemma_cell_put_same(prior, p, 0);
                }
            } else {
                lemma_cell_put_other(prior, upto - 1, 0, p);
            }
        }
    }
}

/// Emptying no cell leaves the board as it is.
pub proof fn lemma_cleared_nothing(board: u128, upto: int)
    ensures
        cleared(board, Set::<int>::empty(), upto) == board,
    decreases upto,
{
    if upto > 0 {
        lemma_cleared_nothing(board, upto - 1);
    }
}

/// `members` names each cell of `cells` once, by coordinates on the board.
pub open spec fn enumerates(members: Seq<(u8, u8)>, cells: Set<int>) -> bool {
    &&& members.len() == cells.len()
    &&& forall|i: int|
        0 <= i < members.len() ==> in_bounds((#[trigger] members[i]).0, members[i].1)
            && cells.contains(cell_index(members[i].0, members[i].1))
    &&& forall|i: int, j: int|
        0 <= i < j < members.len() ==> cell_index((#[trigger] members[i]).0, members[i].1)
            != cell_index((#[trigger] members[j]).0, members[j].1)
}

/// Takes the group of the stone at `(x, y)` off the board. Returns the new
/// board, the number of stones removed and their coordinates, the stone at
/// `(x, y)` first. An empty cell, and coordinates off the board, remove
/// nothing.
pub fn remove_group(board: u128, x: u8, y: u8) -> (removed: (u128, u32, Vec<(u8, u8)>))
    ensures
        removed.0 == without_group(board, x, y),
        removed.1 == group_size(board, x, y),
        in_bounds(x, y) ==> enumerates(removed.2@, group(board, cell_index(x, y))),
        !in_bounds(x, y) ==> removed.2@.len() == 0,
        removed.2@.len() > 0 ==> removed.2@[0] == (x, y),
{
    if !is_valid_position(x, y) {
        return (board, 0, Vec::new());
    }
    let stone_color = get_stone_at_position(board, x, y);
    if stone_color == 0 {
        proof {
            lemma_no_stone_no_group(board, cell_index(x, y));
            lemma_cleared_nothing(board, 49);
        }
        return (board, 0, Vec::new());
    }
    let trace = trace_group(board, x, y);
    let ghost cells = group(board, cell_index(x, y));
    let mut new_board = board;
    let mut cy: u8 = 0;
    while cy < 7
        invariant
            cy <= 7,
            cells_of(trace.stones) == cells,
            new_board == cleared(board, cells, cy * 7),
        decreases 7 - cy,
    {
        let mut cx: u8 = 0;
        while cx < 7
            invariant
                cy < 7,
                cx <= 7,
                cells_of(trace.stones) == cells,
                new_board == cleared(board, cells, cy * 7 + cx),
            decreases 7 - cx,
        {
            let pos_idx: usize = cy as usize * BOARD_SIZE + cx as usize;
            proof {
                assert(cells.contains(pos_idx as int) == has_bit(trace.stones, pos_idx as int));
            }
            if bit_is_set(trace.stones, pos_idx) {
                new_board = set_stone_at_position(new_board, cx, cy, 0);
            }
            cx = cx + 1;
        }
        cy = cy + 1;
    }
    proof {
        lemma_cells_of_bounded(trace.stones);
    }
    let count: u32 = trace.members.len() as u32;
    (new_board, count, trace.members)
}


/// No cell of `board` holds a stone.
pub open spec fn is_empty_board(board: u128) -> bool {
    forall|p: int| on_grid(p) ==> #[trigger] cell_value(board, p) == 0
}

/// Number of cells next to `(x, y)` that lie on the board: 4 inside the
/// board, 3 along an edge, 2 in a corner.
pub open spec fn neighbour_count(x: u8, y: u8) -> nat {
    let right: nat = if x < 6 {
        1
    } else {
        0
    };
    let left: nat = if x > 0 {
        1
    } else {
        0
    };
    let below: nat = if y < 6 {
        1
    } else {
        0
    };
    let above: nat = if y > 0 {
        1
    } else {
        0
    };
    right + left + below + above
}

/// The cells next to cell `p`.
pub open spec fn neighbours(p: int) -> Set<int> {
    Set::new(|e: int| adjacent(p, e))
}

/// A cell of the board has as many neighbours as `neighbour_count` says.
pub proof fn lemma_neighbours_len(x: u8, y: u8)
    requires
        in_bounds(x, y),
    ensures
        neighbours(cell_index(x, y)).finite(),
        neighbours(cell_index(x, y)).len() == neighbour_count(x, y),
{
    let p = cell_index(x, y);
    lemma_cell_coords(x, y);
    let none = Set::<int>::empty();
    let right = if x < 6 {
        none.insert(p + 1)
    } else {
        none
    };
    let left = if x > 0 {
        right.insert(p - 1)
    } else {
        right
    };
    let below = if y < 6 {
        left.insert(p + 7)
    } else {
        left
    };
    let above = if y > 0 {
        below.insert(p - 7)
    } else {
        below
    };
    assert(right.finite() && right.len() == (if x < 6 { 1nat } else { 0 }));
    assert(left.finite() && left.len() == right.len() + (if x > 0 { 1nat } else { 0 }));
    assert(below.finite() && below.len() == left.len() + (if y < 6 { 1nat } else { 0 }));
    assert(above.finite() && above.len() == below.len() + (if y > 0 { 1nat } else { 0 }));
    assert(neighbours(p) =~= above);
}

/// A single stone on an otherwise empty board has as many liberties as it
/// has neighbouring cells on the board: 4 inside the board, 3 along an edge,
/// 2 in a corner.
pub proof fn lemma_lone_stone_liberties(board: u128, x: u8, y: u8, stone: u8)
    requires
        is_empty_board(board),
        in_bounds(x, y),
        1 <= stone <= 3,
    ensures
        liberties(place(board, x, y, stone), x, y) == neighbour_count(x, y),
{
    let p = cell_index(x, y);
    let after = place(board, x, y, stone);
    lemma_cell_coords(x, y);
    lemma_cell_put_same(board, p, stone);
    assert forall|q: int| q != p implies cell_value(after, q) == cell_value(board, q) by {
        lemma_cell_put_other(board, p, stone, q);
    }
    lemma_connected_self(after, p);
    assert forall|e: int| liberty_cells(after, p).contains(e) == neighbours(p).contains(e) by {
        if is_liberty(after, p, e) {
            let q = choose|q: int| #[trigger] connected(after, p, q) && adjacent(q, e);
            lemma_connected_colour(after, p, q);
            assert(cell_value(board, q) == 0 || q == p);
        }
        if adjacent(p, e) {
            assert(cell_value(board, e) == 0);
            assert(connected(after, p, p) && adjacent(p, e));
        }
    }
    assert(liberty_cells(after, p) =~= neighbours(p));
    lemma_neighbours_len(x, y);
}

} // verus!
