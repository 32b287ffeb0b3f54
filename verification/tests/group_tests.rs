use go_game::board::{get_stone_at_position, set_stone_at_position, CREATED_BOARD};
use go_game::group::{bit_is_set, count_cells, count_liberties, remove_group, with_bit};

fn board_from(rows: [&str; 7]) -> u128 {
    let mut board = CREATED_BOARD;
    for (y, row) in rows.iter().enumerate() {
        let cells: Vec<char> = row.chars().filter(|c| *c != ' ').collect();
        assert_eq!(cells.len(), 7);
        for (x, cell) in cells.iter().enumerate() {
            let stone = match cell {
                'W' => 1,
                'B' => 2,
                _ => 0,
            };
            board = set_stone_at_position(board, x as u8, y as u8, stone);
        }
    }
    board
}

#[test]
fn lone_stone_has_one_liberty_per_neighbour() {
    for y in 0..7u8 {
        for x in 0..7u8 {
            for stone in 1..3u8 {
                let board = set_stone_at_position(CREATED_BOARD, x, y, stone);
                let mut expected = 0;
                if x > 0 {
                    expected += 1;
                }
                if x < 6 {
                    expected += 1;
                }
                if y > 0 {
                    expected += 1;
                }
                if y < 6 {
                    expected += 1;
                }
                assert_eq!(count_liberties(board, x, y), expected);
            }
        }
    }
}

#[test]
fn lone_stone_interior_edge_corner() {
    assert_eq!(count_liberties(set_stone_at_position(CREATED_BOARD, 3, 3, 1), 3, 3), 4);
    assert_eq!(count_liberties(set_stone_at_position(CREATED_BOARD, 0, 3, 1), 0, 3), 3);
    assert_eq!(count_liberties(set_stone_at_position(CREATED_BOARD, 3, 6, 2), 3, 6), 3);
    assert_eq!(count_liberties(set_stone_at_position(CREATED_BOARD, 0, 0, 2), 0, 0), 2);
    assert_eq!(count_liberties(set_stone_at_position(CREATED_BOARD, 6, 6, 1), 6, 6), 2);
}

#[test]
fn empty_cell_and_off_board_have_no_liberties() {
    let board = set_stone_at_position(CREATED_BOARD, 3, 3, 1);
    assert_eq!(count_liberties(board, 2, 3), 0);
    assert_eq!(count_liberties(board, 7, 0), 0);
    assert_eq!(count_liberties(board, 3, 7), 0);
    assert_eq!(count_liberties(0, 0, 0), 0);
}

#[test]
fn shared_liberty_counts_once() {
    let board = board_from([
        ". . . . . . .",
        ". . . . . . .",
        ". . . . . . .",
        ". . . W W . .",
        ". . . . W . .",
        ". . . . . . .",
        ". . . . . . .",
    ]);
    assert_eq!(count_liberties(board, 3, 3), 7);
    assert_eq!(count_liberties(board, 4, 4), 7);
    assert_eq!(count_liberties(board, 4, 3), 7);
}

#[test]
fn stones_of_the_other_colour_take_liberties() {
    let board = board_from([
        ". . . . . . .",
        ". . . . . . .",
        ". . . B . . .",
        ". . B W W . .",
        ". . . . B . .",
        ". . . . . . .",
        ". . . . . . .",
    ]);
    assert_eq!(count_liberties(board, 3, 3), 3);
    assert_eq!(count_liberties(board, 3, 2), 3);
    assert_eq!(count_liberties(board, 4, 4), 3);
}

#[test]
fn group_does_not_wrap_around_the_edge() {
    let board = board_from([
        ". . . . . . W",
        "W . . . . . .",
        ". . . . . . .",
        ". . . . . . .",
        ". . . . . . .",
        ". . . . . . .",
        ". . . . . . .",
    ]);
    assert_eq!(count_liberties(board, 6, 0), 2);
    assert_eq!(count_liberties(board, 0, 1), 3);
    let (after, count, stones) = remove_group(board, 6, 0);
    assert_eq!(count, 1);
    assert_eq!(stones, vec![(6, 0)]);
    assert_eq!(get_stone_at_position(after, 0, 1), 1);
}

#[test]
fn winding_group_is_walked_whole() {
    let board = board_from([
        "W W W W W W W",
        ". . . . . . W",
        "W W W W W . W",
        "W . . . W . W",
        "W . W W W . W",
        "W . . . . . W",
        "W W W W W W W",
    ]);
    assert_eq!(count_liberties(board, 0, 0), 18);
    let (after, count, stones) = remove_group(board, 3, 4);
    assert_eq!(count, 31);
    assert_eq!(stones.len(), 31);
    assert_eq!(stones[0], (3, 4));
    assert_eq!(after, CREATED_BOARD);
}

#[test]
fn remove_group_takes_only_that_group() {
    let board = board_from([
        ". . . . . . .",
        ". B B . . . .",
        ". B W W . . .",
        ". . . W . B .",
        ". . . . . . .",
        ". . . . . . .",
        ". . . . . . .",
    ]);
    let (after, count, stones) = remove_group(board, 1, 1);
    assert_eq!(count, 3);
    assert_eq!(stones[0], (1, 1));
    let mut sorted = stones.clone();
    sorted.sort();
    assert_eq!(sorted, vec![(1, 1), (1, 2), (2, 1)]);
    let expected = board_from([
        ". . . . . . .",
        ". . . . . . .",
        ". . W W . . .",
        ". . . W . B .",
        ". . . . . . .",
        ". . . . . . .",
        ". . . . . . .",
    ]);
    assert_eq!(after, expected);
}

#[test]
fn remove_group_of_nothing_changes_nothing() {
    let board = set_stone_at_position(CREATED_BOARD, 3, 3, 1);
    assert_eq!(remove_group(board, 0, 0), (board, 0, Vec::new()));
    assert_eq!(remove_group(board, 9, 9), (board, 0, Vec::new()));
}

#[test]
fn bit_masks_count_their_cells() {
    assert_eq!(count_cells(0), 0);
    let mask = with_bit(with_bit(with_bit(0, 0), 48), 20);
    assert!(bit_is_set(mask, 48));
    assert!(bit_is_set(mask, 0));
    assert!(!bit_is_set(mask, 1));
    assert_eq!(count_cells(mask), 3);
    assert_eq!(with_bit(mask, 20), mask);
    assert_eq!(count_cells(with_bit(mask, 100)), 3);
}
