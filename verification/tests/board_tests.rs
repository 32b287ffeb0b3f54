use go_game::board::{
    get_stone_at_position, is_valid_position, set_stone_at_position, BOARD_SIZE, CREATED_BOARD,
};

#[test]
fn stone_written_is_read_back() {
    for y in 0..7u8 {
        for x in 0..7u8 {
            for stone in 0..3u8 {
                let board = set_stone_at_position(CREATED_BOARD, x, y, stone);
                assert_eq!(get_stone_at_position(board, x, y), stone);
            }
        }
    }
}

#[test]
fn writing_a_cell_leaves_the_others() {
    let mut board = CREATED_BOARD;
    board = set_stone_at_position(board, 0, 0, 1);
    board = set_stone_at_position(board, 6, 6, 2);
    board = set_stone_at_position(board, 3, 4, 1);
    let changed = set_stone_at_position(board, 4, 3, 2);
    for y in 0..7u8 {
        for x in 0..7u8 {
            if (x, y) != (4, 3) {
                assert_eq!(
                    get_stone_at_position(changed, x, y),
                    get_stone_at_position(board, x, y)
                );
            }
        }
    }
    assert_eq!(get_stone_at_position(changed, 4, 3), 2);
    assert_eq!(get_stone_at_position(changed, 3, 4), 1);
}

#[test]
fn overwriting_replaces_the_stone() {
    let board = set_stone_at_position(0, 2, 5, 2);
    let board = set_stone_at_position(board, 2, 5, 1);
    assert_eq!(get_stone_at_position(board, 2, 5), 1);
    let board = set_stone_at_position(board, 2, 5, 0);
    assert_eq!(board, 0);
}

#[test]
fn packed_layout_is_row_major_two_bits_per_cell() {
    assert_eq!(set_stone_at_position(0, 0, 0, 1), 1);
    assert_eq!(set_stone_at_position(0, 1, 0, 2), 2 << 2);
    assert_eq!(set_stone_at_position(0, 0, 1, 1), 1 << 14);
    assert_eq!(set_stone_at_position(0, 6, 6, 2), 2u128 << 96);
}

#[test]
fn cells_beyond_the_board_read_empty_and_are_not_written() {
    let full = u128::MAX;
    assert_eq!(get_stone_at_position(full, 0, 7), 0);
    assert_eq!(get_stone_at_position(full, 255, 255), 0);
    assert_eq!(get_stone_at_position(full, 6, 6), 3);
    assert_eq!(set_stone_at_position(CREATED_BOARD, 0, 7, 1), CREATED_BOARD);
    assert_eq!(set_stone_at_position(5, 200, 200, 2), 5);
}

#[test]
fn created_mark_survives_stones() {
    let mut board = CREATED_BOARD;
    for y in 0..7u8 {
        for x in 0..7u8 {
            board = set_stone_at_position(board, x, y, 2);
        }
    }
    assert_eq!(board >> 98, CREATED_BOARD >> 98);
    for y in 0..7u8 {
        for x in 0..7u8 {
            board = set_stone_at_position(board, x, y, 0);
        }
    }
    assert_eq!(board, CREATED_BOARD);
    assert_ne!(CREATED_BOARD, 0);
}

#[test]
fn positions_are_valid_below_seven() {
    assert_eq!(BOARD_SIZE, 7);
    assert!(is_valid_position(0, 0));
    assert!(is_valid_position(6, 6));
    assert!(!is_valid_position(7, 0));
    assert!(!is_valid_position(0, 7));
    assert!(!is_valid_position(255, 255));
}
