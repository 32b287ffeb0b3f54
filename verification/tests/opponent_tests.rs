use go_game::board::{get_stone_at_position, set_stone_at_position, CREATED_BOARD};
use go_game::opponent::{choose_contract_move, is_playable, CONTRACT_STONE};

fn board_from(rows: [&str; 7]) -> u128 {
    let mut board = CREATED_BOARD;
    for (y, row) in rows.iter().enumerate() {
        let cells: Vec<char> = row.chars().filter(|c| *c != ' ').collect();
        assert_eq!(cells.len(), 7);
        for (x, cell) in cells.iter().enumerate() {
            let stone = match cell {
                'W' => 1,
                'B' => 2,
                _ => 0,
            };
            board = set_stone_at_position(board, x as u8, y as u8, stone);
        }
    }
    board
}

fn search_order() -> Vec<(u8, u8)> {
    let mut order = vec![(3, 3), (4, 3), (2, 3), (3, 4), (3, 2), (4, 4), (2, 4), (4, 2), (2, 2)];
    for y in 1..6u8 {
        for x in 1..6u8 {
            if x == 1 || x == 5 || y == 1 || y == 5 {
                order.push((x, y));
            }
        }
    }
    for y in 0..7u8 {
        for x in 0..7u8 {
            if x == 0 || x == 6 || y == 0 || y == 6 {
                order.push((x, y));
            }
        }
    }
    order
}

#[test]
fn opponent_starts_in_the_centre() {
    assert_eq!(CONTRACT_STONE, 2);
    assert_eq!(choose_contract_move(CREATED_BOARD, 0, 0), Some((3, 3)));
}

#[test]
fn opponent_walks_its_search_order() {
    let order = search_order();
    assert_eq!(order.len(), 49);
    let mut board = CREATED_BOARD;
    for cell in order.iter().take(48) {
        assert_eq!(choose_contract_move(board, 0, 0), Some(*cell));
        board = set_stone_at_position(board, cell.0, cell.1, 2);
    }
    assert_eq!(choose_contract_move(board, 0, 0), None);
}

#[test]
fn opponent_skips_occupied_cells_of_either_colour() {
    let board = board_from([
        ". . . . . . .",
        ". . . . . . .",
        ". . . . . . .",
        ". . B W W . .",
        ". . . . . . .",
        ". . . . . . .",
        ". . . . . . .",
    ]);
    assert_eq!(choose_contract_move(board, 0, 0), Some((3, 4)));
}

#[test]
fn opponent_skips_the_ko_point() {
    assert_eq!(choose_contract_move(CREATED_BOARD, 3, 3), Some((4, 3)));
    assert_eq!(choose_contract_move(CREATED_BOARD, 4, 3), Some((3, 3)));
    assert!(!is_playable(CREATED_BOARD, 3, 3, 3, 3));
    assert!(is_playable(CREATED_BOARD, 3, 3, 3, 4));
}

#[test]
fn opponent_skips_suicide() {
    let board = board_from([
        ". . . . . . .",
        ". . . . . . .",
        ". . . W . . .",
        ". . W . W . .",
        ". . . W . . .",
        ". . . . . . .",
        ". . . . . . .",
    ]);
    assert!(!is_playable(board, 0, 0, 3, 3));
    assert_eq!(choose_contract_move(board, 0, 0), Some((4, 4)));
}

#[test]
fn opponent_takes_a_capturing_move_in_the_centre() {
    let board = board_from([
        ". . . . . . .",
        ". . . B . . .",
        ". . B W B . .",
        ". . W . W . .",
        ". . . W . . .",
        ". . . . . . .",
        ". . . . . . .",
    ]);
    assert!(is_playable(board, 0, 0, 3, 3));
    assert_eq!(choose_contract_move(board, 0, 0), Some((3, 3)));
}

#[test]
fn opponent_moves_on_to_the_second_ring() {
    let board = board_from([
        ". . . . . . .",
        ". . . . . . .",
        ". . W W W . .",
        ". . W W W . .",
        ". . W W W . .",
        ". . . . . . .",
        ". . . . . . .",
    ]);
    assert_eq!(choose_contract_move(board, 0, 0), Some((1, 1)));
    assert_eq!(choose_contract_move(board, 1, 1), Some((2, 1)));
}

#[test]
fn opponent_moves_on_to_the_rim() {
    let board = board_from([
        ". . . . . . .",
        ". W W W W W .",
        ". W W W W W .",
        ". W W . W W .",
        ". W W W W W .",
        ". W W W W W .",
        ". . . . . . .",
    ]);
    assert_eq!(get_stone_at_position(board, 3, 3), 0);
    assert_eq!(choose_contract_move(board, 0, 0), Some((0, 0)));
    assert_eq!(choose_contract_move(board, 0, 0).map(|c| c.0 + c.1), Some(0));
}

#[test]
fn opponent_has_no_move_on_a_full_board() {
    let mut board = CREATED_BOARD;
    for y in 0..7u8 {
        for x in 0..7u8 {
            board = set_stone_at_position(board, x, y, 1);
        }
    }
    assert_eq!(choose_contract_move(board, 0, 0), None);
}

#[test]
fn opponent_has_no_move_where_every_empty_cell_is_suicide() {
    let board = board_from([
        ". W W W W W W",
        "W W W W W W W",
        "W W W W W W W",
        "W W W . W W W",
        "W W W W W W W",
        "W W W W W W W",
        "W W W W W W .",
    ]);
    assert_eq!(choose_contract_move(board, 0, 0), None);
}
