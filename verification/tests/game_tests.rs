use go_game::board::{get_stone_at_position, set_stone_at_position, CREATED_BOARD};
use go_game::errors::GameError;
use go_game::game::{is_board_full, GameRecord, GoGame, PLAYER_STONE};
use go_game::group::count_liberties;

fn board_from(rows: [&str; 7]) -> u128 {
    let mut board = CREATED_BOARD;
    for (y, row) in rows.iter().enumerate() {
        let cells: Vec<char> = row.chars().filter(|c| *c != ' ').collect();
        assert_eq!(cells.len(), 7);
        for (x, cell) in cells.iter().enumerate() {
            let stone = match cell {
                'W' => 1,
                'B' => 2,
                _ => 0,
            };
            board = set_stone_at_position(board, x as u8, y as u8, stone);
        }
    }
    board
}

fn no_record() -> GameRecord {
    GameRecord {
        board: 0,
        white_captures: 0,
        black_captures: 0,
        last_move_x: 0,
        last_move_y: 0,
        player_passed: false,
        contract_passed: false,
        game_ended: false,
    }
}

fn newcomer() -> GoGame {
    GoGame { record: no_record(), player_points: 0, player_index: 0, total_players: 0 }
}

fn game_on(board: u128) -> GoGame {
    let mut game = newcomer();
    game.create_game();
    game.record.board = board;
    game
}

fn full_board(stone: u8) -> u128 {
    let mut board = CREATED_BOARD;
    for y in 0..7u8 {
        for x in 0..7u8 {
            board = set_stone_at_position(board, x, y, stone);
        }
    }
    board
}

#[test]
fn newcomer_has_no_game() {
    let game = newcomer();
    assert!(!game.has_game());
    assert_eq!(game.get_board(), 0);
    assert!(!game.is_game_ended());
    assert_eq!(game.get_player_points(), 0);
    assert_eq!(game.get_total_players(), 0);
}

#[test]
fn create_game_gives_an_empty_created_board() {
    let mut game = newcomer();
    game.create_game();
    assert!(game.has_game());
    assert_eq!(game.get_board(), CREATED_BOARD);
    assert_ne!(game.get_board(), 0);
    assert_eq!(game.get_total_players(), 1);
    assert_eq!(game.player_index, 0);
    let grid = game.get_board_as_array();
    assert_eq!(grid, vec![vec![0u8; 7]; 7]);
    assert_eq!(game.record, GameRecord { board: CREATED_BOARD, ..no_record() });
}

#[test]
fn create_game_resets_a_running_game() {
    let mut game = game_on(board_from([
        ". . . . . . .",
        ". . . . . . .",
        ". . . . . . .",
        ". . . W B . .",
        ". . . . . . .",
        ". . . . . . .",
        ". . . . . . .",
    ]));
    game.record.white_captures = 4;
    game.record.black_captures = 2;
    game.record.last_move_x = 3;
    game.record.last_move_y = 3;
    game.record.player_passed = true;
    game.record.contract_passed = true;
    game.player_points = 7;
    game.player_index = 5;
    game.total_players = 9;
    game.create_game();
    assert_eq!(game.record, GameRecord { board: CREATED_BOARD, ..no_record() });
    assert_eq!(game.player_points, 7);
    assert_eq!(game.player_index, 5);
    assert_eq!(game.total_players, 9);
}

#[test]
fn create_game_counts_a_newcomer_once() {
    let mut game = newcomer();
    game.total_players = 4;
    game.create_game();
    assert_eq!(game.get_total_players(), 5);
    let first = game;
    game.create_game();
    assert_eq!(game.get_total_players(), 5);
    assert_eq!(game, first);
    assert_eq!(game.set_piece(3, 3), Ok(()));
    game.create_game();
    assert_eq!(game.get_total_players(), 5);
    assert_eq!(game, first);
}

#[test]
fn create_game_does_not_count_a_player_with_points() {
    let mut game = newcomer();
    game.player_points = 1;
    game.total_players = 4;
    game.create_game();
    assert_eq!(game.get_total_players(), 4);
    assert!(game.has_game());
}

#[test]
fn create_and_first_scoring_both_count() {
    let mut game = newcomer();
    game.total_players = 4;
    game.create_game();
    assert_eq!(game.get_total_players(), 5);
    assert_eq!(game.end_game(), Ok(()));
    assert_eq!(game.player_index, 6);
    assert_eq!(game.get_total_players(), 6);
    game.create_game();
    assert_eq!(game.get_total_players(), 6);
}

#[test]
fn participant_count_wraps_around() {
    let mut game = newcomer();
    game.total_players = u32::MAX;
    game.create_game();
    assert_eq!(game.get_total_players(), 0);
}

#[test]
fn player_move_is_answered_by_the_opponent() {
    let mut game = newcomer();
    game.create_game();
    assert_eq!(game.set_piece(3, 3), Ok(()));
    let expected = board_from([
        ". . . . . . .",
        ". . . . . . .",
        ". . . . . . .",
        ". . . W B . .",
        ". . . . . . .",
        ". . . . . . .",
        ". . . . . . .",
    ]);
    assert_eq!(game.get_board(), expected);
    assert!(game.has_game());
    assert!(!game.record.player_passed);
    assert!(!game.record.contract_passed);
    assert_eq!((game.record.last_move_x, game.record.last_move_y), (0, 0));
    assert_eq!(game.get_game_result(), (0, 0, 0));
    assert_eq!(PLAYER_STONE, 1);
}

#[test]
fn player_move_elsewhere_lets_the_opponent_take_the_centre() {
    let mut game = newcomer();
    game.create_game();
    assert_eq!(game.set_piece(0, 0), Ok(()));
    assert_eq!(get_stone_at_position(game.get_board(), 0, 0), 1);
    assert_eq!(get_stone_at_position(game.get_board(), 3, 3), 2);
}

#[test]
fn move_without_a_game_is_refused() {
    let mut game = newcomer();
    assert_eq!(game.set_piece(3, 3), Err(GameError::NoActiveGame));
    assert_eq!(game.pass_turn(), Err(GameError::NoActiveGame));
    assert_eq!(game, newcomer());
}

#[test]
fn move_after_the_end_is_refused() {
    let mut game = newcomer();
    game.create_game();
    assert_eq!(game.end_game(), Ok(()));
    let before = game;
    assert_eq!(game.set_piece(3, 3), Err(GameError::NoActiveGame));
    assert_eq!(game.pass_turn(), Err(GameError::NoActiveGame));
    assert_eq!(game, before);
    game.record.board = CREATED_BOARD;
    assert_eq!(game.set_piece(3, 3), Err(GameError::NoActiveGame));
}

#[test]
fn move_off_the_board_is_refused() {
    let mut game = newcomer();
    game.create_game();
    let before = game;
    assert_eq!(game.set_piece(7, 3), Err(GameError::InvalidPosition));
    assert_eq!(game.set_piece(3, 7), Err(GameError::InvalidPosition));
    assert_eq!(game.set_piece(255, 255), Err(GameError::InvalidPosition));
    assert_eq!(game, before);
}

#[test]
fn move_on_a_stone_is_refused() {
    let mut game = newcomer();
    game.create_game();
    assert_eq!(game.set_piece(3, 3), Ok(()));
    let before = game;
    assert_eq!(game.set_piece(3, 3), Err(GameError::Occupied));
    assert_eq!(game.set_piece(4, 3), Err(GameError::Occupied));
    assert_eq!(game, before);
}

#[test]
fn move_on_the_ko_point_is_refused() {
    let mut game = newcomer();
    game.create_game();
    game.record.last_move_x = 2;
    game.record.last_move_y = 5;
    let before = game;
    assert_eq!(game.set_piece(2, 5), Err(GameError::KoViolation));
    assert_eq!(game, before);
    assert_eq!(game.set_piece(5, 2), Ok(()));
}

#[test]
fn suicide_is_refused() {
    let mut game = game_on(board_from([
        ". B . . . . .",
        "B . . . . . .",
        ". . . . . . .",
        ". . . . . . .",
        ". . . . . . .",
        ". . . . . . .",
        ". . . . . . .",
    ]));
    let before = game;
    assert_eq!(game.set_piece(0, 0), Err(GameError::Suicide));
    assert_eq!(game, before);
}

#[test]
fn capturing_two_stones_adds_two_to_the_player() {
    let mut game = game_on(board_from([
        ". . . . . . .",
        ". . . . . . .",
        ". . . W W . .",
        ". . W B B W .",
        ". . . W . . .",
        ". . . . . . .",
        ". . . . . . .",
    ]));
    game.record.white_captures = 5;
    assert_eq!(game.set_piece(4, 4), Ok(()));
    assert_eq!(game.record.white_captures, 7);
    assert_eq!(game.record.black_captures, 0);
    let expected = board_from([
        ". . . . . . .",
        ". . . . . . .",
        ". . . W W . .",
        ". . W B . W .",
        ". . . W W . .",
        ". . . . . . .",
        ". . . . . . .",
    ]);
    assert_eq!(game.get_board(), expected);
    assert_eq!(game.get_game_result(), (7, 0, 1));
}

#[test]
fn opponent_may_not_retake_the_ko() {
    let mut game = game_on(board_from([
        ". . . . . . .",
        ". . . . . . .",
        ". . . W B . .",
        ". . W B . B .",
        ". . . W B . .",
        ". . . . . . .",
        ". . . . . . .",
    ]));
    assert_eq!(game.set_piece(4, 3), Ok(()));
    let expected = board_from([
        ". . . . . . .",
        ". . . . . . .",
        ". . . W B . .",
        ". . W . W B .",
        ". . B W B . .",
        ". . . . . . .",
        ". . . . . . .",
    ]);
    assert_eq!(game.get_board(), expected);
    assert_eq!(game.record.white_captures, 1);
    assert_eq!((game.record.last_move_x, game.record.last_move_y), (0, 0));
}

#[test]
fn opponent_captures_count_for_the_opponent() {
    let mut game = game_on(board_from([
        ". . . . . . .",
        ". . . . . . .",
        ". . . B . . .",
        ". . . W B . .",
        ". . . B . . .",
        ". . . . . . .",
        ". . . . . . .",
    ]));
    assert_eq!(game.set_piece(0, 0), Ok(()));
    let expected = board_from([
        "W . . . . . .",
        ". . . . . . .",
        ". . . B . . .",
        ". . B . B . .",
        ". . . B . . .",
        ". . . . . . .",
        ". . . . . . .",
    ]);
    assert_eq!(game.get_board(), expected);
    assert_eq!(game.get_game_result(), (0, 1, 2));
    assert_eq!((game.record.last_move_x, game.record.last_move_y), (3, 3));
    assert_eq!(game.set_piece(3, 3), Err(GameError::KoViolation));
}

#[test]
fn pass_lets_the_opponent_move() {
    let mut game = newcomer();
    game.create_game();
    assert_eq!(game.pass_turn(), Ok(()));
    assert!(game.record.player_passed);
    assert!(!game.record.contract_passed);
    assert!(game.has_game());
    assert_eq!(game.get_board(), set_stone_at_position(CREATED_BOARD, 3, 3, 2));
    assert_eq!(game.set_piece(0, 0), Ok(()));
    assert!(!game.record.player_passed);
}

#[test]
fn both_passing_ends_the_game() {
    let mut game = game_on(full_board(1));
    game.record.white_captures = 1;
    game.record.black_captures = 4;
    game.total_players = 1;
    assert_eq!(game.pass_turn(), Ok(()));
    assert!(game.is_game_ended());
    assert!(!game.has_game());
    assert_eq!(game.get_board(), 0);
    assert_eq!(game.get_player_points(), 1);
    assert_eq!(game.player_index, 2);
    assert_eq!(game.get_total_players(), 2);
    assert_eq!(game.record, GameRecord { game_ended: true, ..no_record() });
}

#[test]
fn opponent_passing_alone_does_not_end_the_game() {
    let mut game = game_on(full_board(1));
    assert_eq!(game.make_contract_move(), Ok(()));
    assert!(game.record.contract_passed);
    assert!(!game.is_game_ended());
    assert_eq!(game.get_board(), full_board(1));
}

#[test]
fn full_board_ends_the_game_at_the_check() {
    let mut game = game_on(full_board(2));
    game.record.white_captures = 2;
    game.record.black_captures = 2;
    assert!(is_board_full(game.get_board()));
    assert_eq!(game.check_for_game_end(), Ok(()));
    assert!(game.is_game_ended());
    assert_eq!(game.get_player_points(), 2);
}

#[test]
fn check_leaves_a_running_game_alone() {
    let mut game = newcomer();
    game.create_game();
    game.record.player_passed = true;
    let before = game;
    assert!(!is_board_full(game.get_board()));
    assert_eq!(game.check_for_game_end(), Ok(()));
    assert_eq!(game, before);
    game.record.contract_passed = true;
    assert_eq!(game.check_for_game_end(), Ok(()));
    assert!(game.is_game_ended());
}

#[test]
fn board_is_full_only_without_empty_cells() {
    assert!(!is_board_full(CREATED_BOARD));
    assert!(is_board_full(full_board(1)));
    assert!(!is_board_full(set_stone_at_position(full_board(2), 6, 6, 0)));
    assert!(!is_board_full(set_stone_at_position(full_board(2), 0, 0, 0)));
}

#[test]
fn end_awards_three_points_to_the_leader() {
    let mut game = newcomer();
    game.create_game();
    game.record.white_captures = 5;
    game.record.black_captures = 3;
    assert_eq!(game.end_game(), Ok(()));
    assert_eq!(game.get_player_points(), 3);
}

#[test]
fn end_awards_two_points_for_a_tie() {
    let mut game = newcomer();
    game.create_game();
    game.record.white_captures = 2;
    game.record.black_captures = 2;
    game.player_points = 10;
    assert_eq!(game.end_game(), Ok(()));
    assert_eq!(game.get_player_points(), 12);
}

#[test]
fn end_awards_one_point_to_the_trailing_player() {
    let mut game = newcomer();
    game.create_game();
    game.record.white_captures = 1;
    game.record.black_captures = 4;
    game.player_points = 3;
    assert_eq!(game.end_game(), Ok(()));
    assert_eq!(game.get_player_points(), 4);
}

#[test]
fn end_closes_the_record() {
    let mut game = newcomer();
    game.create_game();
    assert_eq!(game.set_piece(3, 3), Ok(()));
    assert_eq!(game.end_game(), Ok(()));
    assert_eq!(game.record, GameRecord { game_ended: true, ..no_record() });
    assert_eq!(game.get_game_result(), (0, 0, 0));
}

#[test]
fn ending_twice_is_refused() {
    let mut game = newcomer();
    game.create_game();
    assert_eq!(game.end_game(), Ok(()));
    let before = game;
    assert_eq!(game.end_game(), Err(GameError::GameEnded));
    assert_eq!(game, before);
    game.record.player_passed = true;
    game.record.contract_passed = true;
    let before = game;
    assert_eq!(game.check_for_game_end(), Err(GameError::GameEnded));
    assert_eq!(game, before);
    game.record.board = full_board(1);
    game.record.contract_passed = false;
    let before = game;
    assert_eq!(game.make_contract_move(), Err(GameError::GameEnded));
    assert_eq!(game, before);
}

#[test]
fn first_scoring_gives_the_player_a_number() {
    let mut game = newcomer();
    game.create_game();
    assert_eq!(game.get_total_players(), 1);
    assert_eq!(game.end_game(), Ok(()));
    assert_eq!(game.player_index, 2);
    assert_eq!(game.get_total_players(), 2);
    game.create_game();
    assert_eq!(game.get_total_players(), 2);
    assert_eq!(game.end_game(), Ok(()));
    assert_eq!(game.player_index, 2);
    assert_eq!(game.get_total_players(), 2);
    assert_eq!(game.get_player_points(), 4);
}

#[test]
fn update_player_points_numbers_only_newcomers() {
    let mut game = newcomer();
    game.total_players = 6;
    game.update_player_points(9);
    assert_eq!((game.player_points, game.player_index, game.total_players), (9, 7, 7));
    game.update_player_points(0);
    assert_eq!((game.player_points, game.player_index, game.total_players), (0, 7, 7));
    game.update_player_points(5);
    assert_eq!((game.player_points, game.player_index, game.total_players), (5, 7, 7));
    let mut other = newcomer();
    other.player_points = 3;
    other.total_players = 7;
    other.update_player_points(4);
    assert_eq!((other.player_points, other.player_index, other.total_players), (4, 0, 7));
}

#[test]
fn update_game_stores_board_counts_and_ko_point() {
    let mut game = newcomer();
    game.create_game();
    game.record.player_passed = true;
    game.update_game(77, 3, 4, 5, 6);
    assert_eq!(
        game.record,
        GameRecord {
            board: 77,
            white_captures: 3,
            black_captures: 4,
            last_move_x: 5,
            last_move_y: 6,
            player_passed: true,
            contract_passed: false,
            game_ended: false,
        }
    );
}

#[test]
fn board_as_array_is_rows_of_columns() {
    let game = game_on(board_from([
        "W . . . . . B",
        ". . . . . . .",
        ". . . . . . .",
        ". . . . . . .",
        ". . . . . . .",
        ". B . . . . .",
        ". . . . . . W",
    ]));
    let grid = game.get_board_as_array();
    assert_eq!(grid.len(), 7);
    assert_eq!(grid[0], vec![1, 0, 0, 0, 0, 0, 2]);
    assert_eq!(grid[5], vec![0, 2, 0, 0, 0, 0, 0]);
    assert_eq!(grid[6], vec![0, 0, 0, 0, 0, 0, 1]);
    assert_eq!(grid[3], vec![0; 7]);
}

#[test]
fn game_result_names_who_is_ahead() {
    let mut game = newcomer();
    game.record.white_captures = 5;
    game.record.black_captures = 3;
    assert_eq!(game.get_game_result(), (5, 3, 1));
    game.record.black_captures = 6;
    assert_eq!(game.get_game_result(), (5, 6, 2));
    game.record.white_captures = 6;
    assert_eq!(game.get_game_result(), (6, 6, 0));
}

#[test]
fn every_group_keeps_a_liberty_through_play() {
    let mut game = newcomer();
    game.create_game();
    let mut accepted = 0;
    for round in 0..3 {
        for y in 0..7u8 {
            for x in 0..7u8 {
                let (px, py) = if round == 1 { (6 - x, 6 - y) } else { (x, y) };
                let before = game;
                match game.set_piece(px, py) {
                    Ok(()) => {
                        accepted += 1;
                        if game.is_game_ended() {
                            assert_eq!(game.get_board(), 0);
                            assert!(game.get_player_points() > before.get_player_points());
                            game.create_game();
                        }
                        let board = game.get_board();
                        assert_ne!(board, 0);
                        for cy in 0..7u8 {
                            for cx in 0..7u8 {
                                let stone = get_stone_at_position(board, cx, cy);
                                assert!(stone <= 2);
                                if stone != 0 {
                                    assert!(count_liberties(board, cx, cy) > 0);
                                }
                            }
                        }
                    }
                    Err(reason) => {
                        assert_eq!(game, before);
                        assert_ne!(reason, GameError::GameEnded);
                        assert_ne!(reason, GameError::InvalidPosition);
                        assert_ne!(reason, GameError::NoActiveGame);
                    }
                }
            }
        }
    }
    assert!(accepted > 20);
}

#[test]
fn numbers_fit_in_an_ordinary_game() {
    let mut game = newcomer();
    assert!(game.can_set_piece(3, 3));
    assert!(game.can_pass_turn());
    game.create_game();
    assert!(game.has_headroom());
    assert!(game.can_set_piece(3, 3));
    assert!(game.can_set_piece(9, 9));
    assert!(game.can_pass_turn());
    assert!(game.can_make_contract_move());
    assert!(game.can_end_game());
}

#[test]
fn refused_calls_fit_whatever_the_counters() {
    let mut game = newcomer();
    game.record.white_captures = u32::MAX;
    game.record.black_captures = u32::MAX;
    game.player_points = u32::MAX;
    game.total_players = u32::MAX;
    assert!(!game.has_headroom());
    assert!(game.can_set_piece(3, 3));
    assert!(game.can_pass_turn());
    assert_eq!(game.set_piece(3, 3), Err(GameError::NoActiveGame));
    assert_eq!(game.pass_turn(), Err(GameError::NoActiveGame));
    game.record.board = set_stone_at_position(CREATED_BOARD, 3, 3, 1);
    assert!(game.can_set_piece(3, 3));
    assert_eq!(game.set_piece(3, 3), Err(GameError::Occupied));
    assert!(game.can_set_piece(7, 0));
    assert_eq!(game.set_piece(7, 0), Err(GameError::InvalidPosition));
}

#[test]
fn moves_without_captures_fit_full_capture_counts() {
    let mut game = newcomer();
    game.create_game();
    game.record.white_captures = u32::MAX;
    game.record.black_captures = u32::MAX;
    assert!(!game.has_headroom());
    assert!(game.can_set_piece(0, 0));
    assert_eq!(game.set_piece(0, 0), Ok(()));
    assert_eq!(game.get_game_result(), (u32::MAX, u32::MAX, 0));
}

#[test]
fn a_capture_must_fit_the_count() {
    let board = board_from([
        ". . . . . . .",
        ". . . . . . .",
        ". . . W W . .",
        ". . W B B W .",
        ". . . W . . .",
        ". . . . . . .",
        ". . . . . . .",
    ]);
    let mut game = game_on(board);
    game.record.white_captures = u32::MAX - 1;
    assert!(!game.can_set_piece(4, 4));
    assert!(game.can_set_piece(0, 0));
    game.record.white_captures = u32::MAX - 2;
    assert!(game.can_set_piece(4, 4));
    assert_eq!(game.set_piece(4, 4), Ok(()));
    assert_eq!(game.record.white_captures, u32::MAX);
}

#[test]
fn opponent_capture_must_fit_the_count() {
    let board = board_from([
        ". . . . . . .",
        ". . . . . . .",
        ". . . B . . .",
        ". . . W B . .",
        ". . . B . . .",
        ". . . . . . .",
        ". . . . . . .",
    ]);
    let mut game = game_on(board);
    game.record.black_captures = u32::MAX;
    assert!(!game.can_make_contract_move());
    assert!(!game.can_set_piece(0, 0));
    assert!(!game.can_pass_turn());
    game.record.black_captures = u32::MAX - 1;
    assert!(game.can_set_piece(0, 0));
    assert_eq!(game.set_piece(0, 0), Ok(()));
    assert_eq!(game.record.black_captures, u32::MAX);
}

#[test]
fn the_award_must_fit_the_points() {
    let mut game = game_on(full_board(1));
    game.player_points = u32::MAX - 1;
    game.player_index = 1;
    assert!(!game.can_end_game());
    assert!(!game.can_pass_turn());
    assert!(game.can_make_contract_move());
    game.record.black_captures = 1;
    assert!(game.can_end_game());
    assert!(game.can_pass_turn());
    assert_eq!(game.pass_turn(), Ok(()));
    assert_eq!(game.get_player_points(), u32::MAX);
}

#[test]
fn a_new_number_must_fit_the_count() {
    let mut game = game_on(full_board(1));
    game.total_players = u32::MAX;
    assert!(!game.can_end_game());
    assert!(!game.can_pass_turn());
    game.player_index = 3;
    assert!(game.can_end_game());
    assert!(game.can_pass_turn());
    game.player_index = 0;
    game.record.game_ended = true;
    game.record.player_passed = true;
    assert!(game.can_make_contract_move());
    assert_eq!(game.make_contract_move(), Err(GameError::GameEnded));
}
