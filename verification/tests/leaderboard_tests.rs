use go_game::game::{GameRecord, GoGame};
use go_game::leaderboard::{rank_entries, LEADERBOARD_SIZE};
use go_game::types::PlayerId;

fn player(n: u128) -> PlayerId {
    PlayerId { high: 0, low: n }
}

fn nobody() -> PlayerId {
    PlayerId { high: 0, low: 0 }
}

fn with_points(points: u32) -> GoGame {
    GoGame {
        record: GameRecord {
            board: 0,
            white_captures: 0,
            black_captures: 0,
            last_move_x: 0,
            last_move_y: 0,
            player_passed: false,
            contract_passed: false,
            game_ended: false,
        },
        player_points: points,
        player_index: 0,
        total_players: 0,
    }
}

#[test]
fn three_players_are_ordered_by_points() {
    let roster = vec![(player(1), 10), (player(2), 30), (player(3), 20)];
    let top = GoGame::get_top_players(&roster);
    assert_eq!(top, vec![(player(2), 30), (player(3), 20), (player(1), 10)]);
    assert_eq!(with_points(20).get_player_rank(player(3), &roster), 2);
    assert_eq!(with_points(30).get_player_rank(player(2), &roster), 1);
    assert_eq!(with_points(10).get_player_rank(player(1), &roster), 3);
}

#[test]
fn equal_points_keep_the_order_of_the_numbers() {
    let roster = vec![
        (player(1), 5),
        (player(2), 7),
        (player(3), 5),
        (player(4), 7),
        (player(5), 5),
    ];
    let top = GoGame::get_top_players(&roster);
    assert_eq!(
        top,
        vec![(player(2), 7), (player(4), 7), (player(1), 5), (player(3), 5), (player(5), 5)]
    );
    assert_eq!(rank_entries(&roster), top);
}

#[test]
fn numbers_without_a_player_are_left_out() {
    let roster = vec![(nobody(), 50), (player(1), 2), (nobody(), 0), (player(2), 3)];
    assert_eq!(GoGame::get_top_players(&roster), vec![(player(2), 3), (player(1), 2)]);
    assert_eq!(with_points(2).get_player_rank(player(1), &roster), 2);
    assert_eq!(with_points(3).get_player_rank(player(2), &roster), 1);
}

#[test]
fn identity_uses_all_its_bits() {
    let upper = PlayerId { high: 1, low: 0 };
    assert!(!upper.is_zero());
    assert!(nobody().is_zero());
    let roster = vec![(upper, 4), (player(1), 9)];
    assert_eq!(GoGame::get_top_players(&roster), vec![(player(1), 9), (upper, 4)]);
}

#[test]
fn leaderboard_stops_after_ten() {
    assert_eq!(LEADERBOARD_SIZE, 10);
    let mut roster = Vec::new();
    for n in 1..=15u32 {
        roster.push((player(n as u128), n));
    }
    let top = GoGame::get_top_players(&roster);
    assert_eq!(top.len(), 10);
    for (place, entry) in top.iter().enumerate() {
        let points = 15 - place as u32;
        assert_eq!(*entry, (player(points as u128), points));
    }
}

#[test]
fn leaderboard_of_nobody_is_empty() {
    assert_eq!(GoGame::get_top_players(&Vec::new()), Vec::new());
    assert_eq!(GoGame::get_top_players(&vec![(nobody(), 3)]), Vec::new());
}

#[test]
fn player_without_points_has_rank_zero() {
    let roster = vec![(player(1), 10), (player(2), 30)];
    assert_eq!(with_points(0).get_player_rank(player(9), &roster), 0);
    assert_eq!(with_points(0).get_player_rank(player(1), &roster), 0);
}

#[test]
fn rank_counts_only_others_with_more_points() {
    let roster = vec![(player(1), 10), (player(2), 10), (player(3), 40), (player(4), 11)];
    assert_eq!(with_points(10).get_player_rank(player(1), &roster), 3);
    assert_eq!(with_points(10).get_player_rank(player(2), &roster), 3);
    assert_eq!(with_points(40).get_player_rank(player(3), &roster), 1);
    assert_eq!(with_points(5).get_player_rank(player(4), &roster), 4);
    assert_eq!(with_points(5).get_player_rank(player(8), &roster), 5);
}

#[test]
fn rank_entries_orders_from_most_to_fewest() {
    let entries = vec![(player(1), 1), (player(2), 3), (player(3), 2), (player(4), 3)];
    assert_eq!(
        rank_entries(&entries),
        vec![(player(2), 3), (player(4), 3), (player(3), 2), (player(1), 1)]
    );
    assert_eq!(rank_entries(&Vec::new()), Vec::new());
}
