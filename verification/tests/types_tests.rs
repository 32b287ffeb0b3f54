use go_game::errors::GameError;
use go_game::types::{Color, GameResult, PlayerId, PlayerStats, Position};

#[test]
fn colours_have_their_numbers() {
    assert_eq!(Color::Empty.to_code(), 0);
    assert_eq!(Color::White.to_code(), 1);
    assert_eq!(Color::Black.to_code(), 2);
    assert_eq!(Color::from_code(0), Some(Color::Empty));
    assert_eq!(Color::from_code(1), Some(Color::White));
    assert_eq!(Color::from_code(2), Some(Color::Black));
    assert_eq!(Color::from_code(3), None);
}

#[test]
fn plain_values_compare_by_their_fields() {
    assert_eq!(Position { x: 1, y: 2 }, Position { x: 1, y: 2 });
    assert_ne!(Position { x: 1, y: 2 }, Position { x: 2, y: 1 });
    let result = GameResult { white_captures: 5, black_captures: 3, winner: Color::White };
    assert_eq!(result.winner.to_code(), 1);
    let stats = PlayerStats {
        player: PlayerId { high: 7, low: 9 },
        total_captures: 4,
        games_played: 2,
    };
    assert_eq!(stats.player, PlayerId { high: 7, low: 9 });
    assert_eq!(stats.total_captures + stats.games_played, 6);
}

#[test]
fn each_refusal_has_its_own_text() {
    assert_eq!(GameError::NoActiveGame.message(), "No active game found");
    assert_eq!(GameError::GameEnded.message(), "Game already ended");
    assert_eq!(GameError::InvalidPosition.message(), "Invalid position");
    assert_eq!(GameError::Occupied.message(), "Position is already occupied");
    assert_eq!(GameError::KoViolation.message(), "Move violates Ko rule");
    assert_eq!(GameError::Suicide.message(), "Move would be suicide");
}
