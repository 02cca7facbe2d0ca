use minesweeper::game::{Game, GameState};
use minesweeper::overlay::OverlayCell;

#[test]
fn test_actions_before_begin_are_noops() {
    let mut g = Game::new();
    assert!(matches!(g.get_state(), GameState::Waiting));
    g.dig(0, 0);
    g.toggle_flag(0, 0);
    assert!(matches!(g.get_state(), GameState::Waiting));
    assert_eq!(g.get_rows(), 0);
    assert_eq!(g.get_cols(), 0);
    assert_eq!(g.get_remaining_mines(), 0);
    assert_eq!(g.get_cell(0, 0), None);
}

#[test]
fn test_begin_game_rejects_invalid_silently() {
    let mut g = Game::new();
    g.begin_game(10, 10, 101);
    assert!(matches!(g.get_state(), GameState::Waiting));
    assert_eq!(g.get_rows(), 0);

    g.begin_game(5, 6, 7);
    assert!(matches!(g.get_state(), GameState::Playing));
    assert_eq!(g.get_rows(), 5);
    assert_eq!(g.get_cols(), 6);
    assert_eq!(g.get_remaining_mines(), 7);

    // an invalid restart leaves the running game untouched
    g.begin_game(-1, 6, 0);
    assert!(matches!(g.get_state(), GameState::Playing));
    assert_eq!(g.get_rows(), 5);
    assert_eq!(g.get_cols(), 6);
}

#[test]
fn test_one_by_one_no_mine_wins_instantly() {
    let mut g = Game::new();
    g.begin_game(1, 1, 0);
    assert!(matches!(g.get_state(), GameState::Playing));
    g.dig(0, 0);
    assert_eq!(g.get_cell(0, 0), Some(OverlayCell::Uncovered(0)));
    assert!(matches!(g.get_state(), GameState::GameWon));
}

#[test]
fn test_digging_a_mine_loses_and_reveals() {
    let mut g = Game::new();
    g.begin_game(2, 2, 4);
    g.dig(1, 0);
    assert!(matches!(g.get_state(), GameState::GameOver));
    assert_eq!(g.get_cell(1, 0), Some(OverlayCell::Exploded));
    assert_eq!(g.get_cell(0, 0), Some(OverlayCell::Mine));
    assert_eq!(g.get_cell(0, 1), Some(OverlayCell::Mine));
    assert_eq!(g.get_cell(1, 1), Some(OverlayCell::Mine));

    // terminal: further actions change nothing
    g.dig(1, 1);
    g.toggle_flag(1, 1);
    assert_eq!(g.get_cell(1, 1), Some(OverlayCell::Mine));
    assert!(matches!(g.get_state(), GameState::GameOver));
}

#[test]
fn test_flood_fill_uncovers_connected_zero_region() {
    let mut g = Game::new();
    g.begin_game(4, 4, 0);
    g.dig(0, 0);
    for r in 0..4 {
        for c in 0..4 {
            assert_eq!(g.get_cell(r, c), Some(OverlayCell::Uncovered(0)));
        }
    }
    assert!(matches!(g.get_state(), GameState::GameWon));
}

#[test]
fn test_victory_transition_flags_remaining_mines() {
    let mut g = Game::new();
    g.begin_game(1, 2, 1);
    g.dig(0, 0);
    match g.get_state() {
        GameState::GameOver => {
            // the mine sat under the dug cell
            assert_eq!(g.get_cell(0, 0), Some(OverlayCell::Exploded));
        },
        GameState::GameWon => {
            // the safe cell was dug: one flag plus no covered cells equals
            // the mine count, and the covered mine was flagged for us
            assert_eq!(g.get_cell(0, 0), Some(OverlayCell::Uncovered(1)));
            assert_eq!(g.get_cell(0, 1), Some(OverlayCell::Flagged));
            assert_eq!(g.get_remaining_mines(), 0);
        },
        _ => panic!("digging must settle a 1x2 board with one mine"),
    }
}

#[test]
fn test_toggle_flag_round_trip() {
    let mut g = Game::new();
    g.begin_game(3, 3, 8);
    assert_eq!(g.get_remaining_mines(), 8);
    g.toggle_flag(2, 2);
    assert_eq!(g.get_cell(2, 2), Some(OverlayCell::Flagged));
    assert_eq!(g.get_remaining_mines(), 7);
    g.toggle_flag(2, 2);
    assert_eq!(g.get_cell(2, 2), Some(OverlayCell::Covered));
    assert_eq!(g.get_remaining_mines(), 8);
    // digging a flagged cell is a no-op by design
    g.toggle_flag(2, 2);
    g.dig(2, 2);
    assert_eq!(g.get_cell(2, 2), Some(OverlayCell::Flagged));
    assert!(matches!(g.get_state(), GameState::Playing));
}

#[test]
fn test_over_flagging_goes_negative() {
    let mut g = Game::new();
    g.begin_game(2, 2, 1);
    g.toggle_flag(0, 0);
    g.toggle_flag(0, 1);
    g.toggle_flag(1, 0);
    assert_eq!(g.get_remaining_mines(), -2);
}

#[test]
fn test_game_queries_accept_any_coordinates() {
    let mut g = Game::new();
    g.begin_game(3, 3, 1);
    assert_eq!(g.get_cell(i32::MIN, i32::MAX), None);
    assert_eq!(g.get_cell(-1, -1), None);
    g.dig(i32::MIN, i32::MAX);
    g.toggle_flag(17, -40);
    assert!(matches!(g.get_state(), GameState::Playing));
}

#[test]
fn test_default_game_waits() {
    let g = Game::default();
    assert!(matches!(g.get_state(), GameState::Waiting));
    assert_eq!(g.get_rows(), 0);
}
