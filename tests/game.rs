use std::time::Duration;

use game_of_life::board::cell::{Cell, STATUS};
use game_of_life::board::Board;
use game_of_life::game::{Constants, MyGame, UiButton};
use game_of_life::MAP_SIZE;

fn alive_sorted(b: &Board) -> Vec<(i32, i32)> {
    let mut v: Vec<(i32, i32)> = b.active_cells().iter().map(|c| (c.x, c.y)).collect();
    v.sort();
    v
}

fn blinker_game() -> MyGame {
    MyGame::new(Board::new(10, vec!["OOO"]), Duration::new(1, 0))
}

#[test]
fn constants_start_at_zero_turns() {
    let c = Constants::new(Duration::new(2, 5));
    assert_eq!(c.refresh_rate, Duration::new(2, 5));
    assert_eq!(c.turns, 0);
}

#[test]
fn new_game_is_stopped() {
    let mut g = blinker_game();
    assert_eq!(g.constants().turns, 0);
    assert_eq!(g.constants().refresh_rate, Duration::new(1, 0));
    assert!(!g.update(true));
    assert_eq!(alive_sorted(g.board()), vec![(4, 5), (5, 5), (6, 5)]);
}

#[test]
fn next_button_steps_once() {
    let mut g = blinker_game();
    assert_eq!(g.update_button(Some(UiButton::NEXT)), None);
    assert!(g.update(false));
    assert_eq!(g.constants().turns, 1);
    assert_eq!(alive_sorted(g.board()), vec![(5, 4), (5, 5), (5, 6)]);
    assert!(!g.update(false));
    assert_eq!(g.constants().turns, 1);
}

#[test]
fn prev_button_rewinds_once() {
    let mut g = blinker_game();
    g.next();
    g.next();
    assert_eq!(g.constants().turns, 2);
    g.update_button(Some(UiButton::PREV));
    assert!(!g.update(false));
    assert_eq!(g.constants().turns, 1);
    assert_eq!(alive_sorted(g.board()), vec![(5, 4), (5, 5), (5, 6)]);
}

#[test]
fn prev_does_nothing_before_any_step() {
    let mut g = blinker_game();
    g.prev();
    assert_eq!(g.constants().turns, 0);
    assert_eq!(alive_sorted(g.board()), vec![(4, 5), (5, 5), (6, 5)]);
    g.update_button(Some(UiButton::PREV));
    g.update(false);
    assert_eq!(g.constants().turns, 0);
    assert_eq!(alive_sorted(g.board()), vec![(4, 5), (5, 5), (6, 5)]);
}

#[test]
fn play_steps_when_interval_elapsed() {
    let mut g = blinker_game();
    g.update_button(Some(UiButton::PLAY));
    assert!(!g.update(false));
    assert!(g.update(true));
    assert!(g.update(true));
    assert_eq!(g.constants().turns, 2);
    assert_eq!(alive_sorted(g.board()), vec![(4, 5), (5, 5), (6, 5)]);
    g.update_button(Some(UiButton::STOP));
    assert!(!g.update(true));
    assert_eq!(g.constants().turns, 2);
}

#[test]
fn pending_steps_are_taken_one_per_frame() {
    let mut g = blinker_game();
    g.update_button(Some(UiButton::NEXT));
    g.update_button(Some(UiButton::NEXT));
    g.update_button(Some(UiButton::NEXT));
    assert!(g.update(false));
    assert!(g.update(false));
    assert!(g.update(false));
    assert!(!g.update(false));
    assert_eq!(g.constants().turns, 3);
}

#[test]
fn save_buttons_give_snapshot_text() {
    let mut g = blinker_game();
    g.next();
    assert_eq!(g.update_button(Some(UiButton::SAVE_MAP)), Some(String::from("O\nO\nO\n")));
    assert_eq!(g.update_button(Some(UiButton::SAVE_INIT_MAP)), Some(String::from("OOO\n")));
    assert_eq!(g.update_button(None), None);
}

#[test]
fn toggling_a_cell() {
    let mut g = blinker_game();
    g.inverse_cell(5, 5);
    assert_eq!(alive_sorted(g.board()), vec![(4, 5), (6, 5)]);
    g.inverse_cell(0, 0);
    assert_eq!(alive_sorted(g.board()), vec![(0, 0), (4, 5), (6, 5)]);
    g.inverse_cell(-3, 0);
    assert_eq!(alive_sorted(g.board()), vec![(0, 0), (4, 5), (6, 5)]);
}

#[test]
fn board_inverse_cell() {
    let mut b = Board::new(5, vec!["O"]);
    assert_eq!(*b.inverse_cell(2, 2).unwrap(), Cell::new(2, 2, STATUS::DEAD));
    assert_eq!(*b.inverse_cell(1, 1).unwrap(), Cell::new(1, 1, STATUS::ALIVE));
    assert!(b.inverse_cell(5, 5).is_none());
    assert_eq!(alive_sorted(&b), vec![(1, 1)]);
}

#[test]
fn set_refresh_rate_changes_pace_only() {
    let mut g = blinker_game();
    g.set_refresh_rate(Duration::from_millis(250));
    assert_eq!(g.constants().refresh_rate, Duration::from_millis(250));
    assert_eq!(g.constants().turns, 0);
}

#[test]
fn map_size_board_from_text() {
    let b = Board::from_text(MAP_SIZE, "OO\nOO\n").unwrap();
    assert_eq!(b.nb_row(), 200);
    assert_eq!(alive_sorted(&b), vec![(99, 99), (99, 100), (100, 99), (100, 100)]);
}
