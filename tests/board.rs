use game_of_life::board::cell::{Cell, STATUS};
use game_of_life::board::{Board, HISTORY_CAPACITY};

fn alive_sorted(b: &Board) -> Vec<(i32, i32)> {
    let mut v: Vec<(i32, i32)> = b.active_cells().iter().map(|c| (c.x, c.y)).collect();
    v.sort();
    v
}

fn sorted(mut v: Vec<(i32, i32)>) -> Vec<(i32, i32)> {
    v.sort();
    v
}

fn grid_alive(b: &Board) -> Vec<(i32, i32)> {
    let n = b.nb_row();
    let mut v = Vec::new();
    for y in 0..n {
        for c in b.get_row(y).iter() {
            if c.is_alive() {
                v.push((c.x, c.y));
            }
        }
    }
    v.sort();
    v
}

#[test]
fn rule_table_alive() {
    for n in 0..=8usize {
        let r = Cell::new(3, 4, STATUS::ALIVE).apply_rules(n);
        let expected = if n == 2 || n == 3 { STATUS::ALIVE } else { STATUS::DEAD };
        assert_eq!(r, Cell::new(3, 4, expected), "alive with {} neighbours", n);
    }
}

#[test]
fn rule_table_dead() {
    for n in 0..=8usize {
        let r = Cell::new(3, 4, STATUS::DEAD).apply_rules(n);
        let expected = if n == 3 { STATUS::ALIVE } else { STATUS::DEAD };
        assert_eq!(r, Cell::new(3, 4, expected), "dead with {} neighbours", n);
    }
}

#[test]
fn status_glyphs() {
    assert_eq!(STATUS::DEAD.get_char(), '.');
    assert_eq!(STATUS::ALIVE.get_char(), 'O');
    assert_eq!(STATUS::get_from_char('.'), STATUS::DEAD);
    assert_eq!(STATUS::get_from_char('O'), STATUS::ALIVE);
    assert_eq!(STATUS::ALIVE.inverse(), STATUS::DEAD);
    assert_eq!(STATUS::DEAD.inverse(), STATUS::ALIVE);
    assert!(STATUS::ALIVE.is_alive());
    assert!(!STATUS::DEAD.is_alive());
    assert!(Cell::new(1, 2, STATUS::ALIVE).is_alive());
    assert!(!Cell::new(1, 2, STATUS::DEAD).is_alive());
}

#[test]
fn new_centres_the_pattern() {
    let b = Board::new(10, vec!["OO", "OO"]);
    assert_eq!(b.nb_row(), 10);
    assert_eq!(b.get_row(0).len(), 10);
    assert_eq!(alive_sorted(&b), vec![(4, 4), (4, 5), (5, 4), (5, 5)]);
    assert_eq!(grid_alive(&b), alive_sorted(&b));
}

#[test]
fn new_single_cell() {
    let b = Board::new(10, vec!["O"]);
    assert_eq!(alive_sorted(&b), vec![(5, 5)]);
    assert_eq!(b.get_cell(5, 5).unwrap().status, STATUS::ALIVE);
    assert_eq!(b.get_cell(0, 0).unwrap().status, STATUS::DEAD);
}

#[test]
fn new_rows_of_different_lengths() {
    // width 3, height 2: origin (5 - 1, 5 - 1)
    let b = Board::new(10, vec!["O", "..O"]);
    assert_eq!(alive_sorted(&b), vec![(4, 4), (6, 5)]);
}

#[test]
fn new_drops_what_falls_off() {
    // width 5 on a 3 × 3 board: origin (1 - 2, 1 - 0) = (-1, 1)
    let b = Board::new(3, vec!["O.O.O"]);
    assert_eq!(alive_sorted(&b), vec![(1, 1)]);
}

#[test]
fn new_empty_pattern() {
    let b = Board::new(4, vec![]);
    assert_eq!(alive_sorted(&b), vec![]);
    assert_eq!(b.board_to_string(), "");
}

#[test]
fn get_cell_off_board() {
    let b = Board::new(10, vec!["O"]);
    assert!(b.get_cell(-1, 0).is_none());
    assert!(b.get_cell(0, -1).is_none());
    assert!(b.get_cell(10, 0).is_none());
    assert!(b.get_cell(0, 10).is_none());
    assert_eq!(*b.get_cell(9, 9).unwrap(), Cell::new(9, 9, STATUS::DEAD));
}

#[test]
fn get_cell_or_dead_off_board_is_dead_sentinel() {
    let b = Board::new(3, vec!["OOO", "OOO", "OOO"]);
    assert_eq!(b.get_cell_or_dead(-1, 1), Cell::new(0, 0, STATUS::DEAD));
    assert_eq!(b.get_cell_or_dead(3, 1), Cell::new(0, 0, STATUS::DEAD));
    assert_eq!(b.get_cell_or_dead(1, -1), Cell::new(0, 0, STATUS::DEAD));
    assert_eq!(b.get_cell_or_dead(i32::MAX, i32::MIN), Cell::new(0, 0, STATUS::DEAD));
    assert_eq!(b.get_cell_or_dead(2, 2), Cell::new(2, 2, STATUS::ALIVE));
}

#[test]
fn set_cell_keeps_active_set() {
    let mut b = Board::new(5, vec![]);
    assert_eq!(*b.set_cell(1, 2, STATUS::ALIVE).unwrap(), Cell::new(1, 2, STATUS::ALIVE));
    assert_eq!(alive_sorted(&b), vec![(1, 2)]);
    b.set_cell(3, 3, STATUS::ALIVE);
    b.set_cell(1, 2, STATUS::ALIVE);
    assert_eq!(alive_sorted(&b), vec![(1, 2), (3, 3)]);
    b.set_cell(1, 2, STATUS::DEAD);
    assert_eq!(alive_sorted(&b), vec![(3, 3)]);
    b.set_cell(0, 0, STATUS::DEAD);
    assert_eq!(alive_sorted(&b), vec![(3, 3)]);
    assert_eq!(grid_alive(&b), alive_sorted(&b));
}

#[test]
fn set_cell_off_board() {
    let mut b = Board::new(5, vec!["O"]);
    assert!(b.set_cell(5, 0, STATUS::ALIVE).is_none());
    assert!(b.set_cell(-1, 0, STATUS::ALIVE).is_none());
    assert_eq!(alive_sorted(&b), vec![(2, 2)]);
}

#[test]
fn block_is_still() {
    let mut b = Board::new(10, vec!["OO", "OO"]);
    let before = alive_sorted(&b);
    b.next();
    assert_eq!(alive_sorted(&b), before);
    assert_eq!(grid_alive(&b), before);
}

#[test]
fn blinker_has_period_two() {
    // anchor (4, 5): horizontal row of three
    let mut b = Board::new(10, vec!["OOO"]);
    assert_eq!(alive_sorted(&b), vec![(4, 5), (5, 5), (6, 5)]);
    b.next();
    assert_eq!(alive_sorted(&b), vec![(5, 4), (5, 5), (5, 6)]);
    assert_eq!(grid_alive(&b), alive_sorted(&b));
    b.next();
    assert_eq!(alive_sorted(&b), vec![(4, 5), (5, 5), (6, 5)]);
}

#[test]
fn empty_board_stays_empty() {
    let mut b = Board::new(10, vec!["...", "..."]);
    b.next();
    assert_eq!(alive_sorted(&b), vec![]);
    b.prev();
    assert_eq!(alive_sorted(&b), vec![]);
}

#[test]
fn edge_has_no_wraparound() {
    let mut b = Board::new(5, vec![]);
    b.set_cell(0, 1, STATUS::ALIVE);
    b.set_cell(0, 2, STATUS::ALIVE);
    b.set_cell(0, 3, STATUS::ALIVE);
    b.next();
    // the cell left of (0, 2) is off the board, so only (0, 2) and (1, 2) remain
    assert_eq!(alive_sorted(&b), vec![(0, 2), (1, 2)]);
    b.next();
    assert_eq!(alive_sorted(&b), vec![]);
}

#[test]
fn corner_cells_see_only_the_board() {
    let mut b = Board::new(4, vec![]);
    b.set_cell(3, 0, STATUS::ALIVE);
    b.set_cell(3, 3, STATUS::ALIVE);
    b.set_cell(0, 3, STATUS::ALIVE);
    b.next();
    // with wraparound (0, 0) would have three live neighbours
    assert_eq!(alive_sorted(&b), vec![]);
}

#[test]
fn prev_rewinds_one_generation() {
    let mut b = Board::new(10, vec!["OOO"]);
    let g0 = alive_sorted(&b);
    b.next();
    let g1 = alive_sorted(&b);
    b.next();
    b.prev();
    assert_eq!(alive_sorted(&b), g1);
    b.prev();
    assert_eq!(alive_sorted(&b), g0);
    b.prev();
    assert_eq!(alive_sorted(&b), g0);
    assert_eq!(grid_alive(&b), g0);
}

#[test]
fn prev_on_fresh_board_changes_nothing() {
    let mut b = Board::new(10, vec!["O.O", ".O."]);
    let before = alive_sorted(&b);
    b.prev();
    assert_eq!(alive_sorted(&b), before);
}

#[test]
fn history_is_bounded() {
    // a glider keeps changing, so each generation is distinct
    let mut b = Board::new(30, vec![".O.", "..O", "OOO"]);
    let mut gens = vec![alive_sorted(&b)];
    for _ in 0..(HISTORY_CAPACITY + 2) {
        b.next();
        gens.push(alive_sorted(&b));
    }
    let last = gens.len() - 1;
    for k in 1..=HISTORY_CAPACITY {
        b.prev();
        assert_eq!(alive_sorted(&b), gens[last - k]);
    }
    let exhausted = alive_sorted(&b);
    assert_eq!(exhausted, gens[last - HISTORY_CAPACITY]);
    b.prev();
    assert_eq!(alive_sorted(&b), exhausted);
}

#[test]
fn history_at_capacity_plus_one() {
    let mut b = Board::new(30, vec![".O.", "..O", "OOO"]);
    let mut gens = vec![alive_sorted(&b)];
    for _ in 0..(HISTORY_CAPACITY + 1) {
        b.next();
        gens.push(alive_sorted(&b));
    }
    for _ in 0..HISTORY_CAPACITY {
        b.prev();
    }
    // the very first generation was evicted
    assert_eq!(alive_sorted(&b), gens[1]);
    b.prev();
    assert_eq!(alive_sorted(&b), gens[1]);
}

#[test]
fn board_to_string_block() {
    let b = Board::new(10, vec!["OO", "OO"]);
    assert_eq!(b.board_to_string(), "OO\nOO\n");
}

#[test]
fn board_to_string_bounding_box() {
    let b = Board::new(10, vec![".O.", "..O", "OOO"]);
    assert_eq!(b.board_to_string(), ".O.\n..O\nOOO\n");
    let mut c = Board::new(10, vec![]);
    c.set_cell(2, 1, STATUS::ALIVE);
    c.set_cell(5, 3, STATUS::ALIVE);
    assert_eq!(c.board_to_string(), "O...\n....\n...O\n");
}

#[test]
fn initial_board_to_string_is_kept() {
    let mut b = Board::new(10, vec!["OOO"]);
    b.next();
    assert_eq!(b.board_to_string(), "O\nO\nO\n");
    assert_eq!(b.initial_board_to_string(), "OOO\n");
    b.set_cell(0, 0, STATUS::ALIVE);
    assert_eq!(b.initial_board_to_string(), "OOO\n");
}

#[test]
fn get_line_glyphs() {
    let b = Board::new(5, vec!["O.O"]);
    assert_eq!(b.get_line(2), ".O.O.");
    assert_eq!(b.get_line(0), ".....");
}

#[test]
fn round_trip_through_text() {
    let mut b = Board::new(20, vec![".O.", "..O", "OOO"]);
    b.next();
    b.next();
    let text = b.board_to_string();
    let c = Board::from_text(20, &text).unwrap();
    let before = alive_sorted(&b);
    let after = alive_sorted(&c);
    assert_eq!(before.len(), after.len());
    let dx = after[0].0 - before[0].0;
    let dy = after[0].1 - before[0].1;
    let moved: Vec<(i32, i32)> = before.iter().map(|&(x, y)| (x + dx, y + dy)).collect();
    assert_eq!(sorted(moved), after);
    assert_eq!(c.board_to_string(), text);
}

#[test]
fn from_text_lines() {
    let b = Board::from_text(10, "OO\nOO\n").unwrap();
    assert_eq!(alive_sorted(&b), vec![(4, 4), (4, 5), (5, 4), (5, 5)]);
    let c = Board::from_text(10, "OO\nOO").unwrap();
    assert_eq!(alive_sorted(&c), alive_sorted(&b));
}

#[test]
fn from_text_rejects_other_glyphs() {
    assert!(Board::from_text(10, "O0\n").is_none());
    assert!(Board::from_text(10, "01").is_none());
    assert!(Board::from_text(10, "").is_some());
}

#[test]
fn neighbor_count_inside_and_at_edges() {
    let b = Board::new(3, vec!["OOO", "OOO", "OOO"]);
    assert_eq!(b.neighbor_count(&Cell::new(1, 1, STATUS::ALIVE)), 8);
    assert_eq!(b.neighbor_count(&Cell::new(0, 0, STATUS::ALIVE)), 3);
    assert_eq!(b.neighbor_count(&Cell::new(2, 1, STATUS::ALIVE)), 5);
    assert_eq!(b.neighbor_count(&Cell::new(-1, 1, STATUS::DEAD)), 3);
    assert_eq!(b.neighbor_count(&Cell::new(3, 3, STATUS::DEAD)), 1);
    assert_eq!(b.neighbor_count(&Cell::new(5, 5, STATUS::DEAD)), 0);
}

#[test]
fn neighbor_count_ignores_the_cell_itself() {
    let b = Board::new(5, vec!["O"]);
    assert_eq!(b.neighbor_count(&Cell::new(2, 2, STATUS::ALIVE)), 0);
    assert_eq!(b.neighbor_count(&Cell::new(1, 1, STATUS::DEAD)), 1);
}

#[test]
fn test_board_add_one_elem_row() {
    let b = Board::new(10, vec!["."]);

    assert_eq!(b.get_cell(0, 0).unwrap().status, STATUS::DEAD);
    assert_eq!(b.get_row(0).len(), 10);
    assert_eq!(b.nb_row(), 10);
}

#[test]
fn test_board_add_two_elem_row() {
    // width 2, height 1 on a 10 × 10 board: the row starts at (4, 5)
    let b = Board::new(10, vec![".O"]);

    assert_eq!(b.get_cell(0, 0).unwrap().status, STATUS::DEAD);
    assert_eq!(b.get_cell(4, 5).unwrap().status, STATUS::DEAD);
    assert_eq!(b.get_cell(5, 5).unwrap().status, STATUS::ALIVE);
    assert_eq!(b.get_row(0).len(), 10);
    assert_eq!(b.nb_row(), 10);
}

#[test]
fn test_multipleboard_add_row() {
    let b = Board::new(10, vec!["..........", ".........."]);

    assert_eq!(b.get_cell(0, 0).unwrap().status, STATUS::DEAD);
    assert_eq!(b.get_row(0).len(), 10);
    assert_eq!(b.nb_row(), 10);
}

#[test]
fn from_text_accepts_crlf_lines() {
    let b = Board::from_text(10, "OO\r\nOO\r\n").unwrap();
    assert_eq!(alive_sorted(&b), vec![(4, 4), (4, 5), (5, 4), (5, 5)]);
    assert!(Board::from_text(10, "O\rO\n").is_none());
}

#[test]
fn round_trip_onto_a_smaller_board() {
    let mut b = Board::new(30, vec![]);
    b.set_cell(20, 20, STATUS::ALIVE);
    b.set_cell(21, 22, STATUS::ALIVE);
    b.set_cell(22, 21, STATUS::ALIVE);
    let text = b.board_to_string();
    assert_eq!(text, "O..\n..O\n.O.\n");
    let c = Board::from_text(3, &text).unwrap();
    assert_eq!(alive_sorted(&c), vec![(0, 0), (1, 2), (2, 1)]);
    assert_eq!(c.board_to_string(), text);
}

#[test]
fn adjacent_cells_at_a_corner() {
    let b = Board::new(3, vec!["OOO", "OOO", "OOO"]);
    let dead = Cell::new(0, 0, STATUS::DEAD);
    let adj = b.get_adj_cells(&Cell::new(0, 0, STATUS::ALIVE));
    assert_eq!(
        adj,
        vec![
            dead,
            dead,
            dead,
            dead,
            Cell::new(1, 0, STATUS::ALIVE),
            dead,
            Cell::new(0, 1, STATUS::ALIVE),
            Cell::new(1, 1, STATUS::ALIVE),
        ]
    );
    let inner = b.get_adj_cells(&Cell::new(1, 1, STATUS::ALIVE));
    assert_eq!(inner.iter().filter(|c| c.is_alive()).count(), 8);
}
