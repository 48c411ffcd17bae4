use rust_life::board::{Board, Coord};
use rust_life::engine::{next_state, Engine, RandomizeError};
use std::collections::HashSet;

fn live_set(engine: &Engine) -> HashSet<(isize, isize)> {
    engine
        .get_board()
        .get_occupied()
        .into_iter()
        .map(|c: &Coord| (c.col, c.row))
        .collect()
}

fn set_of(cells: &[(isize, isize)]) -> HashSet<(isize, isize)> {
    cells.iter().copied().collect()
}

#[test]
fn blinker_oscillates() {
    let mut board = Board::new(4, 4);
    board.born_at(0, 0);
    board.born_at(1, 0);
    board.born_at(2, 0);
    let mut engine = Engine::new(board);
    engine.one_iteration();
    assert_eq!(live_set(&engine), set_of(&[(1, -1), (1, 0), (1, 1)]));
    engine.one_iteration();
    assert_eq!(live_set(&engine), set_of(&[(0, 0), (1, 0), (2, 0)]));
    assert_eq!(engine.cur_iteration(), 2);
}

#[test]
fn block_is_still() {
    let mut board = Board::new(4, 4);
    for &(c, r) in &[(0, 0), (1, 0), (0, 1), (1, 1)] {
        board.born_at(c, r);
    }
    let mut engine = Engine::new(board);
    let block = set_of(&[(0, 0), (1, 0), (0, 1), (1, 1)]);
    for _ in 0..5 {
        engine.one_iteration();
        assert_eq!(live_set(&engine), block);
    }
}

#[test]
fn growth_follows_new_cells_only() {
    // a vertical blinker well inside the storage needs no new storage
    let mut board = Board::new(4, 4);
    board.born_at(1, 0);
    board.born_at(1, 1);
    board.born_at(1, 2);
    let mut engine = Engine::new(board);
    engine.one_iteration();
    assert_eq!(live_set(&engine), set_of(&[(0, 1), (1, 1), (2, 1)]));
    assert_eq!(engine.get_board().row_span(), (0, 4));

    engine.set_board(Board::new(4, 4));
    engine.get_board_mut().born_at(0, 0);
    engine.get_board_mut().born_at(1, 0);
    engine.get_board_mut().born_at(2, 0);
    engine.one_iteration();
    // new cell at row -1, column 1: one row above, holding columns 0 and 1
    assert_eq!(engine.get_board().row_span(), (-1, 4));
    assert_eq!(engine.get_board().col_span(-1), (0, 2));
    assert_eq!(engine.get_board().col_span(0), (0, 4));
}

#[test]
fn growth_toward_negative_columns() {
    let mut board = Board::new(4, 4);
    board.born_at(0, 0);
    board.born_at(0, 1);
    board.born_at(0, 2);
    let mut engine = Engine::new(board);
    engine.one_iteration();
    assert_eq!(live_set(&engine), set_of(&[(-1, 1), (0, 1), (1, 1)]));
    assert_eq!(engine.get_board().col_span(1), (-1, 4));
    assert_eq!(engine.get_board().col_span(0), (0, 4));
    assert_eq!(engine.get_board().row_span(), (0, 4));
}

#[test]
fn lonely_cell_dies_and_empty_board_stays_empty() {
    let mut board = Board::new(4, 4);
    board.born_at(2, 2);
    let mut engine = Engine::new(board);
    engine.one_iteration();
    assert!(live_set(&engine).is_empty());
    engine.one_iteration();
    assert!(live_set(&engine).is_empty());
    assert_eq!(engine.cur_iteration(), 2);
    assert!(engine.last_step_duration().is_some());
}

#[test]
fn rule_values() {
    assert!(next_state(false, 3));
    assert!(!next_state(false, 2));
    assert!(next_state(true, 2));
    assert!(next_state(true, 3));
    assert!(!next_state(true, 1));
    assert!(!next_state(true, 4));
    assert!(!next_state(false, 0));
    assert!(!next_state(true, 8));
}

#[test]
fn randomize_refuses_unbounded_board() {
    let mut board = Board::new_unbounded();
    board.born_at(3, 3);
    let mut engine = Engine::new(board);
    engine.one_iteration();
    engine.get_board_mut().born_at(5, 5);
    let before_live = live_set(&engine);
    let before_gen = engine.cur_iteration();
    let before_draw = engine.get_board().to_string();
    assert_eq!(engine.randomize(|_, _| true), Err(RandomizeError::Unbounded));
    assert_eq!(live_set(&engine), before_live);
    assert_eq!(engine.cur_iteration(), before_gen);
    assert_eq!(engine.get_board().to_string(), before_draw);
}

#[test]
fn randomize_fills_allocated_cells_from_pick() {
    let mut engine = Engine::new(Board::new(4, 4));
    assert_eq!(engine.randomize(|c, r| (c + r) % 2 == 0), Ok(()));
    assert_eq!(engine.get_board().to_string(), "*.*..*.**.*..*.*");
    assert_eq!(engine.get_board().get_occupied().len(), 8);
    assert_eq!(engine.randomize(|_, _| false), Ok(()));
    assert!(live_set(&engine).is_empty());
    assert_eq!(engine.get_board().to_string().len(), 16);
}

#[test]
fn reset_clears_board_and_generation() {
    let mut board = Board::new(4, 4);
    board.born_at(0, 0);
    board.born_at(1, 0);
    board.born_at(2, 0);
    let mut engine = Engine::new(board);
    engine.one_iteration();
    engine.reset();
    assert_eq!(engine.cur_iteration(), 0);
    assert!(live_set(&engine).is_empty());
    assert!(engine.get_board().is_bounded());
    assert_eq!(engine.get_board().to_string().len(), 16);
}
