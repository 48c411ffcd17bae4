use rust_life::board::{Board, Cell, Coord};
use std::collections::HashSet;

#[test]
fn test_board_ok() {
    let mut my_board = Board::new(5, 5);

    // set some existing cells
    my_board.born_at(0, 0);
    my_board.born_at(4, 4);

    // extend board by one cell
    my_board.born_at(5, 2);

    // test allocated cells
    assert_eq!(my_board.get_cell(0, 0), Cell::Occupied);
    assert_eq!(my_board.get_cell(4, 4), Cell::Occupied);

    // test previously expanded cell
    assert_eq!(my_board.get_cell(5, 2), Cell::Occupied);

    // test existing cell
    assert_eq!(my_board.get_cell(2, 2), Cell::Empty);

    // check extended cell
    assert_eq!(my_board.get_cell(5, 3), Cell::Empty);

    my_board.kill_at(0, 0);
    assert_eq!(my_board.get_cell(0, 0), Cell::Empty);

    let mut expected: HashSet<Coord> = HashSet::new();

    expected.insert(Coord { col: 5, row: 2 });
    expected.insert(Coord { col: 4, row: 4 });

    let tmp = my_board.get_occupied();

    assert_eq!(tmp.contains(&&Coord { col: 4, row: 4 }), true);
    assert_eq!(tmp.contains(&&Coord { col: 5, row: 2 }), true);
    assert_eq!(tmp.len(), 2);
}

#[test]
fn test_board_iter() {
    let mut my_board = Board::new(5, 5);

    my_board.born_at(0, 0);
    my_board.born_at(1, 1);
    my_board.born_at(2, 2);
    my_board.born_at(3, 3);
    my_board.born_at(4, 4);

    let mut ctr = 0;

    let mut it = my_board.into_iter();
    while let Some((_, is_alive)) = it.next() {
        if is_alive {
            ctr += 1;
        }
    }

    assert!(ctr == 5);
}

fn visited(board: &Board) -> Vec<(Coord, bool)> {
    let mut out = Vec::new();
    let mut it = board.into_iter();
    while let Some(e) = it.next() {
        out.push(e);
    }
    out
}

#[test]
fn reading_never_allocates() {
    let board = Board::new(5, 5);
    let before = visited(&board).len();
    assert_eq!(board.get_cell(100, -100), Cell::Empty);
    assert!(!board.is_alive(-7, 3));
    assert_eq!(board.get_vicinity(-50, 50), vec![false; 8]);
    assert_eq!(visited(&board).len(), before);
    assert!(board.get_occupied().is_empty());
}

#[test]
fn born_twice_equals_born_once() {
    let mut once = Board::new(4, 4);
    once.born_at(-2, 6);
    let mut twice = Board::new(4, 4);
    twice.born_at(-2, 6);
    twice.born_at(-2, 6);
    assert_eq!(once.to_string(), twice.to_string());
    assert_eq!(once.get_occupied().len(), 1);
    assert_eq!(twice.get_occupied().len(), 1);
}

#[test]
fn kill_of_unborn_cell_changes_nothing() {
    let mut board = Board::new(4, 4);
    board.born_at(1, 1);
    let before = board.to_string();
    board.kill_at(2, 2);
    assert_eq!(board.to_string(), before);
    assert_eq!(board.get_occupied().len(), 1);
}

#[test]
fn occupied_list_matches_cells() {
    let mut board = Board::new(4, 4);
    board.born_at(0, 0);
    board.born_at(-3, -3);
    board.born_at(7, 1);
    board.kill_at(0, 0);
    board.born_at(0, 0);
    board.kill_at(7, 1);
    board.kill_at(9, 9);
    let occ: HashSet<Coord> = board.get_occupied().into_iter().copied().collect();
    let mut alive: HashSet<Coord> = HashSet::new();
    let mut it = board.into_iter();
    while let Some((c, a)) = it.next() {
        if a {
            alive.insert(c);
        }
    }
    assert_eq!(occ, alive);
    let expected: HashSet<Coord> = [Coord { col: 0, row: 0 }, Coord { col: -3, row: -3 }]
        .into_iter()
        .collect();
    assert_eq!(occ, expected);
}

#[test]
fn neighbours_start_west_and_go_clockwise() {
    let mut board = Board::new(4, 4);
    board.born_at(0, 1); // west of (1, 1)
    board.born_at(2, 0); // north-east of (1, 1)
    board.born_at(0, 2); // south-west of (1, 1)
    assert_eq!(
        board.get_vicinity(1, 1),
        vec![true, false, false, true, false, false, false, true]
    );
}

#[test]
fn minimum_board_is_four_by_four() {
    let board = Board::new(1, 2);
    assert_eq!(board.to_string(), "................");
    let bigger = Board::new(5, 6);
    assert_eq!(bigger.to_string().len(), 30);
}

#[test]
fn growth_is_minimal_in_each_direction() {
    let mut board = Board::new(4, 4);
    board.born_at(-1, -2);
    let cells = visited(&board);
    // rows -2 and -1 are new: row -1 has no columns, row -2 has column -1 only
    assert_eq!(cells.len(), 16 + 1);
    assert_eq!(cells[0], (Coord { col: -1, row: -2 }, true));
    assert_eq!(cells[1], (Coord { col: 0, row: 0 }, false));
    assert_eq!(board.row_span(), (-2, 4));
    assert_eq!(board.col_span(-2), (-1, 0));
    assert_eq!(board.col_span(-1), (0, 0));
    board.born_at(6, 0);
    assert_eq!(board.col_span(0), (0, 7));
    assert_eq!(board.col_span(1), (0, 4));
}

#[test]
fn to_string_draws_rows_in_order() {
    let mut board = Board::new(4, 4);
    board.born_at(0, 0);
    board.born_at(3, 3);
    assert_eq!(board.to_string(), "*..............*");
}

#[test]
fn iterator_visits_rows_then_columns() {
    let mut board = Board::new(4, 4);
    board.born_at(-1, 0);
    let cells = visited(&board);
    assert_eq!(cells.len(), 17);
    assert_eq!(cells[0], (Coord { col: -1, row: 0 }, true));
    assert_eq!(cells[1], (Coord { col: 0, row: 0 }, false));
    assert_eq!(cells[5], (Coord { col: 0, row: 1 }, false));
    assert_eq!(cells[16], (Coord { col: 3, row: 3 }, false));
}

#[test]
fn unbounded_board_starts_without_storage() {
    let mut board = Board::new_unbounded();
    assert!(!board.is_bounded());
    assert_eq!(board.to_string(), "");
    board.born_at(2, -1);
    // row -1 gets columns 0, 1 and 2
    assert_eq!(board.to_string(), "..*");
    assert!(Board::new(0, 0).is_bounded());
}
