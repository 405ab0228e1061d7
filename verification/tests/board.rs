use sudojo::sudoku::game::{Board, Coordinate, EError, EGameState, ESquareStyle, Square};

// a completed grid: each row is the one above shifted by three, each band
// the one above shifted by one
fn solved_values() -> Vec<u8> {
    let mut values = Vec::new();
    for y in 0..9u8 {
        for x in 0..9u8 {
            values.push((x + 3 * (y % 3) + y / 3) % 9 + 1);
        }
    }
    values
}

fn solved_board() -> Board {
    Board::from_vec(solved_values().iter().map(|v| Some(Square::new(*v, true))).collect())
}

#[test]
fn new_board_is_empty_and_in_setup() {
    let board = Board::new();
    assert_eq!(81, board.get_data().len());
    assert!(board.get_data().iter().all(|s| s.is_none()));
    assert_eq!(0, board.get_size());
    assert!(!board.is_filled());
    assert!(!board.is_initialized());
    assert!(!board.has_conflicts());
    assert_eq!(EGameState::Okay, board.get_state());
}

#[test]
fn square_constructors_set_their_flags() {
    assert_eq!(
        Square { value: 4, initial: true, conflict: false, generated: false, guessed: false },
        Square::new(4, true)
    );
    assert_eq!(
        Square { value: 4, initial: false, conflict: false, generated: false, guessed: false },
        Square::new(4, false)
    );
    assert_eq!(
        Square { value: 7, initial: false, conflict: false, generated: true, guessed: false },
        Square::generate(7)
    );
    assert_eq!(
        Square { value: 7, initial: false, conflict: false, generated: true, guessed: true },
        Square::guess(7)
    );
}

#[test]
fn square_style_follows_the_marks() {
    let mut square = Square::new(1, true);
    square.conflict = true;
    assert_eq!(ESquareStyle::Initial, square.style());
    let mut square = Square::new(1, false);
    assert_eq!(ESquareStyle::Plain, square.style());
    square.conflict = true;
    assert_eq!(ESquareStyle::Conflict, square.style());
    let mut square = Square::generate(1);
    assert_eq!(ESquareStyle::Generated, square.style());
    square.conflict = true;
    assert_eq!(ESquareStyle::GeneratedConflict, square.style());
}

#[test]
fn fill_square_refuses_the_wrong_phase() {
    // a square of the game on a board in setup
    let mut board = Board::new();
    assert_eq!(
        Err(EError::PhaseViolation),
        board.fill_square(Coordinate::new(1, 1), Square::new(5, false))
    );
    assert_eq!(Board::new(), board);
    // a square of the puzzle on a board in play
    board.initialized(true);
    let before = board.clone();
    assert_eq!(
        Err(EError::PhaseViolation),
        board.fill_square(Coordinate::new(1, 1), Square::new(5, true))
    );
    assert_eq!(before, board);
    // the phase is looked at before the cell
    board.fill_square(Coordinate::new(1, 1), Square::new(5, false)).unwrap();
    assert_eq!(
        Err(EError::PhaseViolation),
        board.fill_square(Coordinate::new(1, 1), Square::new(6, true))
    );
}

#[test]
fn fill_square_refuses_a_taken_cell() {
    let mut board = Board::new();
    assert_eq!(
        Ok(EGameState::Okay),
        board.fill_square(Coordinate::new(3, 4), Square::new(5, true))
    );
    let before = board.clone();
    assert_eq!(
        Err(EError::CellOccupied),
        board.fill_square(Coordinate::new(3, 4), Square::new(6, true))
    );
    assert_eq!(before, board);
    assert_eq!(Some(Square::new(5, true)), *board.get_square(&Coordinate::new(3, 4)));
}

#[test]
fn same_value_twice_in_a_row_is_a_conflict() {
    let mut board = Board::new();
    assert_eq!(
        Ok(EGameState::Okay),
        board.fill_square(Coordinate::new(1, 1), Square::new(5, true))
    );
    assert_eq!(
        Ok(EGameState::Conflict),
        board.fill_square(Coordinate::new(2, 1), Square::new(5, true))
    );
    assert!(board.has_conflicts());
    assert_eq!(EGameState::Conflict, board.get_state());
}

#[test]
fn fill_square_looks_at_the_written_cell_only() {
    let mut board = Board::new();
    board.fill_square(Coordinate::new(1, 1), Square::new(5, true)).unwrap();
    board.fill_square(Coordinate::new(2, 1), Square::new(5, true)).unwrap();
    // the conflict in the first row is none of the new square
    assert_eq!(
        Ok(EGameState::Okay),
        board.fill_square(Coordinate::new(9, 9), Square::new(1, true))
    );
    assert_eq!(EGameState::Conflict, board.get_state());
}

#[test]
fn completed_grid_is_finished_and_without_conflict() {
    let board = solved_board();
    assert_eq!(EGameState::Finished, board.get_state());
    assert!(!board.has_conflicts());
    assert!(board.is_filled());
    assert_eq!(81, board.get_size());
}

#[test]
fn last_square_finishes_the_board() {
    let values = solved_values();
    let mut board = Board::new();
    for i in 0..80 {
        assert_eq!(
            Ok(EGameState::Okay),
            board.fill_square(Coordinate::from_index(i), Square::new(values[i], true))
        );
    }
    assert_eq!(
        Ok(EGameState::Finished),
        board.fill_square(Coordinate::from_index(80), Square::new(values[80], true))
    );
}

#[test]
fn undo_restores_the_board() {
    let mut board = Board::new();
    board.fill_square(Coordinate::new(1, 1), Square::new(5, true)).unwrap();
    board.initialized(true);
    let before = board.clone();
    board.fill_square(Coordinate::new(2, 2), Square::new(6, false)).unwrap();
    assert_ne!(before, board);
    board.undo_last();
    assert_eq!(before, board);
    // nothing is left to take back: squares of the puzzle are no placements
    board.undo_last();
    assert_eq!(before, board);
}

#[test]
fn undo_takes_back_one_placement_at_a_time() {
    let mut board = Board::new();
    board.initialized(true);
    board.fill_square(Coordinate::new(1, 1), Square::new(5, false)).unwrap();
    let one = board.clone();
    board.fill_square(Coordinate::new(2, 1), Square::new(6, false)).unwrap();
    board.undo_last();
    assert_eq!(one, board);
    board.undo_last();
    let mut empty = Board::new();
    empty.initialized(true);
    assert_eq!(empty, board);
}

#[test]
fn delete_square_spares_the_puzzle() {
    let mut board = Board::new();
    board.fill_square(Coordinate::new(1, 1), Square::new(5, true)).unwrap();
    board.initialized(true);
    board.fill_square(Coordinate::new(2, 1), Square::new(5, false)).unwrap();
    let before = board.clone();
    assert_eq!(Err(EError::DeleteInitialForbidden), board.delete_square(&Coordinate::new(1, 1)));
    assert_eq!(before, board);
    assert_eq!(Ok(EGameState::Okay), board.delete_square(&Coordinate::new(2, 1)));
    assert_eq!(None, *board.get_square(&Coordinate::new(2, 1)));
    // an empty cell can be deleted again
    assert_eq!(Ok(EGameState::Okay), board.delete_square(&Coordinate::new(2, 1)));
}

#[test]
fn delete_square_reports_the_state_of_the_whole_board() {
    let mut board = Board::new();
    board.initialized(true);
    board.fill_square(Coordinate::new(1, 1), Square::new(5, false)).unwrap();
    board.fill_square(Coordinate::new(2, 1), Square::new(5, false)).unwrap();
    board.fill_square(Coordinate::new(9, 9), Square::new(1, false)).unwrap();
    assert_eq!(Ok(EGameState::Conflict), board.delete_square(&Coordinate::new(9, 9)));
}

#[test]
fn delete_force_takes_any_square() {
    let mut board = Board::new();
    board.fill_square(Coordinate::new(1, 1), Square::new(5, true)).unwrap();
    board.delete_force(&Coordinate::new(1, 1));
    assert_eq!(Board::new(), board);
}

#[test]
fn revert_leaves_the_puzzle() {
    let mut board = Board::new();
    board.fill_square(Coordinate::new(1, 1), Square::new(5, true)).unwrap();
    board.fill_square(Coordinate::new(5, 5), Square::new(6, true)).unwrap();
    board.initialized(true);
    board.fill_square(Coordinate::new(2, 1), Square::new(7, false)).unwrap();
    board.fill_square(Coordinate::new(9, 9), Square::generate(8)).unwrap();
    board.revert();
    assert_eq!(2, board.get_size());
    assert_eq!(Some(Square::new(5, true)), *board.get_square(&Coordinate::new(1, 1)));
    assert_eq!(Some(Square::new(6, true)), *board.get_square(&Coordinate::new(5, 5)));
    assert_eq!(None, *board.get_square(&Coordinate::new(2, 1)));
    assert_eq!(None, *board.get_square(&Coordinate::new(9, 9)));
}

#[test]
fn get_square_off_the_board_is_none() {
    let board = solved_board();
    assert_eq!(None, *board.get_square(&Coordinate::new(0, 1)));
    assert_eq!(None, *board.get_square(&Coordinate::new(1, 10)));
    assert_eq!(Some(Square::new(1, true)), *board.get_square(&Coordinate::new(1, 1)));
    assert_eq!(Some(Square::new(9, true)), *board.get_square(&Coordinate::new(9, 1)));
}

#[test]
fn mark_conflicts_marks_every_offender_and_no_other() {
    let mut board = Board::new();
    board.fill_square(Coordinate::new(1, 1), Square::new(5, true)).unwrap();
    board.fill_square(Coordinate::new(2, 1), Square::new(5, true)).unwrap();
    board.fill_square(Coordinate::new(9, 9), Square::new(5, true)).unwrap();
    board.mark_conflicts();
    assert!(board.get_square(&Coordinate::new(1, 1)).unwrap().conflict);
    assert!(board.get_square(&Coordinate::new(2, 1)).unwrap().conflict);
    assert!(!board.get_square(&Coordinate::new(9, 9)).unwrap().conflict);
    // the mark goes when the conflict goes
    board.delete_force(&Coordinate::new(2, 1));
    board.mark_conflicts();
    assert!(!board.get_square(&Coordinate::new(1, 1)).unwrap().conflict);
    assert_eq!(3 - 1, board.get_size());
}

#[test]
fn error_messages() {
    assert_eq!("A Field with these coordinates allready exists!", EError::CellOccupied.message());
    assert_eq!("Deleting an initial square is not allowed.", EError::DeleteInitialForbidden.message());
    assert_eq!("not solvable", EError::NotSolvable.message());
    assert!(!EError::PhaseViolation.message().is_empty());
    assert!(!EError::InternalInvariant.message().is_empty());
}

#[test]
fn each_position_has_its_own_cell() {
    let values = solved_values();
    let mut board = Board::new();
    for y in 1..10u8 {
        for x in 1..10u8 {
            let c = Coordinate::new(x, y);
            board.fill_square(c, Square::new(values[c.get_index()], true)).unwrap();
            assert_eq!(c.get_index() + 1, board.get_size());
        }
    }
    assert_eq!(81, board.get_data().len());
    for y in 1..10u8 {
        for x in 1..10u8 {
            let c = Coordinate::new(x, y);
            assert_eq!(Some(Square::new(values[c.get_index()], true)), *board.get_square(&c));
            assert_eq!(
                Err(EError::CellOccupied),
                board.fill_square(c, Square::new(values[c.get_index()], true))
            );
        }
    }
    assert_eq!(81, board.get_size());
}
