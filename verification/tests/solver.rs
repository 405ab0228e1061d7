use std::collections::HashMap;
use sudojo::sudoku::ai::solve_controller::{do_solving_iteration, get_guess_data, iterate_solve};
use sudojo::sudoku::ai::{
    ESolvingIntelligence, Field, SolveController, SuggestionController, VirtualBoard,
};
use sudojo::sudoku::game::{Board, Coordinate, EError, EGameState, Square};

// a puzzle of 28 squares, as column, row and value
fn puzzle() -> Board {
    let square_map = [
        (3, 1, 8), (4, 1, 1), (6, 1, 2), (8, 1, 4), (9, 1, 7), (4, 2, 7), (7, 2, 5), (2, 3, 7),
        (7, 3, 1), (8, 3, 8), (1, 4, 8), (4, 4, 4), (6, 4, 9), (2, 5, 2), (8, 5, 1), (4, 6, 2),
        (6, 6, 6), (9, 6, 3), (2, 7, 8), (3, 7, 2), (8, 7, 9), (3, 8, 6), (6, 8, 7), (1, 9, 3),
        (2, 9, 1), (4, 9, 6), (6, 9, 5), (7, 9, 7),
    ];
    let mut board = Board::new();
    for &(x, y, value) in square_map.iter() {
        board.fill_square(Coordinate::new(x, y), Square::new(value, true)).unwrap();
    }
    board.initialized(true);
    board
}

fn solved_values() -> Vec<u8> {
    let mut values = Vec::new();
    for y in 0..9u8 {
        for x in 0..9u8 {
            values.push((x + 3 * (y % 3) + y / 3) % 9 + 1);
        }
    }
    values
}

fn board_without(holes: &[usize]) -> Board {
    let values = solved_values();
    let mut data = Vec::new();
    for i in 0..81 {
        if holes.contains(&i) {
            data.push(None);
        } else {
            data.push(Some(Square::new(values[i], true)));
        }
    }
    Board::from_vec(data)
}

#[test]
fn field_of_an_empty_cell_holds_all_digits() {
    let field = Field::new();
    assert_eq!(&vec![1, 2, 3, 4, 5, 6, 7, 8, 9], field.get_possible_values());
    assert!(!field.is_initial());
    assert!(!field.is_filled());
}

#[test]
fn field_of_a_square_holds_its_value() {
    let field = Field::from_square(&Square::new(7, true));
    assert_eq!(&vec![7], field.get_possible_values());
    assert!(field.is_initial());
    assert!(field.is_filled());
    let field = Field::from_square(&Square::new(7, false));
    assert!(!field.is_initial());
    assert!(field.is_filled());
}

#[test]
fn disallow_value_reports_whether_it_removed() {
    let mut field = Field::from_possible_values(vec![3, 5, 3, 8]);
    assert!(field.has_possible_value(&3));
    assert!(field.disallow_value(3));
    assert_eq!(&vec![5, 8], field.get_possible_values());
    assert!(!field.has_possible_value(&3));
    assert!(!field.disallow_value(3));
    assert_eq!(&vec![5, 8], field.get_possible_values());
    assert!(field.disallow_value(8));
    assert!(field.disallow_value(5));
    assert!(field.get_possible_values().is_empty());
}

#[test]
fn virtual_board_narrows_empty_cells_by_the_rules() {
    let mut board = Board::new();
    board.fill_square(Coordinate::new(1, 1), Square::new(5, true)).unwrap();
    board.fill_square(Coordinate::new(9, 2), Square::new(6, true)).unwrap();
    board.fill_square(Coordinate::new(2, 9), Square::new(7, true)).unwrap();
    let v_board = VirtualBoard::new(&board, &ESolvingIntelligence::SimpleLogic);
    assert_eq!(81, v_board.get_data().len());
    let filled = v_board.get_field(&Coordinate::new(1, 1)).unwrap();
    assert_eq!(&vec![5], filled.get_possible_values());
    assert!(filled.is_initial());
    // (2,2) sees 5 in its quadrant, 6 in its row and 7 in its column
    let field = v_board.get_field(&Coordinate::new(2, 2)).unwrap();
    assert_eq!(&vec![1, 2, 3, 4, 8, 9], field.get_possible_values());
    assert!(!field.is_filled());
    // (5,5) sees none of them
    let field = v_board.get_field(&Coordinate::new(5, 5)).unwrap();
    assert_eq!(&vec![1, 2, 3, 4, 5, 6, 7, 8, 9], field.get_possible_values());
    assert!(v_board.get_field(&Coordinate::new(0, 5)).is_none());
}

#[test]
fn complex_logic_strikes_what_a_row_confines() {
    // row 1 is full outside its first quadrant, and 1 is not in it: within row 1,
    // 1 can only lie in the first quadrant, so rows 2 and 3 of that quadrant lose it
    let mut board = Board::new();
    for (x, value) in [(4, 2), (5, 3), (6, 4), (7, 5), (8, 6), (9, 7)] {
        board.fill_square(Coordinate::new(x, 1), Square::new(value, true)).unwrap();
    }
    let simple = VirtualBoard::new(&board, &ESolvingIntelligence::SimpleLogic);
    let complex = VirtualBoard::new(&board, &ESolvingIntelligence::ComplexLogic);
    let guessing = VirtualBoard::new(&board, &ESolvingIntelligence::WithGuessing);
    let c = Coordinate::new(2, 2);
    assert!(simple.get_field(&c).unwrap().has_possible_value(&1));
    assert!(guessing.get_field(&c).unwrap().has_possible_value(&1));
    assert!(!complex.get_field(&c).unwrap().has_possible_value(&1));
    assert!(!complex.get_field(&c).unwrap().has_possible_value(&8));
    assert!(!complex.get_field(&c).unwrap().has_possible_value(&9));
    assert_eq!(&vec![2, 3, 4, 5, 6, 7], complex.get_field(&c).unwrap().get_possible_values());
    // the row itself keeps them
    assert_eq!(
        &vec![1, 8, 9],
        complex.get_field(&Coordinate::new(1, 1)).unwrap().get_possible_values()
    );
}

#[test]
fn virtual_board_from_a_map_fills_the_gaps() {
    let mut map: HashMap<usize, Field> = HashMap::new();
    map.insert(40, Field::from_possible_values(vec![2, 4]));
    let v_board = VirtualBoard::from(map);
    assert_eq!(&vec![2, 4], v_board.get_field(&Coordinate::new(5, 5)).unwrap().get_possible_values());
    assert_eq!(
        &vec![1, 2, 3, 4, 5, 6, 7, 8, 9],
        v_board.get_field(&Coordinate::new(1, 1)).unwrap().get_possible_values()
    );
}

#[test]
fn naked_single_is_suggested() {
    let board = board_without(&[40]);
    let suggestions =
        SuggestionController::new(&board, &ESolvingIntelligence::SimpleLogic).get_suggestions();
    assert_eq!(vec![(Coordinate::new(5, 5), Square::generate(solved_values()[40]))], suggestions);
}

#[test]
fn hidden_single_is_suggested() {
    // 1 is possible for (1,1) only within the first row; the cell has other candidates
    let mut map: HashMap<usize, Field> = HashMap::new();
    for i in 0..81 {
        map.insert(i, Field::from_possible_values(vec![2, 3]));
    }
    map.insert(0, Field::from_possible_values(vec![2, 1, 3]));
    let controller = SuggestionController::from_virtual_board(VirtualBoard::from(map));
    assert_eq!(vec![(Coordinate::new(1, 1), Square::generate(1))], controller.get_suggestions());
}

#[test]
fn filled_cells_are_not_suggested() {
    let mut board = Board::new();
    board.initialized(true);
    board.fill_square(Coordinate::new(1, 1), Square::new(5, false)).unwrap();
    let suggestions =
        SuggestionController::new(&board, &ESolvingIntelligence::ComplexLogic).get_suggestions();
    assert!(suggestions.is_empty());
}

#[test]
fn suggestions_come_cell_by_cell() {
    let board = board_without(&[80, 3, 41]);
    let values = solved_values();
    let suggestions =
        SuggestionController::new(&board, &ESolvingIntelligence::ComplexLogic).get_suggestions();
    assert_eq!(
        vec![
            (Coordinate::from_index(3), Square::generate(values[3])),
            (Coordinate::from_index(41), Square::generate(values[41])),
            (Coordinate::from_index(80), Square::generate(values[80])),
        ],
        suggestions
    );
}

#[test]
fn guess_data_is_the_first_cell_with_the_fewest_candidates() {
    let mut map: HashMap<usize, Field> = HashMap::new();
    for i in 0..81 {
        map.insert(i, Field::from_possible_values(vec![1, 2, 3, 4]));
    }
    map.insert(7, Field::from_possible_values(vec![5]));
    map.insert(30, Field::from_possible_values(vec![6, 7, 8]));
    map.insert(50, Field::from_possible_values(vec![8, 9]));
    map.insert(60, Field::from_possible_values(vec![1, 9]));
    map.insert(2, Field::from_square(&Square::new(3, true)));
    let (index, field) = get_guess_data(&VirtualBoard::from(map)).unwrap();
    assert_eq!(50, index);
    assert_eq!(&vec![8, 9], field.get_possible_values());
}

#[test]
fn guess_data_is_none_without_a_choice() {
    let mut map: HashMap<usize, Field> = HashMap::new();
    for i in 0..81 {
        map.insert(i, Field::from_possible_values(vec![1]));
    }
    map.insert(3, Field::from_possible_values(vec![]));
    map.insert(4, Field::from_possible_values(vec![1, 2, 3, 4, 5, 6, 7, 8, 9, 10]));
    assert!(get_guess_data(&VirtualBoard::from(map)).is_none());
}

#[test]
fn solver_finishes_a_puzzle_and_keeps_its_squares() {
    let board = puzzle();
    for tier in [ESolvingIntelligence::WithGuessing] {
        let solved = SolveController::new(tier).solve(&board).unwrap();
        assert_eq!(EGameState::Finished, solved.get_state());
        assert!(solved.is_initialized());
        for (i, square) in board.get_data().iter().enumerate() {
            if square.is_some() {
                assert_eq!(*square, solved.get_data()[i]);
            } else {
                let placed = solved.get_data()[i].unwrap();
                assert!(1 <= placed.value && placed.value <= 9);
                assert!(!placed.initial);
                assert!(placed.generated);
            }
        }
    }
    // the board that was handed in is as it was
    assert_eq!(puzzle(), board);
}

#[test]
fn solver_takes_a_board_in_setup_into_play() {
    let board = board_without(&[0, 40, 80]);
    assert!(!board.is_initialized());
    let solved = SolveController::new(ESolvingIntelligence::SimpleLogic).solve(&board).unwrap();
    assert!(solved.is_initialized());
    assert_eq!(EGameState::Finished, solved.get_state());
    let mut all = solved.clone();
    for _ in 0..3 {
        all.undo_last();
    }
    let mut expected = board.clone();
    expected.initialized(true);
    assert_eq!(expected, all);
}

#[test]
fn logic_stalls_without_an_error_and_guessing_goes_on() {
    let mut board = Board::new();
    board.fill_square(Coordinate::new(1, 1), Square::new(5, true)).unwrap();
    for tier in [ESolvingIntelligence::SimpleLogic, ESolvingIntelligence::ComplexLogic] {
        let stalled = SolveController::new(tier).solve(&board).unwrap();
        assert_eq!(EGameState::Okay, stalled.get_state());
        assert_eq!(1, stalled.get_size());
    }
    let solved = SolveController::new(ESolvingIntelligence::WithGuessing).solve(&board).unwrap();
    assert_eq!(EGameState::Finished, solved.get_state());
    assert_eq!(Some(Square::new(5, true)), *solved.get_square(&Coordinate::new(1, 1)));
}

#[test]
fn solver_reports_a_board_in_conflict() {
    let mut board = Board::new();
    board.fill_square(Coordinate::new(1, 1), Square::new(5, true)).unwrap();
    board.fill_square(Coordinate::new(2, 1), Square::new(5, true)).unwrap();
    for tier in [
        ESolvingIntelligence::SimpleLogic,
        ESolvingIntelligence::ComplexLogic,
        ESolvingIntelligence::WithGuessing,
    ] {
        assert_eq!(Err(EError::NotSolvable), SolveController::new(tier).solve(&board));
    }
}

#[test]
fn solver_reports_a_board_without_completion() {
    // (8,1) and (9,1) are both left with 9 alone
    let mut board = Board::new();
    for x in 1..8u8 {
        board.fill_square(Coordinate::new(x, 1), Square::new(x, true)).unwrap();
    }
    board.fill_square(Coordinate::new(8, 5), Square::new(8, true)).unwrap();
    board.fill_square(Coordinate::new(9, 8), Square::new(8, true)).unwrap();
    assert_eq!(EGameState::Okay, board.get_state());
    for tier in [
        ESolvingIntelligence::SimpleLogic,
        ESolvingIntelligence::ComplexLogic,
        ESolvingIntelligence::WithGuessing,
    ] {
        assert_eq!(Err(EError::NotSolvable), SolveController::new(tier).solve(&board));
    }
}

#[test]
fn solver_hands_a_finished_board_back() {
    let board = board_without(&[]);
    let solved = SolveController::new(ESolvingIntelligence::SimpleLogic).solve(&board).unwrap();
    let mut expected = board.clone();
    expected.initialized(true);
    assert_eq!(expected, solved);
}

#[test]
fn solving_iteration_places_what_is_forced() {
    let mut board = board_without(&[10, 20]);
    board.initialized(true);
    let state = do_solving_iteration(&mut board, &ESolvingIntelligence::SimpleLogic);
    assert_eq!(EGameState::Finished, state);
    assert_eq!(Some(Square::generate(solved_values()[10])), *board.get_square(&Coordinate::from_index(10)));
    let mut other = board_without(&[10, 20]);
    other.initialized(true);
    assert_eq!(board, iterate_solve(&other, &ESolvingIntelligence::SimpleLogic).unwrap());
}

#[test]
fn what_logic_finishes_every_higher_intelligence_finishes() {
    let tiers = [
        ESolvingIntelligence::SimpleLogic,
        ESolvingIntelligence::ComplexLogic,
        ESolvingIntelligence::WithGuessing,
    ];
    let boards = [
        puzzle(),
        board_without(&[0, 1, 2, 9, 10, 11, 18, 19, 20]),
        board_without(&[0, 10, 20, 30, 40, 50, 60, 70, 80, 8, 16, 24, 32, 48, 56, 64, 72]),
        board_without(&(0..40).collect::<Vec<usize>>()),
    ];
    for board in boards.iter() {
        let mut finished_below = false;
        for tier in tiers {
            let finished = match SolveController::new(tier).solve(board) {
                Ok(solved) => solved.get_state() == EGameState::Finished,
                Err(_) => false,
            };
            assert!(finished || !finished_below);
            finished_below = finished;
        }
        // each of these boards has a completion
        assert!(finished_below);
    }
}

#[test]
fn guessing_finishes_exactly_what_has_a_completion() {
    // a completed board with any cells emptied has a completion
    let holes: Vec<usize> = (0..81).filter(|i| i % 3 != 1).collect();
    let solved =
        SolveController::new(ESolvingIntelligence::WithGuessing).solve(&board_without(&holes)).unwrap();
    assert_eq!(EGameState::Finished, solved.get_state());
    assert!(!solved.has_conflicts());
    // the empty board has one too
    let solved = SolveController::new(ESolvingIntelligence::WithGuessing).solve(&Board::new()).unwrap();
    assert_eq!(EGameState::Finished, solved.get_state());
}
