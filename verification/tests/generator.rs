use sudojo::app::difficulty::EDifficulty;
use sudojo::sudoku::ai::{ESolvingIntelligence, SolveController};
use sudojo::sudoku::game::{Board, Coordinate, EError, EGameState, Square};
use sudojo::sudoku::generator::completed_sudoku::{
    get_allowed_values, get_next_coordinate, get_shuffled_values, init_new_data,
    is_insert_allowed, iterate_add, map_to_board_data,
};
use sudojo::sudoku::generator::reduce::{
    get_coordinates, get_number_of_guesses, iterate_remove_square, map_difficulty_to_intelligence,
};
use sudojo::sudoku::generator::{
    BackTraceGenerator, BacktraceReducer, FastestGenerator, Generator, PuzzleGenerator,
};

#[test]
fn completed_sudoku_test_basic() {
    let board = FastestGenerator::generate_board();
    assert!(board.is_filled());
    assert!(!board.has_conflicts());
    assert_ne!(board, FastestGenerator::generate_board())
}

#[test]
fn test_fast_sudoku_generation() {
    let board = BackTraceGenerator::generate_board();
    assert!(board.is_filled());
    assert!(!board.has_conflicts());
    assert_ne!(board, FastestGenerator::generate_board())
}

#[test]
fn test_puzzle_generation() {
    let board = PuzzleGenerator::generate(EDifficulty::VeryHard).unwrap();
    println!("{}", board.to_text())
}

#[test]
fn test_get_coordinates() {
    let board = FastestGenerator::generate_board();
    let coords = get_coordinates(&board);
    assert_eq!(coords.len(), 81);
}

#[test]
fn standalone_test_basic() {
    let mut vec: Vec<u8> = Vec::new();

    let res = iterate_add(&mut vec);
    res.unwrap();
    println!("{:?}", vec);
}

#[test]
fn generated_boards_are_complete_and_in_setup() {
    for _ in 0..5 {
        for board in [FastestGenerator::generate_board(), BackTraceGenerator::generate_board()] {
            assert_eq!(EGameState::Finished, board.get_state());
            assert_eq!(81, board.get_size());
            assert!(!board.is_initialized());
            for square in board.get_data() {
                let square = square.unwrap();
                assert!(1 <= square.value && square.value <= 9);
                assert!(square.initial);
            }
        }
    }
}

#[test]
fn back_trace_generator_draws_different_boards() {
    assert_ne!(BackTraceGenerator::generate_board(), BackTraceGenerator::generate_board());
}

#[test]
fn iterate_add_completes_a_prefix() {
    let mut vec: Vec<u8> = vec![3, 1, 4, 5, 9, 2, 6, 8, 7];
    assert_eq!(Ok(()), iterate_add(&mut vec));
    assert_eq!(81, vec.len());
    assert_eq!(vec![3, 1, 4, 5, 9, 2, 6, 8, 7], vec[..9].to_vec());
    let board = Board::from_vec(map_to_board_data(&vec));
    assert_eq!(EGameState::Finished, board.get_state());
}

#[test]
fn iterate_add_gives_up_on_a_dead_end() {
    // the cell (9,2) sees all digits but 3 in its row, and 3 above it
    let mut dead: Vec<u8> = vec![1, 2, 4, 5, 6, 7, 8, 9, 3, 5, 6, 7, 8, 9, 1, 2, 4];
    let before = dead.clone();
    assert_eq!(Vec::<u8>::new(), get_allowed_values(&dead));
    assert_eq!(Err(EError::NotSolvable), iterate_add(&mut dead));
    assert_eq!(before, dead);
    // one cell earlier the search has to come back from that dead end
    let mut early: Vec<u8> = vec![1, 2, 4, 5, 6, 7, 8, 9, 3, 5, 6, 7, 8, 9, 1, 2];
    assert_eq!(vec![4], get_allowed_values(&early));
    assert_eq!(Err(EError::NotSolvable), iterate_add(&mut early));
    assert_eq!(16, early.len());
}

#[test]
fn is_insert_allowed_looks_at_row_column_and_quadrant() {
    let vec: Vec<u8> = vec![1, 2, 3, 4, 5, 6, 7, 8, 9, 4];
    // next cell is (2,2): row holds 4, column holds 2, quadrant holds 1,2,3,4
    assert!(!is_insert_allowed(&vec, &4));
    assert!(!is_insert_allowed(&vec, &2));
    assert!(!is_insert_allowed(&vec, &1));
    assert!(!is_insert_allowed(&vec, &3));
    assert!(is_insert_allowed(&vec, &5));
    assert!(is_insert_allowed(&vec, &9));
    let mut allowed = get_allowed_values(&vec);
    allowed.sort();
    assert_eq!(vec![5, 6, 7, 8, 9], allowed);
}

#[test]
fn shuffled_values_are_the_candidates() {
    let mut board = Board::new();
    board.fill_square(Coordinate::new(1, 1), Square::new(5, true)).unwrap();
    board.fill_square(Coordinate::new(9, 2), Square::new(6, true)).unwrap();
    board.fill_square(Coordinate::new(2, 9), Square::new(7, true)).unwrap();
    let mut values = get_shuffled_values(&board, &Coordinate::new(2, 2));
    values.sort();
    assert_eq!(vec![1, 2, 3, 4, 8, 9], values);
}

#[test]
fn shuffle_changes_the_order() {
    let mut differs = false;
    for _ in 0..20 {
        if init_new_data() != vec![1, 2, 3, 4, 5, 6, 7, 8, 9] {
            differs = true;
        }
    }
    assert!(differs);
    let mut sorted = init_new_data();
    sorted.sort();
    assert_eq!(vec![1, 2, 3, 4, 5, 6, 7, 8, 9], sorted);
}

#[test]
fn next_coordinate_is_row_major() {
    assert_eq!(Some(Coordinate::new(2, 1)), get_next_coordinate(&Coordinate::new(1, 1)));
    assert_eq!(Some(Coordinate::new(1, 2)), get_next_coordinate(&Coordinate::new(9, 1)));
    assert_eq!(None, get_next_coordinate(&Coordinate::new(9, 9)));
}

#[test]
fn number_of_guesses_lies_in_the_band() {
    for _ in 0..50 {
        let easy = get_number_of_guesses(&EDifficulty::Easy);
        assert!(easy == 30 || easy == 31);
        let medium = get_number_of_guesses(&EDifficulty::Medium);
        assert!(medium == 26 || medium == 27);
        let hard = get_number_of_guesses(&EDifficulty::Hard);
        assert!(hard == 24 || hard == 25);
        let very_hard = get_number_of_guesses(&EDifficulty::VeryHard);
        assert!(very_hard == 20 || very_hard == 21);
    }
}

#[test]
fn difficulty_maps_to_intelligence() {
    assert_eq!(ESolvingIntelligence::SimpleLogic, map_difficulty_to_intelligence(&EDifficulty::Easy));
    assert_eq!(ESolvingIntelligence::ComplexLogic, map_difficulty_to_intelligence(&EDifficulty::Medium));
    assert_eq!(ESolvingIntelligence::ComplexLogic, map_difficulty_to_intelligence(&EDifficulty::Hard));
    assert_eq!(ESolvingIntelligence::WithGuessing, map_difficulty_to_intelligence(&EDifficulty::VeryHard));
}

#[test]
fn coordinates_are_the_filled_cells() {
    let mut board = Board::new();
    board.fill_square(Coordinate::new(1, 1), Square::new(5, true)).unwrap();
    board.fill_square(Coordinate::new(9, 9), Square::new(6, true)).unwrap();
    board.fill_square(Coordinate::new(4, 5), Square::new(7, true)).unwrap();
    let mut coords = get_coordinates(&board);
    coords.sort_by_key(|c| c.0.get_index());
    assert_eq!(
        vec![
            (Coordinate::new(1, 1), Square::new(5, true)),
            (Coordinate::new(4, 5), Square::new(7, true)),
            (Coordinate::new(9, 9), Square::new(6, true)),
        ],
        coords
    );
}

#[test]
fn reduced_board_is_solved_by_its_tier_and_above() {
    let full = FastestGenerator::generate_board();
    let mut board = full.clone();
    assert_eq!(Ok(()), BacktraceReducer::reduce_to_puzzle(&mut board, EDifficulty::VeryHard));
    let size = board.get_size();
    assert!(size == 20 || size == 21);
    for (i, square) in board.get_data().iter().enumerate() {
        if square.is_some() {
            assert_eq!(full.get_data()[i], *square);
        }
    }
    let solved = SolveController::new(ESolvingIntelligence::WithGuessing).solve(&board).unwrap();
    assert_eq!(EGameState::Finished, solved.get_state());
}

#[test]
fn reducing_to_a_size_keeps_the_board_solvable_by_logic() {
    let full = FastestGenerator::generate_board();
    let mut board = full.clone();
    // a few squares can always be spared
    assert_eq!(Ok(()), iterate_remove_square(&mut board, 70, &EDifficulty::Easy));
    assert_eq!(70, board.get_size());
    for tier in [
        ESolvingIntelligence::SimpleLogic,
        ESolvingIntelligence::ComplexLogic,
        ESolvingIntelligence::WithGuessing,
    ] {
        let solved = SolveController::new(tier).solve(&board).unwrap();
        assert_eq!(EGameState::Finished, solved.get_state());
        for (i, square) in solved.get_data().iter().enumerate() {
            assert_eq!(full.get_data()[i].unwrap().value, square.unwrap().value);
        }
    }
    // a board that is small enough stays as it is
    let before = board.clone();
    assert_eq!(Ok(()), iterate_remove_square(&mut board, 70, &EDifficulty::Easy));
    assert_eq!(before, board);
}

#[test]
fn reducer_gives_up_where_nothing_can_go() {
    // one square alone: no solver below guessing finishes the board without it
    let mut board = Board::new();
    board.fill_square(Coordinate::new(1, 1), Square::new(5, true)).unwrap();
    let before = board.clone();
    assert_eq!(Err(EError::NotSolvable), iterate_remove_square(&mut board, 0, &EDifficulty::Easy));
    assert_eq!(before, board);
}

#[test]
fn puzzle_generator_hands_out_a_puzzle_in_play() {
    let board = PuzzleGenerator::generate(EDifficulty::VeryHard).unwrap();
    assert!(board.is_initialized());
    assert!(!board.has_conflicts());
    let size = board.get_size();
    assert!(size == 20 || size == 21);
    for square in board.get_data().iter().flatten() {
        assert!(square.initial);
    }
}

#[test]
fn puzzles_are_finished_by_their_tier_and_every_higher_one() {
    let tiers = [
        ESolvingIntelligence::SimpleLogic,
        ESolvingIntelligence::ComplexLogic,
        ESolvingIntelligence::WithGuessing,
    ];
    for (difficulty, base, from) in [(EDifficulty::Easy, 30, 0), (EDifficulty::VeryHard, 20, 2)] {
        let board = PuzzleGenerator::generate(difficulty).unwrap();
        let size = board.get_size();
        assert!(size == base || size == base + 1);
        for tier in &tiers[from..] {
            let solved = SolveController::new(*tier).solve(&board).unwrap();
            assert_eq!(EGameState::Finished, solved.get_state());
        }
    }
}

#[test]
fn complex_logic_keeps_what_it_reduces_solvable() {
    let full = FastestGenerator::generate_board();
    let mut board = full.clone();
    assert_eq!(Ok(()), iterate_remove_square(&mut board, 45, &EDifficulty::Hard));
    assert_eq!(45, board.get_size());
    for tier in [ESolvingIntelligence::ComplexLogic, ESolvingIntelligence::WithGuessing] {
        let solved = SolveController::new(tier).solve(&board).unwrap();
        assert_eq!(EGameState::Finished, solved.get_state());
    }
}
