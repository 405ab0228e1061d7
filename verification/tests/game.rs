use sudojo::app::difficulty::EDifficulty;
use sudojo::app::{AppState, EAppState, EStartChoice, Start, Turn};
use sudojo::sudoku::ai::ESolvingIntelligence;
use sudojo::sudoku::game::{Board, Coordinate, EError, EGameState, Square};
use sudojo::sudoku::Sudoku;

#[test]
fn new_game_runs_on_an_empty_board() {
    let game = Sudoku::new();
    assert_eq!(Board::new(), game.board);
    assert!(*game.get_state() == EAppState::Running);
}

#[test]
fn start_hands_out_a_puzzle_in_play() {
    let mut game = Sudoku::new();
    game.start(EStartChoice::NewGame(EDifficulty::VeryHard));
    assert!(game.board.is_initialized());
    let size = game.board.get_size();
    assert!(size == 20 || size == 21);
    let solved = game.solve(ESolvingIntelligence::WithGuessing).unwrap();
    assert_eq!(EGameState::Finished, solved.get_state());
    // solving leaves the game as it is
    assert_eq!(size, game.board.get_size());
}

#[test]
fn other_choices_leave_the_game_alone() {
    let mut game = Sudoku::new();
    game.start(EStartChoice::LoadGame);
    game.start(EStartChoice::Invalid);
    game.start(EStartChoice::Quit);
    assert_eq!(Board::new(), game.board);
}

#[test]
fn turns_place_and_delete() {
    let mut game = Sudoku::new();
    game.board.fill_square(Coordinate::new(1, 1), Square::new(5, true)).unwrap();
    game.board.initialized(true);
    {
        let board = game.do_turn((Coordinate::new(2, 1), Some(Square::new(6, false)))).unwrap();
        assert_eq!(Some(Square::new(6, false)), *board.get_square(&Coordinate::new(2, 1)));
    }
    assert_eq!(
        Err(EError::CellOccupied),
        game.do_turn((Coordinate::new(2, 1), Some(Square::new(7, false)))).map(|_| ())
    );
    assert_eq!(
        Err(EError::PhaseViolation),
        game.do_turn((Coordinate::new(3, 1), Some(Square::new(7, true)))).map(|_| ())
    );
    assert_eq!(
        Err(EError::DeleteInitialForbidden),
        game.do_turn((Coordinate::new(1, 1), None)).map(|_| ())
    );
    {
        let board = game.do_turn((Coordinate::new(2, 1), None)).unwrap();
        assert_eq!(None, *board.get_square(&Coordinate::new(2, 1)));
    }
}

#[test]
fn undo_and_revert_go_through_to_the_board() {
    let mut game = Sudoku::new();
    game.board.fill_square(Coordinate::new(1, 1), Square::new(5, true)).unwrap();
    game.board.initialized(true);
    let start = game.board.clone();
    game.do_turn((Coordinate::new(2, 1), Some(Square::new(6, false)))).unwrap();
    game.undo();
    assert_eq!(start, game.board);
    game.do_turn((Coordinate::new(2, 1), Some(Square::new(6, false)))).unwrap();
    game.do_turn((Coordinate::new(3, 1), Some(Square::new(7, false)))).unwrap();
    game.revert();
    assert_eq!(1, game.board.get_size());
}

#[test]
fn suggest_names_forced_placements() {
    let mut game = Sudoku::new();
    for x in 1..9u8 {
        game.board.fill_square(Coordinate::new(x, 1), Square::new(x, true)).unwrap();
    }
    game.board.initialized(true);
    let suggestions = game.suggest();
    assert!(suggestions.contains(&(Coordinate::new(9, 1), Square::generate(9))));
}
