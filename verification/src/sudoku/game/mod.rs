pub use self::board::{
    lemma_one_square_per_coordinate, lemma_placement_spares_the_rest, lemma_undo_restores, Board,
    BoardView,
};
pub use self::coordinate::Coordinate;
pub use self::error::EError;
pub use self::game_state::EGameState;
pub use self::square::{ESquareStyle, Square};

mod board;
mod coordinate;
mod error;
mod game_state;
pub mod grid;
pub mod rule;
mod square;
