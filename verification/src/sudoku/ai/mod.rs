pub use self::field::{Field, FieldView};
pub use self::solve_controller::{ESolvingIntelligence, SolveController};
pub use self::suggestion_controller::SuggestionController;
pub use self::virtual_board::VirtualBoard;

mod field;
pub mod correctness;
pub mod solve_controller;
pub mod soundness;
pub mod suggestion_controller;
pub mod values;
pub mod virtual_board;
