use std::collections::HashMap;
use sudojo::sudoku::ai::{Field, VirtualBoard};
use sudojo::sudoku::display::{colour_of, decimal, EColour};
use sudojo::sudoku::game::{Board, Coordinate, ESquareStyle, Square};

#[test]
fn empty_board_as_text() {
    let frame = "+-------+-------+-------+\n";
    let row = "|       |       |       |\n";
    let mut expected = String::from("Board\n");
    for _ in 0..3 {
        expected.push_str(frame);
        for _ in 0..3 {
            expected.push_str(row);
        }
    }
    expected.push_str(frame);
    assert_eq!(expected, Board::new().to_text());
}

#[test]
fn squares_are_shown_in_the_colour_of_their_style() {
    let mut board = Board::new();
    board.fill_square(Coordinate::new(1, 1), Square::new(5, true)).unwrap();
    board.initialized(true);
    board.fill_square(Coordinate::new(2, 1), Square::new(7, false)).unwrap();
    board.fill_square(Coordinate::new(3, 1), Square::generate(8)).unwrap();
    board.fill_square(Coordinate::new(4, 1), Square::new(7, false)).unwrap();
    board.fill_square(Coordinate::new(5, 1), Square::generate(8)).unwrap();
    let plain = board.to_text();
    let first = plain.lines().nth(2).unwrap();
    assert_eq!(
        "| \u{1b}[36m5\u{1b}[0m 7 \u{1b}[32m8\u{1b}[0m | 7 \u{1b}[32m8\u{1b}[0m   |       |",
        first
    );
    board.mark_conflicts();
    let marked = board.to_text();
    let first = marked.lines().nth(2).unwrap();
    assert_eq!(
        "| \u{1b}[36m5\u{1b}[0m \u{1b}[31m7\u{1b}[0m \u{1b}[35m8\u{1b}[0m | \u{1b}[31m7\u{1b}[0m \u{1b}[35m8\u{1b}[0m   |       |",
        first
    );
    assert_eq!(14, marked.lines().count());
    assert_eq!("Board", marked.lines().next().unwrap());
}

#[test]
fn values_are_written_in_decimal() {
    assert_eq!(vec!['0'], decimal(0));
    assert_eq!(vec!['9'], decimal(9));
    assert_eq!(vec!['1', '0'], decimal(10));
    assert_eq!(vec!['9', '9'], decimal(99));
    assert_eq!(vec!['1', '0', '0'], decimal(100));
    assert_eq!(vec!['2', '5', '5'], decimal(255));
    let board = Board::from_vec({
        let mut data = vec![None; 81];
        data[0] = Some(Square::new(120, false));
        data
    });
    assert!(board.to_text().lines().nth(2).unwrap().starts_with("| 120   "));
}

#[test]
fn each_style_has_its_colour() {
    assert_eq!(Some(EColour::Cyan), colour_of(ESquareStyle::Initial));
    assert_eq!(Some(EColour::Red), colour_of(ESquareStyle::Conflict));
    assert_eq!(Some(EColour::Purple), colour_of(ESquareStyle::GeneratedConflict));
    assert_eq!(Some(EColour::Green), colour_of(ESquareStyle::Generated));
    assert_eq!(None, colour_of(ESquareStyle::Plain));
}

#[test]
fn virtual_board_as_text() {
    let mut map: HashMap<usize, Field> = HashMap::new();
    for i in 0..81 {
        map.insert(i, Field::from_possible_values(vec![]));
    }
    map.insert(0, Field::from_possible_values(vec![1, 5, 9]));
    map.insert(1, Field::from_square(&Square::new(4, true)));
    let text = VirtualBoard::from(map).to_text();
    let lines: Vec<&str> = text.lines().collect();
    let g = |d: u8| format!("\u{1b}[32m{}\u{1b}[0m", d);
    let c = |d: u8| format!("\u{1b}[36m{}\u{1b}[0m", d);
    let rest = " |     |     |     | |     |     |     |";
    assert_eq!("VirtualBoard", lines[0]);
    assert_eq!(format!(" | {}   |     |     |{}", g(1), rest), lines[1]);
    assert_eq!(format!(" |  {}  | {}   |     |{}", g(5), c(4), rest), lines[2]);
    assert_eq!(format!(" |   {} |     |     |{}", g(9), rest), lines[3]);
    assert_eq!(" |     |     |     | |     |     |     | |     |     |     |", lines[4]);
    // nine rows of three lines, an empty line behind each band, and one at the end
    assert_eq!(1 + 27 + 3 + 1, text.matches('\n').count());
    assert!(text.ends_with("|\n\n\n"));
}
