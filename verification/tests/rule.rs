use std::collections::HashMap;
use sudojo::sudoku::ai::{Field, VirtualBoard};
use sudojo::sudoku::game::rule::{
    calculate_quadrant, HorizontalUniqueRule, QuadrantUniqueRule, RowQuadrantCombinationRule,
    VerticalUniqueRule,
};
use sudojo::sudoku::game::{Board, Coordinate, EGameState, Square};
use sudojo::sudoku::util::iterators::board_iterator;

#[test]
fn test_calculate_quadrant() {
    assert_eq!(1, calculate_quadrant(1));
    assert_eq!(1, calculate_quadrant(2));
    assert_eq!(1, calculate_quadrant(3));
    assert_eq!(2, calculate_quadrant(4));
    assert_eq!(2, calculate_quadrant(5));
    assert_eq!(2, calculate_quadrant(6));
    assert_eq!(3, calculate_quadrant(7));
    assert_eq!(3, calculate_quadrant(8));
    assert_eq!(3, calculate_quadrant(9));
}

#[test]
fn calculate_quadrant_at_the_ends() {
    assert_eq!(0, calculate_quadrant(0));
    assert_eq!(85, calculate_quadrant(254));
    assert_eq!(85, calculate_quadrant(255));
}

#[test]
fn is_exclusive_in_quadrant_horizontally() {
    let mut map: HashMap<usize, Field> = HashMap::new();
    let mut set: Vec<u8> = Vec::new();
    set.push(1);
    //is unique in quadrant
    map.insert(Coordinate::new(1, 1).get_index(), Field::from_possible_values(set.clone()));
    // following values should be removed
    map.insert(Coordinate::new(1, 2).get_index(), Field::from_possible_values(set.clone()));
    map.insert(Coordinate::new(2, 2).get_index(), Field::from_possible_values(set.clone()));
    map.insert(Coordinate::new(5, 2).get_index(), Field::from_possible_values(set.clone()));
    map.insert(Coordinate::new(9, 2).get_index(), Field::from_possible_values(set.clone()));
    map.insert(Coordinate::new(3, 3).get_index(), Field::from_possible_values(set.clone()));
    // is not unique in quadrant
    set.clear();
    map.insert(Coordinate::new(2, 1).get_index(), Field::from_possible_values(set.clone()));
    map.insert(Coordinate::new(3, 1).get_index(), Field::from_possible_values(set.clone()));
    map.insert(Coordinate::new(4, 1).get_index(), Field::from_possible_values(set.clone()));
    map.insert(Coordinate::new(5, 1).get_index(), Field::from_possible_values(set.clone()));
    map.insert(Coordinate::new(6, 1).get_index(), Field::from_possible_values(set.clone()));
    map.insert(Coordinate::new(7, 1).get_index(), Field::from_possible_values(set.clone()));
    map.insert(Coordinate::new(8, 1).get_index(), Field::from_possible_values(set.clone()));
    map.insert(Coordinate::new(9, 1).get_index(), Field::from_possible_values(set.clone()));

    let board = VirtualBoard::from(map);
    let coordinate_1_1 = Coordinate::new(1, 1);
    assert!(RowQuadrantCombinationRule::is_exclusive_in_quadrant_horizontally(&board, &coordinate_1_1, &1));
    let coordinate_1_2 = Coordinate::new(1, 2);
    assert!(!RowQuadrantCombinationRule::is_exclusive_in_quadrant_horizontally(&board, &coordinate_1_2, &1));
    let coordinate_4_1 = Coordinate::new(4, 1);
    assert!(!RowQuadrantCombinationRule::is_exclusive_in_quadrant_horizontally(&board, &coordinate_4_1, &1));
    let coordinate_4_2 = Coordinate::new(4, 2);
    assert!(!RowQuadrantCombinationRule::is_exclusive_in_quadrant_horizontally(&board, &coordinate_4_2, &1));
}

#[test]
fn is_exclusive_in_quadrant_vertically() {
    let mut map: HashMap<usize, Field> = HashMap::new();
    let mut set: Vec<u8> = Vec::new();
    set.push(9);

    let mut positions = board_iterator();
    while let Some((x, y)) = positions.next() {
        map.insert(Coordinate::new(x, y).get_index(), Field::from_possible_values(set.clone()));
    }
    set.clear();
    set.push(1);
    set.push(2);
    map.insert(Coordinate::new(6, 1).get_index(), Field::from_possible_values(set.clone()));
    map.insert(Coordinate::new(6, 2).get_index(), Field::from_possible_values(set.clone()));
    map.insert(Coordinate::new(6, 3).get_index(), Field::from_possible_values(set.clone()));
    map.insert(Coordinate::new(6, 7).get_index(), Field::from_possible_values(set.clone()));
    map.insert(Coordinate::new(6, 8).get_index(), Field::from_possible_values(set.clone()));
    map.insert(Coordinate::new(6, 9).get_index(), Field::from_possible_values(set.clone()));

    let board = VirtualBoard::from(map);
    assert!(!RowQuadrantCombinationRule::is_exclusive_in_quadrant_vertically(&board, &Coordinate::new(6, 1), &9));
    assert!(!RowQuadrantCombinationRule::is_exclusive_in_quadrant_vertically(&board, &Coordinate::new(6, 2), &9));
    assert!(!RowQuadrantCombinationRule::is_exclusive_in_quadrant_vertically(&board, &Coordinate::new(6, 3), &9));
    assert!(RowQuadrantCombinationRule::is_exclusive_in_quadrant_vertically(&board, &Coordinate::new(6, 4), &9));
    assert!(RowQuadrantCombinationRule::is_exclusive_in_quadrant_vertically(&board, &Coordinate::new(6, 5), &9));
    assert!(RowQuadrantCombinationRule::is_exclusive_in_quadrant_vertically(&board, &Coordinate::new(6, 6), &9));
    assert!(!RowQuadrantCombinationRule::is_exclusive_in_quadrant_vertically(&board, &Coordinate::new(6, 7), &9));
    assert!(!RowQuadrantCombinationRule::is_exclusive_in_quadrant_vertically(&board, &Coordinate::new(6, 8), &9));
    assert!(!RowQuadrantCombinationRule::is_exclusive_in_quadrant_vertically(&board, &Coordinate::new(6, 9), &9));
}

fn board_with(squares: &[(u8, u8, u8)]) -> Board {
    let mut board = Board::new();
    for &(x, y, value) in squares {
        board.fill_square(Coordinate::new(x, y), Square::new(value, true)).unwrap();
    }
    board
}

#[test]
fn each_rule_sees_its_own_unit_only() {
    // 5 at (1,1); a second 5 in the same row, column or quadrant
    let row = board_with(&[(1, 1, 5), (9, 1, 5)]);
    let column = board_with(&[(1, 1, 5), (1, 9, 5)]);
    let quadrant = board_with(&[(1, 1, 5), (2, 2, 5)]);
    let c = Coordinate::new(1, 1);
    assert_eq!(EGameState::Conflict, HorizontalUniqueRule::apply(&c, &row));
    assert_eq!(EGameState::Okay, VerticalUniqueRule::apply(&c, &row));
    assert_eq!(EGameState::Okay, QuadrantUniqueRule::apply(&c, &row));
    assert_eq!(EGameState::Okay, HorizontalUniqueRule::apply(&c, &column));
    assert_eq!(EGameState::Conflict, VerticalUniqueRule::apply(&c, &column));
    assert_eq!(EGameState::Okay, QuadrantUniqueRule::apply(&c, &column));
    assert_eq!(EGameState::Okay, HorizontalUniqueRule::apply(&c, &quadrant));
    assert_eq!(EGameState::Okay, VerticalUniqueRule::apply(&c, &quadrant));
    assert_eq!(EGameState::Conflict, QuadrantUniqueRule::apply(&c, &quadrant));
    // an empty cell is never in conflict
    assert_eq!(EGameState::Okay, HorizontalUniqueRule::apply(&Coordinate::new(5, 1), &row));
}

#[test]
fn quadrant_rule_sees_the_whole_quadrant() {
    // same quadrant and same row: the quadrant rule reports it too
    let board = board_with(&[(1, 1, 5), (3, 1, 5)]);
    assert_eq!(EGameState::Conflict, QuadrantUniqueRule::apply(&Coordinate::new(1, 1), &board));
    assert_eq!(EGameState::Conflict, QuadrantUniqueRule::apply(&Coordinate::new(3, 1), &board));
}

#[test]
fn forbidden_values_are_those_of_the_unit() {
    let board = board_with(&[(1, 1, 5), (9, 1, 6), (1, 9, 7), (3, 3, 8), (5, 5, 9)]);
    let c = Coordinate::new(2, 1);
    assert_eq!(vec![5, 6], HorizontalUniqueRule::get_forbidden_values(&board, &c));
    assert_eq!(Vec::<u8>::new(), VerticalUniqueRule::get_forbidden_values(&board, &c));
    assert_eq!(vec![5, 8], QuadrantUniqueRule::get_forbidden_values(&board, &c));
    assert_eq!(vec![5, 7], VerticalUniqueRule::get_forbidden_values(&board, &Coordinate::new(1, 5)));
}

#[test]
fn disallowed_values_are_listed_unit_by_unit() {
    let board = board_with(&[(1, 1, 5), (9, 1, 6), (1, 9, 7), (3, 3, 8), (5, 5, 9)]);
    let rows = HorizontalUniqueRule::get_disallowed_values(&board);
    let columns = VerticalUniqueRule::get_disallowed_values(&board);
    let quadrants = QuadrantUniqueRule::get_disallowed_values(&board);
    assert_eq!(9, rows.len());
    assert_eq!(9, columns.len());
    assert_eq!(9, quadrants.len());
    assert_eq!(vec![5, 6], rows[0]);
    assert_eq!(vec![8], rows[2]);
    assert_eq!(vec![9], rows[4]);
    assert_eq!(vec![7], rows[8]);
    assert_eq!(vec![5, 7], columns[0]);
    assert_eq!(vec![6], columns[8]);
    assert_eq!(vec![5, 8], quadrants[0]);
    assert_eq!(vec![6], quadrants[2]);
    assert_eq!(vec![9], quadrants[4]);
    assert_eq!(vec![7], quadrants[6]);
    assert_eq!(Vec::<u8>::new(), quadrants[8]);
}
