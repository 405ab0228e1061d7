use sudojo::sudoku::util::iterators::{
    board_iterator, index_column_iterator, index_quadrant_iterator, index_row_iterator,
    quadrant_iterator, quadrant_squares_iterator, QuadrantSquaresIterator,
};

#[test]
fn test_index_row_iterator() {
    for value in index_row_iterator(8) {
        assert!(value <= 8);
    }
    for value in index_row_iterator(80) {
        assert!(value >= 72);
        assert!(value <= 80);
    }
}

#[test]
fn test_index_column_iterator() {
    let mut res = vec![6, 7, 8, 15, 16, 17, 24, 25, 26];
    assert_eq!(res, index_quadrant_iterator(6));
    assert_eq!(res, index_quadrant_iterator(7));
    assert_eq!(res, index_quadrant_iterator(8));
    assert_eq!(res, index_quadrant_iterator(15));
    assert_eq!(res, index_quadrant_iterator(16));
    assert_eq!(res, index_quadrant_iterator(17));
    assert_eq!(res, index_quadrant_iterator(24));
    assert_eq!(res, index_quadrant_iterator(25));
    assert_eq!(res, index_quadrant_iterator(26));
    res = vec![0, 1, 2, 9, 10, 11, 18, 19, 20];
    assert_eq!(res, index_quadrant_iterator(1));
    res = vec![60, 61, 62, 69, 70, 71, 78, 79, 80];
    assert_eq!(res, index_quadrant_iterator(80));
}

#[test]
fn index_row_and_column_are_exact() {
    assert_eq!(0..9, index_row_iterator(8));
    assert_eq!(72..81, index_row_iterator(80));
    assert_eq!(36..45, index_row_iterator(40));
    assert_eq!(vec![4, 13, 22, 31, 40, 49, 58, 67, 76], index_column_iterator(40));
    assert_eq!(vec![8, 17, 26, 35, 44, 53, 62, 71, 80], index_column_iterator(8));
}

#[test]
fn board_iterator_walks_row_major() {
    let mut positions = board_iterator();
    let mut seen = Vec::new();
    while let Some(p) = positions.next() {
        seen.push(p);
    }
    assert_eq!(81, seen.len());
    assert_eq!((1, 1), seen[0]);
    assert_eq!((9, 1), seen[8]);
    assert_eq!((1, 2), seen[9]);
    assert_eq!((9, 9), seen[80]);
    assert_eq!(None, positions.next());
}

#[test]
fn quadrant_iterators_walk_in_reading_order() {
    let mut squares = quadrant_squares_iterator(2, 3);
    let mut seen = Vec::new();
    while let Some(p) = squares.next() {
        seen.push(p);
    }
    assert_eq!(vec![(4, 7), (5, 7), (6, 7), (4, 8), (5, 8), (6, 8), (4, 9), (5, 9), (6, 9)], seen);
    assert_eq!(None, squares.next());

    let mut from_board = QuadrantSquaresIterator::from_board_coordinates(9, 4);
    assert_eq!(3, from_board.q_x);
    assert_eq!(2, from_board.q_y);
    assert_eq!(Some((7, 4)), from_board.next());

    let mut quadrants = quadrant_iterator();
    let mut order = Vec::new();
    while let Some(q) = quadrants.next() {
        order.push((q.q_x, q.q_y));
    }
    assert_eq!(vec![(1, 1), (2, 1), (3, 1), (1, 2), (2, 2), (3, 2), (1, 3), (2, 3), (3, 3)], order);
}
