use sudojo::sudoku::game::Coordinate;

#[test]
fn test_get_index() {
    assert_eq!(0, Coordinate::new(1, 1).get_index());
    assert_eq!(8, Coordinate::new(9, 1).get_index());
    assert_eq!(9, Coordinate::new(1, 2).get_index());
    assert_eq!(80, Coordinate::new(9, 9).get_index());
}

#[test]
fn test_from_index() {
    //x
    assert_eq!(1, Coordinate::from_index(0).x);
    assert_eq!(2, Coordinate::from_index(1).x);
    assert_eq!(3, Coordinate::from_index(2).x);
    assert_eq!(4, Coordinate::from_index(3).x);
    assert_eq!(5, Coordinate::from_index(4).x);
    assert_eq!(6, Coordinate::from_index(5).x);
    assert_eq!(7, Coordinate::from_index(6).x);
    assert_eq!(8, Coordinate::from_index(7).x);
    assert_eq!(9, Coordinate::from_index(8).x);
    assert_eq!(1, Coordinate::from_index(9).x);
    assert_eq!(1, Coordinate::from_index(18).x);
    assert_eq!(1, Coordinate::from_index(81).x);
    //y
    assert_eq!(1, Coordinate::from_index(0).y);
    assert_eq!(1, Coordinate::from_index(8).y);
    assert_eq!(2, Coordinate::from_index(9).y);
    assert_eq!(9, Coordinate::from_index(80).y);
}

#[test]
fn index_and_position_are_inverse() {
    for i in 0..81usize {
        let c = Coordinate::from_index(i);
        assert!(1 <= c.x && c.x <= 9 && 1 <= c.y && c.y <= 9);
        assert_eq!(i, c.get_index());
    }
    for y in 1..10u8 {
        for x in 1..10u8 {
            let c = Coordinate::new(x, y);
            assert_eq!(c, Coordinate::from_index(c.get_index()));
            assert_eq!(9 * (y as usize - 1) + (x as usize - 1), c.get_index());
        }
    }
}

#[test]
fn from_index_counts_the_low_byte_only() {
    assert_eq!(Coordinate::new(1, 10), Coordinate::from_index(81));
    assert_eq!(Coordinate::new(4, 29), Coordinate::from_index(255));
    assert_eq!(Coordinate::new(1, 1), Coordinate::from_index(256));
    assert_eq!(Coordinate::new(6, 1), Coordinate::from_index(261));
}

#[test]
fn positions_off_the_board_are_not_valid() {
    assert!(Coordinate::new(1, 1).is_valid());
    assert!(Coordinate::new(9, 9).is_valid());
    assert!(!Coordinate::new(0, 1).is_valid());
    assert!(!Coordinate::new(1, 0).is_valid());
    assert!(!Coordinate::new(10, 9).is_valid());
    assert!(!Coordinate::new(9, 10).is_valid());
}
