use eight_queens::position::{CoordIter, PosCoords};

#[test]
fn coord_iter_can_be_created_from_dims() {
    let coord_iter = CoordIter::from_dims((8, 8));
    assert_eq!(coord_iter.height(), 8);
    assert_eq!(coord_iter.width(), 8);
    assert_eq!(coord_iter.curr_i(), 0);
}

#[test]
fn iterating_3_by_3_space_works() {
    let dims = (3, 3);
    let coord_iter = CoordIter::from_dims(dims);
    let coords = coord_iter.to_vec();
    let expected: Vec<PosCoords> = vec![
        (0, 0),
        (1, 0),
        (2, 0),
        (0, 1),
        (1, 1),
        (2, 1),
        (0, 2),
        (1, 2),
        (2, 2),
    ];
    assert_eq!(coords, expected);
}

#[test]
fn coord_iter_steps_one_square_at_a_time() {
    let mut it = CoordIter::from_dims((2, 3));
    assert!(it.in_bounds());
    assert_eq!(it.curr_pos(), (0, 0));
    assert_eq!(it.next_pos(), Some((0, 0)));
    assert_eq!(it.next_pos(), Some((1, 0)));
    assert_eq!(it.next_pos(), Some((0, 1)));
    assert_eq!(it.curr_i(), 3);
    assert_eq!(it.to_vec(), vec![(1, 1), (0, 2), (1, 2)]);
}

#[test]
fn coord_iter_on_an_empty_board_yields_nothing() {
    let mut it = CoordIter::from_dims((0, 5));
    assert!(!it.in_bounds());
    assert_eq!(it.next_pos(), None);
    assert_eq!(it.to_vec(), Vec::<PosCoords>::new());
}
