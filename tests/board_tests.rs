use std::collections::HashSet;

use eight_queens::board::Board;
use eight_queens::position::{PosCoords, PosError};
use eight_queens::Square;

#[test]
fn board_of_size_3_by_3_can_be_created_from_coords() {
    let dims = (3, 3);
    let board = Board::from_dims(dims);
    assert_eq!(board.dims(), dims);
    [(0, 0), (0, 2), (2, 0), (2, 2)].iter().for_each(|pos| {
        assert_eq!(board.in_bounds(pos), true);
    });
    [(0, 3), (3, 0), (3, 3)].iter().for_each(|pos| {
        assert_eq!(board.in_bounds(pos), false);
    });
}

#[test]
fn create_board_from_empty_iter() {
    let b = Board::from_positions(Vec::new()).unwrap();
    let results = b.get_queen_positions();
    let expected: Vec<PosCoords> = Vec::new();
    assert_eq!(results, expected);
    assert_eq!(b.height(), 8);
    assert_eq!(b.width(), 8);
}

#[test]
fn create_board_with_two_queens() {
    let b = Board::from_positions(vec![(0, 0), (0, 1)]).unwrap();
    let expected: Vec<PosCoords> = vec![(0, 0), (0, 1)];
    assert_eq!(b.get_queen_positions(), expected);
}

#[test]
fn position_reflections_work() {
    let b = Board::new();
    let cases: [(PosCoords, PosCoords, PosCoords, PosCoords); 2] = [
        ((0, 7), (7, 7), (0, 0), (7, 0)),
        ((2, 6), (5, 6), (2, 1), (5, 1)),
    ];
    for &(input, expected_horizontal, expected_vertical, expected_inverse) in cases.iter() {
        let actual_horizontal = b.get_pos_horizontal_reflection(&input);
        assert_eq!(actual_horizontal, expected_horizontal);

        let actual_inverse = b.get_pos_inverse(&input);
        assert_eq!(actual_inverse, expected_inverse);

        let actual_vertical = b.get_pos_vertical_reflection(&input);
        assert_eq!(actual_vertical, expected_vertical);
    }
}

#[test]
fn queens_in_corners() {
    let mut b = Board::new();
    for curr in [(0, 0), (0, 7), (7, 0), (7, 7)].iter() {
        let &(col, row) = curr;
        b.add_queen((col, row)).unwrap();
    }
    let expected: HashSet<PosCoords> = [
        (2, 6),
        (3, 6),
        (4, 6),
        (5, 6),
        (1, 5),
        (3, 5),
        (4, 5),
        (6, 5),
        (1, 4),
        (2, 4),
        (5, 4),
        (6, 4),
        (1, 3),
        (2, 3),
        (5, 3),
        (6, 3),
        (1, 2),
        (3, 2),
        (4, 2),
        (6, 2),
        (2, 1),
        (3, 1),
        (4, 1),
        (5, 1),
    ]
    .iter()
    .cloned()
    .collect();
    let results: HashSet<PosCoords> = b.get_uncontested_spaces().into_iter().collect();
    assert_eq!(results, expected);
}

#[test]
fn dimensions_are_correct() {
    let b = Board::new();
    assert_eq!(b.width(), 8);
    assert_eq!(b.height(), 8);
    let dims = b.dims();
    let expected_dims = (8, 8);
    assert_eq!(dims, expected_dims);
}

#[test]
fn get_square_works() {
    let mut b = Board::new();
    let (x, y) = (0, 0);
    let mut s = b.get_square(x, y);
    assert_eq!(s, Ok(Square::Empty));
    b.add_queen((x, y)).unwrap();
    s = b.get_square(x, y);
    assert_eq!(s, Ok(Square::Queen));
}

#[test]
fn get_square_handles_oob_coords() {
    let b = Board::new();
    let (x, y) = (8, 8);
    let s = b.get_square(x, y);
    assert_eq!(s, Err(PosError::OutOfBounds));
}

#[test]
fn get_square_reads_row_then_column() {
    let b = Board::from_positions(vec![(5, 2)]).unwrap();
    assert_eq!(b.get_square(2, 5), Ok(Square::Queen));
    assert_eq!(b.get_square(5, 2), Ok(Square::Empty));
    assert_eq!(b.get_square(0, 8), Err(PosError::OutOfBounds));
}

#[test]
fn add_queen_off_the_board_is_an_error() {
    let mut b = Board::from_dims((3, 2));
    assert_eq!(b.add_queen((3, 0)), Err(PosError::OutOfBounds));
    assert_eq!(b.add_queen((0, 2)), Err(PosError::OutOfBounds));
    assert_eq!(b.get_queen_positions(), Vec::<PosCoords>::new());
    assert_eq!(b.add_queen((2, 1)), Ok(()));
    assert_eq!(b.add_queen((2, 1)), Ok(()));
    assert_eq!(b.get_queen_positions(), vec![(2, 1)]);
}

#[test]
fn from_positions_rejects_a_square_off_the_board() {
    let r = Board::from_positions(vec![(0, 0), (8, 3)]);
    assert_eq!(r.unwrap_err(), PosError::OutOfBounds);
}

#[test]
fn queen_positions_come_out_sorted() {
    let b = Board::from_positions(vec![(7, 7), (0, 3), (0, 1), (4, 0), (0, 3)]).unwrap();
    assert_eq!(b.get_queen_positions(), vec![(0, 1), (0, 3), (4, 0), (7, 7)]);
}

#[test]
fn board_reflections_mirror_each_queen() {
    let b = Board::from_positions(vec![(0, 0), (1, 2), (7, 5)]).unwrap();
    let refl = b.get_reflections();
    assert_eq!(refl.len(), 3);
    assert_eq!(refl[0].get_queen_positions(), vec![(0, 5), (6, 2), (7, 0)]);
    assert_eq!(refl[1].get_queen_positions(), vec![(0, 7), (1, 5), (7, 2)]);
    assert_eq!(refl[2].get_queen_positions(), vec![(0, 2), (6, 5), (7, 7)]);
    assert_eq!(b.get_horizontal_reflection().get_queen_positions(), vec![(0, 5), (6, 2), (7, 0)]);
    assert_eq!(b.get_vertical_reflection().get_queen_positions(), vec![(0, 7), (1, 5), (7, 2)]);
    assert_eq!(b.get_inverse().get_queen_positions(), vec![(0, 2), (6, 5), (7, 7)]);
}
