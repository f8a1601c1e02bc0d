use eight_queens::board::Board;
use eight_queens::position::{CoordList, PosCoords};
use eight_queens::queen::{
    get_contested_spaces, get_horiz_moves, get_ne_moves, get_nw_moves, get_queen_move_sets,
    get_queen_moves, get_se_moves, get_sw_moves, get_vert_moves, queen_attacks,
};

#[test]
fn add_queen_works() {
    let queen_positions: &[PosCoords] = &[(0, 0), (0, 7), (7, 0), (7, 7)];
    let board = Board::from_positions(queen_positions.to_vec()).unwrap();
    let queen_positions = board.get_queen_positions();
    let expected = queen_positions.to_vec();
    assert_eq!(queen_positions, expected);
}

#[test]
fn get_queen_moves_works_from_2_2() {
    let dims = (8, 8);
    let pos = (2, 2);
    let expected: CoordList = vec![
        (0, 0),
        (0, 2),
        (0, 4),
        (1, 1),
        (1, 2),
        (1, 3),
        (2, 0),
        (2, 1),
        (2, 2),
        (2, 3),
        (2, 4),
        (2, 5),
        (2, 6),
        (2, 7),
        (3, 1),
        (3, 2),
        (3, 3),
        (4, 0),
        (4, 2),
        (4, 4),
        (5, 2),
        (5, 5),
        (6, 2),
        (6, 6),
        (7, 2),
        (7, 7),
    ];
    let result = get_queen_moves(pos, dims);
    assert_eq!(result, expected);
}

#[test]
fn get_queen_moves_works_from_7_7() {
    let dims = (8, 8);
    let pos = (7, 7);
    let expected: CoordList = vec![
        (0, 0),
        (0, 7),
        (1, 1),
        (1, 7),
        (2, 2),
        (2, 7),
        (3, 3),
        (3, 7),
        (4, 4),
        (4, 7),
        (5, 5),
        (5, 7),
        (6, 6),
        (6, 7),
        (7, 0),
        (7, 1),
        (7, 2),
        (7, 3),
        (7, 4),
        (7, 5),
        (7, 6),
        (7, 7),
    ];
    let result = get_queen_moves(pos, dims);
    assert_eq!(result, expected);
}

#[test]
fn get_contested_moves_works_for_two_queens() {
    let queen_positions: &[PosCoords] = &[(0, 0), (7, 0)];
    let dims = (8, 8);
    let expected: CoordList = vec![
        (0, 0),
        (0, 1),
        (0, 2),
        (0, 3),
        (0, 4),
        (0, 5),
        (0, 6),
        (0, 7),
        (1, 0),
        (1, 1),
        (1, 6),
        (2, 0),
        (2, 2),
        (2, 5),
        (3, 0),
        (3, 3),
        (3, 4),
        (4, 0),
        (4, 3),
        (4, 4),
        (5, 0),
        (5, 2),
        (5, 5),
        (6, 0),
        (6, 1),
        (6, 6),
        (7, 0),
        (7, 1),
        (7, 2),
        (7, 3),
        (7, 4),
        (7, 5),
        (7, 6),
        (7, 7),
    ];
    let result = get_contested_spaces(queen_positions.to_vec(), dims);
    assert_eq!(result, expected);
}

fn brute_force_attacks(pos: PosCoords, dims: PosCoords) -> CoordList {
    let mut r = Vec::new();
    for x in 0..dims.0 {
        for y in 0..dims.1 {
            let (px, py) = (pos.0 as i64, pos.1 as i64);
            let (qx, qy) = (x as i64, y as i64);
            if px == qx || py == qy || px + py == qx + qy || px - py == qx - qy {
                r.push((x, y));
            }
        }
    }
    r
}

#[test]
fn queen_moves_match_a_square_by_square_walk_on_every_square() {
    for dims in [(8, 8), (5, 3), (1, 1), (3, 7)].iter().cloned() {
        for x in 0..dims.0 {
            for y in 0..dims.1 {
                assert_eq!(get_queen_moves((x, y), dims), brute_force_attacks((x, y), dims));
            }
        }
    }
}

#[test]
fn line_walks_stop_at_the_edges() {
    let dims = (8, 8);
    assert_eq!(get_vert_moves((3, 5), (8, 3)), vec![(3, 0), (3, 1), (3, 2)]);
    assert_eq!(get_horiz_moves((3, 5), (2, 8)), vec![(0, 5), (1, 5)]);
    assert_eq!(get_nw_moves((2, 5), dims), vec![(2, 5), (1, 6), (0, 7)]);
    assert_eq!(get_ne_moves((5, 6), dims), vec![(5, 6), (6, 7)]);
    assert_eq!(get_sw_moves((2, 1), dims), vec![(2, 1), (1, 0)]);
    assert_eq!(get_se_moves((6, 2), dims), vec![(6, 2), (7, 1)]);
    assert_eq!(get_nw_moves((0, 0), dims), vec![(0, 0)]);
    assert_eq!(get_se_moves((7, 0), dims), vec![(7, 0)]);
}

#[test]
fn move_sets_follow_the_queens_in_order() {
    let sets = get_queen_move_sets(vec![(7, 7), (2, 2)], (8, 8));
    assert_eq!(sets.len(), 2);
    assert_eq!(sets[0], get_queen_moves((7, 7), (8, 8)));
    assert_eq!(sets[1], get_queen_moves((2, 2), (8, 8)));
}

#[test]
fn attack_test_covers_rows_columns_and_diagonals() {
    assert!(queen_attacks((2, 2), (2, 7)));
    assert!(queen_attacks((2, 2), (6, 2)));
    assert!(queen_attacks((2, 2), (5, 5)));
    assert!(queen_attacks((2, 2), (4, 0)));
    assert!(queen_attacks((2, 2), (2, 2)));
    assert!(!queen_attacks((2, 2), (3, 4)));
}
