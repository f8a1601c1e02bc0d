use eight_queens::board::Board;
use eight_queens::checker::{
    board_has_conflict, check_board, classify, get_total_number_of_squares, CheckResult,
};
use eight_queens::position::PosCoords;
use eight_queens::solution_state::{check_is_solved, get_queen_states, has_contested_queens, SolutionState};

fn board_of(positions: &[PosCoords]) -> Board {
    Board::from_positions(positions.to_vec()).unwrap()
}

const INVALID_8: [PosCoords; 8] = [(2, 0), (4, 1), (1, 2), (7, 3), (0, 4), (6, 5), (5, 6), (5, 7)];
const VALID_8: [PosCoords; 8] = [(2, 0), (4, 1), (1, 2), (7, 3), (0, 4), (6, 5), (3, 6), (5, 7)];

#[test]
fn board_has_conflict_default_board_is_not_a_solution_has_no_conflict() {
    let b = Board::new();
    let res = board_has_conflict(&b);
    assert_eq!(res, false, "Empty board has no conflict.");
}

#[test]
fn board_has_conflict_board_with_2_adjacent_queens_has_conflict() {
    let b = board_of(&[(0, 0), (1, 0)]);
    assert!(board_has_conflict(&b));
}

#[test]
fn board_has_conflict_board_with_two_safe_queens_has_no_conflict() {
    let b = board_of(&[(0, 0), (7, 2)]);
    let res = board_has_conflict(&b);
    assert_eq!(res, false);
}

#[test]
fn board_has_conflict_invalid_solution_with_8_queens_is_not_accepted() {
    let b = board_of(&INVALID_8);
    assert!(board_has_conflict(&b));
}

#[test]
fn board_has_conflict_valid_solution_is_accepted() {
    let b = board_of(&VALID_8);
    let res = board_has_conflict(&b);
    assert_eq!(res, false);
}

fn create_solution_result() -> CheckResult {
    CheckResult { is_solved: true, has_conflict: false, num_queens: 8, num_free_spaces: 56 }
}

fn create_partial_solution_2_queens() -> CheckResult {
    CheckResult { is_solved: false, has_conflict: false, num_queens: 2, num_free_spaces: 62 }
}

fn create_default_board_check_result() -> CheckResult {
    CheckResult { is_solved: false, has_conflict: false, num_queens: 0, num_free_spaces: 64 }
}

#[test]
fn solution_is_gt_than_default() {
    let soln = create_solution_result();
    let def = create_default_board_check_result();
    assert!(soln > def);
}

#[test]
fn partial_solution_is_gt_than_default() {
    let partial_soln = create_partial_solution_2_queens();
    let def = create_default_board_check_result();
    assert!(partial_soln > def);
}

#[test]
fn mod_default_board_is_not_a_solution_has_no_conflict() {
    let b = Board::new();
    let check_res = check_board(b);
    let expected = CheckResult { is_solved: false, has_conflict: false, num_queens: 0, num_free_spaces: 64 };
    assert_eq!(check_res, expected);

    let sol = SolutionState::from_board(&Board::new());
    assert_eq!(sol.has_conflict, false, "Empty board has no conflict.");
    assert_eq!(sol.is_solved, false);
}

#[test]
fn mod_board_with_2_adjacent_queens_has_conflict() {
    let b = board_of(&[(0, 0), (1, 0)]);
    let check_res = check_board(b);
    let expected = CheckResult { is_solved: false, has_conflict: true, num_queens: 2, num_free_spaces: 30 };
    assert_eq!(check_res, expected);

    let sol = SolutionState::from_board(&board_of(&[(0, 0), (1, 0)]));
    assert_eq!(sol.has_conflict, true);
    assert_eq!(sol.is_solved, false);
}

#[test]
fn mod_board_with_two_safe_queens_has_no_conflict() {
    let b = board_of(&[(0, 0), (7, 2)]);
    let check_res = check_board(b);
    let expected = CheckResult { is_solved: false, has_conflict: false, num_queens: 2, num_free_spaces: 25 };
    assert_eq!(check_res, expected);

    let sol = SolutionState::from_board(&board_of(&[(0, 0), (7, 2)]));
    assert_eq!(sol.has_conflict, false);
    assert_eq!(sol.is_solved, false);
}

#[test]
fn mod_invalid_solution_with_8_queens_is_not_accepted() {
    let b = board_of(&INVALID_8);
    let check_res = check_board(b);
    let expected = CheckResult { is_solved: false, has_conflict: true, num_queens: 8, num_free_spaces: 0 };
    assert_eq!(check_res, expected);

    let sol = SolutionState::from_board(&board_of(&INVALID_8));
    assert_eq!(sol.has_conflict, true);
    assert_eq!(sol.is_solved, false);
}

#[test]
fn mod_valid_solution_is_accepted() {
    let b = board_of(&VALID_8);
    let check_res = check_board(b);
    let expected = CheckResult { is_solved: true, has_conflict: false, num_queens: 8, num_free_spaces: 0 };
    assert_eq!(check_res, expected);

    let sol = SolutionState::from_board(&board_of(&VALID_8));
    assert_eq!(sol.has_conflict, false);
    assert_eq!(sol.is_solved, true);
}

#[test]
fn two_queens_in_a_row_classify_as_conflicted_and_unsolved() {
    let r = classify(&vec![(0, 0), (1, 0)], (8, 8));
    assert!(r.has_conflict);
    assert!(!r.is_solved);
}

#[test]
fn eight_queens_without_attacks_classify_as_solved() {
    let r = classify(&VALID_8.to_vec(), (8, 8));
    assert!(!r.has_conflict);
    assert!(r.is_solved);
    assert_eq!(r.num_queens, 8);
}

#[test]
fn solved_means_as_many_queens_as_the_shorter_side() {
    let r = classify(&vec![(0, 0), (2, 1)], (3, 2));
    assert_eq!(r, CheckResult { has_conflict: false, is_solved: true, num_queens: 2, num_free_spaces: 0 });
    let r = classify(&vec![(0, 0)], (3, 2));
    assert!(!r.is_solved);
    assert_eq!(r.num_free_spaces, 1);
}

#[test]
fn diagonal_attacks_count_as_conflicts() {
    assert!(classify(&vec![(1, 1), (3, 3)], (8, 8)).has_conflict);
    assert!(classify(&vec![(1, 4), (4, 1)], (8, 8)).has_conflict);
    assert!(!classify(&vec![(1, 1), (2, 3)], (8, 8)).has_conflict);
}

#[test]
fn classification_is_the_same_for_each_reflection() {
    let p: Vec<PosCoords> = vec![(0, 0), (2, 1), (5, 6)];
    let b = Board::from_positions(p.clone()).unwrap();
    let base = check_board(Board::from_positions(p).unwrap());
    for r in b.get_reflections().into_iter() {
        assert_eq!(check_board(r), base);
    }
}

#[test]
fn total_number_of_squares_is_width_times_height() {
    assert_eq!(get_total_number_of_squares(&Board::new()), 64);
    assert_eq!(get_total_number_of_squares(&Board::from_dims((3, 5))), 15);
}

#[test]
fn queen_states_hold_each_queen_and_its_moves() {
    let b = board_of(&[(0, 0), (7, 2)]);
    let states = get_queen_states(&b);
    assert_eq!(states.len(), 2);
    assert_eq!(states[0].pos, (0, 0));
    assert_eq!(states[1].pos, (7, 2));
    assert_eq!(states[0].moves.len(), 22);
    assert!(!has_contested_queens(&states));
    let states = get_queen_states(&board_of(&[(3, 3), (5, 5)]));
    assert!(has_contested_queens(&states));
}

#[test]
fn check_is_solved_needs_a_full_conflict_free_board() {
    assert!(check_is_solved(&board_of(&VALID_8)));
    assert!(!check_is_solved(&board_of(&INVALID_8)));
    assert!(!check_is_solved(&board_of(&VALID_8[..7])));
    assert!(!check_is_solved(&Board::new()));
}

#[test]
fn classify_takes_queens_in_any_order() {
    let sorted = classify(&VALID_8.to_vec(), (8, 8));
    let mut reversed = VALID_8.to_vec();
    reversed.reverse();
    assert_eq!(classify(&reversed, (8, 8)), sorted);
    assert_eq!(classify(&vec![(1, 0), (0, 0)], (8, 8)).num_free_spaces, 30);
}
