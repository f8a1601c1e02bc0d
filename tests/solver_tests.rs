use eight_queens::board::Board;
use eight_queens::position::PosCoords;
use eight_queens::solver::{expand_symmetric_variants, get_symmetric_variants, Solver};
use eight_queens::symmetry::{canonicalize, lex_less, reflect_all};

fn board_of(positions: &[PosCoords]) -> Board {
    Board::from_positions(positions.to_vec()).unwrap()
}

#[test]
fn test_correct_solution_is_found_for_7_queen_pos() {
    let b = board_of(&[(2, 0), (4, 1), (1, 2), (7, 3), (0, 4), (6, 5), (3, 6)]);
    let mut solver = Solver::from_board(b);
    let soln_set = solver.solve();
    let expected_soln_coords: Vec<Vec<PosCoords>> = vec![vec![
        (0, 4),
        (1, 2),
        (2, 0),
        (3, 6),
        (4, 1),
        (5, 7),
        (6, 5),
        (7, 3),
    ]];
    assert_eq!(soln_set, expected_soln_coords);
}

#[test]
fn empty_8_by_8_board_has_92_solutions() {
    let mut solver = Solver::new();
    let canonical = solver.solve();
    assert!(solver.is_done());
    assert!(solver.solution_exists());
    assert_eq!(canonical.len(), 24);
    let all = expand_symmetric_variants(&canonical, (8, 8));
    assert_eq!(all.len(), 92);
}

#[test]
fn four_by_four_board_has_two_solutions() {
    let mut solver = Solver::with_dims((4, 4));
    let canonical = solver.solve();
    assert_eq!(canonical.len(), 1);
    let mut all = expand_symmetric_variants(&canonical, (4, 4));
    all.sort();
    assert_eq!(all, vec![vec![(0, 1), (1, 3), (2, 0), (3, 2)], vec![(0, 2), (1, 0), (2, 3), (3, 1)]]);
}

#[test]
fn small_boards_without_a_solution_end_empty() {
    for n in [2u32, 3].iter().cloned() {
        let mut solver = Solver::with_dims((n, n));
        let sols = solver.solve();
        assert!(solver.is_done());
        assert!(sols.is_empty());
        assert!(!solver.solution_exists());
    }
    let mut solver = Solver::with_dims((1, 1));
    assert_eq!(solver.solve(), vec![vec![(0, 0)]]);
}

#[test]
fn a_conflicted_start_is_dropped_without_expansion() {
    let mut solver = Solver::from_board(board_of(&[(0, 0), (1, 0)]));
    assert!(!solver.is_done());
    solver.tick();
    assert!(solver.is_done());
    assert!(!solver.solution_exists());
    solver.tick();
    assert!(solver.is_done());
}

#[test]
fn a_solved_start_is_the_one_solution() {
    let start: Vec<PosCoords> = vec![(0, 4), (1, 2), (2, 0), (3, 6), (4, 1), (5, 7), (6, 5), (7, 3)];
    let mut solver = Solver::from_board(Board::from_positions(start.clone()).unwrap());
    solver.tick();
    assert!(solver.is_done());
    assert_eq!(solver.get_solutions(), vec![start]);
}

#[test]
fn get_next_solution_hands_out_each_solution_once() {
    let mut solver = Solver::new();
    let mut found = Vec::new();
    while let Some(s) = solver.get_next_solution() {
        assert_eq!(s.len(), 8);
        found.push(s);
    }
    assert!(solver.is_done());
    assert_eq!(found.len(), 24);
    assert_eq!(found, solver.get_solutions());
    assert_eq!(solver.get_next_solution(), None);
}

#[test]
fn first_tick_expands_the_empty_board() {
    let mut solver = Solver::with_dims((3, 3));
    solver.tick();
    assert!(!solver.is_done());
    assert!(!solver.solution_exists());
    assert_eq!(solver.dims(), (3, 3));
}

#[test]
fn symmetric_variants_share_one_canonical_key() {
    let p: Vec<PosCoords> = vec![(0, 0), (2, 1), (5, 6)];
    let dims = (8, 8);
    let key = canonicalize(&p, dims);
    for v in get_symmetric_variants(&p, dims).iter() {
        assert_eq!(canonicalize(v, dims), key);
    }
    assert_eq!(key, vec![(0, 0), (2, 1), (5, 6)].min(vec![(2, 6), (5, 0), (7, 7)]).min(vec![(0, 7), (2, 6), (5, 1)]).min(vec![(2, 1), (5, 6), (7, 0)]));
    assert_eq!(get_symmetric_variants(&p, dims).len(), 4);
}

#[test]
fn a_symmetric_placement_has_fewer_distinct_variants() {
    let p: Vec<PosCoords> = vec![(0, 0), (3, 3)];
    let vs = get_symmetric_variants(&p, (4, 4));
    assert_eq!(vs.len(), 2);
    assert_eq!(canonicalize(&p, (4, 4)), vec![(0, 0), (3, 3)]);
}

#[test]
fn reflections_and_order_on_placements() {
    let p: Vec<PosCoords> = vec![(0, 1), (3, 2)];
    assert_eq!(reflect_all(&p, (4, 4), true, false), vec![(0, 2), (3, 1)]);
    assert_eq!(reflect_all(&p, (4, 4), false, true), vec![(0, 2), (3, 1)]);
    assert_eq!(reflect_all(&p, (4, 4), true, true), vec![(0, 1), (3, 2)]);
    assert!(lex_less(&vec![(0, 1)], &vec![(0, 1), (1, 1)]));
    assert!(lex_less(&vec![(0, 1), (1, 1)], &vec![(0, 2)]));
    assert!(!lex_less(&vec![(0, 2)], &vec![(0, 2)]));
}

#[test]
fn six_by_six_board_has_four_solutions() {
    let mut solver = Solver::with_dims((6, 6));
    assert_eq!(solver.branching_cap(), None);
    let canonical = solver.solve();
    assert_eq!(canonical.len(), 2);
    assert_eq!(expand_symmetric_variants(&canonical, (6, 6)).len(), 4);
}

#[test]
fn a_cap_as_large_as_the_board_changes_nothing() {
    let mut solver = Solver::with_dims((6, 6));
    solver.set_branching_cap(Some(36));
    assert_eq!(solver.branching_cap(), Some(36));
    let mut plain = Solver::with_dims((6, 6));
    assert_eq!(solver.solve(), plain.solve());
}

#[test]
fn a_cap_of_zero_stops_at_the_first_expansion() {
    let mut solver = Solver::with_dims((5, 5));
    solver.set_branching_cap(Some(0));
    solver.tick();
    assert!(solver.is_done());
    assert!(!solver.solution_exists());
}

#[test]
fn a_cap_of_one_follows_a_single_line_of_search() {
    let mut solver = Solver::with_dims((4, 4));
    solver.set_branching_cap(Some(1));
    let mut ticks = 0;
    while !solver.is_done() {
        solver.tick();
        ticks += 1;
    }
    assert!(ticks <= 5);
}
