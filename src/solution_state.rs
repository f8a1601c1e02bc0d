//! Per-queen move sets and the solution state built from them.

use vstd::prelude::*;

use crate::board::{board_ok, Board};
use crate::checker::{classification, conflicted, count_uncontested, solved};
use crate::position::{CoordList, PosCoords};
use crate::queen::{attack_set, attacks, get_queen_moves};
use crate::symmetry::lemma_sorted_no_dups;

verus! {

/// A queen's position and the squares it attacks.
pub struct QueenState {
    pub pos: PosCoords,
    pub moves: CoordList,
}

/// Whether a queen is classified as in conflict, whether the board is solved, how many queens
/// stand on it and how many squares no queen contests.
#[derive(Clone, Debug, PartialEq, Eq, Structural)]
pub struct SolutionState {
    pub is_solved: bool,
    pub has_conflict: bool,
    pub num_queens: u64,
    pub num_free_spaces: u64,
}

/// The solution state of the placement `s` on a board of the given dimensions.
pub open spec fn solution_state_of(s: Seq<PosCoords>, dims: PosCoords) -> SolutionState {
    SolutionState {
        is_solved: classification(s, dims).is_solved,
        has_conflict: classification(s, dims).has_conflict,
        num_queens: classification(s, dims).num_queens,
        num_free_spaces: classification(s, dims).num_free_spaces,
    }
}

/// Some queen stands in the moves of a queen on another square.
pub open spec fn some_queen_contested(qs: Seq<QueenState>) -> bool {
    exists|i: int, j: int|
        0 <= i < qs.len() && 0 <= j < qs.len() && (#[trigger] qs[i]).pos != (#[trigger] qs[j]).pos
            && qs[j].moves@.contains(qs[i].pos)
}

/// Each queen of the board, with the squares it attacks.
pub fn get_queen_states(board: &Board) -> (r: Vec<QueenState>)
    ensures
        r.len() == board@.1.len(),
        forall|k: int|
            0 <= k < r.len() ==> (#[trigger] r[k]).pos == board@.1[k] && crate::position::is_sorted(
                r[k].moves@,
            ) && r[k].moves@.to_set() == attack_set(r[k].pos, board@.0),
{
    let queens = board.get_queen_positions();
    let dims = board.dims();
    let mut r: Vec<QueenState> = Vec::new();
    let mut i: usize = 0;
    while i < queens.len()
        invariant
            0 <= i <= queens.len(),
            queens@ == board@.1,
            dims == board@.0,
            board_ok(board@),
            r.len() == i,
            forall|k: int|
                0 <= k < r.len() ==> (#[trigger] r[k]).pos == board@.1[k] && crate::position::is_sorted(
                    r[k].moves@,
                ) && r[k].moves@.to_set() == attack_set(r[k].pos, board@.0),
        decreases queens.len() - i,
    {
        let pos = queens[i];
        proof {
            assert(crate::position::in_dims(queens@[i as int], dims));
        }
        r.push(QueenState { pos, moves: get_queen_moves(pos, dims) });
        i = i + 1;
    }
    r
}

/// Whether some queen stands on a square that a queen on another square could move to.
pub fn has_contested_queens(queen_states: &Vec<QueenState>) -> (r: bool)
    ensures
        r == some_queen_contested(queen_states@),
{
    let mut i: usize = 0;
    while i < queen_states.len()
        invariant
            0 <= i <= queen_states.len(),
            forall|a: int, b: int|
                0 <= a < i && 0 <= b < queen_states.len() && (#[trigger] queen_states@[a]).pos != (
                #[trigger] queen_states@[b]).pos ==> !queen_states@[b].moves@.contains(queen_states@[a].pos),
        decreases queen_states.len() - i,
    {
        let curr = &queen_states[i];
        let mut j: usize = 0;
        while j < queen_states.len()
            invariant
                0 <= i < queen_states.len(),
                0 <= j <= queen_states.len(),
                *curr == queen_states@[i as int],
                forall|a: int, b: int|
                    0 <= a < i && 0 <= b < queen_states.len() && (#[trigger] queen_states@[a]).pos != (
                    #[trigger] queen_states@[b]).pos ==> !queen_states@[b].moves@.contains(queen_states@[a].pos),
                forall|b: int|
                    0 <= b < j && curr.pos != (#[trigger] queen_states@[b]).pos ==> !queen_states@[b].moves@.contains(
                        curr.pos,
                    ),
            decreases queen_states.len() - j,
        {
            let other = &queen_states[j];
            if (curr.pos.0 != other.pos.0 || curr.pos.1 != other.pos.1) && list_has(&other.moves, curr.pos) {
                proof {
                    assert(queen_states@[i as int].pos != queen_states@[j as int].pos);
                }
                return true;
            }
            j = j + 1;
        }
        i = i + 1;
    }
    false
}

/// Whether `pos` is in the list.
fn list_has(v: &Vec<PosCoords>, pos: PosCoords) -> (r: bool)
    ensures
        r == v@.contains(pos),
{
    let mut i: usize = 0;
    while i < v.len()
        invariant
            0 <= i <= v.len(),
            forall|k: int| 0 <= k < i ==> v@[k] != pos,
        decreases v.len() - i,
    {
        if v[i].0 == pos.0 && v[i].1 == pos.1 {
            proof {
                assert(v@[i as int] == pos);
            }
            return true;
        }
        i = i + 1;
    }
    false
}

impl SolutionState {
    /// The solution state of the board.
    pub fn from_board(b: &Board) -> (r: SolutionState)
        ensures
            r == solution_state_of(b@.1, b@.0),
    {
        let queen_states = get_queen_states(b);
        let queens = b.get_queen_positions();
        let dims = b.dims();
        let num_queens = queen_states.len() as u64;
        let has_conflict = has_contested_queens(&queen_states);
        proof {
            lemma_sorted_no_dups(queens@);
            let qs = queen_states@;
            if has_conflict {
                let (i, j) = choose|i: int, j: int|
                    0 <= i < qs.len() && 0 <= j < qs.len() && (#[trigger] qs[i]).pos != (
                    #[trigger] qs[j]).pos && qs[j].moves@.contains(qs[i].pos);
                assert(qs[j].moves@.to_set().contains(qs[i].pos));
                assert(attacks(queens@[j], queens@[i]));
                assert(conflicted(queens@));
            }
            if conflicted(queens@) {
                let (i, j) = choose|i: int, j: int|
                    0 <= i < queens@.len() && 0 <= j < queens@.len() && i != j && attacks(
                        #[trigger] queens@[j],
                        #[trigger] queens@[i],
                    );
                assert(qs[i].pos == queens@[i] && qs[j].pos == queens@[j]);
                assert(attack_set(queens@[j], dims).contains(queens@[i]));
                assert(qs[j].moves@.to_set().contains(qs[i].pos));
                assert(some_queen_contested(qs));
            }
        }
        let num_free_spaces = count_uncontested(&queens, dims);
        let target = if dims.0 < dims.1 {
            dims.0
        } else {
            dims.1
        };
        let is_solved = !has_conflict && num_queens == target as u64;
        SolutionState { is_solved, has_conflict, num_queens, num_free_spaces }
    }
}

/// Whether the board is solved: as many queens as its shorter side, none attacked by another.
pub fn check_is_solved(b: &Board) -> (r: bool)
    ensures
        r == solved(b@.1, b@.0),
{
    let queens = b.get_queen_positions();
    let dims = b.dims();
    let target = if dims.0 < dims.1 {
        dims.0
    } else {
        dims.1
    };
    if queens.len() as u64 != target as u64 {
        return false;
    }
    !crate::checker::placement_has_conflict(&queens)
}

} // verus!
