//! Classifying a placement: conflicts, solutions, free squares.

use vstd::prelude::*;

use crate::board::Board;
use crate::position::{in_dims, CoordList, PosCoords};
use crate::queen::{attack_set, attacks, contested_set, get_queen_move_sets, queen_attacks};
use crate::symmetry::{
    lemma_reflect_identity, lemma_reflect_set, lemma_reflect_twice, lemma_reflect_valid, reflect_coord,
    reflect_horizontal, reflect_inverse, reflect_placement, reflect_vertical, reflector,
    valid_placement,
};

verus! {

/// What classifying a placement tells: whether two queens attack each other, whether it is
/// a solution, how many queens stand on the board, and how many squares no queen contests.
#[derive(Clone, Debug, PartialEq, Eq, Structural, PartialOrd, Ord)]
pub struct CheckResult {
    pub has_conflict: bool,
    pub is_solved: bool,
    pub num_queens: u64,
    pub num_free_spaces: u64,
}

/// Some queen stands on a square that another queen attacks.
pub open spec fn conflicted(s: Seq<PosCoords>) -> bool {
    exists|i: int, j: int|
        0 <= i < s.len() && 0 <= j < s.len() && i != j && attacks(#[trigger] s[j], #[trigger] s[i])
}

/// All the squares of a board.
pub open spec fn board_set(dims: PosCoords) -> Set<PosCoords> {
    Set::new(|q: PosCoords| in_dims(q, dims))
}

/// The squares that no queen of `s` contests; none of them holds a queen.
pub open spec fn uncontested_set(s: Seq<PosCoords>, dims: PosCoords) -> Set<PosCoords> {
    board_set(dims).difference(contested_set(s, dims))
}

/// The number of queens that makes a solution: the shorter side of the board.
pub open spec fn target_queens(dims: PosCoords) -> int {
    vstd::math::min(dims.0 as int, dims.1 as int)
}

/// A solution: as many queens as the target, none attacked by another.
pub open spec fn solved(s: Seq<PosCoords>, dims: PosCoords) -> bool {
    !conflicted(s) && s.len() == target_queens(dims)
}

/// The classification of the placement `s`.
pub open spec fn classification(s: Seq<PosCoords>, dims: PosCoords) -> CheckResult {
    CheckResult {
        has_conflict: conflicted(s),
        is_solved: solved(s, dims),
        num_queens: s.len() as u64,
        num_free_spaces: uncontested_set(s, dims).len() as u64,
    }
}

/// The squares of a board form a finite set of `width * height` elements.
pub proof fn lemma_board_set(dims: PosCoords)
    ensures
        board_set(dims).finite(),
        board_set(dims).len() == dims.0 * dims.1,
{
    lemma_columns(dims.0 as nat, dims.1);
    assert(board_set(dims) =~= Set::new(|q: PosCoords| q.0 < dims.0 as nat && q.1 < dims.1));
}

proof fn lemma_columns(w: nat, h: u32)
    requires
        w <= u32::MAX,
    ensures
        Set::new(|q: PosCoords| q.0 < w && q.1 < h).finite(),
        Set::new(|q: PosCoords| q.0 < w && q.1 < h).len() == w * h,
    decreases w,
{
    let s = Set::new(|q: PosCoords| q.0 < w && q.1 < h);
    if w == 0 {
        assert(s =~= Set::<PosCoords>::empty());
    } else {
        let x = (w - 1) as nat;
        lemma_columns(x, h);
        let rest = Set::new(|q: PosCoords| q.0 < x && q.1 < h);
        let f = |y: int| ((x as u32), y as u32);
        let col = vstd::set_lib::set_int_range(0, h as int).map(f);
        vstd::set_lib::lemma_int_range(0, h as int);
        vstd::set_lib::set_int_range(0, h as int).lemma_map_finite(f);
        assert(vstd::relations::injective_on(f, vstd::set_lib::set_int_range(0, h as int)));
        vstd::set_lib::lemma_map_size(vstd::set_lib::set_int_range(0, h as int), col, f);
        assert forall|q: PosCoords| #[trigger] col.contains(q) <==> (q.0 == x && q.1 < h) by {
            if q.0 == x && q.1 < h {
                assert(vstd::set_lib::set_int_range(0, h as int).contains(q.1 as int));
                assert(f(q.1 as int) == q);
            }
        }
        assert(s =~= rest + col);
        assert(rest.disjoint(col));
        vstd::set_lib::lemma_set_disjoint_lens(rest, col);
        assert(w * h == x * h + h) by (nonlinear_arith)
            requires
                x == w - 1,
        ;
    }
}

/// Mirroring keeps whether one queen attacks another.
pub proof fn lemma_attacks_reflect(p: PosCoords, q: PosCoords, dims: PosCoords, fx: bool, fy: bool)
    requires
        in_dims(p, dims),
        in_dims(q, dims),
    ensures
        attacks(reflect_coord(p, dims, fx, fy), reflect_coord(q, dims, fx, fy)) == attacks(p, q),
        in_dims(reflect_coord(p, dims, fx, fy), dims),
        reflect_coord(reflect_coord(p, dims, fx, fy), dims, fx, fy) == p,
{
}

/// Where the mirror of the queen at `k` stands in the mirrored placement.
proof fn lemma_image_index(s: Seq<PosCoords>, dims: PosCoords, fx: bool, fy: bool, k: int) -> (i: int)
    requires
        0 <= k < s.len(),
    ensures
        0 <= i < reflect_placement(s, dims, fx, fy).len(),
        reflect_placement(s, dims, fx, fy)[i] == reflect_coord(s[k], dims, fx, fy),
{
    let r = reflect_placement(s, dims, fx, fy);
    let f = reflector(dims, fx, fy);
    lemma_reflect_set(s, dims, fx, fy);
    assert(s.contains(s[k]));
    assert(s.to_set().contains(s[k]));
    assert(s.to_set().map(f).contains(f(s[k])));
    assert(r.to_set().contains(f(s[k])));
    choose|i: int| 0 <= i < r.len() && r[i] == f(s[k])
}

/// Which queen of `s` the queen at `i` of the mirrored placement mirrors.
proof fn lemma_preimage_index(s: Seq<PosCoords>, dims: PosCoords, fx: bool, fy: bool, i: int) -> (k: int)
    requires
        0 <= i < reflect_placement(s, dims, fx, fy).len(),
    ensures
        0 <= k < s.len(),
        reflect_placement(s, dims, fx, fy)[i] == reflect_coord(s[k], dims, fx, fy),
{
    let r = reflect_placement(s, dims, fx, fy);
    let f = reflector(dims, fx, fy);
    lemma_reflect_set(s, dims, fx, fy);
    assert(r.contains(r[i]));
    assert(r.to_set().contains(r[i]));
    let p = choose|p: PosCoords| s.to_set().contains(p) && f(p) == r[i];
    choose|k: int| 0 <= k < s.len() && s[k] == p
}

/// A conflict stays a conflict in the mirror.
proof fn lemma_conflict_to_reflect(s: Seq<PosCoords>, dims: PosCoords, fx: bool, fy: bool)
    requires
        valid_placement(s, dims),
        conflicted(s),
    ensures
        conflicted(reflect_placement(s, dims, fx, fy)),
{
    let r = reflect_placement(s, dims, fx, fy);
    let (a, b) = choose|a: int, b: int|
        0 <= a < s.len() && 0 <= b < s.len() && a != b && attacks(#[trigger] s[b], #[trigger] s[a]);
    let i = lemma_image_index(s, dims, fx, fy, a);
    let j = lemma_image_index(s, dims, fx, fy, b);
    lemma_attacks_reflect(s[b], s[a], dims, fx, fy);
    lemma_attacks_reflect(s[a], s[a], dims, fx, fy);
    lemma_attacks_reflect(s[b], s[b], dims, fx, fy);
    assert(s[a] != s[b]) by {
        if a < b {
            assert(crate::position::coord_lt(s[a], s[b]));
        } else {
            assert(crate::position::coord_lt(s[b], s[a]));
        }
    }
    assert(i != j);
    assert(attacks(r[j], r[i]));
}

/// Mirroring a placement keeps whether it has a conflict.
proof fn lemma_conflict_reflect(s: Seq<PosCoords>, dims: PosCoords, fx: bool, fy: bool)
    requires
        valid_placement(s, dims),
    ensures
        conflicted(reflect_placement(s, dims, fx, fy)) == conflicted(s),
{
    let r = reflect_placement(s, dims, fx, fy);
    lemma_reflect_valid(s, dims, fx, fy);
    if conflicted(s) {
        lemma_conflict_to_reflect(s, dims, fx, fy);
    }
    if conflicted(r) {
        lemma_conflict_to_reflect(r, dims, fx, fy);
        lemma_reflect_twice(s, dims, fx, fy, fx, fy);
        lemma_reflect_identity(s, dims);
        assert(reflect_placement(r, dims, fx, fy) == s);
    }
}

/// The free squares of a mirrored placement are the mirrored free squares, as many of them.
pub proof fn lemma_uncontested_reflect(s: Seq<PosCoords>, dims: PosCoords, fx: bool, fy: bool)
    requires
        valid_placement(s, dims),
    ensures
        uncontested_set(s, dims).finite(),
        uncontested_set(reflect_placement(s, dims, fx, fy), dims).len() == uncontested_set(
            s,
            dims,
        ).len(),
        uncontested_set(reflect_placement(s, dims, fx, fy), dims) == uncontested_set(s, dims).map(
            reflector(dims, fx, fy),
        ),
{
    let r = reflect_placement(s, dims, fx, fy);
    let f = reflector(dims, fx, fy);
    lemma_reflect_valid(s, dims, fx, fy);
    let us = uncontested_set(s, dims);
    let ur = uncontested_set(r, dims);
    assert(ur =~= us.map(f)) by {
        assert forall|q: PosCoords| ur.contains(q) implies us.map(f).contains(q) by {
            let o = f(q);
            lemma_attacks_reflect(q, q, dims, fx, fy);
            assert(in_dims(o, dims));
            if contested_set(s, dims).contains(o) {
                let k = choose|k: int| 0 <= k < s.len() && attacks(#[trigger] s[k], o);
                let i = lemma_image_index(s, dims, fx, fy, k);
                lemma_attacks_reflect(s[k], o, dims, fx, fy);
                assert(attacks(r[i], q));
                assert(contested_set(r, dims).contains(q));
            }
            assert(us.contains(o));
            assert(f(o) == q);
        }
        assert forall|q: PosCoords| us.map(f).contains(q) implies ur.contains(q) by {
            let o = choose|o: PosCoords| us.contains(o) && f(o) == q;
            lemma_attacks_reflect(o, o, dims, fx, fy);
            if contested_set(r, dims).contains(q) {
                let i = choose|i: int| 0 <= i < r.len() && attacks(#[trigger] r[i], q);
                let k = lemma_preimage_index(s, dims, fx, fy, i);
                lemma_attacks_reflect(s[k], o, dims, fx, fy);
                assert(contested_set(s, dims).contains(o));
            }
        }
    }
    lemma_board_set(dims);
    assert(us.subset_of(board_set(dims)));
    vstd::set_lib::lemma_len_subset(us, board_set(dims));
    assert(vstd::relations::injective_on(f, us)) by {
        assert forall|p: PosCoords, q: PosCoords|
            us.contains(p) && us.contains(q) && #[trigger] f(p) == #[trigger] f(q) implies p == q by {
            lemma_attacks_reflect(p, q, dims, fx, fy);
        }
    }
    vstd::set_lib::lemma_map_size(us, ur, f);
}

/// Mirroring a placement keeps its classification.
pub proof fn lemma_classification_reflect(s: Seq<PosCoords>, dims: PosCoords, fx: bool, fy: bool)
    requires
        valid_placement(s, dims),
    ensures
        classification(reflect_placement(s, dims, fx, fy), dims) == classification(s, dims),
{
    lemma_reflect_valid(s, dims, fx, fy);
    lemma_conflict_reflect(s, dims, fx, fy);
    lemma_uncontested_reflect(s, dims, fx, fy);
}

/// Mirroring a placement left to right, top to bottom, or both, changes nothing in its
/// classification: not whether it has a conflict, not whether it is solved, not the number
/// of queens, not the number of free squares.
pub proof fn lemma_classification_reflection_invariant(s: Seq<PosCoords>, dims: PosCoords)
    requires
        valid_placement(s, dims),
    ensures
        classification(s, dims) == classification(reflect_horizontal(s, dims), dims),
        classification(s, dims) == classification(reflect_vertical(s, dims), dims),
        classification(s, dims) == classification(reflect_inverse(s, dims), dims),
{
    lemma_classification_reflect(s, dims, true, false);
    lemma_classification_reflect(s, dims, false, true);
    lemma_classification_reflect(s, dims, true, true);
}

/// Whether one of `queens` attacks the square `q`.
pub fn square_contested(queens: &Vec<PosCoords>, q: PosCoords) -> (r: bool)
    ensures
        r == exists|i: int| 0 <= i < queens@.len() && attacks(#[trigger] queens@[i], q),
{
    let mut i: usize = 0;
    while i < queens.len()
        invariant
            0 <= i <= queens.len(),
            forall|k: int| 0 <= k < i ==> !attacks(#[trigger] queens@[k], q),
        decreases queens.len() - i,
    {
        if queen_attacks(queens[i], q) {
            return true;
        }
        i = i + 1;
    }
    false
}

/// Whether some queen of `queens` stands where another one attacks.
pub fn placement_has_conflict(queens: &Vec<PosCoords>) -> (r: bool)
    ensures
        r == conflicted(queens@),
{
    let mut i: usize = 0;
    while i < queens.len()
        invariant
            0 <= i <= queens.len(),
            forall|a: int, b: int|
                0 <= a < i && 0 <= b < queens@.len() && a != b ==> !attacks(
                    #[trigger] queens@[b],
                    #[trigger] queens@[a],
                ),
        decreases queens.len() - i,
    {
        let mut j: usize = 0;
        while j < queens.len()
            invariant
                0 <= i < queens.len(),
                0 <= j <= queens.len(),
                forall|a: int, b: int|
                    0 <= a < i && 0 <= b < queens@.len() && a != b ==> !attacks(
                        #[trigger] queens@[b],
                        #[trigger] queens@[a],
                    ),
                forall|b: int| 0 <= b < j && b != i ==> !attacks(#[trigger] queens@[b], queens@[i as int]),
            decreases queens.len() - j,
        {
            if j != i && queen_attacks(queens[j], queens[i]) {
                return true;
            }
            j = j + 1;
        }
        i = i + 1;
    }
    false
}

/// The number of squares that no queen of `queens` contests.
pub fn count_uncontested(queens: &Vec<PosCoords>, dims: PosCoords) -> (r: u64)
    ensures
        uncontested_set(queens@, dims).finite(),
        r == uncontested_set(queens@, dims).len(),
        r <= dims.0 * dims.1,
{
    let ghost free = |q: PosCoords| in_dims(q, dims) && !contested_set(queens@, dims).contains(q);
    let mut count: u64 = 0;
    let mut x: u32 = 0;
    proof {
        assert(Set::new(|q: PosCoords| free(q) && q.0 < 0) =~= Set::<PosCoords>::empty());
    }
    while x < dims.0
        invariant
            x <= dims.0,
            free == (|q: PosCoords| in_dims(q, dims) && !contested_set(queens@, dims).contains(q)),
            Set::new(|q: PosCoords| free(q) && q.0 < x).finite(),
            count == Set::new(|q: PosCoords| free(q) && q.0 < x).len(),
            count <= x * dims.1,
        decreases dims.0 - x,
    {
        let mut y: u32 = 0;
        proof {
            assert(Set::new(|q: PosCoords| free(q) && (q.0 < x || (q.0 == x && q.1 < 0)))
                =~= Set::new(|q: PosCoords| free(q) && q.0 < x));
        }
        while y < dims.1
            invariant
                x < dims.0,
                y <= dims.1,
                free == (|q: PosCoords| in_dims(q, dims) && !contested_set(queens@, dims).contains(q)),
                Set::new(|q: PosCoords| free(q) && (q.0 < x || (q.0 == x && q.1 < y))).finite(),
                count == Set::new(|q: PosCoords| free(q) && (q.0 < x || (q.0 == x && q.1 < y))).len(),
                count <= x * dims.1 + y,
            decreases dims.1 - y,
        {
            let ghost before = Set::new(
                |q: PosCoords| free(q) && (q.0 < x || (q.0 == x && q.1 < y)),
            );
            let ghost after = Set::new(
                |q: PosCoords| free(q) && (q.0 < x || (q.0 == x && q.1 < y + 1)),
            );
            proof {
                assert(x * dims.1 + y < dims.0 * dims.1) by (nonlinear_arith)
                    requires
                        x < dims.0,
                        y < dims.1,
                ;
                assert(dims.0 * dims.1 <= u32::MAX * u32::MAX) by (nonlinear_arith)
                    requires
                        dims.0 <= u32::MAX,
                        dims.1 <= u32::MAX,
                ;
            }
            if !square_contested(queens, (x, y)) {
                proof {
                    assert(free((x, y)));
                    assert(after =~= before.insert((x, y)));
                }
                count = count + 1;
            } else {
                proof {
                    assert(contested_set(queens@, dims).contains((x, y)));
                    assert(after =~= before);
                }
            }
            y = y + 1;
        }
        proof {
            assert(Set::new(|q: PosCoords| free(q) && (q.0 < x || (q.0 == x && q.1 < y)))
                =~= Set::new(|q: PosCoords| free(q) && q.0 < x + 1));
            assert(x * dims.1 + dims.1 == (x + 1) * dims.1) by (nonlinear_arith);
        }
        x = x + 1;
    }
    proof {
        assert(Set::new(|q: PosCoords| free(q) && q.0 < x) =~= uncontested_set(queens@, dims));
    }
    count
}

/// Classify a placement on a board of the given dimensions.
pub fn classify(queens: &Vec<PosCoords>, dims: PosCoords) -> (r: CheckResult)
    requires
        queens@.no_duplicates(),
        crate::position::all_in_dims(queens@, dims),
    ensures
        r == classification(queens@, dims),
        uncontested_set(queens@, dims).finite(),
        r.num_free_spaces <= dims.0 * dims.1,
{
    let has_conflict = placement_has_conflict(queens);
    let num_queens = queens.len() as u64;
    let num_free_spaces = count_uncontested(queens, dims);
    let target = if dims.0 < dims.1 {
        dims.0
    } else {
        dims.1
    };
    let is_solved = !has_conflict && num_queens == target as u64;
    CheckResult { has_conflict, is_solved, num_queens, num_free_spaces }
}

/// Check the state of the board: whether two queens attack each other, whether it is a
/// solution, the number of queens and the number of squares that no queen contests.
pub fn check_board(board: Board) -> (r: CheckResult)
    ensures
        r == classification(board@.1, board@.0),
{
    let queens = board.get_queen_positions();
    proof {
        crate::symmetry::lemma_sorted_no_dups(queens@);
    }
    classify(&queens, board.dims())
}

/// The number of squares on the board.
pub fn get_total_number_of_squares(b: &Board) -> (r: u64)
    ensures
        r == b@.0.0 * b@.0.1,
{
    let (width, height) = b.dims();
    proof {
        assert(width * height <= u32::MAX * u32::MAX) by (nonlinear_arith)
            requires
                width <= u32::MAX,
                height <= u32::MAX,
        ;
    }
    width as u64 * height as u64
}

/// Whether the board holds a queen that another queen attacks.
pub fn board_has_conflict(board: &Board) -> (r: bool)
    ensures
        r == conflicted(board@.1),
{
    let dims = board.dims();
    let queens = board.get_queen_positions();
    let move_sets = get_queen_move_sets(crate::position::copy_coords(&queens), dims);
    let mut i: usize = 0;
    while i < queens.len()
        invariant
            0 <= i <= queens.len(),
            queens@ == board@.1,
            valid_placement(queens@, dims),
            move_sets.len() == queens.len(),
            forall|k: int|
                0 <= k < move_sets.len() ==> (#[trigger] move_sets[k])@.to_set() == attack_set(
                    queens@[k],
                    dims,
                ),
            forall|a: int, b: int|
                0 <= a < i && 0 <= b < queens@.len() && a != b ==> !attacks(
                    #[trigger] queens@[b],
                    #[trigger] queens@[a],
                ),
        decreases queens.len() - i,
    {
        let pos = queens[i];
        let in_conflict = pos_in_conflict(pos, &move_sets);
        proof {
            assert(in_dims(pos, dims));
            assert forall|k: int| 0 <= k < move_sets.len() implies (#[trigger] move_sets[k])@.contains(pos)
                == attacks(queens@[k], pos) by {
                if attacks(queens@[k], pos) {
                    assert(attack_set(queens@[k], dims).contains(pos));
                    assert(move_sets[k]@.to_set().contains(pos));
                }
                if move_sets[k]@.contains(pos) {
                    assert(move_sets[k]@.to_set().contains(pos));
                }
            }
            assert(move_sets[i as int]@.contains(pos));
        }
        if in_conflict {
            proof {
                let (k1, k2) = choose|k1: int, k2: int|
                    0 <= k1 < move_sets.len() && 0 <= k2 < move_sets.len() && k1 != k2
                        && (#[trigger] move_sets[k1])@.contains(pos) && (#[trigger] move_sets[k2])@.contains(pos);
                let b = if k1 != i {
                    k1
                } else {
                    k2
                };
                assert(attacks(queens@[b], queens@[i as int]));
            }
            return true;
        }
        proof {
            assert forall|b: int| 0 <= b < queens@.len() && b != i implies !attacks(
                #[trigger] queens@[b],
                queens@[i as int],
            ) by {
                if attacks(queens@[b], queens@[i as int]) {
                    assert(move_sets[b]@.contains(pos));
                }
            }
        }
        i = i + 1;
    }
    false
}

/// Whether `pos` lies in the moves of more than one queen.
fn pos_in_conflict(pos: PosCoords, move_sets: &Vec<CoordList>) -> (r: bool)
    ensures
        r == exists|k1: int, k2: int|
            0 <= k1 < move_sets.len() && 0 <= k2 < move_sets.len() && k1 != k2
                && (#[trigger] move_sets[k1])@.contains(pos) && (#[trigger] move_sets[k2])@.contains(pos),
{
    let mut first: Option<usize> = None;
    let mut k: usize = 0;
    while k < move_sets.len()
        invariant
            0 <= k <= move_sets.len(),
            match first {
                None => forall|m: int| 0 <= m < k ==> !(#[trigger] move_sets[m])@.contains(pos),
                Some(f) => f < k && move_sets[f as int]@.contains(pos) && forall|m: int|
                    0 <= m < k && m != f ==> !(#[trigger] move_sets[m])@.contains(pos),
            },
        decreases move_sets.len() - k,
    {
        if list_contains(&move_sets[k], pos) {
            match first {
                Some(_) => {
                    return true;
                },
                None => {
                    first = Some(k);
                },
            }
        }
        k = k + 1;
    }
    false
}

/// Whether `pos` is in the list.
fn list_contains(v: &Vec<PosCoords>, pos: PosCoords) -> (r: bool)
    ensures
        r == v@.contains(pos),
{
    let mut i: usize = 0;
    while i < v.len()
        invariant
            0 <= i <= v.len(),
            forall|k: int| 0 <= k < i ==> v@[k] != pos,
        decreases v.len() - i,
    {
        if v[i].0 == pos.0 && v[i].1 == pos.1 {
            proof {
                assert(v@[i as int] == pos);
            }
            return true;
        }
        i = i + 1;
    }
    false
}

impl Board {
    /// The squares that no queen contests, sorted: where another queen may still go.
    pub fn get_uncontested_spaces(&self) -> (r: CoordList)
        ensures
            crate::position::is_sorted(r@),
            r@.to_set() == uncontested_set(self@.1, self@.0),
    {
        let dims = self.dims();
        let queens = self.get_queen_positions();
        let contested = crate::queen::get_contested_spaces(crate::position::copy_coords(&queens), dims);
        let ghost unc = uncontested_set(queens@, dims);
        let mut uncontested: Vec<PosCoords> = Vec::new();
        let mut x: u32 = 0;
        while x < dims.0
            invariant
                x <= dims.0,
                queens@ == self@.1,
                dims == self@.0,
                unc == uncontested_set(queens@, dims),
                contested@.to_set() == contested_set(queens@, dims),
                crate::position::is_sorted(uncontested@),
                forall|m: int| 0 <= m < uncontested@.len() ==> (#[trigger] uncontested@[m]).0 < x,
                uncontested@.to_set() == Set::new(|q: PosCoords| unc.contains(q) && q.0 < x),
            decreases dims.0 - x,
        {
            let mut y: u32 = 0;
            proof {
                assert(Set::new(|q: PosCoords| unc.contains(q) && q.0 < x) =~= Set::new(
                    |q: PosCoords| unc.contains(q) && (q.0 < x || (q.0 == x && q.1 < 0)),
                ));
            }
            while y < dims.1
                invariant
                    x < dims.0,
                    y <= dims.1,
                    queens@ == self@.1,
                    dims == self@.0,
                    unc == uncontested_set(queens@, dims),
                    contested@.to_set() == contested_set(queens@, dims),
                    crate::position::is_sorted(uncontested@),
                    forall|m: int|
                        0 <= m < uncontested@.len() ==> crate::position::coord_lt(
                            #[trigger] uncontested@[m],
                            (x, y),
                        ),
                    uncontested@.to_set() == Set::new(
                        |q: PosCoords| unc.contains(q) && (q.0 < x || (q.0 == x && q.1 < y)),
                    ),
                decreases dims.1 - y,
            {
                let pos = (x, y);
                let ghost before = uncontested@;
                if !list_contains(&contested, pos) {
                    proof {
                        assert(!contested@.to_set().contains(pos));
                        assert(unc.contains(pos));
                    }
                    uncontested.push(pos);
                    proof {
                        before.lemma_push_to_set_commute(pos);
                        assert(uncontested@.to_set() =~= Set::new(
                            |q: PosCoords| unc.contains(q) && (q.0 < x || (q.0 == x && q.1 < y + 1)),
                        ));
                    }
                } else {
                    proof {
                        assert(contested@.to_set().contains(pos));
                        assert(uncontested@.to_set() =~= Set::new(
                            |q: PosCoords| unc.contains(q) && (q.0 < x || (q.0 == x && q.1 < y + 1)),
                        ));
                    }
                }
                y = y + 1;
            }
            proof {
                assert(uncontested@.to_set() =~= Set::new(|q: PosCoords| unc.contains(q) && q.0 < x + 1));
                assert forall|m: int| 0 <= m < uncontested@.len() implies (#[trigger] uncontested@[m]).0 < x + 1 by {
                    assert(crate::position::coord_lt(uncontested@[m], (x, y)));
                }
            }
            x = x + 1;
        }
        proof {
            assert(uncontested@.to_set() =~= unc);
        }
        uncontested
    }
}

} // verus!
