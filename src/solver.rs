//! The search: expand the placement with the most free squares until none is left.

use vstd::prelude::*;

use vstd::arithmetic::power::{lemma_pow_adds, lemma_pow_increases, lemma_pow_positive, pow};
use vstd::multiset::Multiset;

use crate::board::Board;
use crate::completeness::{all_found, keys_ok, known, lemma_solved_extensions_found, lemma_step_keeps_search, search_closed};
use crate::checker::{
    classification, classify, conflicted, lemma_board_set, solved, square_contested,
    uncontested_set,
};
use crate::frontier::{contents, potential, Frontier};
use crate::position::{views_of, copy_coords, in_dims, insert_coord, insert_sorted, CoordList, PosCoords};
use crate::queen::{attacks, contested_set};
use crate::symmetry::{canonical, canonicalize, valid_placement};
use crate::visited::VisitedSet;

verus! {

broadcast use vstd::seq_lib::group_to_multiset_ensures;

/// The number of squares on a board.
pub open spec fn num_squares(dims: PosCoords) -> int {
    dims.0 * dims.1
}

/// The square at scan index `i`: the columns from left to right, each from the bottom up.
pub open spec fn scan_square(i: int, dims: PosCoords) -> PosCoords {
    ((i / (dims.1 as int)) as u32, (i % (dims.1 as int)) as u32)
}

/// The children of `p` found among the first `k` squares of the scan: for each square that
/// no queen contests, `p` with one more queen there, unless the canonical key of that child
/// is in `seen`.
pub open spec fn expansion(p: Seq<PosCoords>, dims: PosCoords, seen: Set<Seq<PosCoords>>, k: nat) -> Seq<
    Seq<PosCoords>,
>
    decreases k,
{
    if k == 0 {
        Seq::empty()
    } else {
        let prev = expansion(p, dims, seen, (k - 1) as nat);
        let q = scan_square(k - 1, dims);
        let child = insert_coord(p, q);
        if uncontested_set(p, dims).contains(q) && !seen.contains(canonical(child, dims)) {
            prev.push(child)
        } else {
            prev
        }
    }
}

/// All the children of `p` that are pushed when it is expanded.
pub open spec fn children(p: Seq<PosCoords>, dims: PosCoords, seen: Set<Seq<PosCoords>>) -> Seq<
    Seq<PosCoords>,
> {
    expansion(p, dims, seen, num_squares(dims) as nat)
}

proof fn lemma_expansion_len(p: Seq<PosCoords>, dims: PosCoords, seen: Set<Seq<PosCoords>>, k: nat)
    ensures
        expansion(p, dims, seen, k).len() <= k,
    decreases k,
{
    if k > 0 {
        lemma_expansion_len(p, dims, seen, (k - 1) as nat);
    }
}

/// A child has one queen more, on a square that no queen contested, so it stays a valid
/// placement and has fewer free squares.
pub proof fn lemma_child(p: Seq<PosCoords>, c: PosCoords, dims: PosCoords)
    requires
        valid_placement(p, dims),
        uncontested_set(p, dims).contains(c),
    ensures
        valid_placement(insert_coord(p, c), dims),
        uncontested_set(insert_coord(p, c), dims).len() < uncontested_set(p, dims).len(),
        uncontested_set(p, dims).len() <= num_squares(dims),
{
    let s = insert_coord(p, c);
    crate::position::lemma_insert_coord(p, c);
    assert forall|i: int| 0 <= i < s.len() implies in_dims(#[trigger] s[i], dims) by {
        assert(s.contains(s[i]));
        assert(s.to_set().contains(s[i]));
        if s[i] != c {
            assert(p.to_set().contains(s[i]));
            let k = choose|k: int| 0 <= k < p.len() && p[k] == s[i];
        }
    }
    let up = uncontested_set(p, dims);
    let us = uncontested_set(s, dims);
    assert(us.subset_of(up.remove(c))) by {
        assert forall|q: PosCoords| us.contains(q) implies up.remove(c).contains(q) by {
            if contested_set(p, dims).contains(q) {
                let k = choose|k: int| 0 <= k < p.len() && attacks(#[trigger] p[k], q);
                assert(p.contains(p[k]));
                assert(s.to_set().contains(p[k]));
                let j = choose|j: int| 0 <= j < s.len() && s[j] == p[k];
                assert(contested_set(s, dims).contains(q));
            }
            if q == c {
                assert(s.to_set().contains(c));
                let j = choose|j: int| 0 <= j < s.len() && s[j] == c;
                assert(attacks(s[j], q));
                assert(contested_set(s, dims).contains(q));
            }
        }
    }
    lemma_board_set(dims);
    vstd::set_lib::lemma_len_subset(up, crate::checker::board_set(dims));
    vstd::set_lib::lemma_len_subset(us, up.remove(c));
}

/// The number of free squares of each placement.
pub open spec fn free_counts(cs: Seq<Seq<PosCoords>>, dims: PosCoords) -> Seq<u64> {
    cs.map_values(|c: Seq<PosCoords>| classification(c, dims).num_free_spaces)
}

/// Child `j` ranks before child `i`: more free squares, or as many and found earlier.
pub open spec fn ranks_before(fs: Seq<u64>, j: int, i: int) -> bool {
    fs[j] > fs[i] || (fs[j] == fs[i] && j < i)
}

/// How many of the first `m` children rank before child `i`.
pub open spec fn rank_upto(fs: Seq<u64>, i: int, m: nat) -> nat
    decreases m,
{
    if m == 0 {
        0
    } else {
        rank_upto(fs, i, (m - 1) as nat) + if ranks_before(fs, m - 1, i) {
            1nat
        } else {
            0nat
        }
    }
}

/// The place of child `i` when the children are ranked by free squares, most first, ties in
/// the order found.
pub open spec fn rank(fs: Seq<u64>, i: int) -> nat {
    rank_upto(fs, i, fs.len())
}

/// Of the first `n` children, in order, those that the branching cap keeps: with no cap all
/// of them, with a cap `c` those ranked below `c`.
pub open spec fn capped(cs: Seq<Seq<PosCoords>>, fs: Seq<u64>, cap: Option<usize>, n: nat) -> Seq<
    Seq<PosCoords>,
>
    decreases n,
{
    if n == 0 {
        Seq::empty()
    } else {
        let prev = capped(cs, fs, cap, (n - 1) as nat);
        let keep = match cap {
            None => true,
            Some(c) => rank(fs, n - 1) < c,
        };
        if keep {
            prev.push(cs[n - 1])
        } else {
            prev
        }
    }
}

/// The children of `p` that an expansion pushes under the branching cap.
pub open spec fn pushed_children(
    p: Seq<PosCoords>,
    dims: PosCoords,
    seen: Set<Seq<PosCoords>>,
    cap: Option<usize>,
) -> Seq<Seq<PosCoords>> {
    let cs = children(p, dims, seen);
    capped(cs, free_counts(cs, dims), cap, cs.len())
}

proof fn lemma_rank_bound(fs: Seq<u64>, i: int, m: nat)
    requires
        0 <= i < fs.len(),
        m <= fs.len(),
    ensures
        rank_upto(fs, i, m) + (if i < m {
            1int
        } else {
            0int
        }) <= m,
    decreases m,
{
    if m > 0 {
        lemma_rank_bound(fs, i, (m - 1) as nat);
    }
}

proof fn lemma_rank_order(fs: Seq<u64>, i: int, j: int, m: nat)
    requires
        0 <= i < fs.len(),
        0 <= j < fs.len(),
        ranks_before(fs, j, i),
        m <= fs.len(),
    ensures
        rank_upto(fs, i, m) >= rank_upto(fs, j, m) + (if j < m {
            1int
        } else {
            0int
        }),
    decreases m,
{
    if m > 0 {
        lemma_rank_order(fs, i, j, (m - 1) as nat);
    }
}

/// The indices among the first `m` whose rank is below `c`, one for each child the cap keeps.
proof fn lemma_capped_len(cs: Seq<Seq<PosCoords>>, fs: Seq<u64>, c: usize, m: nat)
    requires
        m <= fs.len(),
    ensures
        vstd::set_lib::set_int_range(0, m as int).filter(|i: int| rank(fs, i) < c).finite(),
        capped(cs, fs, Some(c), m).len() == vstd::set_lib::set_int_range(0, m as int).filter(
            |i: int| rank(fs, i) < c,
        ).len(),
    decreases m,
{
    let k = vstd::set_lib::set_int_range(0, m as int).filter(|i: int| rank(fs, i) < c);
    if m == 0 {
        assert(k =~= Set::<int>::empty());
    } else {
        lemma_capped_len(cs, fs, c, (m - 1) as nat);
        let k0 = vstd::set_lib::set_int_range(0, m - 1).filter(|i: int| rank(fs, i) < c);
        if rank(fs, m - 1) < c {
            assert(k =~= k0.insert(m - 1));
        } else {
            assert(k =~= k0);
        }
    }
}

/// A cap of `c` keeps exactly as many children as the smaller of `c` and their number: the
/// ranks of the children are `0`, `1`, ... up to their number, each once.
pub proof fn lemma_cap_keeps_min(cs: Seq<Seq<PosCoords>>, fs: Seq<u64>, c: usize)
    requires
        cs.len() == fs.len(),
    ensures
        capped(cs, fs, Some(c), cs.len()).len() == vstd::math::min(cs.len() as int, c as int),
{
    let n = fs.len() as int;
    let all = vstd::set_lib::set_int_range(0, n);
    let g = |i: int| rank(fs, i) as int;
    vstd::set_lib::lemma_int_range(0, n);
    assert(vstd::relations::injective_on(g, all)) by {
        assert forall|i: int, j: int| all.contains(i) && all.contains(j) && #[trigger] g(i) == #[trigger] g(j) implies i == j by {
            if i != j {
                if ranks_before(fs, j, i) {
                    lemma_rank_order(fs, i, j, fs.len());
                } else {
                    assert(ranks_before(fs, i, j));
                    lemma_rank_order(fs, j, i, fs.len());
                }
            }
        }
    }
    all.lemma_map_finite(g);
    vstd::set_lib::lemma_map_size(all, all.map(g), g);
    assert(all.map(g).subset_of(all)) by {
        assert forall|r: int| all.map(g).contains(r) implies all.contains(r) by {
            let i = choose|i: int| all.contains(i) && g(i) == r;
            lemma_rank_bound(fs, i, fs.len());
        }
    }
    vstd::set_lib::lemma_subset_equality(all.map(g), all);
    let keep = all.filter(|i: int| rank(fs, i) < c);
    let low = vstd::set_lib::set_int_range(0, vstd::math::min(n, c as int));
    vstd::set_lib::lemma_int_range(0, vstd::math::min(n, c as int));
    assert(keep.map(g) =~= low) by {
        assert forall|r: int| low.contains(r) implies keep.map(g).contains(r) by {
            assert(all.contains(r));
            assert(all.map(g).contains(r));
            let i = choose|i: int| all.contains(i) && g(i) == r;
            assert(keep.contains(i));
        }
    }
    assert(keep.subset_of(all));
    vstd::set_lib::lemma_len_subset(keep, all);
    vstd::set_lib::lemma_map_size(keep, low, g);
    lemma_capped_len(cs, fs, c, fs.len());
}

/// The rank of child `i` among children with the free counts `fs`.
fn rank_of(fs: &Vec<u64>, i: usize) -> (r: usize)
    requires
        i < fs@.len(),
    ensures
        r == rank(fs@, i as int),
{
    let mut r: usize = 0;
    let mut j: usize = 0;
    while j < fs.len()
        invariant
            0 <= j <= fs@.len(),
            i < fs@.len(),
            r == rank_upto(fs@, i as int, j as nat),
            r <= j,
        decreases fs@.len() - j,
    {
        if fs[j] > fs[i] || (fs[j] == fs[i] && j < i) {
            r = r + 1;
        }
        j = j + 1;
    }
    r
}

/// Each waiting placement is valid and sits in the bucket of its number of free squares.
pub open spec fn buckets_ok(fr: Seq<Seq<Seq<PosCoords>>>, dims: PosCoords) -> bool {
    forall|i: int, j: int|
        0 <= i < fr.len() && 0 <= j < fr[i].len() ==> valid_placement(#[trigger] fr[i][j], dims)
            && classification(fr[i][j], dims).num_free_spaces == i
}

/// Each solution is a valid, solved placement whose canonical key is in `seen`, and no two
/// solutions share a key.
pub open spec fn solutions_ok(
    sols: Seq<Seq<PosCoords>>,
    seen: Set<Seq<PosCoords>>,
    dims: PosCoords,
) -> bool {
    &&& forall|k: int|
        0 <= k < sols.len() ==> valid_placement(#[trigger] sols[k], dims) && solved(sols[k], dims)
            && seen.contains(canonical(sols[k], dims))
    &&& forall|a: int, b: int|
        0 <= a < b < sols.len() ==> canonical(#[trigger] sols[a], dims) != canonical(
            #[trigger] sols[b],
            dims,
        )
}

/// The top placement has the most free squares of all the waiting ones.
proof fn lemma_top_is_highest(fr: Seq<Seq<Seq<PosCoords>>>, dims: PosCoords)
    requires
        buckets_ok(fr, dims),
        fr.len() > 0,
        fr.last().len() > 0,
    ensures
        contents(fr).contains(fr.last().last()),
        valid_placement(fr.last().last(), dims),
        classification(fr.last().last(), dims).num_free_spaces == fr.len() - 1,
        forall|q: Seq<PosCoords>| #[trigger]
            contents(fr).contains(q) ==> classification(q, dims).num_free_spaces <= fr.len() - 1,
{
    let t = fr.len() - 1;
    crate::frontier::lemma_member_contents(fr, t, fr[t].len() - 1);
    assert(fr[t][fr[t].len() - 1] == fr.last().last());
    assert forall|q: Seq<PosCoords>| #[trigger]
        contents(fr).contains(q) implies classification(q, dims).num_free_spaces <= fr.len() - 1 by {
        let ij = crate::frontier::lemma_contents_member(fr, q);
        assert(valid_placement(fr[ij.0][ij.1], dims));
    }
}

proof fn lemma_buckets_pop(fr: Seq<Seq<Seq<PosCoords>>>, dims: PosCoords)
    requires
        buckets_ok(fr, dims),
        fr.len() > 0,
        fr.last().len() > 0,
    ensures
        buckets_ok(fr.update(fr.len() - 1, fr.last().drop_last()), dims),
{
    let g = fr.update(fr.len() - 1, fr.last().drop_last());
    assert forall|i: int, j: int| 0 <= i < g.len() && 0 <= j < g[i].len() implies valid_placement(
        #[trigger] g[i][j],
        dims,
    ) && classification(g[i][j], dims).num_free_spaces == i by {
        assert(g[i][j] == fr[i][j]);
    }
}

proof fn lemma_buckets_prefix(fr: Seq<Seq<Seq<PosCoords>>>, g: Seq<Seq<Seq<PosCoords>>>, dims: PosCoords)
    requires
        buckets_ok(fr, dims),
        g.len() <= fr.len(),
        forall|i: int| 0 <= i < g.len() ==> #[trigger] g[i] == fr[i],
    ensures
        buckets_ok(g, dims),
{
    assert forall|i: int, j: int| 0 <= i < g.len() && 0 <= j < g[i].len() implies valid_placement(
        #[trigger] g[i][j],
        dims,
    ) && classification(g[i][j], dims).num_free_spaces == i by {
        assert(g[i] == fr[i]);
    }
}

proof fn lemma_buckets_push(fr: Seq<Seq<Seq<PosCoords>>>, f: int, c: Seq<PosCoords>, dims: PosCoords)
    requires
        buckets_ok(fr, dims),
        0 <= f < fr.len(),
        valid_placement(c, dims),
        classification(c, dims).num_free_spaces == f,
    ensures
        buckets_ok(fr.update(f, fr[f].push(c)), dims),
{
    let g = fr.update(f, fr[f].push(c));
    assert forall|i: int, j: int| 0 <= i < g.len() && 0 <= j < g[i].len() implies valid_placement(
        #[trigger] g[i][j],
        dims,
    ) && classification(g[i][j], dims).num_free_spaces == i by {
        if i != f || j < fr[f].len() {
            assert(g[i][j] == fr[i][j]);
        }
    }
}

proof fn lemma_solutions_grow(
    sols: Seq<Seq<PosCoords>>,
    seen: Set<Seq<PosCoords>>,
    key: Seq<PosCoords>,
    dims: PosCoords,
)
    requires
        solutions_ok(sols, seen, dims),
    ensures
        solutions_ok(sols, seen.insert(key), dims),
{
}

proof fn lemma_solutions_push(
    sols: Seq<Seq<PosCoords>>,
    seen: Set<Seq<PosCoords>>,
    p: Seq<PosCoords>,
    dims: PosCoords,
)
    requires
        solutions_ok(sols, seen, dims),
        !seen.contains(canonical(p, dims)),
        valid_placement(p, dims),
        solved(p, dims),
    ensures
        solutions_ok(sols.push(p), seen.insert(canonical(p, dims)), dims),
{
    let s2 = sols.push(p);
    assert forall|a: int, b: int| 0 <= a < b < s2.len() implies canonical(#[trigger] s2[a], dims)
        != canonical(#[trigger] s2[b], dims) by {
        if b == sols.len() {
            assert(seen.contains(canonical(sols[a], dims)));
        } else {
            assert(s2[a] == sols[a] && s2[b] == sols[b]);
        }
    }
    assert forall|k: int| 0 <= k < s2.len() implies valid_placement(#[trigger] s2[k], dims) && solved(
        s2[k],
        dims,
    ) && seen.insert(canonical(p, dims)).contains(canonical(s2[k], dims)) by {
        if k < sols.len() {
            assert(s2[k] == sols[k]);
        }
    }
}

/// Searches the placements that extend a starting placement for solutions: a frontier of
/// placements to expand, the canonical keys of the placements already expanded, and the
/// solutions found, one placement for each class of symmetric solutions.
pub struct Solver {
    frontier: Frontier,
    visited: VisitedSet,
    solutions: Vec<CoordList>,
    dimensions: PosCoords,
    branching_cap: Option<usize>,
}

impl Solver {
    /// The frontier: bucket `i` holds the waiting placements with `i` free squares.
    pub closed spec fn frontier_view(&self) -> Seq<Seq<Seq<PosCoords>>> {
        self.frontier@
    }

    /// The canonical keys of the placements expanded so far.
    pub closed spec fn visited_view(&self) -> Set<Seq<PosCoords>> {
        self.visited@
    }

    /// The solutions found so far, in the order found.
    pub closed spec fn solutions_view(&self) -> Seq<Seq<PosCoords>> {
        views_of(self.solutions@)
    }

    /// The dimensions of the board searched.
    pub closed spec fn dims_view(&self) -> PosCoords {
        self.dimensions
    }

    /// The most children that one expansion pushes; `None` for no limit.
    pub closed spec fn cap_view(&self) -> Option<usize> {
        self.branching_cap
    }

    /// The placements waiting to be expanded.
    pub open spec fn pending(&self) -> Multiset<Seq<PosCoords>> {
        contents(self.frontier_view())
    }

    /// The weight that strictly falls with each step of the search.
    pub open spec fn progress_measure(&self) -> int {
        potential(self.frontier_view(), num_squares(self.dims_view()) + 1)
    }

    /// The solver's state is consistent: each waiting placement is valid and sits in the
    /// bucket of its number of free squares, with no empty bucket on top; each solution is a
    /// valid, solved placement whose canonical key has been visited, and no two solutions
    /// share a key.
    pub open spec fn core_ok(&self) -> bool {
        let dims = self.dims_view();
        let fr = self.frontier_view();
        &&& dims.0 > 0 && dims.1 > 0
        &&& num_squares(dims) < usize::MAX
        &&& fr.len() <= num_squares(dims) + 1
        &&& (fr.len() > 0 ==> fr.last().len() > 0)
        &&& buckets_ok(fr, dims)
        &&& solutions_ok(self.solutions_view(), self.visited_view(), dims)
        &&& self.visited_ok()
    }

    /// The solver's state is consistent, as `core_ok` says; each visited key is a valid
    /// placement and its own key, and a solved one has its class among the solutions; and with
    /// no branching cap the visited keys are closed under expansion, so that nothing is lost.
    pub open spec fn wf(&self) -> bool {
        &&& self.core_ok()
        &&& keys_ok(self.visited_view(), self.solutions_view(), self.dims_view())
        &&& self.cap_view() == None::<usize> ==> search_closed(
            self.visited_view(),
            self.pending(),
            self.dims_view(),
        )
    }

    /// The visited set keeps each key in the bucket of its fingerprint.
    pub closed spec fn visited_ok(&self) -> bool {
        self.visited.wf()
    }

    /// A solver for the empty 8 by 8 board.
    pub fn new() -> (r: Solver)
        ensures
            r.wf(),
            r.dims_view() == (8u32, 8u32),
            r.pending() == Multiset::<Seq<PosCoords>>::empty().insert(Seq::<PosCoords>::empty()),
            r.visited_view() == Set::<Seq<PosCoords>>::empty(),
            r.solutions_view() == Seq::<Seq<PosCoords>>::empty(),
            r.cap_view() == None::<usize>,
    {
        Solver::from_board(Board::new())
    }

    /// A solver for the empty board of the given `(width, height)`.
    pub fn with_dims(dims: PosCoords) -> (r: Solver)
        requires
            dims.0 > 0,
            dims.1 > 0,
            num_squares(dims) < usize::MAX,
        ensures
            r.wf(),
            r.dims_view() == dims,
            r.pending() == Multiset::<Seq<PosCoords>>::empty().insert(Seq::<PosCoords>::empty()),
            r.visited_view() == Set::<Seq<PosCoords>>::empty(),
            r.solutions_view() == Seq::<Seq<PosCoords>>::empty(),
            r.cap_view() == None::<usize>,
    {
        Solver::from_board(Board::from_dims(dims))
    }

    /// A solver that starts from the placement on `board`.
    pub fn from_board(board: Board) -> (r: Solver)
        requires
            num_squares(board@.0) < usize::MAX,
        ensures
            r.wf(),
            r.dims_view() == board@.0,
            r.pending() == Multiset::<Seq<PosCoords>>::empty().insert(board@.1),
            r.visited_view() == Set::<Seq<PosCoords>>::empty(),
            r.solutions_view() == Seq::<Seq<PosCoords>>::empty(),
            r.cap_view() == None::<usize>,
    {
        let dims = board.dims();
        let queens = board.get_queen_positions();
        proof {
            crate::symmetry::lemma_sorted_no_dups(queens@);
        }
        let state = classify(&queens, dims);
        let ghost qv = queens@;
        let frontier = Frontier::single(queens, state.num_free_spaces as usize);
        let r = Solver {
            frontier,
            visited: VisitedSet::new(),
            solutions: Vec::new(),
            dimensions: dims,
            branching_cap: None,
        };
        proof {
            let fr = r.frontier@;
            let f = state.num_free_spaces as int;
            assert(fr.drop_last().len() == f);
            assert forall|i: int| 0 <= i < fr.drop_last().len() implies (#[trigger] fr.drop_last()[i]).len() == 0 by {
                assert(fr[i].len() == 0);
            }
            crate::frontier::lemma_empty_contents(fr.drop_last());
            assert(fr.last() == seq![qv]);
            assert(seq![qv].to_multiset() =~= Multiset::<Seq<PosCoords>>::empty().insert(qv)) by {
                assert(seq![qv] =~= Seq::<Seq<PosCoords>>::empty().push(qv));
                Seq::<Seq<PosCoords>>::empty().to_multiset_ensures();
            }
            assert(r.pending() =~= Multiset::<Seq<PosCoords>>::empty().insert(qv));
            assert(r.solutions_view() =~= Seq::<Seq<PosCoords>>::empty());
        }
        r
    }

    /// Limit each expansion to the `cap` children with the most free squares (ties in the
    /// order found); `None`, the default, pushes every child. A limit speeds the search up
    /// but can miss solutions, so the limit can be lifted only before the search starts.
    pub fn set_branching_cap(&mut self, cap: Option<usize>)
        requires
            old(self).wf(),
            cap == None::<usize> ==> old(self).cap_view() == None::<usize> || old(
                self,
            ).visited_view() == Set::<Seq<PosCoords>>::empty(),
        ensures
            final(self).wf(),
            final(self).cap_view() == cap,
            final(self).dims_view() == old(self).dims_view(),
            final(self).frontier_view() == old(self).frontier_view(),
            final(self).visited_view() == old(self).visited_view(),
            final(self).solutions_view() == old(self).solutions_view(),
    {
        self.branching_cap = cap;
    }

    /// The most children that one expansion pushes; `None` for no limit.
    pub fn branching_cap(&self) -> (r: Option<usize>)
        ensures
            r == self.cap_view(),
    {
        self.branching_cap
    }

    /// The dimensions of the board searched.
    pub fn dims(&self) -> (r: PosCoords)
        ensures
            r == self.dims_view(),
    {
        self.dimensions
    }

    /// Whether no placement is left to expand.
    pub fn is_done(&self) -> (r: bool)
        requires
            self.wf(),
        ensures
            r == (self.pending() == Multiset::<Seq<PosCoords>>::empty()),
            r == (self.frontier_view().len() == 0),
    {
        self.frontier.is_empty()
    }

    /// Whether a solution has been found.
    pub fn solution_exists(&self) -> (r: bool)
        ensures
            r == (self.solutions_view().len() > 0),
    {
        self.solutions.len() > 0
    }

    /// The solutions found so far.
    pub fn get_solutions(&self) -> (r: Vec<CoordList>)
        ensures
            views_of(r@) == self.solutions_view(),
    {
        let mut r: Vec<CoordList> = Vec::new();
        let mut i: usize = 0;
        while i < self.solutions.len()
            invariant
                0 <= i <= self.solutions.len(),
                views_of(r@) == self.solutions_view().subrange(0, i as int),
            decreases self.solutions.len() - i,
        {
            let c = copy_coords(&self.solutions[i]);
            let ghost r0 = r@;
            r.push(c);
            proof {
                assert(views_of(r@) =~= views_of(r0).push(c@));
                assert(self.solutions_view().subrange(0, i + 1) =~= self.solutions_view().subrange(
                    0,
                    i as int,
                ).push(self.solutions_view()[i as int]));
            }
            i = i + 1;
        }
        proof {
            assert(self.solutions_view().subrange(0, i as int) =~= self.solutions_view());
        }
        r
    }

    /// One step of the search. The placement `p` with the most free squares (the last one in,
    /// among equals) leaves the frontier, and its canonical key joins the visited keys. If the
    /// key had been visited before, nothing else happens. Otherwise a solved `p` joins the
    /// solutions, a `p` with a conflict is dropped, and any other `p` is expanded: its
    /// children whose canonical keys have not been visited join the frontier.
    #[verifier::rlimit(40)]
    fn step(&mut self)
        requires
            old(self).core_ok(),
        ensures
            final(self).core_ok(),
            final(self).dims_view() == old(self).dims_view(),
            final(self).cap_view() == old(self).cap_view(),
            old(self).pending() == Multiset::<Seq<PosCoords>>::empty() ==> final(self).frontier_view()
                == old(self).frontier_view() && final(self).visited_view() == old(
                self,
            ).visited_view() && final(self).solutions_view() == old(self).solutions_view(),
            old(self).pending() != Multiset::<Seq<PosCoords>>::empty() ==> ({
                let dims = old(self).dims_view();
                let p = old(self).frontier_view().last().last();
                let key = canonical(p, dims);
                let fresh = !old(self).visited_view().contains(key);
                &&& old(self).pending().contains(p)
                &&& forall|q: Seq<PosCoords>| #[trigger]
                    old(self).pending().contains(q) ==> classification(q, dims).num_free_spaces
                        <= classification(p, dims).num_free_spaces
                &&& final(self).visited_view() == old(self).visited_view().insert(key)
                &&& final(self).solutions_view() == if fresh && solved(p, dims) {
                    old(self).solutions_view().push(p)
                } else {
                    old(self).solutions_view()
                }
                &&& final(self).pending() == if fresh && !solved(p, dims) && !conflicted(p) {
                    old(self).pending().remove(p).add(
                        pushed_children(
                            p,
                            dims,
                            final(self).visited_view(),
                            old(self).cap_view(),
                        ).to_multiset(),
                    )
                } else {
                    old(self).pending().remove(p)
                }
                &&& final(self).progress_measure() < old(self).progress_measure()
            }),
    {
        let ghost fr0 = self.frontier@;
        if self.frontier.is_empty() {
            return;
        }
        let dims = self.dimensions;
        let ghost t = (fr0.len() - 1) as int;
        let ghost base = num_squares(dims) + 1;
        let ghost sols0 = self.solutions_view();
        proof {
            lemma_top_is_highest(fr0, dims);
            lemma_buckets_pop(fr0, dims);
            lemma_pow_positive(base, t as nat);
        }
        let p = self.frontier.pop_top();
        let ghost fr1 = self.frontier@;
        let key = canonicalize(&p, dims);
        let ghost kv = key@;
        let fresh = !self.visited.contains(&key);
        self.visited.insert(key);
        proof {
            lemma_solutions_grow(sols0, old(self).visited@, kv, dims);
        }
        if !fresh {
            self.frontier.trim();
            proof {
                lemma_buckets_prefix(fr1, self.frontier@, dims);
            }
            return;
        }
        proof {
            crate::symmetry::lemma_sorted_no_dups(p@);
        }
        let state = classify(&p, dims);
        if state.is_solved {
            let ghost pv = p@;
            self.solutions.push(p);
            self.frontier.trim();
            proof {
                lemma_buckets_prefix(fr1, self.frontier@, dims);
                assert(self.solutions_view() =~= sols0.push(pv));
                lemma_solutions_push(sols0, old(self).visited@, pv, dims);
            }
            return;
        }
        if state.has_conflict {
            self.frontier.trim();
            proof {
                lemma_buckets_prefix(fr1, self.frontier@, dims);
            }
            return;
        }
        let ghost seen = self.visited@;
        let mut kids: Vec<CoordList> = Vec::new();
        let mut frees: Vec<u64> = Vec::new();
        let mut x: u32 = 0;
        let ghost mut k: int = 0;
        while x < dims.0
            invariant
                dims == self.dimensions,
                dims.0 > 0 && dims.1 > 0,
                self.visited.wf(),
                self.visited@ == seen,
                valid_placement(p@, dims),
                classification(p@, dims).num_free_spaces == t,
                t <= num_squares(dims) < usize::MAX,
                x <= dims.0,
                k == x * dims.1,
                views_of(kids@) == expansion(p@, dims, seen, k as nat),
                frees@ == free_counts(views_of(kids@), dims),
                forall|m: int| 0 <= m < frees@.len() ==> #[trigger] frees@[m] < t,
                forall|m: int| 0 <= m < kids@.len() ==> valid_placement(#[trigger] views_of(kids@)[m], dims),
            decreases dims.0 - x,
        {
            let mut y: u32 = 0;
            while y < dims.1
                invariant
                    dims == self.dimensions,
                    dims.0 > 0 && dims.1 > 0,
                    self.visited.wf(),
                    self.visited@ == seen,
                    valid_placement(p@, dims),
                    classification(p@, dims).num_free_spaces == t,
                    t <= num_squares(dims) < usize::MAX,
                    x < dims.0,
                    y <= dims.1,
                    k == x * dims.1 + y,
                    views_of(kids@) == expansion(p@, dims, seen, k as nat),
                    frees@ == free_counts(views_of(kids@), dims),
                    forall|m: int| 0 <= m < frees@.len() ==> #[trigger] frees@[m] < t,
                    forall|m: int| 0 <= m < kids@.len() ==> valid_placement(#[trigger] views_of(kids@)[m], dims),
                decreases dims.1 - y,
            {
                proof {
                    vstd::arithmetic::div_mod::lemma_fundamental_div_mod_converse(
                        k,
                        dims.1 as int,
                        x as int,
                        y as int,
                    );
                    assert(scan_square(k, dims) == (x, y));
                }
                let ghost prev = views_of(kids@);
                if !square_contested(&p, (x, y)) {
                    let mut child = copy_coords(&p);
                    insert_sorted(&mut child, (x, y));
                    proof {
                        assert(uncontested_set(p@, dims).contains((x, y)));
                        lemma_child(p@, (x, y), dims);
                        assert(num_squares(dims) <= u32::MAX * u32::MAX) by (nonlinear_arith)
                            requires
                                dims.0 <= u32::MAX,
                                dims.1 <= u32::MAX,
                        ;
                    }
                    let child_key = canonicalize(&child, dims);
                    if !self.visited.contains(&child_key) {
                        proof {
                            crate::symmetry::lemma_sorted_no_dups(child@);
                        }
                        let cs = classify(&child, dims);
                        let ghost cv = child@;
                        proof {
                            assert(cs.num_free_spaces < t);
                        }
                        kids.push(child);
                        frees.push(cs.num_free_spaces);
                        proof {
                            assert(views_of(kids@) =~= prev.push(cv));
                            assert(expansion(p@, dims, seen, (k + 1) as nat) == prev.push(cv));
                            assert(frees@ =~= free_counts(views_of(kids@), dims));
                        }
                    } else {
                        proof {
                            assert(expansion(p@, dims, seen, (k + 1) as nat) == prev);
                        }
                    }
                } else {
                    proof {
                        assert(!uncontested_set(p@, dims).contains((x, y)));
                        assert(expansion(p@, dims, seen, (k + 1) as nat) == prev);
                    }
                }
                y = y + 1;
                proof {
                    k = k + 1;
                }
            }
            x = x + 1;
            proof {
                assert(k == x * dims.1) by (nonlinear_arith)
                    requires
                        k == (x - 1) * dims.1 + dims.1,
                ;
            }
        }
        let ghost cs = views_of(kids@);
        let cap = self.branching_cap;
        proof {
            assert(k == num_squares(dims));
            assert(cs == children(p@, dims, seen));
            lemma_expansion_len(p@, dims, seen, k as nat);
            lemma_pow_positive(base, 0);
            if t > 0 {
                lemma_pow_positive(base, (t - 1) as nat);
            }
            assert(contents(fr1).add(Seq::<Seq<PosCoords>>::empty().to_multiset()) =~= contents(fr1));
        }
        let mut i: usize = 0;
        while i < kids.len()
            invariant
                dims == self.dimensions,
                dims.0 > 0 && dims.1 > 0,
                self.visited.wf(),
                self.visited@ == seen,
                solutions_ok(self.solutions_view(), seen, dims),
                self.solutions_view() == sols0,
                buckets_ok(self.frontier@, dims),
                self.frontier@.len() == t + 1,
                t <= num_squares(dims) < usize::MAX,
                cap == self.branching_cap,
                cs == views_of(kids@),
                cs.len() <= num_squares(dims),
                frees@ == free_counts(cs, dims),
                forall|m: int| 0 <= m < frees@.len() ==> #[trigger] frees@[m] < t,
                forall|m: int| 0 <= m < cs.len() ==> valid_placement(#[trigger] cs[m], dims),
                0 <= i <= kids@.len(),
                base == num_squares(dims) + 1,
                t > 0 ==> pow(base, (t - 1) as nat) > 0,
                contents(self.frontier@) == contents(fr1).add(
                    capped(cs, frees@, cap, i as nat).to_multiset(),
                ),
                potential(self.frontier@, base) <= potential(fr1, base) + capped(
                    cs,
                    frees@,
                    cap,
                    i as nat,
                ).len() * (if t > 0 {
                    pow(base, (t - 1) as nat)
                } else {
                    0
                }),
                capped(cs, frees@, cap, i as nat).len() <= i,
                capped(cs, frees@, cap, i as nat).len() > 0 ==> t > 0,
            decreases kids@.len() - i,
        {
            let ghost prev = capped(cs, frees@, cap, i as nat);
            let keep = match cap {
                None => true,
                Some(c) => rank_of(&frees, i) < c,
            };
            if keep {
                let f = frees[i] as usize;
                let ghost cv = cs[i as int];
                let ghost before = self.frontier@;
                let ghost pot_prev = potential(self.frontier@, base);
                proof {
                    assert(f < t);
                    assert(classification(cv, dims).num_free_spaces == frees@[i as int]);
                    lemma_pow_increases(base as nat, f as nat, (t - 1) as nat);
                    lemma_buckets_push(before, f as int, cv, dims);
                }
                let child = copy_coords(&kids[i]);
                self.frontier.push(child, f);
                proof {
                    assert(capped(cs, frees@, cap, (i + 1) as nat) == prev.push(cv));
                    assert(prev.push(cv).to_multiset() =~= prev.to_multiset().insert(cv));
                    assert(contents(self.frontier@) =~= contents(fr1).add(prev.push(cv).to_multiset()));
                    assert(potential(self.frontier@, base) == pot_prev + pow(base, f as nat));
                    assert((prev.len() + 1) * pow(base, (t - 1) as nat) == prev.len() * pow(
                        base,
                        (t - 1) as nat,
                    ) + pow(base, (t - 1) as nat)) by (nonlinear_arith);
                }
            } else {
                proof {
                    assert(capped(cs, frees@, cap, (i + 1) as nat) == prev);
                }
            }
            i = i + 1;
        }
        let ghost fr2 = self.frontier@;
        self.frontier.trim();
        proof {
            lemma_buckets_prefix(fr2, self.frontier@, dims);
            let n = capped(cs, frees@, cap, i as nat).len();
            if n > 0 {
                lemma_pow_adds(base, 1, (t - 1) as nat);
                vstd::arithmetic::power::lemma_pow1(base);
                assert(n * pow(base, (t - 1) as nat) < pow(base, t as nat)) by (nonlinear_arith)
                    requires
                        n <= base - 1,
                        pow(base, (t - 1) as nat) > 0,
                        pow(base, t as nat) == base * pow(base, (t - 1) as nat),
                ;
            }
            assert(potential(self.frontier@, base) == potential(fr2, base));
            assert(potential(fr1, base) + pow(base, t as nat) == potential(fr0, base));
            let w = if t > 0 {
                pow(base, (t - 1) as nat)
            } else {
                0
            };
            assert(potential(fr2, base) <= potential(fr1, base) + n * w);
            if n == 0 {
                assert(n * w == 0) by (nonlinear_arith)
                    requires
                        n == 0,
                ;
            } else {
                assert(n * w < pow(base, t as nat));
            }
            assert(potential(fr2, base) < potential(fr0, base));
            assert(self.progress_measure() < old(self).progress_measure());
            assert(pushed_children(p@, dims, seen, cap) == capped(cs, frees@, cap, i as nat));
            assert(self.pending() == old(self).pending().remove(p@).add(
                pushed_children(p@, dims, seen, cap).to_multiset(),
            ));
        }
    }
}

impl Solver {
    /// One step of the search. The placement `p` with the most free squares (the last one in,
    /// among equals) leaves the frontier, and its canonical key joins the visited keys. If the
    /// key had been visited before, nothing else happens. Otherwise a solved `p` joins the
    /// solutions, a `p` with a conflict is dropped, and any other `p` is expanded: its
    /// children whose canonical keys have not been visited join the frontier, as many as the
    /// branching cap keeps. A class that was known stays known.
    pub fn tick(&mut self)
        requires
            old(self).wf(),
        ensures
            final(self).wf(),
            final(self).dims_view() == old(self).dims_view(),
            final(self).cap_view() == old(self).cap_view(),
            forall|s: Seq<PosCoords>|
                #[trigger] known(s, old(self).visited_view(), old(self).pending(), old(self).dims_view())
                    ==> known(s, final(self).visited_view(), final(self).pending(), old(self).dims_view()),
            old(self).pending() == Multiset::<Seq<PosCoords>>::empty() ==> final(self).frontier_view()
                == old(self).frontier_view() && final(self).visited_view() == old(
                self,
            ).visited_view() && final(self).solutions_view() == old(self).solutions_view(),
            old(self).pending() != Multiset::<Seq<PosCoords>>::empty() ==> ({
                let dims = old(self).dims_view();
                let p = old(self).frontier_view().last().last();
                let key = canonical(p, dims);
                let fresh = !old(self).visited_view().contains(key);
                &&& old(self).pending().contains(p)
                &&& forall|q: Seq<PosCoords>| #[trigger]
                    old(self).pending().contains(q) ==> classification(q, dims).num_free_spaces
                        <= classification(p, dims).num_free_spaces
                &&& final(self).visited_view() == old(self).visited_view().insert(key)
                &&& final(self).solutions_view() == if fresh && solved(p, dims) {
                    old(self).solutions_view().push(p)
                } else {
                    old(self).solutions_view()
                }
                &&& final(self).pending() == if fresh && !solved(p, dims) && !conflicted(p) {
                    old(self).pending().remove(p).add(
                        pushed_children(
                            p,
                            dims,
                            final(self).visited_view(),
                            old(self).cap_view(),
                        ).to_multiset(),
                    )
                } else {
                    old(self).pending().remove(p)
                }
                &&& final(self).progress_measure() < old(self).progress_measure()
            }),
    {
        let ghost before = *self;
        self.step();
        proof {
            if before.pending() != Multiset::<Seq<PosCoords>>::empty() {
                let dims = before.dims_view();
                let p = before.frontier_view().last().last();
                lemma_pending_valid(before);
                lemma_step_keeps_search(
                    before.visited_view(),
                    before.pending(),
                    before.solutions_view(),
                    self.visited_view(),
                    self.pending(),
                    self.solutions_view(),
                    p,
                    dims,
                    before.cap_view(),
                );
            }
        }
    }
}

/// At the start every waiting placement is known.
proof fn lemma_known_at_start(s: Solver)
    ensures
        forall|q: Seq<PosCoords>| #[trigger]
            s.pending().contains(q) ==> known(q, s.visited_view(), s.pending(), s.dims_view()),
{
}

/// Once nothing is waiting, with no cap, every solved extension of a placement that was known
/// has its class among the solutions.
proof fn lemma_all_found_at_end(
    s: Solver,
    pending0: Multiset<Seq<PosCoords>>,
    visited0: Set<Seq<PosCoords>>,
)
    requires
        s.wf(),
        s.cap_view() == None::<usize>,
        s.pending() == Multiset::<Seq<PosCoords>>::empty(),
        visited0.subset_of(s.visited_view()),
        forall|q: Seq<PosCoords>| #[trigger]
            pending0.contains(q) ==> known(q, s.visited_view(), s.pending(), s.dims_view()),
    ensures
        all_found(pending0, visited0, s.solutions_view(), s.dims_view()),
{
    let dims = s.dims_view();
    assert forall|q: Seq<PosCoords>, t: Seq<PosCoords>|
        valid_placement(q, dims) && valid_placement(t, dims) && solved(t, dims) && #[trigger] crate::completeness::extends(q, t)
            && (pending0.contains(q) || visited0.contains(canonical(q, dims))) implies #[trigger] crate::completeness::found_class(
        s.solutions_view(),
        t,
        dims,
    ) by {
        if pending0.contains(q) {
            assert(known(q, s.visited_view(), s.pending(), dims));
        }
        assert(s.visited_view().contains(canonical(q, dims)));
        lemma_solved_extensions_found(s.visited_view(), s.pending(), s.solutions_view(), q, t, dims);
    }
}

/// Every waiting placement of a consistent solver is valid.
proof fn lemma_pending_valid(s: Solver)
    requires
        s.core_ok(),
    ensures
        forall|q: Seq<PosCoords>| #[trigger] s.pending().contains(q) ==> valid_placement(q, s.dims_view()),
{
    assert forall|q: Seq<PosCoords>| #[trigger] s.pending().contains(q) implies valid_placement(q, s.dims_view()) by {
        let ij = crate::frontier::lemma_contents_member(s.frontier_view(), q);
    }
}

impl Solver {
    /// Run the search until no placement is left to expand; the solutions, one for each
    /// class of symmetric solutions. It ends on every board: each step lowers the progress
    /// measure, a natural number.
    pub fn solve(&mut self) -> (r: Vec<CoordList>)
        requires
            old(self).wf(),
        ensures
            final(self).wf(),
            final(self).dims_view() == old(self).dims_view(),
            final(self).pending() == Multiset::<Seq<PosCoords>>::empty(),
            views_of(r@) == final(self).solutions_view(),
            old(self).solutions_view() == final(self).solutions_view().subrange(
                0,
                old(self).solutions_view().len() as int,
            ),
            old(self).visited_view().subset_of(final(self).visited_view()),
            final(self).cap_view() == old(self).cap_view(),
            old(self).cap_view() == None::<usize> ==> all_found(
                old(self).pending(),
                old(self).visited_view(),
                final(self).solutions_view(),
                old(self).dims_view(),
            ),
    {
        proof {
            lemma_progress_measure_is_natural(*self);
            lemma_known_at_start(*self);
        }
        while !self.is_done()
            invariant
                self.wf(),
                self.dims_view() == old(self).dims_view(),
                self.cap_view() == old(self).cap_view(),
                forall|q: Seq<PosCoords>| #[trigger]
                    old(self).pending().contains(q) ==> known(
                        q,
                        self.visited_view(),
                        self.pending(),
                        self.dims_view(),
                    ),
                old(self).solutions_view().len() <= self.solutions_view().len(),
                old(self).solutions_view() == self.solutions_view().subrange(
                    0,
                    old(self).solutions_view().len() as int,
                ),
                old(self).visited_view().subset_of(self.visited_view()),
                self.progress_measure() >= 0,
            decreases self.progress_measure(),
        {
            let ghost before = self.solutions_view();
            let ghost prior = *self;
            self.tick();
            proof {
                crate::frontier::lemma_potential_nonneg(
                    self.frontier_view(),
                    num_squares(self.dims_view()) + 1,
                );
                assert forall|q: Seq<PosCoords>| #[trigger] old(self).pending().contains(q) implies known(
                    q,
                    self.visited_view(),
                    self.pending(),
                    self.dims_view(),
                ) by {
                    assert(known(q, prior.visited_view(), prior.pending(), prior.dims_view()));
                }
                if self.solutions_view() != before {
                    assert(self.solutions_view().subrange(0, before.len() as int) =~= before);
                }
                assert(old(self).solutions_view() =~= self.solutions_view().subrange(
                    0,
                    old(self).solutions_view().len() as int,
                ));
            }
        }
        proof {
            if self.cap_view() == None::<usize> {
                lemma_all_found_at_end(*self, old(self).pending(), old(self).visited_view());
            }
        }
        self.get_solutions()
    }

    /// Run the search until one more solution is found, and return it; `None` when the
    /// search ends without one.
    pub fn get_next_solution(&mut self) -> (r: Option<CoordList>)
        requires
            old(self).wf(),
        ensures
            final(self).wf(),
            final(self).dims_view() == old(self).dims_view(),
            old(self).visited_view().subset_of(final(self).visited_view()),
            match r {
                Some(s) => final(self).solutions_view() == old(self).solutions_view().push(s@),
                None => final(self).pending() == Multiset::<Seq<PosCoords>>::empty()
                    && final(self).solutions_view() == old(self).solutions_view() && (old(
                    self,
                ).cap_view() == None::<usize> ==> all_found(
                    old(self).pending(),
                    old(self).visited_view(),
                    old(self).solutions_view(),
                    old(self).dims_view(),
                )),
            },
            final(self).cap_view() == old(self).cap_view(),
    {
        let initial_count = self.solutions.len();
        proof {
            lemma_progress_measure_is_natural(*self);
            lemma_known_at_start(*self);
        }
        while self.solutions.len() == initial_count && !self.is_done()
            invariant
                self.wf(),
                self.dims_view() == old(self).dims_view(),
                self.cap_view() == old(self).cap_view(),
                forall|q: Seq<PosCoords>| #[trigger]
                    old(self).pending().contains(q) ==> known(
                        q,
                        self.visited_view(),
                        self.pending(),
                        self.dims_view(),
                    ),
                initial_count == old(self).solutions_view().len(),
                self.solutions.len() == self.solutions_view().len(),
                self.solutions_view().len() == initial_count ==> self.solutions_view() == old(
                    self,
                ).solutions_view(),
                self.solutions_view().len() != initial_count ==> self.solutions_view().len()
                    == initial_count + 1 && self.solutions_view().drop_last() == old(
                    self,
                ).solutions_view(),
                old(self).visited_view().subset_of(self.visited_view()),
                self.progress_measure() >= 0,
            decreases self.progress_measure(),
        {
            let ghost before = self.solutions_view();
            let ghost prior = *self;
            self.tick();
            proof {
                assert forall|q: Seq<PosCoords>| #[trigger] old(self).pending().contains(q) implies known(
                    q,
                    self.visited_view(),
                    self.pending(),
                    self.dims_view(),
                ) by {
                    assert(known(q, prior.visited_view(), prior.pending(), prior.dims_view()));
                }
                crate::frontier::lemma_potential_nonneg(
                    self.frontier_view(),
                    num_squares(self.dims_view()) + 1,
                );
                if self.solutions_view() != before {
                    assert(self.solutions_view().drop_last() =~= before);
                }
            }
        }
        if self.solutions.len() == initial_count {
            proof {
                if self.cap_view() == None::<usize> {
                    lemma_all_found_at_end(*self, old(self).pending(), old(self).visited_view());
                }
            }
            None
        } else {
            let last = copy_coords(&self.solutions[initial_count]);
            proof {
                assert(self.solutions_view() =~= old(self).solutions_view().push(last@));
            }
            Some(last)
        }
    }
}

/// The measure that each step of the search lowers is a natural number, so the search ends
/// on every board: `tick` lowers it whenever a placement is waiting, and `solve` stops when
/// none is.
pub proof fn lemma_progress_measure_is_natural(s: Solver)
    requires
        s.wf(),
    ensures
        s.progress_measure() >= 0,
{
    crate::frontier::lemma_potential_nonneg(s.frontier_view(), num_squares(s.dims_view()) + 1);
}

/// No child that an expansion pushes has a canonical key in `seen`.
proof fn lemma_expansion_fresh(
    p: Seq<PosCoords>,
    dims: PosCoords,
    seen: Set<Seq<PosCoords>>,
    k: nat,
    j: int,
)
    requires
        0 <= j < expansion(p, dims, seen, k).len(),
    ensures
        !seen.contains(canonical(expansion(p, dims, seen, k)[j], dims)),
    decreases k,
{
    if k > 0 {
        let prev = expansion(p, dims, seen, (k - 1) as nat);
        if j < prev.len() {
            lemma_expansion_fresh(p, dims, seen, (k - 1) as nat, j);
            assert(expansion(p, dims, seen, k)[j] == prev[j]);
        }
    }
}

/// Each child that the cap keeps is one of the children.
proof fn lemma_capped_member(
    cs: Seq<Seq<PosCoords>>,
    fs: Seq<u64>,
    cap: Option<usize>,
    n: nat,
    j: int,
) -> (m: int)
    requires
        n <= cs.len(),
        0 <= j < capped(cs, fs, cap, n).len(),
    ensures
        0 <= m < cs.len(),
        capped(cs, fs, cap, n)[j] == cs[m],
    decreases n,
{
    let prev = capped(cs, fs, cap, (n - 1) as nat);
    if j < prev.len() {
        let m = lemma_capped_member(cs, fs, cap, (n - 1) as nat, j);
        assert(capped(cs, fs, cap, n)[j] == prev[j]);
        m
    } else {
        (n - 1) as int
    }
}

/// Once the canonical key of a placement has been visited, none of its symmetric variants is
/// ever pushed onto the frontier again: an expansion skips every child whose key is known,
/// and all the variants share that key.
pub proof fn lemma_visited_variants_not_pushed(
    p: Seq<PosCoords>,
    q: Seq<PosCoords>,
    parent: Seq<PosCoords>,
    dims: PosCoords,
    seen: Set<Seq<PosCoords>>,
    cap: Option<usize>,
)
    requires
        valid_placement(p, dims),
        seen.contains(canonical(p, dims)),
        crate::symmetry::variants(p, dims).contains(q),
    ensures
        !pushed_children(parent, dims, seen, cap).contains(q),
{
    crate::symmetry::lemma_variants_share_key(p, dims, q);
    let cs = children(parent, dims, seen);
    let pc = pushed_children(parent, dims, seen, cap);
    if pc.contains(q) {
        let j = choose|j: int| 0 <= j < pc.len() && pc[j] == q;
        let m = lemma_capped_member(cs, free_counts(cs, dims), cap, cs.len(), j);
        lemma_expansion_fresh(parent, dims, seen, num_squares(dims) as nat, m);
    }
}

/// Whether `v` holds a list equal to `s`.
fn contains_list(v: &Vec<CoordList>, s: &Vec<PosCoords>) -> (r: bool)
    ensures
        r == views_of(v@).contains(s@),
{
    let mut i: usize = 0;
    while i < v.len()
        invariant
            0 <= i <= v.len(),
            forall|k: int| 0 <= k < i ==> (#[trigger] v@[k])@ != s@,
        decreases v.len() - i,
    {
        if crate::visited::coords_equal(&v[i], s) {
            proof {
                assert(views_of(v@)[i as int] == s@);
            }
            return true;
        }
        i = i + 1;
    }
    proof {
        if views_of(v@).contains(s@) {
            let k = choose|k: int| 0 <= k < views_of(v@).len() && views_of(v@)[k] == s@;
            assert(v@[k]@ == s@);
        }
    }
    false
}

/// The distinct symmetric variants of a placement: itself and its three reflections, each once.
pub fn get_symmetric_variants(p: &Vec<PosCoords>, dims: PosCoords) -> (r: Vec<CoordList>)
    requires
        valid_placement(p@, dims),
    ensures
        views_of(r@).to_set() == crate::symmetry::variants(p@, dims),
        views_of(r@).no_duplicates(),
{
    let mut candidates: Vec<CoordList> = Vec::new();
    candidates.push(copy_coords(p));
    candidates.push(crate::symmetry::reflect_all(p, dims, true, false));
    candidates.push(crate::symmetry::reflect_all(p, dims, false, true));
    candidates.push(crate::symmetry::reflect_all(p, dims, true, true));
    let ghost cands = views_of(candidates@);
    proof {
        assert(cands.to_set() =~= crate::symmetry::variants(p@, dims)) by {
            assert(cands[0] == p@);
            assert(cands.contains(cands[0]) && cands.contains(cands[1]) && cands.contains(cands[2])
                && cands.contains(cands[3]));
        }
    }
    let mut r: Vec<CoordList> = Vec::new();
    let mut i: usize = 0;
    while i < candidates.len()
        invariant
            0 <= i <= candidates.len(),
            cands == views_of(candidates@),
            views_of(r@).no_duplicates(),
            views_of(r@).to_set() == cands.subrange(0, i as int).to_set(),
        decreases candidates.len() - i,
    {
        let c = copy_coords(&candidates[i]);
        let ghost r0 = views_of(r@);
        proof {
            assert(cands.subrange(0, i + 1) =~= cands.subrange(0, i as int).push(cands[i as int]));
            cands.subrange(0, i as int).lemma_push_to_set_commute(cands[i as int]);
        }
        if !contains_list(&r, &c) {
            r.push(c);
            proof {
                assert(views_of(r@) =~= r0.push(cands[i as int]));
                r0.lemma_push_to_set_commute(cands[i as int]);
                assert forall|a: int, b: int|
                    0 <= a < views_of(r@).len() && 0 <= b < views_of(r@).len() && a != b implies views_of(r@)[a]
                    != views_of(r@)[b] by {
                    if a < r0.len() && b < r0.len() {
                        assert(views_of(r@)[a] == r0[a] && views_of(r@)[b] == r0[b]);
                    } else if a < r0.len() {
                        assert(r0.contains(r0[a]));
                    } else {
                        assert(r0.contains(r0[b]));
                    }
                }
            }
        } else {
            proof {
                assert(r0.to_set().contains(cands[i as int]));
                assert(r0.to_set() =~= r0.to_set().insert(cands[i as int]));
            }
        }
        i = i + 1;
    }
    proof {
        assert(cands.subrange(0, 4) =~= cands);
    }
    r
}

/// The placements that are symmetric variants of one of `sols`.
pub open spec fn all_variants(sols: Seq<Seq<PosCoords>>, dims: PosCoords) -> Set<Seq<PosCoords>> {
    Set::new(
        |t: Seq<PosCoords>|
            exists|k: int| 0 <= k < sols.len() && crate::symmetry::variants(#[trigger] sols[k], dims).contains(t),
    )
}

/// Every symmetric variant of every solution, each once: from one solution for each class of
/// symmetric solutions, all the solutions.
pub fn expand_symmetric_variants(solutions: &Vec<CoordList>, dims: PosCoords) -> (r: Vec<CoordList>)
    requires
        forall|k: int| 0 <= k < solutions@.len() ==> valid_placement(#[trigger] views_of(solutions@)[k], dims),
        forall|a: int, b: int|
            0 <= a < b < solutions@.len() ==> canonical(#[trigger] views_of(solutions@)[a], dims)
                != canonical(#[trigger] views_of(solutions@)[b], dims),
    ensures
        views_of(r@).to_set() == all_variants(views_of(solutions@), dims),
        views_of(r@).no_duplicates(),
{
    let ghost sols = views_of(solutions@);
    let mut r: Vec<CoordList> = Vec::new();
    let mut i: usize = 0;
    proof {
        assert(views_of(r@).to_set() =~= all_variants(sols.subrange(0, 0), dims));
    }
    while i < solutions.len()
        invariant
            0 <= i <= solutions.len(),
            sols == views_of(solutions@),
            forall|k: int| 0 <= k < sols.len() ==> valid_placement(#[trigger] sols[k], dims),
            forall|a: int, b: int|
                0 <= a < b < sols.len() ==> canonical(#[trigger] sols[a], dims) != canonical(
                    #[trigger] sols[b],
                    dims,
                ),
            views_of(r@).no_duplicates(),
            views_of(r@).to_set() == all_variants(sols.subrange(0, i as int), dims),
        decreases solutions.len() - i,
    {
        proof {
            assert(sols[i as int] == solutions@[i as int]@);
            assert(valid_placement(sols[i as int], dims));
        }
        let vs = get_symmetric_variants(&solutions[i], dims);
        let ghost r0 = views_of(r@);
        let ghost key = canonical(sols[i as int], dims);
        proof {
            assert(views_of(r@) =~= r0 + views_of(vs@).subrange(0, 0));
        }
        let mut j: usize = 0;
        while j < vs.len()
            invariant
                0 <= i < solutions.len(),
                0 <= j <= vs.len(),
                sols == views_of(solutions@),
                forall|k: int| 0 <= k < sols.len() ==> valid_placement(#[trigger] sols[k], dims),
                forall|a: int, b: int|
                    0 <= a < b < sols.len() ==> canonical(#[trigger] sols[a], dims) != canonical(
                        #[trigger] sols[b],
                        dims,
                    ),
                key == canonical(sols[i as int], dims),
                views_of(vs@).to_set() == crate::symmetry::variants(sols[i as int], dims),
                views_of(vs@).no_duplicates(),
                views_of(r@).no_duplicates(),
                views_of(r@) == r0 + views_of(vs@).subrange(0, j as int),
                r0.to_set() == all_variants(sols.subrange(0, i as int), dims),
            decreases vs.len() - j,
        {
            let c = copy_coords(&vs[j]);
            let ghost rr = views_of(r@);
            proof {
                let vv = views_of(vs@);
                assert(vv.to_set().contains(vv[j as int]));
                crate::symmetry::lemma_variants_share_key(sols[i as int], dims, vv[j as int]);
                assert forall|a: int, b: int|
                    0 <= a < rr.push(c@).len() && 0 <= b < rr.push(c@).len() && a != b implies rr.push(
                    c@,
                )[a] != rr.push(c@)[b] by {
                    let x = rr.push(c@);
                    if a < rr.len() && b < rr.len() {
                        assert(x[a] == rr[a] && x[b] == rr[b]);
                    } else {
                        let m = if a < rr.len() {
                            a
                        } else {
                            b
                        };
                        assert(x[m] == rr[m]);
                        if m < r0.len() {
                            assert(rr[m] == r0[m]);
                            assert(r0.contains(r0[m]));
                            assert(r0.to_set().contains(r0[m]));
                            let k = choose|k: int|
                                0 <= k < i && crate::symmetry::variants(
                                    #[trigger] sols.subrange(0, i as int)[k],
                                    dims,
                                ).contains(r0[m]);
                            assert(sols.subrange(0, i as int)[k] == sols[k]);
                            crate::symmetry::lemma_variants_share_key(sols[k], dims, r0[m]);
                        } else {
                            assert(rr[m] == vv[m - r0.len()]);
                            assert(vv[m - r0.len()] != vv[j as int]);
                        }
                    }
                }
            }
            r.push(c);
            proof {
                assert(views_of(r@) =~= rr.push(c@));
                assert(views_of(r@) =~= r0 + views_of(vs@).subrange(0, j + 1));
            }
            j = j + 1;
        }
        proof {
            let vv = views_of(vs@);
            assert(vv.subrange(0, vv.len() as int) =~= vv);
            assert(views_of(r@).to_set() =~= all_variants(sols.subrange(0, i + 1), dims)) by {
                assert forall|t: Seq<PosCoords>| #[trigger] views_of(r@).to_set().contains(t) <==> all_variants(
                    sols.subrange(0, i + 1),
                    dims,
                ).contains(t) by {
                    if views_of(r@).contains(t) {
                        let m = choose|m: int| 0 <= m < views_of(r@).len() && views_of(r@)[m] == t;
                        if m < r0.len() {
                            assert(r0.contains(t));
                            assert(r0.to_set().contains(t));
                            let k = choose|k: int|
                                0 <= k < i && crate::symmetry::variants(#[trigger] sols.subrange(0, i as int)[k], dims).contains(t);
                            assert(sols.subrange(0, i + 1)[k] == sols.subrange(0, i as int)[k]);
                        } else {
                            assert(vv[m - r0.len()] == t);
                            assert(vv.contains(t));
                            assert(sols.subrange(0, i + 1)[i as int] == sols[i as int]);
                        }
                    }
                    if all_variants(sols.subrange(0, i + 1), dims).contains(t) {
                        let k = choose|k: int|
                            0 <= k < i + 1 && crate::symmetry::variants(#[trigger] sols.subrange(0, i + 1)[k], dims).contains(t);
                        if k < i {
                            assert(sols.subrange(0, i as int)[k] == sols.subrange(0, i + 1)[k]);
                            assert(all_variants(sols.subrange(0, i as int), dims).contains(t));
                            assert(r0.to_set().contains(t));
                            let m = choose|m: int| 0 <= m < r0.len() && r0[m] == t;
                            assert(views_of(r@)[m] == t);
                        } else {
                            assert(vv.to_set().contains(t));
                            let m = choose|m: int| 0 <= m < vv.len() && vv[m] == t;
                            assert(views_of(r@)[r0.len() + m] == t);
                        }
                    }
                }
            }
        }
        i = i + 1;
    }
    proof {
        assert(sols.subrange(0, sols.len() as int) =~= sols);
    }
    r
}

} // verus!
