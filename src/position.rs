//! Coordinates on a board, their order, sorted placements, and a walk over the squares.

use vstd::prelude::*;

verus! {

/// Position coordinates, in `(x, y)` form: column first, then row.
pub type PosCoords = (u32, u32);

/// A list of position coordinates.
pub type CoordList = Vec<PosCoords>;

/// Position errors, returned when a coordinate lies outside a board.
#[derive(Clone, Copy, Debug, PartialEq, Eq, Structural)]
pub enum PosError {
    OutOfBounds,
}

/// The coordinates of each list.
pub open spec fn views_of(v: Seq<CoordList>) -> Seq<Seq<PosCoords>> {
    v.map_values(|p: CoordList| p@)
}

/// Whether `p` lies on a board of the given `(width, height)`.
pub open spec fn in_dims(p: PosCoords, dims: PosCoords) -> bool {
    p.0 < dims.0 && p.1 < dims.1
}

/// Every coordinate of `s` lies on the board.
pub open spec fn all_in_dims(s: Seq<PosCoords>, dims: PosCoords) -> bool {
    forall|i: int| 0 <= i < s.len() ==> in_dims(#[trigger] s[i], dims)
}

/// The order of coordinates: by column, then by row.
pub open spec fn coord_lt(a: PosCoords, b: PosCoords) -> bool {
    a.0 < b.0 || (a.0 == b.0 && a.1 < b.1)
}

/// The sequence is strictly increasing, so it holds no coordinate twice.
pub open spec fn is_sorted(s: Seq<PosCoords>) -> bool {
    forall|i: int, j: int| 0 <= i < j < s.len() ==> coord_lt(#[trigger] s[i], #[trigger] s[j])
}

/// `c` put in its place in the sorted sequence `s` (no change if already there).
pub open spec fn insert_coord(s: Seq<PosCoords>, c: PosCoords) -> Seq<PosCoords>
    decreases s.len(),
{
    if s.len() == 0 {
        seq![c]
    } else if coord_lt(c, s[0]) {
        seq![c] + s
    } else if c == s[0] {
        s
    } else {
        seq![s[0]] + insert_coord(s.drop_first(), c)
    }
}

/// The coordinates of `s`, sorted, without repeats.
#[verifier::opaque]
pub open spec fn sort_coords(s: Seq<PosCoords>) -> Seq<PosCoords>
    decreases s.len(),
{
    if s.len() == 0 {
        Seq::empty()
    } else {
        insert_coord(sort_coords(s.drop_last()), s.last())
    }
}

/// What inserting into a sorted sequence gives, stated by its elements.
pub proof fn lemma_insert_coord(s: Seq<PosCoords>, c: PosCoords)
    requires
        is_sorted(s),
    ensures
        is_sorted(insert_coord(s, c)),
        insert_coord(s, c).to_set() == s.to_set().insert(c),
        s.contains(c) ==> insert_coord(s, c) == s,
        !s.contains(c) ==> insert_coord(s, c).len() == s.len() + 1,
    decreases s.len(),
{
    if s.len() == 0 {
        assert(seq![c].to_set() =~= Set::<PosCoords>::empty().insert(c)) by {
            assert(seq![c][0] == c);
        }
        assert(s.to_set() =~= Set::<PosCoords>::empty());
    } else if coord_lt(c, s[0]) {
        let r = seq![c] + s;
        assert forall|i: int, j: int| 0 <= i < j < r.len() implies coord_lt(r[i], r[j]) by {
            if i > 0 {
                assert(r[i] == s[i - 1] && r[j] == s[j - 1]);
            } else {
                assert(r[j] == s[j - 1]);
                if j > 1 {
                    assert(coord_lt(s[0], s[j - 1]));
                }
            }
        }
        assert(r.to_set() =~= s.to_set().insert(c)) by {
            assert forall|x: PosCoords| r.contains(x) <==> s.to_set().insert(c).contains(x) by {
                if r.contains(x) {
                    let k = choose|k: int| 0 <= k < r.len() && r[k] == x;
                    if k > 0 {
                        assert(s[k - 1] == x);
                    }
                }
                if s.contains(x) {
                    let k = choose|k: int| 0 <= k < s.len() && s[k] == x;
                    assert(r[k + 1] == x);
                }
                if x == c {
                    assert(r[0] == c);
                }
            }
        }
        assert(!s.contains(c)) by {
            if s.contains(c) {
                let k = choose|k: int| 0 <= k < s.len() && s[k] == c;
                if k > 0 {
                    assert(coord_lt(s[0], s[k]));
                }
            }
        }
    } else if c == s[0] {
        assert(s.to_set() =~= s.to_set().insert(c)) by {
            assert(s.contains(s[0]));
        }
    } else {
        let t = s.drop_first();
        assert(is_sorted(t)) by {
            assert forall|i: int, j: int| 0 <= i < j < t.len() implies coord_lt(t[i], t[j]) by {
                assert(t[i] == s[i + 1] && t[j] == s[j + 1]);
            }
        }
        lemma_insert_coord(t, c);
        let u = insert_coord(t, c);
        let r = seq![s[0]] + u;
        assert(r == insert_coord(s, c));
        assert forall|k: int| 0 <= k < u.len() implies coord_lt(s[0], #[trigger] u[k]) by {
            assert(u.to_set().contains(u[k]));
            assert(u.contains(u[k]));
            if u[k] != c {
                assert(t.to_set().contains(u[k]));
                assert(t.contains(u[k]));
                let m = choose|m: int| 0 <= m < t.len() && t[m] == u[k];
                assert(s[m + 1] == u[k]);
            }
        }
        assert forall|i: int, j: int| 0 <= i < j < r.len() implies coord_lt(r[i], r[j]) by {
            if i > 0 {
                assert(r[i] == u[i - 1] && r[j] == u[j - 1]);
            } else {
                assert(r[j] == u[j - 1]);
            }
        }
        assert(s =~= seq![s[0]] + t);
        assert(s.to_set() =~= t.to_set().insert(s[0])) by {
            assert forall|x: PosCoords| s.contains(x) <==> t.to_set().insert(s[0]).contains(x) by {
                if s.contains(x) {
                    let k = choose|k: int| 0 <= k < s.len() && s[k] == x;
                    if k > 0 {
                        assert(t[k - 1] == x);
                    }
                }
                if t.contains(x) {
                    let k = choose|k: int| 0 <= k < t.len() && t[k] == x;
                    assert(s[k + 1] == x);
                }
                if x == s[0] {
                    assert(s.contains(s[0]));
                }
            }
        }
        assert(r.to_set() =~= u.to_set().insert(s[0])) by {
            assert forall|x: PosCoords| r.contains(x) <==> u.to_set().insert(s[0]).contains(x) by {
                if r.contains(x) {
                    let k = choose|k: int| 0 <= k < r.len() && r[k] == x;
                    if k > 0 {
                        assert(u[k - 1] == x);
                    }
                }
                if u.contains(x) {
                    let k = choose|k: int| 0 <= k < u.len() && u[k] == x;
                    assert(r[k + 1] == x);
                }
                if x == s[0] {
                    assert(r[0] == x);
                }
            }
        }
        if s.contains(c) {
            let k = choose|k: int| 0 <= k < s.len() && s[k] == c;
            assert(k > 0);
            assert(t[k - 1] == c);
            assert(t.contains(c));
        } else {
            assert(!t.contains(c)) by {
                if t.contains(c) {
                    let k = choose|k: int| 0 <= k < t.len() && t[k] == c;
                    assert(s[k + 1] == c);
                }
            }
        }
    }
}

/// Sorting one element more is inserting it into the sorted rest.
pub proof fn lemma_sort_coords_push(s: Seq<PosCoords>, c: PosCoords)
    ensures
        sort_coords(s.push(c)) == insert_coord(sort_coords(s), c),
        sort_coords(Seq::<PosCoords>::empty()) == Seq::<PosCoords>::empty(),
{
    reveal(sort_coords);
    assert(s.push(c).drop_last() =~= s);
}

/// Sorting gives a sorted sequence with the same elements.
pub proof fn lemma_sort_coords(s: Seq<PosCoords>)
    ensures
        is_sorted(sort_coords(s)),
        sort_coords(s).to_set() == s.to_set(),
    decreases s.len(),
{
    reveal(sort_coords);
    if s.len() == 0 {
        assert(s.to_set() =~= Set::<PosCoords>::empty());
        assert(Seq::<PosCoords>::empty().to_set() =~= Set::<PosCoords>::empty());
    } else {
        let t = s.drop_last();
        lemma_sort_coords(t);
        lemma_insert_coord(sort_coords(t), s.last());
        assert(s =~= t.push(s.last()));
        assert(s.to_set() =~= t.to_set().insert(s.last())) by {
            assert forall|x: PosCoords| s.contains(x) <==> t.to_set().insert(s.last()).contains(x) by {
                if s.contains(x) {
                    let k = choose|k: int| 0 <= k < s.len() && s[k] == x;
                    if k < s.len() - 1 {
                        assert(t[k] == x);
                    }
                }
                if t.contains(x) {
                    let k = choose|k: int| 0 <= k < t.len() && t[k] == x;
                    assert(s[k] == x);
                }
                if x == s.last() {
                    assert(s[s.len() - 1] == x);
                }
            }
        }
    }
}

/// Two sorted sequences with the same elements are the same sequence.
pub proof fn lemma_sorted_unique(a: Seq<PosCoords>, b: Seq<PosCoords>)
    requires
        is_sorted(a),
        is_sorted(b),
        a.to_set() == b.to_set(),
    ensures
        a == b,
    decreases a.len(),
{
    if a.len() == 0 {
        if b.len() > 0 {
            assert(b.contains(b[0]));
            assert(b.to_set().contains(b[0]));
        }
        assert(a =~= b);
    } else {
        assert(a.contains(a[0]));
        assert(a.to_set().contains(a[0]));
        assert(b.len() > 0);
        assert(b.contains(b[0]));
        assert(b.to_set().contains(b[0]));
        assert(a[0] == b[0]) by {
            let i = choose|i: int| 0 <= i < b.len() && b[i] == a[0];
            let j = choose|j: int| 0 <= j < a.len() && a[j] == b[0];
            if i > 0 && j > 0 {
                assert(coord_lt(b[0], b[i]));
                assert(coord_lt(a[0], a[j]));
            } else if i > 0 {
                assert(coord_lt(b[0], b[i]));
            } else if j > 0 {
                assert(coord_lt(a[0], a[j]));
            }
        }
        let ta = a.drop_first();
        let tb = b.drop_first();
        assert(is_sorted(ta)) by {
            assert forall|i: int, j: int| 0 <= i < j < ta.len() implies coord_lt(ta[i], ta[j]) by {
                assert(ta[i] == a[i + 1] && ta[j] == a[j + 1]);
            }
        }
        assert(is_sorted(tb)) by {
            assert forall|i: int, j: int| 0 <= i < j < tb.len() implies coord_lt(tb[i], tb[j]) by {
                assert(tb[i] == b[i + 1] && tb[j] == b[j + 1]);
            }
        }
        assert(ta.to_set() =~= tb.to_set()) by {
            assert forall|x: PosCoords| ta.contains(x) implies tb.contains(x) by {
                let k = choose|k: int| 0 <= k < ta.len() && ta[k] == x;
                assert(a[k + 1] == x);
                assert(coord_lt(a[0], x));
                assert(a.contains(x));
                assert(b.to_set().contains(x));
                let m = choose|m: int| 0 <= m < b.len() && b[m] == x;
                assert(m > 0);
                assert(tb[m - 1] == x);
            }
            assert forall|x: PosCoords| tb.contains(x) implies ta.contains(x) by {
                let k = choose|k: int| 0 <= k < tb.len() && tb[k] == x;
                assert(b[k + 1] == x);
                assert(coord_lt(b[0], x));
                assert(b.contains(x));
                assert(a.to_set().contains(x));
                let m = choose|m: int| 0 <= m < a.len() && a[m] == x;
                assert(m > 0);
                assert(ta[m - 1] == x);
            }
        }
        lemma_sorted_unique(ta, tb);
        assert(a =~= seq![a[0]] + ta);
        assert(b =~= seq![b[0]] + tb);
    }
}

/// Whether `a` comes before `b` in the order of coordinates.
pub fn coord_less(a: PosCoords, b: PosCoords) -> (r: bool)
    ensures
        r == coord_lt(a, b),
{
    a.0 < b.0 || (a.0 == b.0 && a.1 < b.1)
}

/// Put `c` in its place in the sorted list `v`; nothing changes if it is there already.
pub fn insert_sorted(v: &mut Vec<PosCoords>, c: PosCoords)
    requires
        is_sorted(old(v)@),
    ensures
        final(v)@ == insert_coord(old(v)@, c),
        is_sorted(final(v)@),
        final(v)@.to_set() == old(v)@.to_set().insert(c),
{
    proof {
        lemma_insert_coord(v@, c);
    }
    let mut i: usize = 0;
    while i < v.len() && coord_less(v[i], c)
        invariant
            0 <= i <= v.len(),
            v@ == old(v)@,
            is_sorted(v@),
            forall|k: int| 0 <= k < i ==> coord_lt(#[trigger] v@[k], c),
        decreases v.len() - i,
    {
        i = i + 1;
    }
    proof {
        lemma_insert_coord_at(v@, c, i as int);
    }
    if i < v.len() && v[i].0 == c.0 && v[i].1 == c.1 {
        return;
    }
    v.insert(i, c);
}

/// Where `insert_coord` puts `c`, given the first place `i` that does not come before it.
proof fn lemma_insert_coord_at(s: Seq<PosCoords>, c: PosCoords, i: int)
    requires
        is_sorted(s),
        0 <= i <= s.len(),
        forall|k: int| 0 <= k < i ==> coord_lt(#[trigger] s[k], c),
        i < s.len() ==> !coord_lt(s[i], c),
    ensures
        (i < s.len() && s[i] == c) ==> insert_coord(s, c) == s,
        !(i < s.len() && s[i] == c) ==> insert_coord(s, c) == s.insert(i, c),
    decreases i,
{
    if i == 0 {
        if s.len() > 0 && s[0] != c {
            assert(coord_lt(c, s[0]));
            assert(s.insert(0, c) =~= seq![c] + s);
        } else if s.len() == 0 {
            assert(s.insert(0, c) =~= seq![c]);
        }
    } else {
        let t = s.drop_first();
        assert(coord_lt(s[0], c));
        assert(is_sorted(t)) by {
            assert forall|a: int, b: int| 0 <= a < b < t.len() implies coord_lt(t[a], t[b]) by {
                assert(t[a] == s[a + 1] && t[b] == s[b + 1]);
            }
        }
        assert forall|k: int| 0 <= k < i - 1 implies coord_lt(#[trigger] t[k], c) by {
            assert(t[k] == s[k + 1]);
        }
        lemma_insert_coord_at(t, c, i - 1);
        assert(s =~= seq![s[0]] + t);
        if !(i < s.len() && s[i] == c) {
            assert(s.insert(i, c) =~= seq![s[0]] + t.insert(i - 1, c));
        }
    }
}

/// A copy of a list of coordinates.
pub fn copy_coords(v: &Vec<PosCoords>) -> (r: Vec<PosCoords>)
    ensures
        r@ == v@,
{
    let mut r: Vec<PosCoords> = Vec::new();
    let mut i: usize = 0;
    while i < v.len()
        invariant
            0 <= i <= v.len(),
            r@ == v@.subrange(0, i as int),
        decreases v.len() - i,
    {
        r.push(v[i]);
        i = i + 1;
        assert(r@ =~= v@.subrange(0, i as int));
    }
    assert(v@.subrange(0, v.len() as int) =~= v@);
    r
}

/// Walks the squares of a board row by row, from the bottom row up, each row left to right.
pub struct CoordIter {
    height: u32,
    width: u32,
    curr_i: u64,
}

/// The square at row-major index `i` on a board `width` squares wide.
pub open spec fn row_major_square(i: int, width: int) -> PosCoords {
    ((i % width) as u32, (i / width) as u32)
}

impl CoordIter {
    /// The number of squares.
    pub open spec fn total(&self) -> int {
        self.width_spec() * self.height_spec()
    }

    pub closed spec fn width_spec(&self) -> int {
        self.width as int
    }

    pub closed spec fn height_spec(&self) -> int {
        self.height as int
    }

    /// How many squares have been walked.
    pub closed spec fn index_spec(&self) -> int {
        self.curr_i as int
    }

    /// The squares not yet walked, in order.
    pub open spec fn remaining(&self) -> Seq<PosCoords> {
        Seq::new(
            (self.total() - self.index_spec()) as nat,
            |k: int| row_major_square(self.index_spec() + k, self.width_spec()),
        )
    }

    /// The walk is within the board, or just past its end.
    pub open spec fn wf(&self) -> bool {
        self.index_spec() <= self.total()
    }

    /// A walk over the squares of a board of the given `(width, height)`, from the start.
    pub fn from_dims(dims: PosCoords) -> (r: CoordIter)
        ensures
            r.wf(),
            r.width_spec() == dims.0,
            r.height_spec() == dims.1,
            r.index_spec() == 0,
    {
        proof {
            assert(dims.0 * dims.1 >= 0) by (nonlinear_arith);
        }
        CoordIter { height: dims.1, width: dims.0, curr_i: 0 }
    }

    /// The number of columns.
    pub fn width(&self) -> (r: u32)
        ensures
            r == self.width_spec(),
    {
        self.width
    }

    /// The number of rows.
    pub fn height(&self) -> (r: u32)
        ensures
            r == self.height_spec(),
    {
        self.height
    }

    /// How many squares have been walked.
    pub fn curr_i(&self) -> (r: u64)
        ensures
            r == self.index_spec(),
    {
        self.curr_i
    }

    /// Whether a square is left to walk.
    pub fn in_bounds(&self) -> (r: bool)
        ensures
            r == (self.index_spec() < self.total()),
    {
        proof {
            assert(self.width * self.height <= u32::MAX * u32::MAX) by (nonlinear_arith)
                requires
                    self.width <= u32::MAX,
                    self.height <= u32::MAX,
            ;
        }
        self.curr_i < self.width as u64 * self.height as u64
    }

    /// The square the walk stands on.
    pub fn curr_pos(&self) -> (r: PosCoords)
        requires
            self.index_spec() < self.total(),
        ensures
            r == row_major_square(self.index_spec(), self.width_spec()),
    {
        proof {
            assert(self.width > 0) by (nonlinear_arith)
                requires
                    self.curr_i < self.width * self.height,
            ;
            assert((self.curr_i as int) / (self.width as int) < self.height) by (nonlinear_arith)
                requires
                    self.curr_i < self.width * self.height,
                    self.width > 0,
            ;
        }
        let y = self.curr_i / self.width as u64;
        let x = self.curr_i % self.width as u64;
        (x as u32, y as u32)
    }

    /// The next square, and the walk moves on; `None` at the end.
    pub fn next_pos(&mut self) -> (r: Option<PosCoords>)
        requires
            old(self).wf(),
        ensures
            final(self).wf(),
            final(self).width_spec() == old(self).width_spec(),
            final(self).height_spec() == old(self).height_spec(),
            old(self).remaining().len() == 0 ==> r.is_none() && final(self).index_spec() == old(
                self,
            ).index_spec(),
            old(self).remaining().len() > 0 ==> r == Some(old(self).remaining()[0])
                && final(self).remaining() == old(self).remaining().drop_first(),
    {
        if self.in_bounds() {
            let res = self.curr_pos();
            proof {
                assert(self.width * self.height <= u32::MAX * u32::MAX) by (nonlinear_arith)
                    requires
                        self.width <= u32::MAX,
                        self.height <= u32::MAX,
                ;
            }
            self.curr_i = self.curr_i + 1;
            proof {
                assert(self.remaining() =~= old(self).remaining().drop_first());
            }
            Some(res)
        } else {
            None
        }
    }

    /// All the squares left to walk, in order.
    pub fn to_vec(self) -> (r: Vec<PosCoords>)
        requires
            self.wf(),
        ensures
            r@ == self.remaining(),
    {
        let mut it = self;
        let mut r: Vec<PosCoords> = Vec::new();
        while it.in_bounds()
            invariant
                it.wf(),
                r@ + it.remaining() == self.remaining(),
            decreases it.remaining().len(),
        {
            let ghost rem = it.remaining();
            let p = it.next_pos();
            proof {
                assert(rem.len() > 0);
            }
            match p {
                Some(q) => {
                    r.push(q);
                    proof {
                        assert(rem =~= seq![q] + rem.drop_first());
                        assert(r@ + it.remaining() =~= self.remaining());
                    }
                },
                None => {},
            }
        }
        proof {
            assert(it.remaining().len() == 0);
            assert(r@ + it.remaining() =~= r@);
        }
        r
    }
}

} // verus!
