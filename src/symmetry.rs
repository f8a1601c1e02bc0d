//! Mirror images of placements, their lexicographic order, and the canonical key.

use vstd::prelude::*;

use crate::position::{
    all_in_dims, coord_less, coord_lt, in_dims, insert_sorted, is_sorted,
    lemma_sort_coords, lemma_sorted_unique, sort_coords, CoordList, PosCoords,
};

verus! {

/// A placement on a board: sorted, without repeats, every queen on the board.
pub open spec fn valid_placement(s: Seq<PosCoords>, dims: PosCoords) -> bool {
    is_sorted(s) && all_in_dims(s, dims)
}

/// `p` mirrored left to right when `fx`, and top to bottom when `fy`.
pub open spec fn reflect_coord(p: PosCoords, dims: PosCoords, fx: bool, fy: bool) -> PosCoords {
    (
        (if fx {
            dims.0 - 1 - p.0
        } else {
            p.0 as int
        }) as u32,
        (if fy {
            dims.1 - 1 - p.1
        } else {
            p.1 as int
        }) as u32,
    )
}

/// `reflect_coord` as a function of the coordinate alone.
pub open spec fn reflector(dims: PosCoords, fx: bool, fy: bool) -> spec_fn(PosCoords) -> PosCoords {
    |p: PosCoords| reflect_coord(p, dims, fx, fy)
}

/// The placement `s` mirrored as `reflect_coord` says, sorted again.
pub open spec fn reflect_placement(s: Seq<PosCoords>, dims: PosCoords, fx: bool, fy: bool) -> Seq<
    PosCoords,
> {
    sort_coords(s.map_values(reflector(dims, fx, fy)))
}

/// Mirrored left to right: `(x, y)` becomes `(width - 1 - x, y)`.
pub open spec fn reflect_horizontal(s: Seq<PosCoords>, dims: PosCoords) -> Seq<PosCoords> {
    reflect_placement(s, dims, true, false)
}

/// Mirrored top to bottom: `(x, y)` becomes `(x, height - 1 - y)`.
pub open spec fn reflect_vertical(s: Seq<PosCoords>, dims: PosCoords) -> Seq<PosCoords> {
    reflect_placement(s, dims, false, true)
}

/// Turned half a circle: both mirrors at once.
pub open spec fn reflect_inverse(s: Seq<PosCoords>, dims: PosCoords) -> Seq<PosCoords> {
    reflect_placement(s, dims, true, true)
}

/// Lexicographic order on sorted placements, coordinate by coordinate.
pub open spec fn lex_lt(a: Seq<PosCoords>, b: Seq<PosCoords>) -> bool
    decreases a.len(),
{
    if a.len() == 0 {
        b.len() > 0
    } else if b.len() == 0 {
        false
    } else if coord_lt(a[0], b[0]) {
        true
    } else if a[0] == b[0] {
        lex_lt(a.drop_first(), b.drop_first())
    } else {
        false
    }
}

/// The smaller of two placements.
pub open spec fn lex_min(a: Seq<PosCoords>, b: Seq<PosCoords>) -> Seq<PosCoords> {
    if lex_lt(b, a) {
        b
    } else {
        a
    }
}

/// The canonical key of a placement: the smallest of it and its three reflections.
pub open spec fn canonical(s: Seq<PosCoords>, dims: PosCoords) -> Seq<PosCoords> {
    lex_min(
        lex_min(s, reflect_horizontal(s, dims)),
        lex_min(reflect_vertical(s, dims), reflect_inverse(s, dims)),
    )
}

/// The placement and its three reflections.
pub open spec fn variants(s: Seq<PosCoords>, dims: PosCoords) -> Set<Seq<PosCoords>> {
    set![s, reflect_horizontal(s, dims), reflect_vertical(s, dims), reflect_inverse(s, dims)]
}

proof fn lemma_lex_irreflexive(a: Seq<PosCoords>)
    ensures
        !lex_lt(a, a),
    decreases a.len(),
{
    if a.len() > 0 {
        lemma_lex_irreflexive(a.drop_first());
    }
}

proof fn lemma_lex_total(a: Seq<PosCoords>, b: Seq<PosCoords>)
    ensures
        a != b ==> lex_lt(a, b) || lex_lt(b, a),
    decreases a.len(),
{
    if a.len() > 0 && b.len() > 0 {
        lemma_lex_total(a.drop_first(), b.drop_first());
        if a[0] == b[0] && a.drop_first() == b.drop_first() {
            assert(a =~= seq![a[0]] + a.drop_first());
            assert(b =~= seq![b[0]] + b.drop_first());
        }
    } else if a.len() == 0 && b.len() == 0 {
        assert(a =~= b);
    }
}

proof fn lemma_lex_transitive(a: Seq<PosCoords>, b: Seq<PosCoords>, c: Seq<PosCoords>)
    requires
        lex_lt(a, b),
        lex_lt(b, c),
    ensures
        lex_lt(a, c),
    decreases a.len(),
{
    if a.len() > 0 && b.len() > 0 && c.len() > 0 && a[0] == b[0] && b[0] == c[0] {
        lemma_lex_transitive(a.drop_first(), b.drop_first(), c.drop_first());
    }
}

/// The smallest of four is one of them, and no one of them is smaller.
proof fn lemma_min4(a: Seq<PosCoords>, b: Seq<PosCoords>, c: Seq<PosCoords>, d: Seq<PosCoords>)
    ensures
        ({
            let m = lex_min(lex_min(a, b), lex_min(c, d));
            &&& set![a, b, c, d].contains(m)
            &&& forall|x: Seq<PosCoords>| set![a, b, c, d].contains(x) ==> !lex_lt(x, m)
        }),
{
    let m = lex_min(lex_min(a, b), lex_min(c, d));
    lemma_lex_irreflexive(a);
    lemma_lex_irreflexive(b);
    lemma_lex_irreflexive(c);
    lemma_lex_irreflexive(d);
    lemma_lex_total(a, b);
    lemma_lex_total(c, d);
    lemma_lex_total(lex_min(a, b), lex_min(c, d));
    let s = set![a, b, c, d];
    assert forall|x: Seq<PosCoords>| s.contains(x) implies !lex_lt(x, m) by {
        if lex_lt(x, m) {
            if lex_lt(x, lex_min(a, b)) && lex_lt(lex_min(a, b), a) {
                lemma_lex_transitive(x, lex_min(a, b), a);
            }
            if lex_lt(x, lex_min(c, d)) && lex_lt(lex_min(c, d), c) {
                lemma_lex_transitive(x, lex_min(c, d), c);
            }
            if m == lex_min(c, d) && lex_lt(m, lex_min(a, b)) {
                lemma_lex_transitive(x, m, lex_min(a, b));
                if lex_lt(lex_min(a, b), a) {
                    lemma_lex_transitive(x, lex_min(a, b), a);
                }
                if lex_lt(b, a) {
                    lemma_lex_transitive(x, b, a);
                }
            }
            if m == lex_min(a, b) && lex_lt(m, lex_min(c, d)) {
                lemma_lex_transitive(x, m, lex_min(c, d));
                if lex_lt(lex_min(c, d), c) {
                    lemma_lex_transitive(x, lex_min(c, d), c);
                }
                if lex_lt(d, c) {
                    lemma_lex_transitive(x, d, c);
                }
            }
            if lex_lt(b, a) {
                lemma_lex_transitive(x, b, a);
            }
            if lex_lt(d, c) {
                lemma_lex_transitive(x, d, c);
            }
            if m == lex_min(a, b) && !lex_lt(m, lex_min(c, d)) {
                lemma_lex_total(m, lex_min(c, d));
            }
            if m == lex_min(c, d) && !lex_lt(m, lex_min(a, b)) {
                lemma_lex_total(m, lex_min(a, b));
            }
            if lex_lt(x, m) && lex_lt(m, lex_min(a, b)) {
                lemma_lex_transitive(x, m, lex_min(a, b));
            }
            if lex_lt(x, m) && lex_lt(m, lex_min(c, d)) {
                lemma_lex_transitive(x, m, lex_min(c, d));
            }
            if lex_lt(x, lex_min(a, b)) && lex_lt(b, a) {
                lemma_lex_transitive(x, b, a);
            }
            if lex_lt(x, lex_min(c, d)) && lex_lt(d, c) {
                lemma_lex_transitive(x, d, c);
            }
            if lex_lt(x, b) && lex_lt(b, a) {
                lemma_lex_transitive(x, b, a);
            }
            if lex_lt(x, d) && lex_lt(d, c) {
                lemma_lex_transitive(x, d, c);
            }
        }
    }
}

/// The smallest element is the same however the four are listed.
proof fn lemma_min4_of_same_set(
    a: Seq<PosCoords>,
    b: Seq<PosCoords>,
    c: Seq<PosCoords>,
    d: Seq<PosCoords>,
    e: Seq<PosCoords>,
    f: Seq<PosCoords>,
    g: Seq<PosCoords>,
    h: Seq<PosCoords>,
)
    requires
        set![a, b, c, d] == set![e, f, g, h],
    ensures
        lex_min(lex_min(a, b), lex_min(c, d)) == lex_min(lex_min(e, f), lex_min(g, h)),
{
    let m1 = lex_min(lex_min(a, b), lex_min(c, d));
    let m2 = lex_min(lex_min(e, f), lex_min(g, h));
    lemma_min4(a, b, c, d);
    lemma_min4(e, f, g, h);
    assert(set![a, b, c, d].contains(m2));
    assert(set![e, f, g, h].contains(m1));
    lemma_lex_total(m1, m2);
}

/// The elements of a reflected placement are the mirrored elements.
pub proof fn lemma_reflect_set(s: Seq<PosCoords>, dims: PosCoords, fx: bool, fy: bool)
    ensures
        is_sorted(reflect_placement(s, dims, fx, fy)),
        reflect_placement(s, dims, fx, fy).to_set() == s.to_set().map(reflector(dims, fx, fy)),
{
    let f = reflector(dims, fx, fy);
    let m = s.map_values(f);
    lemma_sort_coords(m);
    assert(m.to_set() =~= s.to_set().map(f)) by {
        assert forall|q: PosCoords| m.to_set().contains(q) implies s.to_set().map(f).contains(q) by {
            let k = choose|k: int| 0 <= k < m.len() && m[k] == q;
            assert(s.contains(s[k]));
            assert(s.to_set().contains(s[k]));
        }
        assert forall|q: PosCoords| s.to_set().map(f).contains(q) implies m.to_set().contains(q) by {
            let p = choose|p: PosCoords| s.to_set().contains(p) && f(p) == q;
            let k = choose|k: int| 0 <= k < s.len() && s[k] == p;
            assert(m[k] == q);
            assert(m.contains(q));
        }
    }
}

/// A reflected valid placement is a valid placement.
pub proof fn lemma_reflect_valid(s: Seq<PosCoords>, dims: PosCoords, fx: bool, fy: bool)
    requires
        valid_placement(s, dims),
    ensures
        valid_placement(reflect_placement(s, dims, fx, fy), dims),
        reflect_placement(s, dims, fx, fy).len() == s.len(),
{
    let f = reflector(dims, fx, fy);
    let r = reflect_placement(s, dims, fx, fy);
    lemma_reflect_set(s, dims, fx, fy);
    assert forall|i: int| 0 <= i < r.len() implies in_dims(#[trigger] r[i], dims) by {
        assert(r.contains(r[i]));
        assert(r.to_set().contains(r[i]));
        let p = choose|p: PosCoords| s.to_set().contains(p) && f(p) == r[i];
        let k = choose|k: int| 0 <= k < s.len() && s[k] == p;
        assert(in_dims(s[k], dims));
    }
    lemma_sorted_no_dups(s);
    lemma_sorted_no_dups(r);
    s.unique_seq_to_set();
    r.unique_seq_to_set();
    assert(vstd::relations::injective_on(f, s.to_set())) by {
        assert forall|p: PosCoords, q: PosCoords|
            s.to_set().contains(p) && s.to_set().contains(q) && #[trigger] f(p) == #[trigger] f(q) implies p == q by {
            let i = choose|i: int| 0 <= i < s.len() && s[i] == p;
            let j = choose|j: int| 0 <= j < s.len() && s[j] == q;
            assert(in_dims(s[i], dims) && in_dims(s[j], dims));
        }
    }
    s.to_set().lemma_map_finite(f);
    vstd::set_lib::lemma_map_size(s.to_set(), r.to_set(), f);
}

/// A sorted sequence holds no element twice.
pub proof fn lemma_sorted_no_dups(s: Seq<PosCoords>)
    requires
        is_sorted(s),
    ensures
        s.no_duplicates(),
{
    assert forall|i: int, j: int| 0 <= i < s.len() && 0 <= j < s.len() && i != j implies s[i] != s[j] by {
        if i < j {
            assert(coord_lt(s[i], s[j]));
        } else {
            assert(coord_lt(s[j], s[i]));
        }
    }
}

/// Mirroring twice is mirroring by the combined flips.
pub proof fn lemma_reflect_twice(s: Seq<PosCoords>, dims: PosCoords, fx: bool, fy: bool, gx: bool, gy: bool)
    requires
        valid_placement(s, dims),
    ensures
        reflect_placement(reflect_placement(s, dims, fx, fy), dims, gx, gy) == reflect_placement(
            s,
            dims,
            fx != gx,
            fy != gy,
        ),
{
    let r = reflect_placement(s, dims, fx, fy);
    let f = reflector(dims, fx, fy);
    let g = reflector(dims, gx, gy);
    let h = reflector(dims, fx != gx, fy != gy);
    lemma_reflect_set(s, dims, fx, fy);
    lemma_reflect_set(r, dims, gx, gy);
    lemma_reflect_set(s, dims, fx != gx, fy != gy);
    assert(r.to_set().map(g) =~= s.to_set().map(h)) by {
        assert forall|q: PosCoords| r.to_set().map(g).contains(q) implies s.to_set().map(h).contains(q) by {
            let p = choose|p: PosCoords| r.to_set().contains(p) && g(p) == q;
            let o = choose|o: PosCoords| s.to_set().contains(o) && f(o) == p;
            let k = choose|k: int| 0 <= k < s.len() && s[k] == o;
            assert(in_dims(s[k], dims));
            assert(h(o) == q);
        }
        assert forall|q: PosCoords| s.to_set().map(h).contains(q) implies r.to_set().map(g).contains(q) by {
            let o = choose|o: PosCoords| s.to_set().contains(o) && h(o) == q;
            let k = choose|k: int| 0 <= k < s.len() && s[k] == o;
            assert(in_dims(s[k], dims));
            assert(s.to_set().map(f).contains(f(o)));
            assert(g(f(o)) == q);
        }
    }
    lemma_sorted_unique(
        reflect_placement(r, dims, gx, gy),
        reflect_placement(s, dims, fx != gx, fy != gy),
    );
}

/// Mirroring by no flip at all leaves a valid placement as it is.
pub proof fn lemma_reflect_identity(s: Seq<PosCoords>, dims: PosCoords)
    requires
        valid_placement(s, dims),
    ensures
        reflect_placement(s, dims, false, false) == s,
{
    let f = reflector(dims, false, false);
    lemma_reflect_set(s, dims, false, false);
    assert(s.to_set().map(f) =~= s.to_set()) by {
        assert forall|q: PosCoords| s.to_set().contains(q) implies s.to_set().map(f).contains(q) by {
            assert(f(q) == q);
        }
    }
    lemma_sorted_unique(reflect_placement(s, dims, false, false), s);
}

/// Every reflection of a valid placement has the same canonical key; so once the key of a
/// placement is known, each of its symmetric variants is known by it too.
pub proof fn lemma_variants_share_key(s: Seq<PosCoords>, dims: PosCoords, t: Seq<PosCoords>)
    requires
        valid_placement(s, dims),
        variants(s, dims).contains(t),
    ensures
        valid_placement(t, dims),
        canonical(t, dims) == canonical(s, dims),
{
    let h = reflect_horizontal(s, dims);
    let v = reflect_vertical(s, dims);
    let i = reflect_inverse(s, dims);
    lemma_reflect_identity(s, dims);
    lemma_reflect_valid(s, dims, true, false);
    lemma_reflect_valid(s, dims, false, true);
    lemma_reflect_valid(s, dims, true, true);
    if t == s {
    } else {
        let (fx, fy) = if t == h {
            (true, false)
        } else if t == v {
            (false, true)
        } else {
            (true, true)
        };
        assert(t == reflect_placement(s, dims, fx, fy));
        lemma_reflect_twice(s, dims, fx, fy, true, false);
        lemma_reflect_twice(s, dims, fx, fy, false, true);
        lemma_reflect_twice(s, dims, fx, fy, true, true);
        lemma_reflect_twice(s, dims, fx, fy, fx, fy);
        lemma_reflect_identity(s, dims);
        assert(reflect_placement(s, dims, fx != fx, fy != fy) == s);
        let th = reflect_horizontal(t, dims);
        let tv = reflect_vertical(t, dims);
        let ti = reflect_inverse(t, dims);
        if fx && !fy {
            assert(th == s && tv == i && ti == v);
        } else if !fx && fy {
            assert(th == i && tv == s && ti == h);
        } else {
            assert(th == v && tv == h && ti == s);
        }
        assert(set![s, h, v, i] =~= set![t, th, tv, ti]);
        lemma_min4_of_same_set(s, h, v, i, t, th, tv, ti);
    }
}

/// The canonical key of a valid placement is one of its reflections (possibly the placement
/// itself, the reflection by no flip), a valid placement, and its own canonical key.
pub proof fn lemma_canonical_variant(s: Seq<PosCoords>, dims: PosCoords) -> (flips: (bool, bool))
    requires
        valid_placement(s, dims),
    ensures
        canonical(s, dims) == reflect_placement(s, dims, flips.0, flips.1),
        valid_placement(canonical(s, dims), dims),
        canonical(canonical(s, dims), dims) == canonical(s, dims),
{
    let h = reflect_horizontal(s, dims);
    let v = reflect_vertical(s, dims);
    let i = reflect_inverse(s, dims);
    lemma_min4(s, h, v, i);
    lemma_reflect_identity(s, dims);
    let k = canonical(s, dims);
    assert(variants(s, dims).contains(k));
    lemma_variants_share_key(s, dims, k);
    if k == s {
        (false, false)
    } else if k == h {
        (true, false)
    } else if k == v {
        (false, true)
    } else {
        (true, true)
    }
}

/// A reflection of a placement is one of its variants.
pub proof fn lemma_reflection_is_variant(s: Seq<PosCoords>, dims: PosCoords, fx: bool, fy: bool)
    requires
        valid_placement(s, dims),
    ensures
        variants(s, dims).contains(reflect_placement(s, dims, fx, fy)),
{
    lemma_reflect_identity(s, dims);
}

/// The placement `queens` mirrored as `reflect_coord` says, sorted.
pub fn reflect_all(queens: &Vec<PosCoords>, dims: PosCoords, fx: bool, fy: bool) -> (r: CoordList)
    requires
        valid_placement(queens@, dims),
    ensures
        r@ == reflect_placement(queens@, dims, fx, fy),
        valid_placement(r@, dims),
        r@.len() == queens@.len(),
{
    let ghost f = reflector(dims, fx, fy);
    let mut r: Vec<PosCoords> = Vec::new();
    let mut i: usize = 0;
    proof {
        crate::position::lemma_sort_coords_push(Seq::empty(), (0, 0));
        assert(queens@.subrange(0, 0).map_values(f) =~= Seq::<PosCoords>::empty());
    }
    while i < queens.len()
        invariant
            0 <= i <= queens.len(),
            valid_placement(queens@, dims),
            f == reflector(dims, fx, fy),
            r@ == sort_coords(queens@.subrange(0, i as int).map_values(f)),
        decreases queens.len() - i,
    {
        let p = queens[i];
        let x = if fx {
            dims.0 - 1 - p.0
        } else {
            p.0
        };
        let y = if fy {
            dims.1 - 1 - p.1
        } else {
            p.1
        };
        proof {
            lemma_sort_coords(queens@.subrange(0, i as int).map_values(f));
            assert(in_dims(queens@[i as int], dims));
            assert((x, y) == f(queens@[i as int]));
        }
        insert_sorted(&mut r, (x, y));
        proof {
            let pre = queens@.subrange(0, i as int).map_values(f);
            let post = queens@.subrange(0, i + 1).map_values(f);
            assert(post =~= pre.push(f(queens@[i as int])));
            crate::position::lemma_sort_coords_push(pre, (x, y));
        }
        i = i + 1;
    }
    proof {
        assert(queens@.subrange(0, queens.len() as int) =~= queens@);
        lemma_reflect_valid(queens@, dims, fx, fy);
    }
    r
}

/// Whether placement `a` comes before placement `b` lexicographically.
pub fn lex_less(a: &Vec<PosCoords>, b: &Vec<PosCoords>) -> (r: bool)
    ensures
        r == lex_lt(a@, b@),
{
    let mut i: usize = 0;
    proof {
        assert(a@.skip(0) =~= a@);
        assert(b@.skip(0) =~= b@);
    }
    while i < a.len() && i < b.len() && a[i].0 == b[i].0 && a[i].1 == b[i].1
        invariant
            0 <= i <= a.len(),
            i <= b.len(),
            lex_lt(a@, b@) == lex_lt(a@.skip(i as int), b@.skip(i as int)),
        decreases a.len() - i,
    {
        proof {
            assert(a@.skip(i as int).drop_first() =~= a@.skip(i + 1));
            assert(b@.skip(i as int).drop_first() =~= b@.skip(i + 1));
        }
        i = i + 1;
    }
    if i == a.len() {
        i < b.len()
    } else if i == b.len() {
        false
    } else {
        coord_less(a[i], b[i])
    }
}

/// The canonical key of a valid placement.
pub fn canonicalize(queens: &Vec<PosCoords>, dims: PosCoords) -> (r: CoordList)
    requires
        valid_placement(queens@, dims),
    ensures
        r@ == canonical(queens@, dims),
        valid_placement(r@, dims),
        r@.len() == queens@.len(),
{
    let h = reflect_all(queens, dims, true, false);
    let v = reflect_all(queens, dims, false, true);
    let i = reflect_all(queens, dims, true, true);
    let a = if lex_less(&h, queens) {
        h
    } else {
        crate::position::copy_coords(queens)
    };
    let b = if lex_less(&i, &v) {
        i
    } else {
        v
    };
    if lex_less(&b, &a) {
        b
    } else {
        a
    }
}

} // verus!
