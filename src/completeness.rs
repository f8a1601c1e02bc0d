//! Why the search misses no solution: the visited keys stay closed under expansion, so every
//! solved extension of a waiting placement ends up among the solutions.

use vstd::prelude::*;

use vstd::multiset::Multiset;

use crate::checker::{
    classification, conflicted, lemma_classification_reflect, lemma_uncontested_reflect, solved,
    uncontested_set,
};
use crate::position::{in_dims, insert_coord, lemma_insert_coord, lemma_sorted_unique, PosCoords};
use crate::queen::attacks;
use crate::solver::{capped, children, expansion, lemma_child, num_squares, pushed_children, scan_square};
use crate::symmetry::{
    canonical, lemma_canonical_variant, lemma_reflect_set, lemma_reflection_is_variant, lemma_sorted_no_dups, lemma_variants_share_key, reflect_coord,
    reflect_placement, reflector, valid_placement,
};

verus! {

broadcast use vstd::seq_lib::group_to_multiset_ensures;

/// The class of `s` is known: its key was visited, or a placement of the class is waiting.
pub open spec fn known(
    s: Seq<PosCoords>,
    visited: Set<Seq<PosCoords>>,
    pending: Multiset<Seq<PosCoords>>,
    dims: PosCoords,
) -> bool {
    visited.contains(canonical(s, dims)) || exists|q: Seq<PosCoords>|
        #[trigger] pending.contains(q) && canonical(q, dims) == canonical(s, dims)
}

/// The class of `t` has a member among the solutions.
pub open spec fn found_class(sols: Seq<Seq<PosCoords>>, t: Seq<PosCoords>, dims: PosCoords) -> bool {
    exists|k: int| 0 <= k < sols.len() && canonical(#[trigger] sols[k], dims) == canonical(t, dims)
}

/// Each visited key is a valid placement and its own key, and a solved key has its class
/// among the solutions.
pub open spec fn keys_ok(
    visited: Set<Seq<PosCoords>>,
    sols: Seq<Seq<PosCoords>>,
    dims: PosCoords,
) -> bool {
    forall|key: Seq<PosCoords>|
        #[trigger] visited.contains(key) ==> valid_placement(key, dims) && canonical(key, dims) == key
            && (solved(key, dims) ==> found_class(sols, key, dims))
}

/// The visited keys are closed under expansion: each child of a visited key that is neither
/// solved nor in conflict is known.
pub open spec fn search_closed(
    visited: Set<Seq<PosCoords>>,
    pending: Multiset<Seq<PosCoords>>,
    dims: PosCoords,
) -> bool {
    forall|key: Seq<PosCoords>, c: PosCoords|
        #[trigger] visited.contains(key) && !solved(key, dims) && !conflicted(key) && #[trigger]
        uncontested_set(key, dims).contains(c) ==> known(insert_coord(key, c), visited, pending, dims)
}

/// `t` extends `q`: every queen of `q` stands in `t`.
pub open spec fn extends(q: Seq<PosCoords>, t: Seq<PosCoords>) -> bool {
    q.to_set().subset_of(t.to_set())
}

/// Every solved placement that extends a placement waiting in `pending`, or one whose key is
/// in `visited`, has its class among `sols`.
pub open spec fn all_found(
    pending: Multiset<Seq<PosCoords>>,
    visited: Set<Seq<PosCoords>>,
    sols: Seq<Seq<PosCoords>>,
    dims: PosCoords,
) -> bool {
    forall|q: Seq<PosCoords>, t: Seq<PosCoords>|
        valid_placement(q, dims) && valid_placement(t, dims) && solved(t, dims) && #[trigger] extends(q, t)
            && (pending.contains(q) || visited.contains(canonical(q, dims))) ==> #[trigger] found_class(
            sols,
            t,
            dims,
        )
}

/// Mirroring commutes with adding a queen.
pub proof fn lemma_insert_reflect(s: Seq<PosCoords>, c: PosCoords, dims: PosCoords, fx: bool, fy: bool)
    requires
        valid_placement(s, dims),
    ensures
        reflect_placement(insert_coord(s, c), dims, fx, fy) == insert_coord(
            reflect_placement(s, dims, fx, fy),
            reflect_coord(c, dims, fx, fy),
        ),
{
    let f = reflector(dims, fx, fy);
    let r = reflect_placement(s, dims, fx, fy);
    lemma_insert_coord(s, c);
    lemma_reflect_set(insert_coord(s, c), dims, fx, fy);
    lemma_reflect_set(s, dims, fx, fy);
    lemma_insert_coord(r, f(c));
    s.to_set().lemma_set_map_insert_commute(c, f);
    lemma_sorted_unique(
        reflect_placement(insert_coord(s, c), dims, fx, fy),
        insert_coord(r, reflect_coord(c, dims, fx, fy)),
    );
}

/// A child of the key of `s` has the key of a child of `s`.
pub proof fn lemma_key_of_child(s: Seq<PosCoords>, c: PosCoords, dims: PosCoords) -> (o: PosCoords)
    requires
        valid_placement(s, dims),
        uncontested_set(canonical(s, dims), dims).contains(c),
    ensures
        uncontested_set(s, dims).contains(o),
        canonical(insert_coord(canonical(s, dims), c), dims) == canonical(insert_coord(s, o), dims),
        classification(canonical(s, dims), dims) == classification(s, dims),
{
    let flips = lemma_canonical_variant(s, dims);
    let (fx, fy) = flips;
    let f = reflector(dims, fx, fy);
    lemma_uncontested_reflect(s, dims, fx, fy);
    lemma_classification_reflect(s, dims, fx, fy);
    let o = choose|o: PosCoords| uncontested_set(s, dims).contains(o) && f(o) == c;
    lemma_insert_reflect(s, o, dims, fx, fy);
    lemma_child(s, o, dims);
    lemma_reflection_is_variant(insert_coord(s, o), dims, fx, fy);
    lemma_variants_share_key(insert_coord(s, o), dims, reflect_placement(insert_coord(s, o), dims, fx, fy));
    o
}

/// A square of the board comes up in the scan.
proof fn lemma_scan_index(c: PosCoords, dims: PosCoords) -> (i: int)
    requires
        in_dims(c, dims),
    ensures
        0 <= i < num_squares(dims),
        scan_square(i, dims) == c,
{
    let i = c.0 * dims.1 + c.1;
    vstd::arithmetic::div_mod::lemma_fundamental_div_mod_converse(i, dims.1 as int, c.0 as int, c.1 as int);
    assert(i < num_squares(dims)) by (nonlinear_arith)
        requires
            c.0 < dims.0,
            c.1 < dims.1,
            i == c.0 * dims.1 + c.1,
    ;
    i
}

/// A child whose key is unseen is among the children the scan finds.
proof fn lemma_expansion_has(
    p: Seq<PosCoords>,
    dims: PosCoords,
    seen: Set<Seq<PosCoords>>,
    k: nat,
    i: int,
)
    requires
        0 <= i < k,
        uncontested_set(p, dims).contains(scan_square(i, dims)),
        !seen.contains(canonical(insert_coord(p, scan_square(i, dims)), dims)),
    ensures
        expansion(p, dims, seen, k).contains(insert_coord(p, scan_square(i, dims))),
    decreases k,
{
    let prev = expansion(p, dims, seen, (k - 1) as nat);
    let x = insert_coord(p, scan_square(i, dims));
    if i == k - 1 {
        assert(expansion(p, dims, seen, k) == prev.push(x));
        assert(prev.push(x)[prev.len() as int] == x);
    } else {
        lemma_expansion_has(p, dims, seen, (k - 1) as nat, i);
        let j = choose|j: int| 0 <= j < prev.len() && prev[j] == x;
        let e = expansion(p, dims, seen, k);
        assert(e[j] == x);
    }
}

/// With no cap every child is kept.
proof fn lemma_capped_none(cs: Seq<Seq<PosCoords>>, fs: Seq<u64>, n: nat)
    requires
        n <= cs.len(),
    ensures
        capped(cs, fs, None, n) == cs.subrange(0, n as int),
    decreases n,
{
    if n > 0 {
        lemma_capped_none(cs, fs, (n - 1) as nat);
        assert(cs.subrange(0, n as int) =~= cs.subrange(0, n - 1).push(cs[n - 1]));
    } else {
        assert(cs.subrange(0, 0) =~= Seq::<Seq<PosCoords>>::empty());
    }
}

/// Knowing a class survives a step of the search.
proof fn lemma_known_kept(
    s: Seq<PosCoords>,
    visited: Set<Seq<PosCoords>>,
    pending: Multiset<Seq<PosCoords>>,
    visited2: Set<Seq<PosCoords>>,
    pending2: Multiset<Seq<PosCoords>>,
    p: Seq<PosCoords>,
    dims: PosCoords,
)
    requires
        known(s, visited, pending, dims),
        visited2 == visited.insert(canonical(p, dims)),
        forall|x: Seq<PosCoords>| #[trigger] pending.remove(p).contains(x) ==> pending2.contains(x),
    ensures
        known(s, visited2, pending2, dims),
{
    if !visited.contains(canonical(s, dims)) {
        let q = choose|q: Seq<PosCoords>| #[trigger] pending.contains(q) && canonical(q, dims) == canonical(s, dims);
        if q != p {
            assert(pending.remove(p).count(q) == pending.count(q));
            assert(pending.remove(p).contains(q));
            assert(pending2.contains(q));
        }
    }
}

/// One step of the search keeps the visited keys in order and, with no cap, closed.
pub proof fn lemma_step_keeps_search(
    visited: Set<Seq<PosCoords>>,
    pending: Multiset<Seq<PosCoords>>,
    sols: Seq<Seq<PosCoords>>,
    visited2: Set<Seq<PosCoords>>,
    pending2: Multiset<Seq<PosCoords>>,
    sols2: Seq<Seq<PosCoords>>,
    p: Seq<PosCoords>,
    dims: PosCoords,
    cap: Option<usize>,
)
    requires
        valid_placement(p, dims),
        pending.contains(p),
        visited2 == visited.insert(canonical(p, dims)),
        sols2 == if !visited.contains(canonical(p, dims)) && solved(p, dims) {
            sols.push(p)
        } else {
            sols
        },
        pending2 == if !visited.contains(canonical(p, dims)) && !solved(p, dims) && !conflicted(p) {
            pending.remove(p).add(pushed_children(p, dims, visited2, cap).to_multiset())
        } else {
            pending.remove(p)
        },
        keys_ok(visited, sols, dims),
        cap == None::<usize> ==> search_closed(visited, pending, dims),
    ensures
        keys_ok(visited2, sols2, dims),
        cap == None::<usize> ==> search_closed(visited2, pending2, dims),
        forall|s: Seq<PosCoords>|
            #[trigger] known(s, visited, pending, dims) ==> known(s, visited2, pending2, dims),
{
    let key = canonical(p, dims);
    let fresh = !visited.contains(key);
    let flips = lemma_canonical_variant(p, dims);
    lemma_classification_reflect(p, dims, flips.0, flips.1);
    assert forall|x: Seq<PosCoords>| #[trigger] pending.remove(p).contains(x) implies pending2.contains(x) by {
    }
    assert forall|s: Seq<PosCoords>| #[trigger] known(s, visited, pending, dims) implies known(
        s,
        visited2,
        pending2,
        dims,
    ) by {
        lemma_known_kept(s, visited, pending, visited2, pending2, p, dims);
    }
    assert forall|k: Seq<PosCoords>| #[trigger] visited2.contains(k) implies valid_placement(k, dims)
        && canonical(k, dims) == k && (solved(k, dims) ==> found_class(sols2, k, dims)) by {
        if visited.contains(k) {
            if solved(k, dims) {
                let j = choose|j: int| 0 <= j < sols.len() && canonical(#[trigger] sols[j], dims) == canonical(k, dims);
                assert(sols2[j] == sols[j]);
            }
        } else {
            assert(k == key);
            if solved(k, dims) {
                assert(sols2[sols.len() as int] == p);
            }
        }
    }
    if cap == None::<usize> {
        assert forall|k: Seq<PosCoords>, c: PosCoords|
            #[trigger] visited2.contains(k) && !solved(k, dims) && !conflicted(k) && #[trigger] uncontested_set(
                k,
                dims,
            ).contains(c) implies known(insert_coord(k, c), visited2, pending2, dims) by {
            if visited.contains(k) {
                lemma_known_kept(insert_coord(k, c), visited, pending, visited2, pending2, p, dims);
            } else {
                assert(k == key);
                let o = lemma_key_of_child(p, c, dims);
                let child = insert_coord(p, o);
                if !visited2.contains(canonical(child, dims)) {
                    let cs = children(p, dims, visited2);
                    lemma_capped_none(cs, crate::solver::free_counts(cs, dims), cs.len());
                    assert(cs.subrange(0, cs.len() as int) =~= cs);
                    assert(uncontested_set(p, dims).contains(o));
                    let i = lemma_scan_index(o, dims);
                    lemma_expansion_has(p, dims, visited2, num_squares(dims) as nat, i);
                    assert(cs.contains(child));
                    assert(cs.to_multiset().contains(child));
                    assert(pending2.contains(child));
                }
            }
        }
    }
}

/// Queens of a conflict-free placement, taken from it, are conflict-free; a square of it that
/// they lack is not contested by them.
proof fn lemma_sub_placement(s: Seq<PosCoords>, t: Seq<PosCoords>, c: PosCoords, dims: PosCoords)
    requires
        valid_placement(s, dims),
        valid_placement(t, dims),
        !conflicted(t),
        extends(s, t),
        t.contains(c),
        !s.contains(c),
    ensures
        !conflicted(s),
        uncontested_set(s, dims).contains(c),
        s.len() < t.len(),
        extends(insert_coord(s, c), t),
        insert_coord(s, c).len() == s.len() + 1,
{
    lemma_sorted_no_dups(s);
    lemma_sorted_no_dups(t);
    if conflicted(s) {
        let (i, j) = choose|i: int, j: int|
            0 <= i < s.len() && 0 <= j < s.len() && i != j && attacks(#[trigger] s[j], #[trigger] s[i]);
        assert(s.to_set().contains(s[i]) && s.to_set().contains(s[j]));
        let a = choose|a: int| 0 <= a < t.len() && t[a] == s[i];
        let b = choose|b: int| 0 <= b < t.len() && t[b] == s[j];
        assert(a != b);
    }
    let a = choose|a: int| 0 <= a < t.len() && t[a] == c;
    assert(in_dims(t[a], dims));
    if crate::queen::contested_set(s, dims).contains(c) {
        let i = choose|i: int| 0 <= i < s.len() && attacks(#[trigger] s[i], c);
        assert(s.to_set().contains(s[i]));
        let b = choose|b: int| 0 <= b < t.len() && t[b] == s[i];
        assert(a != b);
    }
    s.unique_seq_to_set();
    t.unique_seq_to_set();
    assert(t.to_set().contains(c));
    assert(s.to_set().subset_of(t.to_set().remove(c)));
    vstd::set_lib::lemma_len_subset(s.to_set(), t.to_set().remove(c));
    lemma_insert_coord(s, c);
}

/// From a placement whose key was visited, every solved extension has its class among the
/// solutions, once no placement is waiting and the visited keys are closed.
pub proof fn lemma_solved_extensions_found(
    visited: Set<Seq<PosCoords>>,
    pending: Multiset<Seq<PosCoords>>,
    sols: Seq<Seq<PosCoords>>,
    s: Seq<PosCoords>,
    t: Seq<PosCoords>,
    dims: PosCoords,
)
    requires
        pending == Multiset::<Seq<PosCoords>>::empty(),
        keys_ok(visited, sols, dims),
        search_closed(visited, pending, dims),
        valid_placement(s, dims),
        valid_placement(t, dims),
        solved(t, dims),
        extends(s, t),
        visited.contains(canonical(s, dims)),
    ensures
        found_class(sols, t, dims),
    decreases t.len() - s.len(),
{
    let key = canonical(s, dims);
    let flips = lemma_canonical_variant(s, dims);
    lemma_classification_reflect(s, dims, flips.0, flips.1);
    if s.to_set() == t.to_set() {
        lemma_sorted_unique(s, t);
    } else {
        assert(exists|c: PosCoords| t.to_set().contains(c) && !s.to_set().contains(c)) by {
            if !(exists|c: PosCoords| t.to_set().contains(c) && !s.to_set().contains(c)) {
                assert(s.to_set() =~= t.to_set());
            }
        }
        let c = choose|c: PosCoords| t.to_set().contains(c) && !s.to_set().contains(c);
        assert(t.contains(c));
        lemma_sub_placement(s, t, c, dims);
        lemma_uncontested_reflect(s, dims, flips.0, flips.1);
        let f = reflector(dims, flips.0, flips.1);
        assert(uncontested_set(s, dims).map(f).contains(f(c)));
        let c2 = insert_coord(s, c);
        lemma_child(s, c, dims);
        lemma_insert_reflect(s, c, dims, flips.0, flips.1);
        lemma_reflection_is_variant(c2, dims, flips.0, flips.1);
        lemma_variants_share_key(c2, dims, reflect_placement(c2, dims, flips.0, flips.1));
        assert(known(insert_coord(key, f(c)), visited, pending, dims));
        assert(visited.contains(canonical(c2, dims)));
        lemma_solved_extensions_found(visited, pending, sols, c2, t, dims);
    }
}

} // verus!
