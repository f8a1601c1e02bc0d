//! The frontier of placements waiting to be expanded, in buckets by free squares.

use vstd::prelude::*;

use vstd::arithmetic::power::{lemma_pow_positive, pow};
use vstd::multiset::Multiset;

use crate::position::{CoordList, PosCoords};

verus! {

broadcast use vstd::seq_lib::group_to_multiset_ensures;

/// The placements of all the buckets together.
pub open spec fn contents(fr: Seq<Seq<Seq<PosCoords>>>) -> Multiset<Seq<PosCoords>>
    decreases fr.len(),
{
    if fr.len() == 0 {
        Multiset::empty()
    } else {
        contents(fr.drop_last()).add(fr.last().to_multiset())
    }
}

/// Each placement in bucket `i` weighs `base` to the power `i`; the sum of the weights.
pub open spec fn potential(fr: Seq<Seq<Seq<PosCoords>>>, base: int) -> int
    decreases fr.len(),
{
    if fr.len() == 0 {
        0
    } else {
        potential(fr.drop_last(), base) + fr.last().len() * pow(base, (fr.len() - 1) as nat)
    }
}

proof fn lemma_update_push(fr: Seq<Seq<Seq<PosCoords>>>, i: int, x: Seq<PosCoords>, base: int)
    requires
        0 <= i < fr.len(),
    ensures
        contents(fr.update(i, fr[i].push(x))) == contents(fr).insert(x),
        potential(fr.update(i, fr[i].push(x)), base) == potential(fr, base) + pow(base, i as nat),
    decreases fr.len(),
{
    let g = fr.update(i, fr[i].push(x));
    if i == fr.len() - 1 {
        assert(g.drop_last() =~= fr.drop_last());
        assert(g.last() == fr.last().push(x));
        assert(contents(g) =~= contents(fr).insert(x));
        assert(potential(g, base) == potential(fr, base) + pow(base, i as nat)) by (nonlinear_arith)
            requires
                potential(g, base) == potential(fr.drop_last(), base) + (fr.last().len() + 1) * pow(
                    base,
                    i as nat,
                ),
                potential(fr, base) == potential(fr.drop_last(), base) + fr.last().len() * pow(
                    base,
                    i as nat,
                ),
        ;
    } else {
        lemma_update_push(fr.drop_last(), i, x, base);
        assert(g.drop_last() =~= fr.drop_last().update(i, fr[i].push(x)));
        assert(g.last() == fr.last());
        assert(contents(g) =~= contents(fr).insert(x));
    }
}

proof fn lemma_update_pop(fr: Seq<Seq<Seq<PosCoords>>>, i: int, base: int)
    requires
        0 <= i < fr.len(),
        fr[i].len() > 0,
    ensures
        contents(fr.update(i, fr[i].drop_last())) == contents(fr).remove(fr[i].last()),
        potential(fr.update(i, fr[i].drop_last()), base) + pow(base, i as nat) == potential(
            fr,
            base,
        ),
{
    let g = fr.update(i, fr[i].drop_last());
    assert(fr[i].drop_last().push(fr[i].last()) =~= fr[i]);
    assert(g.update(i, g[i].push(fr[i].last())) =~= fr);
    lemma_update_push(g, i, fr[i].last(), base);
    assert(contents(g) =~= contents(fr).remove(fr[i].last()));
}

proof fn lemma_drop_empty(fr: Seq<Seq<Seq<PosCoords>>>, base: int)
    requires
        fr.len() > 0,
        fr.last().len() == 0,
    ensures
        contents(fr.drop_last()) == contents(fr),
        potential(fr.drop_last(), base) == potential(fr, base),
{
    assert(fr.last() =~= Seq::<Seq<PosCoords>>::empty());
    assert(contents(fr) =~= contents(fr.drop_last()));
}

pub proof fn lemma_potential_nonneg(fr: Seq<Seq<Seq<PosCoords>>>, base: int)
    requires
        base > 0,
    ensures
        potential(fr, base) >= 0,
    decreases fr.len(),
{
    if fr.len() > 0 {
        lemma_potential_nonneg(fr.drop_last(), base);
        lemma_pow_positive(base, (fr.len() - 1) as nat);
        assert(fr.last().len() * pow(base, (fr.len() - 1) as nat) >= 0) by (nonlinear_arith)
            requires
                pow(base, (fr.len() - 1) as nat) > 0,
        ;
    }
}

pub proof fn lemma_empty_contents(fr: Seq<Seq<Seq<PosCoords>>>)
    requires
        forall|i: int| 0 <= i < fr.len() ==> (#[trigger] fr[i]).len() == 0,
    ensures
        contents(fr) == Multiset::<Seq<PosCoords>>::empty(),
    decreases fr.len(),
{
    if fr.len() > 0 {
        lemma_empty_contents(fr.drop_last());
        assert(fr.last() =~= Seq::<Seq<PosCoords>>::empty());
        assert(contents(fr) =~= Multiset::<Seq<PosCoords>>::empty());
    }
}

/// Every placement of every bucket is in the contents.
pub proof fn lemma_member_contents(fr: Seq<Seq<Seq<PosCoords>>>, i: int, j: int)
    requires
        0 <= i < fr.len(),
        0 <= j < fr[i].len(),
    ensures
        contents(fr).contains(fr[i][j]),
    decreases fr.len(),
{
    if i == fr.len() - 1 {
        assert(fr.last().contains(fr[i][j]));
        assert(fr.last().to_multiset().count(fr[i][j]) > 0);
    } else {
        lemma_member_contents(fr.drop_last(), i, j);
        assert(fr.drop_last()[i] == fr[i]);
    }
}

/// Whatever is in the contents stands in some bucket.
pub proof fn lemma_contents_member(fr: Seq<Seq<Seq<PosCoords>>>, q: Seq<PosCoords>) -> (ij: (int, int))
    requires
        contents(fr).contains(q),
    ensures
        0 <= ij.0 < fr.len(),
        0 <= ij.1 < fr[ij.0].len(),
        fr[ij.0][ij.1] == q,
    decreases fr.len(),
{
    if fr.len() == 0 {
        (0, 0)
    } else if fr.last().to_multiset().count(q) > 0 {
        assert(fr.last().contains(q));
        let j = choose|j: int| 0 <= j < fr.last().len() && fr.last()[j] == q;
        ((fr.len() - 1) as int, j)
    } else {
        let ij = lemma_contents_member(fr.drop_last(), q);
        assert(fr.drop_last()[ij.0] == fr[ij.0]);
        ij
    }
}

/// Placements waiting to be expanded, in buckets: bucket `i` holds the placements with `i`
/// free squares, and within a bucket the last one in is the first one out.
pub struct Frontier {
    buckets: Vec<Vec<CoordList>>,
}

impl View for Frontier {
    type V = Seq<Seq<Seq<PosCoords>>>;

    closed spec fn view(&self) -> Seq<Seq<Seq<PosCoords>>> {
        self.buckets@.map_values(|b: Vec<CoordList>| b@.map_values(|p: CoordList| p@))
    }
}

impl Frontier {
    /// No bucket at the top is empty, so the top bucket holds the next placement.
    pub open spec fn trimmed(&self) -> bool {
        self@.len() > 0 ==> self@.last().len() > 0
    }

    /// A frontier of one placement, in bucket `f`.
    pub fn single(p: CoordList, f: usize) -> (r: Frontier)
        requires
            f < usize::MAX,
        ensures
            r@.len() == f + 1,
            r@[f as int] == seq![p@],
            forall|i: int| 0 <= i < f ==> (#[trigger] r@[i]).len() == 0,
            r.trimmed(),
    {
        let mut buckets: Vec<Vec<CoordList>> = Vec::new();
        let mut i: usize = 0;
        while i < f
            invariant
                0 <= i <= f,
                buckets.len() == i,
                forall|k: int| 0 <= k < i ==> (#[trigger] buckets@[k]).len() == 0,
            decreases f - i,
        {
            buckets.push(Vec::new());
            i = i + 1;
        }
        let mut top: Vec<CoordList> = Vec::new();
        let ghost pv = p@;
        top.push(p);
        buckets.push(top);
        let r = Frontier { buckets };
        assert(r@[f as int] =~= seq![pv]);
        r
    }

    /// Whether no placement is waiting.
    pub fn is_empty(&self) -> (r: bool)
        requires
            self.trimmed(),
        ensures
            r == (self@.len() == 0),
            r == (contents(self@) == Multiset::<Seq<PosCoords>>::empty()),
    {
        proof {
            if self@.len() > 0 {
                let ms = self@.last().to_multiset();
                assert(self@.last().contains(self@.last()[0]));
                assert(ms.count(self@.last()[0]) > 0);
                assert(contents(self@).count(self@.last()[0]) > 0);
            }
        }
        self.buckets.len() == 0
    }

    /// Take out the last placement of the top bucket; the bucket may be left empty.
    pub fn pop_top(&mut self) -> (r: CoordList)
        requires
            old(self).trimmed(),
            old(self)@.len() > 0,
        ensures
            r@ == old(self)@.last().last(),
            final(self)@ == old(self)@.update(
                old(self)@.len() - 1,
                old(self)@.last().drop_last(),
            ),
            forall|base: int|
                potential(final(self)@, base) + pow(base, (old(self)@.len() - 1) as nat)
                    == #[trigger] potential(old(self)@, base),
            contents(final(self)@) == contents(old(self)@).remove(r@),
    {
        let t = self.buckets.len() - 1;
        let ghost ob = self.buckets@;
        let mut bucket = self.buckets.pop().unwrap();
        let ghost b0 = bucket@;
        let r = bucket.pop().unwrap();
        let ghost nb = bucket;
        self.buckets.push(bucket);
        proof {
            assert(self.buckets@ =~= ob.update(t as int, nb));
            assert(b0 == ob[t as int]@);
            assert(nb@ =~= b0.drop_last());
            let target = old(self)@.update(t as int, old(self)@.last().drop_last());
            assert forall|i: int| 0 <= i < self@.len() implies self@[i] == target[i] by {
                if i == t {
                    assert(self@[i] =~= target[i]);
                }
            }
            assert(self@ =~= target);
            assert forall|base: int|
                potential(self@, base) + pow(base, t as nat) == #[trigger] potential(old(self)@, base) by {
                lemma_update_pop(old(self)@, t as int, base);
            }
            lemma_update_pop(old(self)@, t as int, 0);
        }
        r
    }

    /// Put `p` on top of bucket `f`.
    pub fn push(&mut self, p: CoordList, f: usize)
        requires
            f < old(self)@.len(),
        ensures
            final(self)@ == old(self)@.update(f as int, old(self)@[f as int].push(p@)),
            forall|base: int|
                #[trigger] potential(final(self)@, base) == potential(old(self)@, base) + pow(
                    base,
                    f as nat,
                ),
            contents(final(self)@) == contents(old(self)@).insert(p@),
    {
        let ghost pv = p@;
        let ghost ob = self.buckets@;
        let mut bucket = self.buckets.remove(f);
        let ghost b0 = bucket@;
        bucket.push(p);
        let ghost nb = bucket;
        self.buckets.insert(f, bucket);
        proof {
            assert(self.buckets@ =~= ob.update(f as int, nb));
            assert(b0 == ob[f as int]@);
            assert(nb@ =~= b0.push(p));
            let target = old(self)@.update(f as int, old(self)@[f as int].push(pv));
            assert forall|i: int| 0 <= i < self@.len() implies self@[i] == target[i] by {
                if i == f {
                    assert(self@[i] =~= target[i]);
                }
            }
            assert(self@ =~= target);
            assert forall|base: int|
                #[trigger] potential(self@, base) == potential(old(self)@, base) + pow(base, f as nat) by {
                lemma_update_push(old(self)@, f as int, pv, base);
            }
            lemma_update_push(old(self)@, f as int, pv, 0);
        }
    }

    /// Drop the empty buckets at the top.
    pub fn trim(&mut self)
        ensures
            final(self).trimmed(),
            final(self)@.len() <= old(self)@.len(),
            forall|i: int| 0 <= i < final(self)@.len() ==> #[trigger] final(self)@[i] == old(self)@[i],
            forall|i: int| final(self)@.len() <= i < old(self)@.len() ==> (#[trigger] old(self)@[i]).len() == 0,
            forall|base: int| #[trigger] potential(final(self)@, base) == potential(old(self)@, base),
            contents(final(self)@) == contents(old(self)@),
    {
        while self.buckets.len() > 0 && self.buckets[self.buckets.len() - 1].len() == 0
            invariant
                self@.len() <= old(self)@.len(),
                self@ == old(self)@.subrange(0, self@.len() as int),
                forall|i: int| self@.len() <= i < old(self)@.len() ==> (#[trigger] old(self)@[i]).len() == 0,
                forall|base: int| #[trigger] potential(self@, base) == potential(old(self)@, base),
                contents(self@) == contents(old(self)@),
            decreases self.buckets.len(),
        {
            let ghost before = self@;
            proof {
                assert forall|base: int| #[trigger] potential(before.drop_last(), base) == potential(before, base) by {
                    lemma_drop_empty(before, base);
                }
                lemma_drop_empty(before, 0);
            }
            self.buckets.pop();
            proof {
                assert(self@ =~= before.drop_last());
                assert(self@ =~= old(self)@.subrange(0, self@.len() as int));
            }
        }
    }
}

} // verus!
