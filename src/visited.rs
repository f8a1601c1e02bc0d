//! The set of canonical keys already expanded, in buckets by fingerprint.

use vstd::prelude::*;

use std::collections::HashMap;

use crate::position::{CoordList, PosCoords};

verus! {

broadcast use vstd::std_specs::hash::group_hash_axioms;

/// The modulus of the fingerprint: a prime below `2^31`.
pub const FINGERPRINT_MODULUS: u64 = 2147483647;

/// A fingerprint of a placement, mixing its coordinates in order; it picks the bucket of the
/// visited set that the placement belongs in.
pub open spec fn fingerprint(s: Seq<PosCoords>) -> int
    decreases s.len(),
{
    if s.len() == 0 {
        0
    } else {
        (fingerprint(s.drop_last()) * 65599 + s.last().0 * 257 + s.last().1) % (
        FINGERPRINT_MODULUS as int)
    }
}

/// The fingerprint of `s`.
pub fn fingerprint_of(s: &Vec<PosCoords>) -> (r: u64)
    ensures
        r == fingerprint(s@),
{
    let mut h: u64 = 0;
    let mut i: usize = 0;
    while i < s.len()
        invariant
            0 <= i <= s.len(),
            h == fingerprint(s@.subrange(0, i as int)),
            h < FINGERPRINT_MODULUS,
        decreases s.len() - i,
    {
        proof {
            let pre = s@.subrange(0, i as int);
            let post = s@.subrange(0, i + 1);
            assert(post.drop_last() =~= pre);
            assert(post.last() == s@[i as int]);
        }
        h = (h * 65599 + s[i].0 as u64 * 257 + s[i].1 as u64) % FINGERPRINT_MODULUS;
        i = i + 1;
    }
    proof {
        assert(s@.subrange(0, s.len() as int) =~= s@);
    }
    h
}

/// Whether two lists of coordinates are equal.
pub fn coords_equal(a: &Vec<PosCoords>, b: &Vec<PosCoords>) -> (r: bool)
    ensures
        r == (a@ == b@),
{
    if a.len() != b.len() {
        return false;
    }
    let mut i: usize = 0;
    while i < a.len()
        invariant
            0 <= i <= a.len(),
            a.len() == b.len(),
            forall|k: int| 0 <= k < i ==> a@[k] == b@[k],
        decreases a.len() - i,
    {
        if a[i].0 != b[i].0 || a[i].1 != b[i].1 {
            return false;
        }
        i = i + 1;
    }
    assert(a@ =~= b@);
    true
}

/// A set of placements, held in buckets by fingerprint.
pub struct VisitedSet {
    table: HashMap<u64, Vec<CoordList>>,
}

impl View for VisitedSet {
    type V = Set<Seq<PosCoords>>;

    closed spec fn view(&self) -> Set<Seq<PosCoords>> {
        Set::new(
            |s: Seq<PosCoords>|
                self.table@.contains_key(fingerprint(s) as u64) && exists|j: int|
                    0 <= j < self.table@[fingerprint(s) as u64].len()
                        && (#[trigger] self.table@[fingerprint(s) as u64][j])@ == s,
        )
    }
}

impl VisitedSet {
    /// Every placement is in the bucket of its fingerprint.
    pub closed spec fn wf(&self) -> bool {
        forall|k: u64, j: int|
            self.table@.contains_key(k) && 0 <= j < self.table@[k].len() ==> fingerprint(
                (#[trigger] self.table@[k][j])@,
            ) == k
    }

    /// An empty set.
    pub fn new() -> (r: VisitedSet)
        ensures
            r.wf(),
            r@ == Set::<Seq<PosCoords>>::empty(),
    {
        let r = VisitedSet { table: HashMap::new() };
        assert(r@ =~= Set::<Seq<PosCoords>>::empty());
        r
    }

    /// Whether `s` is in the set.
    pub fn contains(&self, s: &Vec<PosCoords>) -> (r: bool)
        requires
            self.wf(),
        ensures
            r == self@.contains(s@),
    {
        let fp = fingerprint_of(s);
        proof {
            assert(fingerprint(s@) < FINGERPRINT_MODULUS);
        }
        match self.table.get(&fp) {
            None => false,
            Some(bucket) => {
                let mut j: usize = 0;
                while j < bucket.len()
                    invariant
                        0 <= j <= bucket.len(),
                        self.table@.contains_key(fp),
                        *bucket == self.table@[fp],
                        fp == fingerprint(s@) as u64,
                        forall|k: int| 0 <= k < j ==> (#[trigger] bucket@[k])@ != s@,
                    decreases bucket.len() - j,
                {
                    if coords_equal(&bucket[j], s) {
                        proof {
                            assert(self.table@[fingerprint(s@) as u64][j as int]@ == s@);
                        }
                        return true;
                    }
                    j = j + 1;
                }
                proof {
                    assert(!self@.contains(s@)) by {
                        if self@.contains(s@) {
                            let k = choose|k: int|
                                0 <= k < self.table@[fingerprint(s@) as u64].len() && (
                                #[trigger] self.table@[fingerprint(s@) as u64][k])@ == s@;
                            assert(bucket@[k]@ == s@);
                        }
                    }
                }
                false
            },
        }
    }

    /// Add `s` to the set.
    pub fn insert(&mut self, s: CoordList)
        requires
            old(self).wf(),
        ensures
            final(self).wf(),
            final(self)@ == old(self)@.insert(s@),
    {
        let fp = fingerprint_of(&s);
        proof {
            assert(fingerprint(s@) < FINGERPRINT_MODULUS);
        }
        let ghost old_table = self.table@;
        let mut bucket = match self.table.remove(&fp) {
            Some(b) => b,
            None => Vec::new(),
        };
        let ghost old_bucket = bucket@;
        proof {
            assert(old_table.contains_key(fp) ==> old_bucket == old_table[fp]@);
            assert(!old_table.contains_key(fp) ==> old_bucket.len() == 0);
        }
        bucket.push(s);
        self.table.insert(fp, bucket);
        proof {
            assert(self.table@ == old_table.insert(fp, self.table@[fp]));
            assert(self@ =~= old(self)@.insert(s@)) by {
                assert forall|t: Seq<PosCoords>| #[trigger] self@.contains(t) implies old(
                    self,
                )@.insert(s@).contains(t) by {
                    if fingerprint(t) as u64 != fp {
                        let k = choose|k: int|
                            0 <= k < self.table@[fingerprint(t) as u64].len() && (
                            #[trigger] self.table@[fingerprint(t) as u64][k])@ == t;
                        assert(old_table[fingerprint(t) as u64][k]@ == t);
                    } else if t != s@ {
                        let k = choose|k: int|
                            0 <= k < self.table@[fingerprint(t) as u64].len() && (
                            #[trigger] self.table@[fingerprint(t) as u64][k])@ == t;
                        assert(k < old_bucket.len());
                        assert(old_bucket[k]@ == t);
                        assert(old_table[fingerprint(t) as u64][k]@ == t);
                    }
                }
                assert forall|t: Seq<PosCoords>| old(self)@.insert(s@).contains(t) implies #[trigger] self@.contains(
                    t,
                ) by {
                    if t == s@ {
                        assert(self.table@[fp][old_bucket.len() as int]@ == t);
                    } else {
                        let k = choose|k: int|
                            0 <= k < old_table[fingerprint(t) as u64].len() && (
                            #[trigger] old_table[fingerprint(t) as u64][k])@ == t;
                        if fingerprint(t) as u64 == fp {
                            assert(self.table@[fp][k]@ == t);
                        } else {
                            assert(self.table@[fingerprint(t) as u64][k]@ == t);
                        }
                    }
                }
            }
        }
    }
}

} // verus!
