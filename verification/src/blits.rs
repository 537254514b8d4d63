//! Table of the blocking literals that soft clauses were relaxed with.
use std::collections::HashMap;

use vstd::prelude::*;

use crate::types::{Clause, Lit};

verus! {

broadcast use vstd::std_specs::hash::group_hash_axioms;

/// The number that decides in which bucket a clause is looked up.
pub closed spec fn fingerprint_of(cl: Seq<Lit>) -> u64
    decreases cl.len(),
{
    if cl.len() == 0 {
        17
    } else {
        fingerprint_of(cl.drop_last()).wrapping_mul(31).wrapping_add(cl.last().lidx as u64)
    }
}

fn fingerprint(cl: &Clause) -> (h: u64)
    ensures
        h == fingerprint_of(cl@),
{
    let mut h: u64 = 17;
    for i in 0..cl.lits.len()
        invariant
            h == fingerprint_of(cl@.take(i as int)),
    {
        assert(cl@.take(i + 1).drop_last() =~= cl@.take(i as int));
        h = h.wrapping_mul(31).wrapping_add(cl.lits[i].lidx as u64);
    }
    assert(cl@.take(cl@.len() as int) =~= cl@);
    h
}

/// The blocking literals of the clauses that were relaxed so far.
pub struct BlitTable {
    entries: Vec<(Clause, Lit)>,
    buckets: HashMap<u64, Vec<usize>>,
}

/// The position of a clause in a list of clauses with their literals.
spec fn position(entries: Seq<(Clause, Lit)>, cl: Seq<Lit>) -> int {
    choose|i: int| 0 <= i < entries.len() && (#[trigger] entries[i]).0@ == cl
}

spec fn listed(entries: Seq<(Clause, Lit)>, cl: Seq<Lit>) -> bool {
    exists|i: int| 0 <= i < entries.len() && (#[trigger] entries[i]).0@ == cl
}

impl View for BlitTable {
    type V = Map<Seq<Lit>, Lit>;

    closed spec fn view(&self) -> Map<Seq<Lit>, Lit> {
        Map::new(
            |cl: Seq<Lit>| listed(self.entries@, cl),
            |cl: Seq<Lit>| self.entries@[position(self.entries@, cl)].1,
        )
    }
}

impl BlitTable {
    /// Every clause occurs once, and in the bucket of its fingerprint.
    pub closed spec fn wf(&self) -> bool {
        &&& forall|i: int, j: int|
            0 <= i < self.entries@.len() && 0 <= j < self.entries@.len() && i != j
                ==> #[trigger] self.entries@[i].0@ != #[trigger] self.entries@[j].0@
        &&& forall|i: int|
            0 <= i < self.entries@.len() ==> {
                let h = fingerprint_of(#[trigger] self.entries@[i].0@);
                self.buckets@.contains_key(h) && self.buckets@[h]@.contains(i as usize)
            }
        &&& forall|h: u64, k: int|
            self.buckets@.contains_key(h) && 0 <= k < self.buckets@[h]@.len() ==> (
            #[trigger] self.buckets@[h]@[k]) < self.entries@.len()
    }

    /// Creates an empty table.
    pub fn new() -> (t: BlitTable)
        ensures
            t.wf(),
            t@ == Map::<Seq<Lit>, Lit>::empty(),
    {
        let t = BlitTable { entries: Vec::new(), buckets: HashMap::new() };
        assert(t@ =~= Map::<Seq<Lit>, Lit>::empty());
        t
    }

    /// The blocking literal of a clause, if the clause is in the table.
    pub fn get(&self, cl: &Clause) -> (lit: Option<Lit>)
        requires
            self.wf(),
        ensures
            lit is Some <==> self@.contains_key(cl@),
            lit matches Some(l) ==> l == self@[cl@],
    {
        let h = fingerprint(cl);
        if let Some(bucket) = self.buckets.get(&h) {
            for k in 0..bucket.len()
                invariant
                    self.wf(),
                    self.buckets@.contains_key(h),
                    *bucket == self.buckets@[h],
                    forall|j: int|
                        0 <= j < k ==> self.entries@[(#[trigger] bucket@[j]) as int].0@ != cl@,
            {
                let pos = bucket[k];
                assert(self.buckets@[h]@[k as int] == pos);
                if self.entries[pos].0.same(cl) {
                    proof {
                        assert(listed(self.entries@, cl@));
                        let p = position(self.entries@, cl@);
                        assert(self.entries@[p].0@ == cl@);
                        assert(self.entries@[pos as int].0@ == cl@);
                    }
                    return Some(self.entries[pos].1);
                }
            }
            proof {
                if listed(self.entries@, cl@) {
                    let p = position(self.entries@, cl@);
                    assert(self.entries@[p].0@ == cl@);
                    assert(self.entries.len() == self.entries@.len());
                    assert(bucket@.contains(p as usize));
                    let j = choose|j: int| 0 <= j < bucket@.len() && bucket@[j] == p as usize;
                    assert(self.entries@[bucket@[j] as int].0@ != cl@);
                    assert(false);
                }
            }
            None
        } else {
            proof {
                if listed(self.entries@, cl@) {
                    let p = position(self.entries@, cl@);
                    assert(self.entries@[p].0@ == cl@);
                }
            }
            None
        }
    }

    /// Adds a clause with its blocking literal.
    pub fn insert(&mut self, cl: Clause, lit: Lit)
        requires
            old(self).wf(),
            !old(self)@.contains_key(cl@),
        ensures
            final(self).wf(),
            final(self)@ == old(self)@.insert(cl@, lit),
    {
        let h = fingerprint(&cl);
        let ghost cl_view = cl@;
        let pos = self.entries.len();
        let mut bucket: Vec<usize> = match self.buckets.remove(&h) {
            Some(b) => b,
            None => Vec::new(),
        };
        let ghost before = bucket@;
        bucket.push(pos);
        self.entries.push((cl, lit));
        self.buckets.insert(h, bucket);
        proof {
            let e0 = old(self).entries@;
            let e1 = self.entries@;
            assert(e1 == e0.push((cl, lit)));
            assert(e1[pos as int].0@ == cl_view);
            assert forall|i: int| 0 <= i < e0.len() implies e1[i].0@ != cl_view by {
                assert(e1[i] == e0[i]);
                if e0[i].0@ == cl_view {
                    assert(listed(e0, cl_view));
                }
            }
            assert forall|i: int| 0 <= i < e1.len() implies ({
                let g = fingerprint_of(#[trigger] e1[i].0@);
                self.buckets@.contains_key(g) && self.buckets@[g]@.contains(i as usize)
            }) by {
                let g = fingerprint_of(e1[i].0@);
                if i == pos {
                    assert(self.buckets@[h]@[before.len() as int] == pos);
                } else {
                    assert(e1[i] == e0[i]);
                    assert(old(self).buckets@[g]@.contains(i as usize));
                    if g == h {
                        let j = choose|j: int| 0 <= j < before.len() && before[j] == i as usize;
                        assert(self.buckets@[h]@[j] == i as usize);
                    }
                }
            }
            assert forall|g: u64, k: int|
                self.buckets@.contains_key(g) && 0 <= k < self.buckets@[g]@.len() implies (
            #[trigger] self.buckets@[g]@[k]) < e1.len() by {
                if g == h {
                    if k < before.len() {
                        assert(self.buckets@[h]@[k] == before[k]);
                        assert(old(self).buckets@[h]@[k] == before[k]);
                    }
                } else {
                    assert(old(self).buckets@[g]@[k] == self.buckets@[g]@[k]);
                }
            }
            let expected = old(self)@.insert(cl_view, lit);
            assert forall|c: Seq<Lit>| listed(e1, c) == (listed(e0, c) || c == cl_view) by {
                if listed(e0, c) {
                    let p = position(e0, c);
                    assert(e1[p] == e0[p]);
                }
                if listed(e1, c) {
                    let p = position(e1, c);
                    if p < e0.len() {
                        assert(e0[p] == e1[p]);
                    }
                }
            }
            assert forall|c: Seq<Lit>| #[trigger] self@.contains_key(c) implies self@[c]
                == expected[c] by {
                let p = position(e1, c);
                assert(e1[p].0@ == c);
                if c == cl_view {
                    assert(p == pos);
                } else {
                    let q = position(e0, c);
                    assert(listed(e0, c));
                    assert(e0[q].0@ == c);
                    assert(e1[q] == e0[q]);
                    assert(p == q);
                }
            }
            assert(self@ =~= expected);
        }
    }
}

} // verus!
