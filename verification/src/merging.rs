//! Lists of weighted literals in which every literal occurs once.
use vstd::prelude::*;

use crate::objective::{distinct_lits, has_lit, place_of};
use crate::semantics::{lemma_weight_bounds, lit_holds, weight_total, weight_under, Valuation};
use crate::types::Lit;

verus! {

/// A new literal comes last, a known one gets heavier, and nothing weighs
/// nothing.
pub open spec fn add_weight(entries: Seq<(Lit, usize)>, l: Lit, w: usize) -> Seq<(Lit, usize)> {
    if w == 0 {
        entries
    } else if has_lit(entries, l) {
        let p = place_of(entries, l);
        entries.update(p, (l, (entries[p].1 + w) as usize))
    } else {
        entries.push((l, w))
    }
}

/// Weighted literals with each literal once, in the order of their first
/// occurrence, and with the sum of its weights. Literals without a weight are
/// left out.
pub open spec fn merged(entries: Seq<(Lit, usize)>) -> Seq<(Lit, usize)>
    decreases entries.len(),
{
    if entries.len() == 0 {
        Seq::empty()
    } else {
        add_weight(merged(entries.drop_last()), entries.last().0, entries.last().1)
    }
}

/// Another weight of one literal changes sums by the difference.
proof fn lemma_update(entries: Seq<(Lit, usize)>, p: int, w: usize, a: Valuation)
    requires
        0 <= p < entries.len(),
    ensures
        weight_total(entries.update(p, (entries[p].0, w))) == weight_total(entries) - entries[p].1
            + w,
        weight_under(entries.update(p, (entries[p].0, w)), a) == weight_under(entries, a)
            + if lit_holds(a, entries[p].0) {
            w - entries[p].1
        } else {
            0
        },
    decreases entries.len(),
{
    let after = entries.update(p, (entries[p].0, w));
    if p == entries.len() - 1 {
        assert(after.drop_last() =~= entries.drop_last());
    } else {
        let init = entries.drop_last();
        lemma_update(init, p, w, a);
        assert(after.drop_last() =~= init.update(p, (init[p].0, w)));
        assert(after.last() == entries.last());
    }
}

/// A single weight is not above the sum of all.
pub proof fn lemma_weight_at_most_total(entries: Seq<(Lit, usize)>, p: int)
    requires
        0 <= p < entries.len(),
    ensures
        0 <= entries[p].1 <= weight_total(entries),
    decreases entries.len(),
{
    let init = entries.drop_last();
    if p < init.len() {
        lemma_weight_at_most_total(init, p);
        assert(init[p] == entries[p]);
    } else {
        lemma_weight_bounds(init, Set::empty(), Seq::empty());
    }
}

/// Merging keeps all sums, and leaves different literals with positive weights,
/// over variables that were there.
pub proof fn lemma_merged(entries: Seq<(Lit, usize)>, a: Valuation)
    requires
        weight_total(entries) <= usize::MAX,
    ensures
        weight_total(merged(entries)) == weight_total(entries),
        weight_under(merged(entries), a) == weight_under(entries, a),
        distinct_lits(merged(entries)),
        forall|i: int| 0 <= i < merged(entries).len() ==> (#[trigger] merged(entries)[i]).1 > 0,
        forall|i: int|
            0 <= i < merged(entries).len() ==> has_lit(entries, (#[trigger] merged(entries)[i]).0),
    decreases entries.len(),
{
    if entries.len() > 0 {
        let init = entries.drop_last();
        let (l, w) = entries.last();
        let before = merged(init);
        let after = merged(entries);
        assert(weight_total(entries) == weight_total(init) + w);
        lemma_merged(init, a);
        assert(entries[entries.len() - 1].0 == l);
        if w > 0 && has_lit(before, l) {
            let p = place_of(before, l);
            assert(before[p].0 == l);
            lemma_weight_at_most_total(before, p);
            lemma_update(before, p, (before[p].1 + w) as usize, a);
            assert forall|i: int| 0 <= i < after.len() implies (#[trigger] after[i]).0
                == before[i].0 && after[i].1 >= before[i].1 by {}
        } else if w > 0 {
            assert(after.drop_last() =~= before);
            assert forall|i: int| 0 <= i < before.len() implies #[trigger] after[i] == before[i]
                && before[i].0 != l by {}
        }
        assert forall|i: int| 0 <= i < after.len() implies has_lit(
            entries,
            (#[trigger] after[i]).0,
        ) by {
            if i < before.len() {
                let m = after[i].0;
                assert(before[i].0 == m);
                assert(has_lit(init, m));
                let j = choose|j: int| 0 <= j < init.len() && (#[trigger] init[j]).0 == m;
                assert(entries[j].0 == m);
            }
        }
    }
}

} // verus!
