//! Sums of weights over collections of weighted literals in no order.
use vstd::multiset::Multiset;
use vstd::prelude::*;

use crate::semantics::{lit_holds, weight_total, weight_under, Valuation};
use crate::types::Lit;

verus! {

/// Weighted literals in no order.
pub type Bag = Multiset<(Lit, usize)>;

/// Some order of weighted literals.
pub open spec fn listing(bag: Bag) -> Seq<(Lit, usize)> {
    choose|entries: Seq<(Lit, usize)>| #[trigger] entries.to_multiset() == bag
}

/// The sum of the weights of the literals that are true.
pub open spec fn bag_weight(bag: Bag, a: Valuation) -> int {
    weight_under(listing(bag), a)
}

/// The sum of all weights.
pub open spec fn bag_total(bag: Bag) -> int {
    weight_total(listing(bag))
}

/// Whether some of the weighted literals have the given sum.
pub open spec fn attainable(bag: Bag, sum: int) -> bool {
    exists|chosen: Seq<(Lit, usize)>| #[trigger]
        chosen.to_multiset().subset_of(bag) && weight_total(chosen) == sum
}

/// Leaving one weighted literal out takes its weight from the sums.
proof fn lemma_weight_remove(entries: Seq<(Lit, usize)>, k: int, a: Valuation)
    requires
        0 <= k < entries.len(),
    ensures
        weight_total(entries) == weight_total(entries.remove(k)) + entries[k].1,
        weight_under(entries, a) == weight_under(entries.remove(k), a) + if lit_holds(
            a,
            entries[k].0,
        ) {
            entries[k].1 as int
        } else {
            0
        },
    decreases entries.len(),
{
    let less = entries.remove(k);
    if k == entries.len() - 1 {
        assert(less =~= entries.drop_last());
    } else {
        lemma_weight_remove(entries.drop_last(), k, a);
        assert(less.drop_last() =~= entries.drop_last().remove(k));
        assert(less.last() == entries.last());
        assert(entries.drop_last()[k] == entries[k]);
    }
}

/// Sums do not depend on the order.
pub proof fn lemma_weight_order(one: Seq<(Lit, usize)>, other: Seq<(Lit, usize)>, a: Valuation)
    requires
        one.to_multiset() == other.to_multiset(),
    ensures
        weight_total(one) == weight_total(other),
        weight_under(one, a) == weight_under(other, a),
    decreases one.len(),
{
    broadcast use vstd::seq_lib::group_to_multiset_ensures;

    assert(one.len() == one.to_multiset().len());
    assert(other.len() == other.to_multiset().len());
    if one.len() > 0 {
        let last = one.last();
        assert(one.contains(last));
        assert(one.to_multiset().count(last) > 0);
        assert(other.contains(last));
        let k = choose|k: int| 0 <= k < other.len() && other[k] == last;
        let init = one.drop_last();
        assert(init.push(last) =~= one);
        assert(one.to_multiset() =~= init.to_multiset().insert(last));
        assert(other.remove(k).to_multiset() =~= other.to_multiset().remove(last));
        assert(init.to_multiset() =~= other.remove(k).to_multiset());
        lemma_weight_order(init, other.remove(k), a);
        lemma_weight_remove(other, k, a);
    }
}

/// The sums of weighted literals in no order are those in any order.
pub proof fn lemma_bag(entries: Seq<(Lit, usize)>, a: Valuation)
    ensures
        bag_weight(entries.to_multiset(), a) == weight_under(entries, a),
        bag_total(entries.to_multiset()) == weight_total(entries),
{
    lemma_weight_order(listing(entries.to_multiset()), entries, a);
}

/// The sum of the true literals can be attained.
pub proof fn lemma_weight_attainable(entries: Seq<(Lit, usize)>, a: Valuation)
    ensures
        attainable(entries.to_multiset(), weight_under(entries, a)),
    decreases entries.len(),
{
    broadcast use vstd::seq_lib::group_to_multiset_ensures;

    if entries.len() == 0 {
        let none = Seq::<(Lit, usize)>::empty();
        assert(entries =~= none);
        assert(none.to_multiset().subset_of(entries.to_multiset()));
    } else {
        let init = entries.drop_last();
        let last = entries.last();
        assert(init.push(last) =~= entries);
        assert(entries.to_multiset() =~= init.to_multiset().insert(last));
        lemma_weight_attainable(init, a);
        let chosen = choose|chosen: Seq<(Lit, usize)>| #[trigger]
            chosen.to_multiset().subset_of(init.to_multiset()) && weight_total(chosen)
                == weight_under(init, a);
        if lit_holds(a, last.0) {
            let more = chosen.push(last);
            assert(more.drop_last() =~= chosen);
            assert(more.to_multiset() =~= chosen.to_multiset().insert(last));
            assert(more.to_multiset().subset_of(entries.to_multiset()));
        } else {
            assert(chosen.to_multiset().subset_of(entries.to_multiset()));
        }
    }
}

/// Weighted literals in no order can be listed.
proof fn lemma_listing(bag: Bag)
    ensures
        exists|entries: Seq<(Lit, usize)>| #[trigger] entries.to_multiset() == bag,
    decreases bag.len(),
{
    broadcast use vstd::seq_lib::group_to_multiset_ensures;
    broadcast use vstd::multiset::group_multiset_axioms;

    if bag.len() == 0 {
        assert(Seq::<(Lit, usize)>::empty().to_multiset() =~= bag);
    } else {
        let x = bag.choose();
        assert(bag.count(x) > 0);
        lemma_listing(bag.remove(x));
        let entries = choose|entries: Seq<(Lit, usize)>| #[trigger]
            entries.to_multiset() == bag.remove(x);
        assert(entries.push(x).to_multiset() =~= bag);
    }
}

/// Sums depend on the variables of the literals only.
proof fn lemma_listed_agree(entries: Seq<(Lit, usize)>, a: Valuation, b: Valuation)
    requires
        forall|i: int|
            0 <= i < entries.len() ==> a.contains((#[trigger] entries[i]).0.var()) == b.contains(
                entries[i].0.var(),
            ),
    ensures
        weight_under(entries, a) == weight_under(entries, b),
    decreases entries.len(),
{
    if entries.len() > 0 {
        let init = entries.drop_last();
        assert forall|i: int| 0 <= i < init.len() implies a.contains((#[trigger] init[i]).0.var())
            == b.contains(init[i].0.var()) by {
            assert(init[i] == entries[i]);
        }
        lemma_listed_agree(init, a, b);
        let last = entries[entries.len() - 1];
        assert(a.contains(last.0.var()) == b.contains(last.0.var()));
    }
}

/// Sums of weighted literals in no order depend on the variables of the
/// literals only.
pub proof fn lemma_bag_agree(bag: Bag, a: Valuation, b: Valuation)
    requires
        forall|x: (Lit, usize)| #[trigger]
            bag.count(x) > 0 ==> a.contains(x.0.var()) == b.contains(x.0.var()),
    ensures
        bag_weight(bag, a) == bag_weight(bag, b),
{
    broadcast use vstd::seq_lib::group_to_multiset_ensures;

    lemma_listing(bag);
    let entries = listing(bag);
    assert forall|i: int| 0 <= i < entries.len() implies a.contains(
        (#[trigger] entries[i]).0.var(),
    ) == b.contains(entries[i].0.var()) by {
        assert(entries.contains(entries[i]));
        assert(bag.count(entries[i]) > 0);
    }
    lemma_listed_agree(entries, a, b);
}

} // verus!
