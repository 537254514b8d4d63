//! What clauses and weighted literals mean under total assignments.
use vstd::prelude::*;

use crate::types::{lit_true, Lit, TernaryVal};

verus! {

/// A total assignment, given by the set of the variables that are true.
pub type Valuation = Set<int>;

/// Whether a literal is true.
pub open spec fn lit_holds(a: Valuation, l: Lit) -> bool {
    a.contains(l.var()) != l.neg()
}

/// Whether all literals of a list are true.
pub open spec fn all_hold(a: Valuation, lits: Seq<Lit>) -> bool {
    forall|i: int| 0 <= i < lits.len() ==> lit_holds(a, #[trigger] lits[i])
}

/// Whether a clause is satisfied.
pub open spec fn clause_holds(a: Valuation, cl: Seq<Lit>) -> bool {
    exists|i: int| 0 <= i < cl.len() && lit_holds(a, #[trigger] cl[i])
}

/// Whether every clause of a formula is satisfied.
pub open spec fn cnf_holds(a: Valuation, cnf: Seq<Seq<Lit>>) -> bool {
    forall|i: int| 0 <= i < cnf.len() ==> clause_holds(a, #[trigger] cnf[i])
}

/// Whether two total assignments agree on the variables below `bound`.
pub open spec fn agree_below(a: Valuation, b: Valuation, bound: int) -> bool {
    forall|v: int| 0 <= v < bound ==> a.contains(v) == b.contains(v)
}

/// Whether a list of literals uses only variables below `bound`.
pub open spec fn lits_below(lits: Seq<Lit>, bound: int) -> bool {
    forall|i: int| 0 <= i < lits.len() ==> (#[trigger] lits[i]).var() < bound
}

/// Whether a formula uses only variables below `bound`.
pub open spec fn cnf_below(cnf: Seq<Seq<Lit>>, bound: int) -> bool {
    forall|i: int| 0 <= i < cnf.len() ==> lits_below(#[trigger] cnf[i], bound)
}

/// Whether a total assignment gives every variable the value that a partial
/// one gives it, where the partial one gives it any.
pub open spec fn extends(a: Valuation, sol: Seq<TernaryVal>) -> bool {
    forall|v: int|
        0 <= v < sol.len() && #[trigger] sol[v] != TernaryVal::DontCare ==> a.contains(v) == (sol[v]
            == TernaryVal::True)
}

/// The sum of the weights of the literals that are true.
pub open spec fn weight_under(entries: Seq<(Lit, usize)>, a: Valuation) -> int
    decreases entries.len(),
{
    if entries.len() == 0 {
        0
    } else {
        weight_under(entries.drop_last(), a) + if lit_holds(a, entries.last().0) {
            entries.last().1 as int
        } else {
            0
        }
    }
}

/// The sum of the weights of the literals that a partial assignment sets to
/// true.
pub open spec fn weight_assigned(entries: Seq<(Lit, usize)>, sol: Seq<TernaryVal>) -> int
    decreases entries.len(),
{
    if entries.len() == 0 {
        0
    } else {
        weight_assigned(entries.drop_last(), sol) + if lit_true(sol, entries.last().0) {
            entries.last().1 as int
        } else {
            0
        }
    }
}

/// The sum of all weights.
pub open spec fn weight_total(entries: Seq<(Lit, usize)>) -> int
    decreases entries.len(),
{
    if entries.len() == 0 {
        0
    } else {
        weight_total(entries.drop_last()) + entries.last().1
    }
}

/// A formula that is made of two holds exactly if both do.
pub proof fn lemma_cnf_append(a: Valuation, left: Seq<Seq<Lit>>, right: Seq<Seq<Lit>>)
    ensures
        cnf_holds(a, left + right) <==> cnf_holds(a, left) && cnf_holds(a, right),
{
    let both = left + right;
    if cnf_holds(a, both) {
        assert forall|i: int| 0 <= i < left.len() implies clause_holds(a, #[trigger] left[i]) by {
            assert(both[i] == left[i]);
        }
        assert forall|i: int| 0 <= i < right.len() implies clause_holds(
            a,
            #[trigger] right[i],
        ) by {
            assert(both[left.len() + i] == right[i]);
        }
    }
    if cnf_holds(a, left) && cnf_holds(a, right) {
        assert forall|i: int| 0 <= i < both.len() implies clause_holds(a, #[trigger] both[i]) by {
            if i < left.len() {
                assert(both[i] == left[i]);
            } else {
                assert(both[i] == right[i - left.len()]);
            }
        }
    }
}

/// Literals over variables on which two assignments agree have the same value
/// under both.
pub proof fn lemma_lit_agree(a: Valuation, b: Valuation, bound: int, l: Lit)
    requires
        agree_below(a, b, bound),
        l.var() < bound,
    ensures
        lit_holds(a, l) == lit_holds(b, l),
{
    assert(a.contains(l.var()) == b.contains(l.var()));
}

/// Clauses over variables on which two assignments agree have the same value
/// under both.
pub proof fn lemma_clause_agree(a: Valuation, b: Valuation, bound: int, cl: Seq<Lit>)
    requires
        agree_below(a, b, bound),
        lits_below(cl, bound),
    ensures
        clause_holds(a, cl) == clause_holds(b, cl),
{
    assert forall|i: int| 0 <= i < cl.len() implies lit_holds(a, #[trigger] cl[i]) == lit_holds(
        b,
        cl[i],
    ) by {
        lemma_lit_agree(a, b, bound, cl[i]);
    }
}

/// Formulas over variables on which two assignments agree have the same value
/// under both.
pub proof fn lemma_cnf_agree(a: Valuation, b: Valuation, bound: int, cnf: Seq<Seq<Lit>>)
    requires
        agree_below(a, b, bound),
        cnf_below(cnf, bound),
    ensures
        cnf_holds(a, cnf) == cnf_holds(b, cnf),
{
    assert forall|i: int| 0 <= i < cnf.len() implies clause_holds(a, #[trigger] cnf[i])
        == clause_holds(b, cnf[i]) by {
        lemma_clause_agree(a, b, bound, cnf[i]);
    }
}

/// A clause with one more literal holds if the clause or the literal does.
pub proof fn lemma_clause_push(a: Valuation, cl: Seq<Lit>, l: Lit)
    ensures
        clause_holds(a, cl.push(l)) <==> clause_holds(a, cl) || lit_holds(a, l),
{
    let more = cl.push(l);
    if clause_holds(a, cl) {
        let i = choose|i: int| 0 <= i < cl.len() && lit_holds(a, #[trigger] cl[i]);
        assert(more[i] == cl[i]);
    }
    if lit_holds(a, l) {
        assert(more[cl.len() as int] == l);
    }
    if clause_holds(a, more) {
        let i = choose|i: int| 0 <= i < more.len() && lit_holds(a, #[trigger] more[i]);
        if i < cl.len() {
            assert(cl[i] == more[i]);
        }
    }
}

/// Sums of weights are not negative and not above the sum of all weights.
pub proof fn lemma_weight_bounds(entries: Seq<(Lit, usize)>, a: Valuation, sol: Seq<TernaryVal>)
    ensures
        0 <= weight_under(entries, a) <= weight_total(entries),
        0 <= weight_assigned(entries, sol) <= weight_total(entries),
    decreases entries.len(),
{
    if entries.len() > 0 {
        lemma_weight_bounds(entries.drop_last(), a, sol);
    }
}

/// The first weights sum up to no more than all of them.
pub proof fn lemma_total_prefix(entries: Seq<(Lit, usize)>, k: int)
    requires
        0 <= k <= entries.len(),
    ensures
        weight_total(entries.take(k)) <= weight_total(entries),
    decreases entries.len(),
{
    if k == entries.len() {
        assert(entries.take(k) =~= entries);
    } else {
        lemma_total_prefix(entries.drop_last(), k);
        assert(entries.drop_last().take(k) =~= entries.take(k));
    }
}

} // verus!
