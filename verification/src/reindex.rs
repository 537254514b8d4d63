//! Undoing the renaming of variables in solutions.
use rustsat::instances::{ReindexVars, ReindexingVarManager};
use rustsat::types::Lit as RsLit;
use vstd::prelude::*;

use crate::types::{
    assign, lemma_over, true_lits, var_val, Assignment, Lit, TernaryVal, MAX_VAR_IDX,
};

verus! {

#[verifier::external_type_specification]
#[verifier::external_body]
pub struct ExReindexingVarManager(ReindexingVarManager);

/// The variables that renamed variables stand for.
pub uninterp spec fn renamed_from(reindexer: ReindexingVarManager) -> Map<u32, u32>;

/// `ReindexingVarManager::reverse_lit`: the literal over the variable that the
/// renamed one stands for, with the same sign, and nothing if the renamed
/// variable stands for none.
#[verifier::external_body]
fn reverse_lit(reindexer: &ReindexingVarManager, l: Lit) -> (r: Option<Lit>)
    ensures
        r == reversed_lit(renamed_from(*reindexer), l),
{
    reindexer.reverse_lit(RsLit::new(l.vidx(), l.is_neg())).map(
        |l| Lit::new(l.vidx32(), l.is_neg()),
    )
}

/// The literal that a literal over a renamed variable stands for.
pub open spec fn reversed_lit(names: Map<u32, u32>, l: Lit) -> Option<Lit> {
    if names.contains_key(l.var() as u32) {
        Some(Lit::over(names[l.var() as u32] as int, l.neg()))
    } else {
        None
    }
}

/// The assignment that results when literals over renamed variables are set to
/// true one after the other. Those that stand for nothing are left out.
pub open spec fn reversed(names: Map<u32, u32>, lits: Seq<Lit>) -> Seq<TernaryVal>
    decreases lits.len(),
{
    if lits.len() == 0 {
        Seq::empty()
    } else {
        let rest = reversed(names, lits.drop_last());
        match reversed_lit(names, lits.last()) {
            Some(l) => assign(rest, l),
            None => rest,
        }
    }
}

/// Undoes the renaming of variables in a solution.
pub fn reverse_solution(reindexer: &ReindexingVarManager, sol: &Assignment) -> (res: Assignment)
    requires
        sol@.len() <= MAX_VAR_IDX + 1,
    ensures
        res@ == reversed(renamed_from(*reindexer), true_lits(sol@)),
{
    let ghost names = renamed_from(*reindexer);
    let lits = sol.lits();
    let mut res = Assignment { values: Vec::new() };
    for i in 0..lits.len()
        invariant
            names == renamed_from(*reindexer),
            res@ == reversed(names, lits@.take(i as int)),
    {
        assert(lits@.take(i + 1).drop_last() =~= lits@.take(i as int));
        if let Some(l) = reverse_lit(reindexer, lits[i]) {
            res.assign_lit(l);
        }
    }
    assert(lits@.take(lits@.len() as int) =~= lits@);
    res
}

/// Undoing the renaming of variables gives every variable the value of the one
/// that stands for it, provided that different variables stand for different
/// ones.
pub proof fn law_reversing_keeps_values(names: Map<u32, u32>, sol: Seq<TernaryVal>, v: u32)
    requires
        sol.len() <= MAX_VAR_IDX + 1,
        forall|u: u32| #[trigger] names.contains_key(u) ==> names[u] <= MAX_VAR_IDX,
        forall|u: u32, w: u32| #[trigger]
            names.contains_key(u) && #[trigger] names.contains_key(w) && names[u] == names[w]
                ==> u == w,
        names.contains_key(v),
    ensures
        var_val(reversed(names, true_lits(sol)), names[v] as int) == var_val(sol, v as int),
    decreases sol.len(),
{
    if sol.len() > 0 {
        let init = sol.drop_last();
        let n = sol.len() - 1;
        law_reversing_keeps_values(names, init, v);
        let lits = true_lits(sol);
        lemma_over(n, false);
        lemma_over(n, true);
        if sol.last() != TernaryVal::DontCare {
            assert(lits.drop_last() =~= true_lits(init));
            if names.contains_key(n as u32) {
                lemma_over(names[n as u32] as int, false);
                lemma_over(names[n as u32] as int, true);
            }
        }
    }
}

} // verus!
