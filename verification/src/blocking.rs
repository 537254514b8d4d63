//! Clauses that block solutions.
use vstd::prelude::*;

use crate::kernel::{in_objectives, SolverKernel};
use crate::objective::{has_lit, Objective};
use crate::semantics::{clause_holds, extends, lit_holds, Valuation};
use crate::types::{
    lemma_flipped, lemma_over, lemma_true_lits, lit_true, true_lits, Assignment, Clause, Lit,
    TernaryVal, MAX_VAR_IDX,
};

verus! {

/// Whether a clause holds a literal and its negation.
pub open spec fn tautological(cl: Seq<Lit>) -> bool {
    exists|l: Lit| #[trigger] cl.contains(l) && cl.contains(l.flipped())
}

/// Whether literals come in strictly ascending order.
pub open spec fn ascending(cl: Seq<Lit>) -> bool {
    forall|i: int, j: int| 0 <= i < j < cl.len() ==> (#[trigger] cl[i]).lidx < (#[trigger] cl[j]).lidx
}

/// `Clause::normalize`: sorts the literals and drops duplicates, and gives
/// nothing if the clause is a tautology.
#[verifier::external_body]
fn normalize(cl: Clause) -> (r: Option<Clause>)
    ensures
        r is None <==> tautological(cl@),
        r matches Some(c) ==> ascending(c@) && forall|l: Lit| #[trigger]
            c@.contains(l) <==> cl@.contains(l),
{
    let rs_cl: rustsat::types::Clause = cl.lits.into_iter().map(
        |l| rustsat::types::Lit::new(l.vidx(), l.is_neg()),
    ).collect();
    rs_cl.normalize().map(
        |c| Clause { lits: c.into_iter().map(|l| Lit::new(l.vidx32(), l.is_neg())).collect() },
    )
}

/// The negations of literals.
pub open spec fn negations(lits: Seq<Lit>) -> Seq<Lit> {
    lits.map_values(|l: Lit| l.flipped())
}

/// The default blocking clause generator: at least one literal of the solution
/// has to change.
pub fn default_blocking_clause(sol: Assignment) -> (cl: Clause)
    requires
        sol@.len() <= MAX_VAR_IDX + 1,
    ensures
        cl@ == negations(true_lits(sol@)),
{
    let lits = sol.lits();
    let mut cl = Clause::new();
    for i in 0..lits.len()
        invariant
            cl@ == negations(lits@).take(i as int),
    {
        cl.add(lits[i].negate());
        assert(negations(lits@).take(i + 1) =~= negations(lits@).take(i as int).push(
            lits@[i as int].flipped(),
        ));
    }
    assert(negations(lits@).take(lits@.len() as int) =~= negations(lits@));
    cl
}

/// A total assignment violates the default blocking clause of a solution
/// exactly if it agrees with the solution on all variables that the solution
/// assigns.
pub proof fn law_default_clause_blocks_solution(sol: Seq<TernaryVal>, a: Valuation)
    requires
        sol.len() <= MAX_VAR_IDX + 1,
    ensures
        clause_holds(a, negations(true_lits(sol))) <==> !extends(a, sol),
{
    let lits = true_lits(sol);
    let cl = negations(lits);
    if clause_holds(a, cl) {
        let i = choose|i: int| 0 <= i < cl.len() && lit_holds(a, #[trigger] cl[i]);
        let l = lits[i];
        assert(cl[i] == l.flipped());
        assert(lits.contains(l));
        lemma_true_lits(sol, l);
        lemma_flipped(l);
        assert(sol[l.var()] != TernaryVal::DontCare);
    }
    if !extends(a, sol) {
        let v = choose|v: int|
            0 <= v < sol.len() && #[trigger] sol[v] != TernaryVal::DontCare && a.contains(v) != (
            sol[v] == TernaryVal::True);
        let l = Lit::over(v, sol[v] == TernaryVal::False);
        lemma_over(v, sol[v] == TernaryVal::False);
        lemma_true_lits(sol, l);
        lemma_flipped(l);
        let i = choose|i: int| 0 <= i < lits.len() && lits[i] == l;
        assert(cl[i] == l.flipped());
        assert(lit_holds(a, cl[i]));
    }
}

/// The negations of the objective literals that a solution sets to true.
spec fn entry_negations(entries: Seq<(Lit, usize)>, sol: Seq<TernaryVal>) -> Seq<Lit>
    decreases entries.len(),
{
    if entries.len() == 0 {
        Seq::empty()
    } else if lit_true(sol, entries.last().0) {
        entry_negations(entries.drop_last(), sol).push(entries.last().0.flipped())
    } else {
        entry_negations(entries.drop_last(), sol)
    }
}

spec fn objective_negations(objs: Seq<Objective>, sol: Seq<TernaryVal>) -> Seq<Lit>
    decreases objs.len(),
{
    if objs.len() == 0 {
        Seq::empty()
    } else {
        objective_negations(objs.drop_last(), sol) + entry_negations(objs.last().entries(), sol)
    }
}

proof fn lemma_entry_negations(entries: Seq<(Lit, usize)>, sol: Seq<TernaryVal>, m: Lit)
    ensures
        entry_negations(entries, sol).contains(m) <==> has_lit(entries, m.flipped()) && lit_true(
            sol,
            m.flipped(),
        ),
    decreases entries.len(),
{
    lemma_flipped(m);
    if entries.len() > 0 {
        let init = entries.drop_last();
        let last = entries.last().0;
        lemma_entry_negations(init, sol, m);
        lemma_flipped(last);
        let rest = entry_negations(init, sol);
        if has_lit(init, m.flipped()) {
            let i = choose|i: int| 0 <= i < init.len() && (#[trigger] init[i]).0 == m.flipped();
            assert(entries[i] == init[i]);
        }
        if has_lit(entries, m.flipped()) {
            let i = choose|i: int|
                0 <= i < entries.len() && (#[trigger] entries[i]).0 == m.flipped();
            if i < init.len() {
                assert(init[i] == entries[i]);
            }
        }
        assert(entries[entries.len() - 1] == entries.last());
        if lit_true(sol, last) {
            let all = rest.push(last.flipped());
            assert(all[rest.len() as int] == last.flipped());
            if rest.contains(m) {
                let k = choose|k: int| 0 <= k < rest.len() && rest[k] == m;
                assert(all[k] == m);
            }
        }
    } else {
        assert(!entry_negations(entries, sol).contains(m));
    }
}

proof fn lemma_objective_negations(objs: Seq<Objective>, sol: Seq<TernaryVal>, m: Lit)
    ensures
        objective_negations(objs, sol).contains(m) <==> in_objectives(objs, m.flipped())
            && lit_true(sol, m.flipped()),
    decreases objs.len(),
{
    if objs.len() > 0 {
        let init = objs.drop_last();
        let left = objective_negations(init, sol);
        let right = entry_negations(objs.last().entries(), sol);
        lemma_objective_negations(init, sol, m);
        lemma_entry_negations(objs.last().entries(), sol, m);
        let all = left + right;
        assert(all.contains(m) <==> left.contains(m) || right.contains(m)) by {
            if left.contains(m) {
                let k = choose|k: int| 0 <= k < left.len() && left[k] == m;
                assert(all[k] == m);
            }
            if right.contains(m) {
                let k = choose|k: int| 0 <= k < right.len() && right[k] == m;
                assert(all[left.len() + k] == m);
            }
        }
        let l = m.flipped();
        if in_objectives(init, l) {
            let i = choose|i: int| 0 <= i < init.len() && has_lit((#[trigger] init[i]).entries(), l);
            assert(objs[i] == init[i]);
        }
        if in_objectives(objs, l) {
            let i = choose|i: int| 0 <= i < objs.len() && has_lit((#[trigger] objs[i]).entries(), l);
            if i < init.len() {
                assert(init[i] == objs[i]);
            }
        }
        assert(objs[objs.len() - 1] == objs.last());
    } else {
        assert(!objective_negations(objs, sol).contains(m));
    }
}

/// Whether a clause consists of the negations of the objective literals that a
/// solution sets to true, in ascending order.
pub open spec fn blocks_mcs(objs: Seq<Objective>, sol: Seq<TernaryVal>, cl: Seq<Lit>) -> bool {
    &&& ascending(cl)
    &&& forall|m: Lit| #[trigger]
        cl.contains(m) <==> in_objectives(objs, m.flipped()) && lit_true(sol, m.flipped())
}

impl<L, T> SolverKernel<L, T> {
    /// Blocks the current Pareto-MCS by blocking all blocking variables that
    /// are set.
    pub fn block_pareto_mcs(&self, sol: &Assignment) -> (cl: Clause)
        ensures
            blocks_mcs(self.objs@, sol@, cl@),
    {
        let mut blocking_clause = Clause::new();
        assert(self.objs@.take(0) =~= Seq::empty());
        for i in 0..self.objs.len()
            invariant
                blocking_clause@ == objective_negations(self.objs@.take(i as int), sol@),
        {
            let entries = self.objs[i].iter();
            let ghost before = blocking_clause@;
            assert(entries@.take(0) =~= Seq::empty());
            assert(blocking_clause@ =~= before + entry_negations(entries@.take(0), sol@));
            for k in 0..entries.len()
                invariant
                    blocking_clause@ == before + entry_negations(entries@.take(k as int), sol@),
            {
                assert(entries@.take(k + 1).drop_last() =~= entries@.take(k as int));
                let l = entries[k].0;
                if sol.lit_value(l) == TernaryVal::True {
                    blocking_clause.add(l.negate());
                    assert(blocking_clause@ =~= before + entry_negations(
                        entries@.take(k + 1),
                        sol@,
                    ));
                }
            }
            assert(entries@.take(entries@.len() as int) =~= entries@);
            assert(self.objs@.take(i + 1).drop_last() =~= self.objs@.take(i as int));
        }
        assert(self.objs@.take(self.objs@.len() as int) =~= self.objs@);
        let ghost raw = blocking_clause@;
        proof {
            assert forall|m: Lit| #[trigger]
                raw.contains(m) <==> in_objectives(self.objs@, m.flipped()) && lit_true(
                    sol@,
                    m.flipped(),
                ) by {
                lemma_objective_negations(self.objs@, sol@, m);
            }
            if tautological(raw) {
                let l = choose|l: Lit| #[trigger] raw.contains(l) && raw.contains(l.flipped());
                lemma_flipped(l);
                lemma_flipped(l.flipped());
                assert(lit_true(sol@, l.flipped()));
                assert(lit_true(sol@, l));
            }
        }
        match normalize(blocking_clause) {
            Some(cl) => cl,
            None => {
                // All literals of the clause are false under the solution
                assert(false);
                Clause::new()
            },
        }
    }
}

/// A total assignment satisfies the clause that blocks the Pareto-MCS of a
/// solution exactly if it makes an objective literal false that the solution
/// sets to true.
pub proof fn law_mcs_clause_blocks_supersets(
    objs: Seq<Objective>,
    sol: Seq<TernaryVal>,
    cl: Seq<Lit>,
    a: Valuation,
)
    requires
        blocks_mcs(objs, sol, cl),
    ensures
        clause_holds(a, cl) <==> exists|l: Lit| #[trigger]
            in_objectives(objs, l) && lit_true(sol, l) && !lit_holds(a, l),
{
    if clause_holds(a, cl) {
        let i = choose|i: int| 0 <= i < cl.len() && lit_holds(a, #[trigger] cl[i]);
        let m = cl[i];
        assert(cl.contains(m));
        lemma_flipped(m);
        assert(in_objectives(objs, m.flipped()) && !lit_holds(a, m.flipped()));
    }
    if exists|l: Lit| #[trigger]
        in_objectives(objs, l) && lit_true(sol, l) && !lit_holds(a, l) {
        let l = choose|l: Lit| #[trigger]
            in_objectives(objs, l) && lit_true(sol, l) && !lit_holds(a, l);
        lemma_flipped(l);
        assert(cl.contains(l.flipped()));
        let i = choose|i: int| 0 <= i < cl.len() && cl[i] == l.flipped();
        assert(lit_holds(a, cl[i]));
    }
}

/// Only one clause blocks the Pareto-MCS of a solution.
pub proof fn law_mcs_clause_unique(
    objs: Seq<Objective>,
    sol: Seq<TernaryVal>,
    one: Seq<Lit>,
    other: Seq<Lit>,
)
    requires
        blocks_mcs(objs, sol, one),
        blocks_mcs(objs, sol, other),
    ensures
        one == other,
{
    lemma_ascending_unique(one, other);
}

proof fn lemma_ascending_unique(one: Seq<Lit>, other: Seq<Lit>)
    requires
        ascending(one),
        ascending(other),
        forall|m: Lit| #[trigger] one.contains(m) <==> other.contains(m),
    ensures
        one == other,
    decreases one.len(),
{
    if one.len() == 0 {
        if other.len() > 0 {
            assert(other.contains(other[0]));
            assert(one.contains(other[0]));
        }
        assert(one =~= other);
    } else {
        assert(one.contains(one.last()));
        assert(other.contains(one.last()));
        let k = choose|k: int| 0 <= k < other.len() && other[k] == one.last();
        assert(other.contains(other.last()));
        assert(one.contains(other.last()));
        let j = choose|j: int| 0 <= j < one.len() && one[j] == other.last();
        assert(one.last() == other.last()) by {
            if k < other.len() - 1 {
                assert(other[k].lidx < other[other.len() - 1].lidx);
                if j < one.len() - 1 {
                    assert(one[j].lidx < one[one.len() - 1].lidx);
                }
            }
        }
        let one_init = one.drop_last();
        let other_init = other.drop_last();
        assert forall|m: Lit| #[trigger] one_init.contains(m) <==> other_init.contains(m) by {
            if one_init.contains(m) {
                let i = choose|i: int| 0 <= i < one_init.len() && one_init[i] == m;
                assert(one[i] == m && one[i].lidx < one[one.len() - 1].lidx);
                assert(one.contains(m));
                assert(other.contains(m));
                let h = choose|h: int| 0 <= h < other.len() && other[h] == m;
                assert(h < other.len() - 1);
                assert(other_init[h] == m);
            }
            if other_init.contains(m) {
                let i = choose|i: int| 0 <= i < other_init.len() && other_init[i] == m;
                assert(other[i] == m && other[i].lidx < other[other.len() - 1].lidx);
                assert(other.contains(m));
                assert(one.contains(m));
                let h = choose|h: int| 0 <= h < one.len() && one[h] == m;
                assert(h < one.len() - 1);
                assert(one_init[h] == m);
            }
        }
        lemma_ascending_unique(one_init, other_init);
        assert(one =~= one_init.push(one.last()));
        assert(other =~= other_init.push(other.last()));
    }
}

} // verus!
