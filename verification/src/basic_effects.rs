//! What the operations on variables, literals, clauses, assignments, points and
//! fronts do, and what weights and truth mean, said in plain terms.
use vstd::prelude::*;

use crate::blits::BlitTable;
use crate::blocking::{default_blocking_clause, law_default_clause_blocks_solution};
use crate::config::{settle, Limits, LoggerError, Termination};
use crate::front::{converts, point_views, points_match, sol_views, NonDomPoint, ParetoFront};
use crate::objective::{has_lit, place_of, LitWeights, Objective};
use crate::semantics::{
    clause_holds, cnf_holds, lit_holds, weight_assigned, weight_total, weight_under, Valuation,
};
use crate::types::{
    lemma_flipped, lemma_over, lemma_true_lits, lit_true, true_lits, Assignment, Clause, Lit,
    TernaryVal, Var, MAX_VAR_IDX,
};
use crate::vars::VarManager;
use crate::weights::{bag_total, bag_weight, lemma_bag};

verus! {

/// The last variable index is the last one for which a negated literal fits into
/// the representation of a literal.
pub proof fn law_last_variable_index()
    ensures
        2 * MAX_VAR_IDX + 1 == u32::MAX,
{
}

/// A literal is made of its variable and its sign, and gives them back.
pub proof fn law_literals_keep_their_parts(
    idx: u32,
    negated: bool,
    lit: Lit,
    var: u32,
    neg: bool,
)
    requires
        idx <= MAX_VAR_IDX,
        call_ensures(Lit::new, (idx, negated), lit),
        call_ensures(Lit::vidx, (&lit,), var),
        call_ensures(Lit::is_neg, (&lit,), neg),
    ensures
        lit.lidx == 2 * idx + if negated {
            1int
        } else {
            0int
        },
        var == idx,
        neg == negated,
{
}

/// The opposite of a literal is another literal over the same variable, and its
/// own opposite is the literal again.
pub proof fn law_opposite_literals(lit: Lit, opposite: Lit, again: Lit)
    requires
        call_ensures(Lit::negate, (lit,), opposite),
        call_ensures(Lit::negate, (opposite,), again),
    ensures
        opposite.lidx != lit.lidx,
        opposite.lidx / 2 == lit.lidx / 2,
        again == lit,
{
}

/// The value of a literal is that of its variable, or the opposite value if the
/// literal is negated. Variables behind the last one have no value.
pub proof fn law_literal_values(
    sol: &Assignment,
    lit: Lit,
    val: TernaryVal,
    var_val: TernaryVal,
)
    requires
        call_ensures(Assignment::lit_value, (sol, lit), val),
        call_ensures(Assignment::var_value, (sol, (lit.lidx / 2) as u32), var_val),
    ensures
        var_val == if lit.lidx as int / 2 < sol.values@.len() {
            sol.values@[lit.lidx as int / 2]
        } else {
            TernaryVal::DontCare
        },
        lit.lidx % 2 == 0 ==> val == var_val,
        lit.lidx % 2 == 1 ==> {
            &&& val is True <==> var_val is False
            &&& val is False <==> var_val is True
            &&& val is DontCare <==> var_val is DontCare
        },
        lit_true(sol.values@, lit) <==> val is True,
{
}

/// Setting a literal makes it true, and changes no other variable.
pub proof fn law_assigned_literals_are_true(lit: Lit)
    ensures
        forall|m: &mut Assignment, r: ()| #[trigger]
            call_ensures(Assignment::assign_lit, (m, lit), r) ==> {
                let var = lit.lidx as int / 2;
                let after = final(m).values@;
                &&& after.len() == if var < m.values@.len() {
                    m.values@.len() as int
                } else {
                    var + 1
                }
                &&& after[var] == if lit.lidx % 2 == 1 {
                    TernaryVal::False
                } else {
                    TernaryVal::True
                }
                &&& forall|i: int|
                    0 <= i < after.len() && i != var ==> #[trigger] after[i] == if i
                        < m.values@.len() {
                        m.values@[i]
                    } else {
                        TernaryVal::DontCare
                    }
            },
{
}

/// Truncating keeps the values up to the given variable, and nothing else.
pub proof fn law_truncated_solutions(sol: Assignment, max_var: Var, res: Assignment)
    requires
        call_ensures(Assignment::truncate, (sol, max_var), res),
    ensures
        res.values@.len() <= max_var.idx + 1,
        res.values@.len() <= sol.values@.len(),
        res.values@.len() == sol.values@.len() || res.values@.len() == max_var.idx + 1,
        forall|i: int|
            0 <= i < res.values@.len() ==> #[trigger] res.values@[i] == sol.values@[i],
{
}

/// The literals of an assignment are those that it makes true.
pub proof fn law_listed_literals_are_true(sol: &Assignment, lits: Vec<Lit>, l: Lit)
    requires
        sol.values@.len() <= MAX_VAR_IDX + 1,
        call_ensures(Assignment::lits, (sol,), lits),
    ensures
        lits@.contains(l) <==> l.lidx as int / 2 < sol.values@.len() && sol.values@[l.lidx as int
            / 2] == if l.lidx % 2 == 1 {
            TernaryVal::False
        } else {
            TernaryVal::True
        },
{
    lemma_true_lits(sol@, l);
}

/// Variables come in order, without gaps.
pub proof fn law_variables_in_order()
    ensures
        forall|m: &mut VarManager, var: Var| #[trigger]
            call_ensures(VarManager::new_var, (m,), var) ==> var.idx == m.next && final(m).next
                == m.next + 1,
        forall|next: u32, vm: VarManager| #[trigger]
            call_ensures(VarManager::from_next_free, (next,), vm) ==> vm.next == next,
        forall|vm: &VarManager, var: Option<Var>| #[trigger]
            call_ensures(VarManager::max_var, (vm,), var) ==> match var {
                Some(v) => v.idx + 1 == vm.next,
                None => vm.next == 0,
            },
{
}

/// A clause is satisfied by one true literal, and clauses are satisfied one by
/// one. A negated literal is true if its variable is not.
pub proof fn law_truth(a: Valuation, cl: Seq<Lit>, cnf: Seq<Seq<Lit>>)
    ensures
        clause_holds(a, cl) <==> exists|i: int|
            0 <= i < cl.len() && (a.contains((#[trigger] cl[i]).lidx as int / 2) <==> cl[i].lidx % 2
                == 0),
        cnf_holds(a, cnf) <==> forall|i: int|
            0 <= i < cnf.len() ==> clause_holds(a, #[trigger] cnf[i]),
{
    if clause_holds(a, cl) {
        let i = choose|i: int|
            0 <= i < cl.len() && lit_holds(a, #[trigger] cl[i]);
        assert(a.contains(cl[i].lidx as int / 2) <==> cl[i].lidx % 2 == 0);
    }
    if exists|i: int|
        0 <= i < cl.len() && (a.contains((#[trigger] cl[i]).lidx as int / 2) <==> cl[i].lidx % 2
            == 0) {
        let i = choose|i: int|
            0 <= i < cl.len() && (a.contains((#[trigger] cl[i]).lidx as int / 2) <==> cl[i].lidx
                % 2 == 0);
        assert(lit_holds(a, cl[i]));
    }
}

/// One more literal adds its weight to the total, and to the weight of the true
/// literals if it is true.
pub proof fn law_weights_add_up(
    entries: Seq<(Lit, usize)>,
    l: Lit,
    w: usize,
    a: Valuation,
    sol: Seq<TernaryVal>,
)
    ensures
        weight_total(entries.push((l, w))) == weight_total(entries) + w,
        weight_under(entries.push((l, w)), a) == weight_under(entries, a) + if a.contains(
            l.lidx as int / 2,
        ) == (l.lidx % 2 == 0) {
            w as int
        } else {
            0
        },
        weight_assigned(entries.push((l, w)), sol) == weight_assigned(entries, sol) + if l.lidx
            as int / 2 < sol.len() && sol[l.lidx as int / 2] == (if l.lidx % 2 == 1 {
            TernaryVal::False
        } else {
            TernaryVal::True
        }) {
            w as int
        } else {
            0
        },
        weight_total(Seq::empty()) == 0,
        weight_under(Seq::empty(), a) == 0,
        weight_assigned(Seq::empty(), sol) == 0,
        bag_weight(entries.to_multiset(), a) == weight_under(entries, a),
        bag_total(entries.to_multiset()) == weight_total(entries),
{
    assert(entries.push((l, w)).drop_last() =~= entries);
    lemma_bag(entries, a);
}

/// An objective without weights of its own counts each literal once, and a
/// constant has no literals.
pub proof fn law_objective_entries(obj: Objective)
    ensures
        match obj {
            Objective::Weighted { lits, .. } => obj.entries() == lits@,
            Objective::Unweighted { lits, .. } => {
                &&& obj.entries().len() == lits@.len()
                &&& forall|i: int|
                    0 <= i < lits@.len() ==> #[trigger] obj.entries()[i] == (lits@[i], 1usize)
            },
            Objective::Constant { .. } => obj.entries().len() == 0,
        },
{
}

/// A table of blocking literals gives back what was put into it last, and keeps
/// what was there for all other clauses.
pub proof fn law_table_gives_back(cl: Clause, lit: Lit)
    ensures
        forall|m: &mut BlitTable, r: (), other: &Clause, before: Option<Lit>, after: Option<Lit>|
            #![trigger call_ensures(BlitTable::insert, (m, cl, lit), r), call_ensures(
                BlitTable::get,
                (&*m, other),
                before,
            ), call_ensures(BlitTable::get, (&*final(m), other), after)]
            call_ensures(BlitTable::insert, (m, cl, lit), r) && call_ensures(
                BlitTable::get,
                (&*m, other),
                before,
            ) && call_ensures(BlitTable::get, (&*final(m), other), after) ==> after == if other@
                == cl@ {
                Some(lit)
            } else {
                before
            },
        forall|t: BlitTable, other: &Clause, found: Option<Lit>|
            #![trigger call_ensures(BlitTable::new, (), t), call_ensures(
                BlitTable::get,
                (&t, other),
                found,
            )]
            call_ensures(BlitTable::new, (), t) && call_ensures(
                BlitTable::get,
                (&t, other),
                found,
            ) ==> found is None,
{
}

/// A point gives back its costs and, in order, the solutions that were added.
pub proof fn law_points_keep_solutions(costs: Vec<isize>, sol: Assignment)
    ensures
        forall|p: NonDomPoint, c: &Vec<isize>, s: &Vec<Assignment>, n: usize|
            #![trigger call_ensures(NonDomPoint::new, (costs,), p), call_ensures(
                NonDomPoint::costs,
                (&p,),
                c,
            ), call_ensures(NonDomPoint::sols, (&p,), s), call_ensures(
                NonDomPoint::n_sols,
                (&p,),
                n,
            )]
            call_ensures(NonDomPoint::new, (costs,), p) && call_ensures(
                NonDomPoint::costs,
                (&p,),
                c,
            ) && call_ensures(NonDomPoint::sols, (&p,), s) && call_ensures(
                NonDomPoint::n_sols,
                (&p,),
                n,
            ) ==> c@ == costs@ && s@.len() == 0 && n == 0,
        forall|m: &mut NonDomPoint, r: ()| #[trigger]
            call_ensures(NonDomPoint::add_sol, (m, sol), r) ==> {
                &&& final(m)@.costs == m@.costs
                &&& final(m)@.sols.len() == m@.sols.len() + 1
                &&& final(m)@.sols.last() == sol.values@
                &&& forall|i: int|
                    0 <= i < m@.sols.len() ==> #[trigger] final(m)@.sols[i] == m@.sols[i]
            },
        forall|p: &NonDomPoint, s: &Vec<Assignment>, n: usize|
            #![trigger call_ensures(NonDomPoint::sols, (p,), s), call_ensures(
                NonDomPoint::n_sols,
                (p,),
                n,
            )]
            call_ensures(NonDomPoint::sols, (p,), s) && call_ensures(
                NonDomPoint::n_sols,
                (p,),
                n,
            ) ==> {
                &&& n == s@.len()
                &&& p@.sols.len() == s@.len()
                &&& forall|i: int|
                    0 <= i < s@.len() ==> p@.sols[i] == (#[trigger] s@[i]).values@
            },
{
    assert forall|p: &NonDomPoint, s: &Vec<Assignment>| #[trigger]
        call_ensures(NonDomPoint::sols, (p,), s) implies p@.sols.len() == s@.len() && forall|i: int|
        0 <= i < s@.len() ==> p@.sols[i] == (#[trigger] s@[i]).values@ by {
        assert forall|i: int| 0 <= i < s@.len() implies p@.sols[i] == (#[trigger] s@[i]).values@ by {
            assert(sol_views(s@)[i] == s@[i]@);
        }
    }
}

/// A front holds the points that were added, in order, and starts empty.
pub proof fn law_fronts_keep_points(pp: NonDomPoint)
    ensures
        forall|f: ParetoFront, pps: &Vec<NonDomPoint>|
            #![trigger call_ensures(ParetoFront::new, (), f), call_ensures(
                ParetoFront::points,
                (&f,),
                pps,
            )]
            call_ensures(ParetoFront::new, (), f) && call_ensures(ParetoFront::points, (&f,), pps)
                ==> pps@.len() == 0,
        forall|m: &mut ParetoFront, r: (), before: &Vec<NonDomPoint>, after: &Vec<NonDomPoint>|
            #![trigger call_ensures(ParetoFront::add_pp, (m, pp), r), call_ensures(
                ParetoFront::points,
                (&*m,),
                before,
            ), call_ensures(ParetoFront::points, (&*final(m),), after)]
            call_ensures(ParetoFront::add_pp, (m, pp), r) && call_ensures(
                ParetoFront::points,
                (&*m,),
                before,
            ) && call_ensures(ParetoFront::points, (&*final(m),), after) ==> {
                &&& after@.len() == before@.len() + 1
                &&& after@.last()@ == pp@
                &&& forall|i: int|
                    0 <= i < before@.len() ==> (#[trigger] after@[i])@ == before@[i]@
            },
{
    assert forall|f: &ParetoFront, pps: &Vec<NonDomPoint>| #[trigger]
        call_ensures(ParetoFront::points, (f,), pps) implies pps@.len() == f@.len() && forall|i: int|
        0 <= i < f@.len() ==> (#[trigger] pps@[i])@ == f@[i] by {
        assert(point_views(pps@).len() == pps@.len());
        assert forall|i: int| 0 <= i < f@.len() implies (#[trigger] pps@[i])@ == f@[i] by {
            assert(point_views(pps@)[i] == pps@[i]@);
        }
    }
}

/// A limit of `k` events is down by one after each of them and is reached at the
/// last; without a limit nothing ends. A failure of the logger comes first.
pub proof fn law_limits_count_events(reply: Result<(), LoggerError>, reached: Termination)
    ensures
        forall|m: &mut Option<usize>, r: Result<(), Termination>| #[trigger]
            call_ensures(settle, (m, reply, reached), r) && *m != Some(0usize) ==> {
                &&& reply matches Err(e) ==> *final(m) == *m && r == Err::<(), Termination>(
                    Termination::LoggerError(e),
                )
                &&& reply is Ok && *m is None ==> *final(m) is None && r is Ok
                &&& reply is Ok && *m is Some ==> {
                    &&& *final(m) is Some
                    &&& final(m)->0 == m->0 - 1
                    &&& r is Err <==> final(m)->0 == 0
                    &&& r is Err ==> r->Err_0 == reached
                }
            },
        forall|l: Limits| #[trigger]
            call_ensures(Limits::none, (), l) ==> l.pps is None && l.sols is None
                && l.candidates is None && l.oracle_calls is None,
        forall|t: &Termination, b: bool| #[trigger]
            call_ensures(Termination::is_error, (t,), b) ==> (b <==> *t is LoggerError
                || *t is OracleError),
{
}

/// The default blocking clause of a solution is violated by exactly those
/// assignments that give all variables with a value that value.
pub proof fn law_default_clause(sol: Assignment, cl: Clause, a: Valuation)
    requires
        sol.values@.len() <= MAX_VAR_IDX + 1,
        call_ensures(default_blocking_clause, (sol,), cl),
    ensures
        clause_holds(a, cl@) <==> exists|v: int|
            {
                &&& 0 <= v < sol.values@.len()
                &&& #[trigger] sol.values@[v] != TernaryVal::DontCare
                &&& a.contains(v) != (sol.values@[v] == TernaryVal::True)
            },
{
    law_default_clause_blocks_solution(sol@, a);
}

/// A clause has the literals that it was made of or that were added, in order,
/// and is the same as another one exactly if all literals are.
pub proof fn law_clauses_keep_literals(lit: Lit, lits: Vec<Lit>)
    ensures
        forall|cl: Clause| #[trigger] call_ensures(Clause::new, (), cl) ==> cl.lits@.len() == 0,
        forall|cl: Clause| #[trigger]
            call_ensures(Clause::from_lits, (lits,), cl) ==> cl.lits@ == lits@,
        forall|m: &mut Clause, r: ()| #[trigger]
            call_ensures(Clause::add, (m, lit), r) ==> {
                &&& final(m).lits@.len() == m.lits@.len() + 1
                &&& final(m).lits@.last() == lit
                &&& forall|i: int|
                    0 <= i < m.lits@.len() ==> #[trigger] final(m).lits@[i] == m.lits@[i]
            },
        forall|cl: &Clause, n: usize| #[trigger]
            call_ensures(Clause::len, (cl,), n) ==> n == cl.lits@.len(),
        forall|cl: &Clause, other: &Clause, b: bool| #[trigger]
            call_ensures(Clause::same, (cl, other), b) ==> (b <==> cl.lits@.len()
                == other.lits@.len() && forall|i: int|
                0 <= i < cl.lits@.len() ==> #[trigger] cl.lits@[i] == other.lits@[i]),
        forall|cl: &Clause, copy: Clause| #[trigger]
            call_ensures(<Clause as Clone>::clone, (cl,), copy) ==> copy.lits@ == cl.lits@,
        forall|sol: &Assignment, copy: Assignment| #[trigger]
            call_ensures(<Assignment as Clone>::clone, (sol,), copy) ==> copy.values@
                == sol.values@,
{
    assert forall|cl: &Clause, other: &Clause, b: bool| #[trigger]
        call_ensures(Clause::same, (cl, other), b) implies (b <==> cl.lits@.len()
        == other.lits@.len() && forall|i: int|
        0 <= i < cl.lits@.len() ==> #[trigger] cl.lits@[i] == other.lits@[i]) by {
        if cl.lits@.len() == other.lits@.len() && forall|i: int|
            0 <= i < cl.lits@.len() ==> #[trigger] cl.lits@[i] == other.lits@[i] {
            assert(cl.lits@ =~= other.lits@);
        }
    }
}

/// What can be read of an objective: its offset, and its literals with their
/// weights, one by one or all at once.
pub proof fn law_objectives_are_readable(obj: &Objective)
    ensures
        forall|offset: isize| #[trigger]
            call_ensures(Objective::offset, (obj,), offset) ==> match *obj {
                Objective::Weighted { offset: o, .. } => offset == o,
                Objective::Unweighted { offset: o, .. } => offset == o,
                Objective::Constant { offset: o } => offset == o,
            },
        forall|n: usize| #[trigger]
            call_ensures(Objective::len, (obj,), n) ==> match *obj {
                Objective::Weighted { lits, .. } => n == lits@.len(),
                Objective::Unweighted { lits, .. } => n == lits@.len(),
                Objective::Constant { .. } => n == 0,
            },
        forall|i: usize, e: (Lit, usize)| #[trigger]
            call_ensures(Objective::entry, (obj, i), e) ==> match *obj {
                Objective::Weighted { lits, .. } => i < lits@.len() ==> e == lits@[i as int],
                Objective::Unweighted { lits, .. } => i < lits@.len() ==> e.0 == lits@[i as int]
                    && e.1 == 1,
                Objective::Constant { .. } => true,
            },
        forall|all: Vec<(Lit, usize)>| #[trigger]
            call_ensures(Objective::iter, (obj,), all) ==> match *obj {
                Objective::Weighted { lits, .. } => all@ == lits@,
                Objective::Unweighted { lits, .. } => all@.len() == lits@.len() && forall|i: int|
                    0 <= i < lits@.len() ==> #[trigger] all@[i] == (lits@[i], 1usize),
                Objective::Constant { .. } => all@.len() == 0,
            },
{
}

/// Collected weights are put last for a literal that is new. For a literal that
/// is known, adding makes it heavier by the weight, and inserting gives it the
/// weight; no other literal changes. Adding nothing changes nothing.
pub proof fn law_collected_weights(l: Lit, w: usize)
    ensures
        forall|t: LitWeights| #[trigger] call_ensures(LitWeights::new, (), t) ==> t@.len() == 0,
        forall|t: LitWeights, entries: Vec<(Lit, usize)>| #[trigger]
            call_ensures(LitWeights::into_entries, (t,), entries) ==> entries@ == t@,
        forall|m: &mut LitWeights, r: ()| #[trigger]
            call_ensures(LitWeights::insert, (m, l, w), r) ==> {
                let known = exists|p: int| 0 <= p < m@.len() && (#[trigger] m@[p]).0 == l;
                &&& !known ==> final(m)@ == m@.push((l, w))
                &&& known ==> exists|p: int|
                    {
                        &&& 0 <= p < m@.len()
                        &&& (#[trigger] m@[p]).0 == l
                        &&& final(m)@ == m@.update(p, (l, w))
                    }
            },
        forall|m: &mut LitWeights, r: ()| #[trigger]
            call_ensures(LitWeights::add, (m, l, w), r) ==> {
                let known = exists|p: int| 0 <= p < m@.len() && (#[trigger] m@[p]).0 == l;
                &&& w == 0 ==> final(m)@ == m@
                &&& w > 0 && !known ==> final(m)@ == m@.push((l, w))
                &&& w > 0 && known ==> exists|p: int|
                    {
                        &&& 0 <= p < m@.len()
                        &&& (#[trigger] m@[p]).0 == l
                        &&& final(m)@ == m@.update(p, (l, (m@[p].1 + w) as usize))
                    }
            },
{
    assert forall|m: &mut LitWeights, r: ()| #[trigger]
        call_ensures(LitWeights::insert, (m, l, w), r) && has_lit(m@, l) implies exists|p: int|
        {
            &&& 0 <= p < m@.len()
            &&& (#[trigger] m@[p]).0 == l
            &&& final(m)@ == m@.update(p, (l, w))
        } by {
        assert(m@[place_of(m@, l)].0 == l);
    }
    assert forall|m: &mut LitWeights, r: ()| #[trigger]
        call_ensures(LitWeights::add, (m, l, w), r) && w > 0 && has_lit(m@, l) implies exists|p: int|
        {
            &&& 0 <= p < m@.len()
            &&& (#[trigger] m@[p]).0 == l
            &&& final(m)@ == m@.update(p, (l, (m@[p].1 + w) as usize))
        } by {
        assert(m@[place_of(m@, l)].0 == l);
    }
}

/// Converting the solutions of a front keeps all points, their costs and the
/// number of their solutions, in order, and replaces each solution by what the
/// conversion gives for it.
pub proof fn law_fronts_are_converted<C: Fn(&Assignment) -> Assignment>(
    front: &ParetoFront,
    conv: &C,
    f: ParetoFront,
    i: int,
    j: int,
)
    requires
        call_ensures(ParetoFront::convert_solutions::<C>, (front, conv), f),
    ensures
        f@.len() == front@.len(),
        0 <= i < front@.len() ==> f@[i].costs == front@[i].costs && f@[i].sols.len()
            == front@[i].sols.len(),
        0 <= i < front@.len() && 0 <= j < front@[i].sols.len() ==> exists|s: Assignment, t: Assignment|
            {
                &&& #[trigger] conv.ensures((&s,), t)
                &&& s.values@ == front@[i].sols[j]
                &&& t.values@ == f@[i].sols[j]
            },
{
    if 0 <= i < front@.len() {
        assert(points_match(front@[i], f@[i], conv));
    }
    if 0 <= i < front@.len() && 0 <= j < front@[i].sols.len() {
        assert(converts(conv, front@[i].sols[j], f@[i].sols[j]));
    }
}

/// Copying a front or a point changes nothing.
pub proof fn law_copies_are_the_same(front: &ParetoFront, point: &NonDomPoint)
    ensures
        forall|f: ParetoFront| #[trigger]
            call_ensures(<ParetoFront as Clone>::clone, (front,), f) ==> f@ == front@,
        forall|p: NonDomPoint| #[trigger]
            call_ensures(<NonDomPoint as Clone>::clone, (point,), p) ==> p@ == point@,
{
}

/// The literals that are true come in the order of their variables.
proof fn lemma_true_lits_ascend(sol: Seq<TernaryVal>)
    requires
        sol.len() <= MAX_VAR_IDX + 1,
    ensures
        forall|i: int|
            0 <= i < true_lits(sol).len() ==> (#[trigger] true_lits(sol)[i]).lidx as int / 2
                < sol.len(),
        forall|i: int, j: int|
            0 <= i < j < true_lits(sol).len() ==> (#[trigger] true_lits(sol)[i]).lidx as int / 2 < (
            #[trigger] true_lits(sol)[j]).lidx as int / 2,
    decreases sol.len(),
{
    if sol.len() > 0 {
        let n = sol.len() - 1;
        lemma_true_lits_ascend(sol.drop_last());
        lemma_over(n, true);
        lemma_over(n, false);
        let rest = true_lits(sol.drop_last());
        let all = true_lits(sol);
        assert forall|i: int| 0 <= i < all.len() implies if i < rest.len() {
            (#[trigger] all[i]) == rest[i]
        } else {
            i == rest.len() && all[i].lidx as int / 2 == n
        } by {}
    }
}

/// The literals of an assignment come in the order of their variables, and so
/// each once. The default blocking clause has the opposite of each of them, in
/// the same order.
pub proof fn law_listed_literals_in_order(sol: Assignment, lits: Vec<Lit>, cl: Clause)
    requires
        sol.values@.len() <= MAX_VAR_IDX + 1,
        call_ensures(Assignment::lits, (&sol,), lits),
        call_ensures(default_blocking_clause, (sol,), cl),
    ensures
        forall|i: int, j: int|
            0 <= i < j < lits@.len() ==> (#[trigger] lits@[i]).lidx as int / 2 < (
            #[trigger] lits@[j]).lidx as int / 2,
        cl.lits@.len() == lits@.len(),
        forall|i: int|
            0 <= i < lits@.len() ==> (#[trigger] cl.lits@[i]).lidx != lits@[i].lidx
                && cl.lits@[i].lidx as int / 2 == lits@[i].lidx as int / 2,
{
    lemma_true_lits_ascend(sol@);
    assert forall|i: int| 0 <= i < lits@.len() implies (#[trigger] cl.lits@[i]).lidx
        != lits@[i].lidx && cl.lits@[i].lidx as int / 2 == lits@[i].lidx as int / 2 by {
        lemma_flipped(lits@[i]);
    }
}

} // verus!
