//! What computing costs does, said of the arguments and results of the calls.
use vstd::prelude::*;

use crate::config::Termination;
use crate::costs::{CostSearch, CostStep};
use crate::kernel::SolverKernel;
use crate::logging::WriteSolverLog;
use crate::objective::Objective;
use crate::semantics::{weight_assigned, weight_total};
use crate::types::{lemma_lit_of_parts, Assignment, Lit, TernaryVal};

verus! {

/// A literal that the oracle has flipped is false in the solution at hand,
/// whatever its weight: its variable has the value that makes it false. No other
/// variable changes, the cost at hand stays, and what was saved grows by the
/// weight.
pub proof fn law_flipped_literals_are_false()
    ensures
        forall|m: &mut CostSearch, r: ()| #[trigger]
            call_ensures(CostSearch::answer, (m, true), r) && m@.asked is Some ==> {
                let (l, w) = m@.asked->0;
                let var = l.lidx as int / 2;
                &&& var < final(m)@.sol.len()
                &&& final(m)@.sol[var] == if l.lidx % 2 == 1 {
                    TernaryVal::True
                } else {
                    TernaryVal::False
                }
                &&& forall|i: int|
                    0 <= i < m@.sol.len() && i != var ==> #[trigger] final(m)@.sol[i] == m@.sol[i]
                &&& forall|i: int|
                    m@.sol.len() <= i < final(m)@.sol.len() && i != var ==>
                        #[trigger] final(m)@.sol[i] == TernaryVal::DontCare
                &&& m@.sol.len() <= final(m)@.sol.len()
                &&& final(m)@.cost == m@.cost
                &&& final(m)@.reduction == m@.reduction + w
                &&& final(m)@.pos == m@.pos + 1
                &&& final(m)@.obj == m@.obj
                &&& final(m)@.costs == m@.costs
                &&& final(m)@.tightening == m@.tightening
                &&& final(m)@.asked is None
            },
{
    assert forall|m: &mut CostSearch, r: ()| #[trigger]
        call_ensures(CostSearch::answer, (m, true), r) && m@.asked is Some implies {
        let (l, w) = m@.asked->0;
        l.lidx as int / 2 < final(m)@.sol.len()
    } by {
        lemma_lit_of_parts((m@.asked->0).0);
    }
}

/// A literal that the oracle has kept counts with its weight, and the solution
/// stays as it is.
pub proof fn law_kept_literals_count()
    ensures
        forall|m: &mut CostSearch, r: ()| #[trigger]
            call_ensures(CostSearch::answer, (m, false), r) && m@.asked is Some ==> {
                &&& final(m)@.sol == m@.sol
                &&& final(m)@.cost == m@.cost + (m@.asked->0).1
                &&& final(m)@.reduction == m@.reduction
                &&& final(m)@.pos == m@.pos + 1
                &&& final(m)@.obj == m@.obj
                &&& final(m)@.costs == m@.costs
                &&& final(m)@.tightening == m@.tightening
                &&& final(m)@.asked is None
            },
{
}

/// However the oracle answers, the cost at hand and what was saved together grow
/// by the weight of the literal, and by nothing else.
pub proof fn law_answers_share_the_weight(flipped: bool)
    ensures
        forall|m: &mut CostSearch, r: ()| #[trigger]
            call_ensures(CostSearch::answer, (m, flipped), r) && m@.asked is Some ==> {
                let counted = final(m)@.cost - m@.cost;
                let saved = final(m)@.reduction - m@.reduction;
                &&& counted >= 0
                &&& saved >= 0
                &&& counted + saved == (m@.asked->0).1
            },
{
}

/// Whether a literal is in one of the objectives.
pub open spec fn occurs(objs: Seq<Objective>, l: Lit) -> bool {
    exists|i: int, p: int|
        0 <= i < objs.len() && 0 <= p < objs[i].entries().len() && #[trigger] (
        objs[i].entries()[p]).0 == l
}

/// A step asks the oracle exactly if the literal at hand is true, the solution
/// is to be improved and the opposite literal is in no objective. Otherwise a
/// true literal counts with its weight and a literal that is not true does not
/// count. Behind the last literal the cost is reported, and behind the last
/// objective all is done. A step never changes the solution.
pub proof fn law_cost_steps<L: WriteSolverLog, T>()
    ensures
        forall|m: &mut SolverKernel<L, T>, s: &mut CostSearch, r: Result<CostStep, Termination>|
            #[trigger] call_ensures(SolverKernel::<L, T>::step_costs, (m, s), r)
                && s@.on_course(m.objs@) ==> {
                let objs = m.objs@;
                let (l, w) = objs[s@.obj].entries()[s@.pos];
                let var = l.lidx as int / 2;
                let holds = var < s@.sol.len() && s@.sol[var] == if l.lidx % 2 == 1 {
                    TernaryVal::False
                } else {
                    TernaryVal::True
                };
                &&& final(s)@.sol == s@.sol
                &&& final(s)@.tightening == s@.tightening
                &&& final(m).objs == m.objs
                &&& final(m).stats == m.stats
                &&& final(m).lims == m.lims
                &&& final(m).pareto_front == m.pareto_front
                &&& final(m).var_manager == m.var_manager
                &&& r is Err ==> m.logger is Some && s@.tightening && final(s)@ == s@
                &&& s@.obj == objs.len() ==> r == Ok::<CostStep, Termination>(CostStep::Finished)
                    && final(s)@ == s@
                &&& s@.obj < objs.len() && s@.pos < objs[s@.obj].entries().len() ==> {
                    let asks = holds && s@.tightening && !occurs(objs, l.flipped());
                    &&& r == Ok::<CostStep, Termination>(
                        if asks {
                            CostStep::Flip(l.flipped())
                        } else {
                            CostStep::Moved
                        },
                    )
                    &&& final(s)@.asked == if asks {
                        Some((l, w))
                    } else {
                        None
                    }
                    &&& final(s)@.pos == if asks {
                        s@.pos
                    } else {
                        s@.pos + 1
                    }
                    &&& final(s)@.cost == s@.cost + if holds && !asks {
                        w as int
                    } else {
                        0
                    }
                    &&& final(s)@.reduction == s@.reduction
                    &&& final(s)@.obj == s@.obj
                    &&& final(s)@.costs == s@.costs
                }
                &&& s@.obj < objs.len() && s@.pos == objs[s@.obj].entries().len() ==> {
                    &&& m.logger is None || !s@.tightening ==> r is Ok
                    &&& r is Ok ==> {
                        &&& r == Ok::<CostStep, Termination>(CostStep::Moved)
                        &&& final(s)@.costs == s@.costs.push(s@.cost as usize)
                        &&& final(s)@.obj == s@.obj + 1
                        &&& final(s)@.pos == 0
                        &&& final(s)@.cost == 0
                        &&& final(s)@.reduction == 0
                        &&& final(s)@.asked is None
                    }
                }
            },
{
    assert forall|
        m: &mut SolverKernel<L, T>,
        s: &mut CostSearch,
        r: Result<CostStep, Termination>,
    | #[trigger]
        call_ensures(SolverKernel::<L, T>::step_costs, (m, s), r) && s@.on_course(m.objs@)
            && s@.obj < m.objs@.len() && s@.pos < m.objs@[s@.obj].entries().len() implies s@.asks(
        m.objs@,
    ) == {
        let (l, w) = m.objs@[s@.obj].entries()[s@.pos];
        s@.at_true(m.objs@) && s@.tightening && !occurs(m.objs@, l.flipped())
    } by {
    }
}

/// Computing costs starts with the given solution, at the first literal of the
/// first objective, with nothing counted and nothing asked.
pub proof fn law_costs_start_at_zero<L, T>(
    kernel: &SolverKernel<L, T>,
    sol: Assignment,
    tightening: bool,
    search: CostSearch,
)
    requires
        call_ensures(SolverKernel::<L, T>::start_costs, (kernel, sol, tightening), search),
    ensures
        search@.sol == sol.values@,
        search@.first == sol.values@,
        search@.tightening == tightening,
        search@.obj == 0,
        search@.pos == 0,
        search@.cost == 0,
        search@.reduction == 0,
        search@.costs.len() == 0,
        search@.asked is None,
{
}

/// The reported costs of a search that is done, and its solution: the solution
/// has at most these costs, and no objective costs more than at the start.
pub proof fn law_reported_costs_cover_the_solution<L, T>(
    kernel: SolverKernel<L, T>,
    search: CostSearch,
    r: (Vec<usize>, Assignment),
    i: int,
)
    requires
        search@.on_course(kernel.objs@),
        search@.obj == kernel.objs@.len(),
        call_ensures(CostSearch::into_result, (search,), r),
        0 <= i < kernel.objs@.len(),
    ensures
        r.0@.len() == kernel.objs@.len(),
        r.1@ == search@.sol,
        weight_assigned(kernel.objs@[i].entries(), r.1@) <= r.0@[i] <= weight_assigned(
            kernel.objs@[i].entries(),
            search@.first,
        ),
        !search@.tightening ==> weight_assigned(kernel.objs@[i].entries(), r.1@) == r.0@[i],
{
}

/// The weights fit exactly if every objective weighs at most the largest number.
pub proof fn law_weights_fit<L, T>(kernel: &SolverKernel<L, T>, b: bool)
    requires
        call_ensures(SolverKernel::<L, T>::weights_fit, (kernel,), b),
    ensures
        b ==> forall|i: int|
            0 <= i < kernel.objs@.len() ==> weight_total((#[trigger] kernel.objs@[i]).entries())
                <= usize::MAX,
        !b ==> exists|i: int|
            0 <= i < kernel.objs@.len() && weight_total((#[trigger] kernel.objs@[i]).entries())
                > usize::MAX,
{
}

/// Where the solution is improved, the logger is told of each objective that is
/// done, with its cost before and after the improvement, and of nothing else.
pub proof fn law_improvements_are_told<L: WriteSolverLog, T>()
    ensures
        forall|m: &mut SolverKernel<L, T>, s: &mut CostSearch, r: Result<CostStep, Termination>|
            #[trigger] call_ensures(SolverKernel::<L, T>::step_costs, (m, s), r)
                && s@.on_course(m.objs@) && s@.in_range(m.objs@) && m.logger is Some ==> {
                let tells = s@.tightening && s@.obj < m.objs@.len() && s@.pos
                    == m.objs@[s@.obj].entries().len();
                &&& !tells ==> final(m).logger == m.logger && r is Ok
                &&& tells ==> exists|l: &mut L, obj: usize, apparent: usize, improved: usize, reply|
                    {
                        &&& #[trigger] call_ensures(
                            L::log_heuristic_obj_improvement,
                            (l, obj, apparent, improved),
                            reply,
                        )
                        &&& *l == m.logger->0
                        &&& *final(l) == final(m).logger->0
                        &&& obj == s@.obj as usize
                        &&& apparent == (s@.cost + s@.reduction) as usize
                        &&& improved == s@.cost as usize
                        &&& r is Ok <==> reply is Ok
                    }
            },
{
}

/// An answer can be given whenever something was asked and sums stay in range,
/// and a step can be made whenever nothing is left to be answered.
pub proof fn law_costs_can_be_computed<L: WriteSolverLog, T>(flipped: bool)
    ensures
        forall|m: &mut CostSearch|
            m@.asked is Some && m@.cost + (m@.asked->0).1 <= usize::MAX && m@.reduction + (
            m@.asked->0).1 <= usize::MAX && m@.pos < usize::MAX ==> #[trigger] call_requires(
                CostSearch::answer,
                (m, flipped),
            ),
        forall|m: &mut SolverKernel<L, T>, s: &mut CostSearch|
            m.wf() && s@.on_course(m.objs@) && s@.in_range(m.objs@) && s@.asked is None
                ==> #[trigger] call_requires(SolverKernel::<L, T>::step_costs, (m, s)),
{
}

} // verus!
