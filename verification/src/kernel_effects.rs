//! What the kernel does on its own, said of the arguments and results of the
//! calls.
use rustsat::instances::ReindexingVarManager;
use vstd::prelude::*;

use crate::config::{ControlSignal, Limits, Phase, SolverResult, Termination};
use crate::cost_effects::occurs;
use crate::front::{NonDomPoint, ParetoFront};
use crate::kernel::{representable, SolverKernel};
use crate::logging::WriteSolverLog;
use crate::objective::Objective;
use crate::reindex::{law_reversing_keeps_values, renamed_from, reverse_solution};
use crate::solve::KernelFunctions;
use crate::types::{
    lemma_flipped, lemma_true_lits, Assignment, Clause, Lit, TernaryVal, Var,
    MAX_VAR_IDX,
};
use crate::yielding::YieldRun;

verus! {

/// What becomes of a limit and what is returned when an event passes the logger:
/// without a limit nothing happens, and a limit is one lower and ends solving
/// when nothing is left of it.
pub open spec fn counted_down(
    before: Option<usize>,
    after: Option<usize>,
    r: Result<(), Termination>,
    reached: Termination,
) -> bool {
    &&& before is None ==> after is None && r is Ok
    &&& before is Some ==> {
        &&& after is Some
        &&& after->0 == before->0 - 1
        &&& before->0 == 1 ==> r == Err::<(), Termination>(reached)
        &&& before->0 > 1 ==> r is Ok
    }
}

/// Whether only what is kept of statistics, limits and the logger may differ.
pub open spec fn same_search<L, T>(before: SolverKernel<L, T>, after: SolverKernel<L, T>) -> bool {
    &&& after.var_manager == before.var_manager
    &&& after.obj_lit_data == before.obj_lit_data
    &&& after.max_orig_var == before.max_orig_var
    &&& after.objs == before.objs
    &&& after.pareto_front == before.pareto_front
    &&& after.opts == before.opts
    &&& after.term_cb == before.term_cb
    &&& after.stats.n_solve_calls == before.stats.n_solve_calls
    &&& after.stats.n_objs == before.stats.n_objs
    &&& after.stats.n_orig_clauses == before.stats.n_orig_clauses
    &&& after.logger is Some <==> before.logger is Some
}

/// A candidate is counted, the logger is told of it, and if that does not fail
/// the limit on candidates decides.
pub proof fn law_candidates_are_counted<L: WriteSolverLog, T>(costs: &Vec<usize>, phase: Phase)
    ensures
        forall|m: &mut SolverKernel<L, T>, r: Result<(), Termination>| #[trigger]
            call_ensures(SolverKernel::<L, T>::log_candidate, (m, costs, phase), r)
                && m.stats.n_candidates < usize::MAX && m.lims.candidates != Some(0usize) ==> {
                &&& same_search(*m, *final(m))
                &&& final(m).stats.n_candidates == m.stats.n_candidates + 1
                &&& final(m).stats.n_oracle_calls == m.stats.n_oracle_calls
                &&& final(m).stats.n_solutions == m.stats.n_solutions
                &&& final(m).stats.n_pareto_points == m.stats.n_pareto_points
                &&& final(m).lims.oracle_calls == m.lims.oracle_calls
                &&& final(m).lims.sols == m.lims.sols
                &&& final(m).lims.pps == m.lims.pps
                &&& m.logger is None ==> counted_down(
                    m.lims.candidates,
                    final(m).lims.candidates,
                    r,
                    Termination::CandidatesLimit,
                )
                &&& m.logger is Some ==> exists|l: &mut L, reply|
                    {
                        &&& #[trigger] call_ensures(L::log_candidate, (l, costs, phase), reply)
                        &&& *l == m.logger->0
                        &&& *final(l) == final(m).logger->0
                        &&& reply is Ok ==> counted_down(
                            m.lims.candidates,
                            final(m).lims.candidates,
                            r,
                            Termination::CandidatesLimit,
                        )
                        &&& reply matches Err(e) ==> final(m).lims.candidates
                            == m.lims.candidates && r == Err::<(), Termination>(
                            Termination::LoggerError(e),
                        )
                    }
            },
{
}

/// A call of the oracle is counted, the logger is told of the answer, and if that
/// does not fail the limit on oracle calls decides.
pub proof fn law_oracle_calls_are_counted<L: WriteSolverLog, T>(res: SolverResult)
    ensures
        forall|m: &mut SolverKernel<L, T>, r: Result<(), Termination>| #[trigger]
            call_ensures(SolverKernel::<L, T>::log_oracle_call, (m, res), r)
                && m.stats.n_oracle_calls < usize::MAX && m.lims.oracle_calls != Some(0usize)
                ==> {
                &&& same_search(*m, *final(m))
                &&& final(m).stats.n_oracle_calls == m.stats.n_oracle_calls + 1
                &&& final(m).stats.n_candidates == m.stats.n_candidates
                &&& final(m).stats.n_solutions == m.stats.n_solutions
                &&& final(m).stats.n_pareto_points == m.stats.n_pareto_points
                &&& final(m).lims.candidates == m.lims.candidates
                &&& final(m).lims.sols == m.lims.sols
                &&& final(m).lims.pps == m.lims.pps
                &&& m.logger is None ==> counted_down(
                    m.lims.oracle_calls,
                    final(m).lims.oracle_calls,
                    r,
                    Termination::OracleCallsLimit,
                )
                &&& m.logger is Some ==> exists|l: &mut L, reply|
                    {
                        &&& #[trigger] call_ensures(L::log_oracle_call, (l, res), reply)
                        &&& *l == m.logger->0
                        &&& *final(l) == final(m).logger->0
                        &&& reply is Ok ==> counted_down(
                            m.lims.oracle_calls,
                            final(m).lims.oracle_calls,
                            r,
                            Termination::OracleCallsLimit,
                        )
                        &&& reply matches Err(e) ==> final(m).lims.oracle_calls
                            == m.lims.oracle_calls && r == Err::<(), Termination>(
                            Termination::LoggerError(e),
                        )
                    }
            },
{
}

/// A solution is counted, the logger is told of it, and if that does not fail
/// the limit on solutions decides.
pub proof fn law_solutions_are_counted<L: WriteSolverLog, T>()
    ensures
        forall|m: &mut SolverKernel<L, T>, r: Result<(), Termination>| #[trigger]
            call_ensures(SolverKernel::<L, T>::log_solution, (m,), r) && m.stats.n_solutions
                < usize::MAX && m.lims.sols != Some(0usize) ==> {
                &&& same_search(*m, *final(m))
                &&& final(m).stats.n_solutions == m.stats.n_solutions + 1
                &&& final(m).stats.n_candidates == m.stats.n_candidates
                &&& final(m).stats.n_oracle_calls == m.stats.n_oracle_calls
                &&& final(m).stats.n_pareto_points == m.stats.n_pareto_points
                &&& final(m).lims.candidates == m.lims.candidates
                &&& final(m).lims.oracle_calls == m.lims.oracle_calls
                &&& final(m).lims.pps == m.lims.pps
                &&& m.logger is None ==> counted_down(
                    m.lims.sols,
                    final(m).lims.sols,
                    r,
                    Termination::SolsLimit,
                )
                &&& m.logger is Some ==> exists|l: &mut L, reply|
                    {
                        &&& #[trigger] call_ensures(L::log_solution, (l,), reply)
                        &&& *l == m.logger->0
                        &&& *final(l) == final(m).logger->0
                        &&& reply is Ok ==> counted_down(
                            m.lims.sols,
                            final(m).lims.sols,
                            r,
                            Termination::SolsLimit,
                        )
                        &&& reply matches Err(e) ==> final(m).lims.sols == m.lims.sols && r
                            == Err::<(), Termination>(Termination::LoggerError(e))
                    }
            },
{
}

/// A point is counted, the logger is told of it, and if that does not fail the
/// limit on points decides.
pub proof fn law_points_are_counted<L: WriteSolverLog, T>(point: &NonDomPoint)
    ensures
        forall|m: &mut SolverKernel<L, T>, r: Result<(), Termination>| #[trigger]
            call_ensures(SolverKernel::<L, T>::log_pareto_point, (m, point), r)
                && m.stats.n_pareto_points < usize::MAX && m.lims.pps != Some(0usize) ==> {
                &&& same_search(*m, *final(m))
                &&& final(m).stats.n_pareto_points == m.stats.n_pareto_points + 1
                &&& final(m).stats.n_candidates == m.stats.n_candidates
                &&& final(m).stats.n_oracle_calls == m.stats.n_oracle_calls
                &&& final(m).stats.n_solutions == m.stats.n_solutions
                &&& final(m).lims.candidates == m.lims.candidates
                &&& final(m).lims.oracle_calls == m.lims.oracle_calls
                &&& final(m).lims.sols == m.lims.sols
                &&& m.logger is None ==> counted_down(
                    m.lims.pps,
                    final(m).lims.pps,
                    r,
                    Termination::PPLimit,
                )
                &&& m.logger is Some ==> exists|l: &mut L, reply|
                    {
                        &&& #[trigger] call_ensures(L::log_pareto_point, (l, point), reply)
                        &&& *l == m.logger->0
                        &&& *final(l) == final(m).logger->0
                        &&& reply is Ok ==> counted_down(
                            m.lims.pps,
                            final(m).lims.pps,
                            r,
                            Termination::PPLimit,
                        )
                        &&& reply matches Err(e) ==> final(m).lims.pps == m.lims.pps && r
                            == Err::<(), Termination>(Termination::LoggerError(e))
                    }
            },
{
}

/// The logger is told of an improvement with the objective and both costs, and
/// nothing else happens. Only the logger can fail.
pub proof fn law_improvements_are_logged<L: WriteSolverLog, T>(
    obj: usize,
    apparent: usize,
    improved: usize,
)
    ensures
        forall|m: &mut SolverKernel<L, T>, r: Result<(), Termination>| #[trigger]
            call_ensures(
                SolverKernel::<L, T>::log_heuristic_obj_improvement,
                (m, obj, apparent, improved),
                r,
            ) ==> {
                &&& same_search(*m, *final(m))
                &&& final(m).stats == m.stats
                &&& final(m).lims == m.lims
                &&& m.logger is None ==> r is Ok
                &&& m.logger is Some ==> exists|l: &mut L, reply|
                    {
                        &&& #[trigger] call_ensures(
                            L::log_heuristic_obj_improvement,
                            (l, obj, apparent, improved),
                            reply,
                        )
                        &&& *l == m.logger->0
                        &&& *final(l) == final(m).logger->0
                        &&& reply is Ok ==> r is Ok
                        &&& reply matches Err(e) ==> r == Err::<(), Termination>(
                            Termination::LoggerError(e),
                        )
                    }
            },
{
}

/// An interrupted call of the oracle changes nothing and ends solving. Any other
/// answer is counted, and handed back unless the limit on oracle calls is
/// reached or the logger fails.
pub proof fn law_answers_are_noted<L: WriteSolverLog, T>(res: SolverResult)
    ensures
        forall|m: &mut SolverKernel<L, T>, r: Result<SolverResult, Termination>| #[trigger]
            call_ensures(SolverKernel::<L, T>::note_oracle_answer, (m, res), r)
                && m.stats.n_oracle_calls < usize::MAX && m.lims.oracle_calls != Some(0usize)
                ==> {
                &&& same_search(*m, *final(m))
                &&& r is Ok ==> r->Ok_0 == res && !(res is Interrupted)
                &&& res is Interrupted ==> *final(m) == *m && r == Err::<
                    SolverResult,
                    Termination,
                >(Termination::Callback)
                &&& !(res is Interrupted) ==> final(m).stats.n_oracle_calls
                    == m.stats.n_oracle_calls + 1
                &&& final(m).stats.n_candidates == m.stats.n_candidates
                &&& final(m).stats.n_solutions == m.stats.n_solutions
                &&& final(m).stats.n_pareto_points == m.stats.n_pareto_points
                &&& final(m).lims.candidates == m.lims.candidates
                &&& final(m).lims.sols == m.lims.sols
                &&& final(m).lims.pps == m.lims.pps
                &&& !(res is Interrupted) && m.logger is None ==> counted_down(
                    m.lims.oracle_calls,
                    final(m).lims.oracle_calls,
                    match r {
                        Ok(_) => Ok(()),
                        Err(t) => Err(t),
                    },
                    Termination::OracleCallsLimit,
                )
            },
{
}

/// Without a callback nothing ends solving, and a callback decides on its own.
pub proof fn law_callbacks_decide<L, T: Fn() -> ControlSignal>(
    kernel: &SolverKernel<L, T>,
    r: Result<(), Termination>,
)
    requires
        call_ensures(SolverKernel::<L, T>::check_terminator, (kernel,), r),
    ensures
        kernel.term_cb is None ==> r is Ok,
        r is Err ==> r->Err_0 is Callback,
        kernel.term_cb matches Some(cb) ==> {
            &&& (forall|signal| #[trigger] cb.ensures((), signal) ==> signal is Continue) ==> r
                is Ok
            &&& (forall|signal| #[trigger] cb.ensures((), signal) ==> signal is Terminate) ==> r
                is Err
        },
{
}

/// Solving starts with the given limits, and is counted. Nothing that was found
/// before is lost.
pub proof fn law_solving_starts<L, T>(limits: Limits)
    ensures
        forall|m: &mut SolverKernel<L, T>, r: ()| #[trigger]
            call_ensures(SolverKernel::<L, T>::start_solving, (m, limits), r)
                && m.stats.n_solve_calls < usize::MAX ==> {
                &&& final(m).lims == limits
                &&& final(m).stats.n_solve_calls == m.stats.n_solve_calls + 1
                &&& final(m).stats.n_candidates == m.stats.n_candidates
                &&& final(m).stats.n_oracle_calls == m.stats.n_oracle_calls
                &&& final(m).stats.n_solutions == m.stats.n_solutions
                &&& final(m).stats.n_pareto_points == m.stats.n_pareto_points
                &&& final(m).stats.n_objs == m.stats.n_objs
                &&& final(m).pareto_front == m.pareto_front
                &&& final(m).objs == m.objs
                &&& final(m).var_manager == m.var_manager
                &&& final(m).max_orig_var == m.max_orig_var
                &&& final(m).opts == m.opts
                &&& final(m).logger == m.logger
                &&& final(m).term_cb == m.term_cb
            },
{
}

/// The external cost that an internal cost of an objective stands for.
pub open spec fn written_out(obj: Objective, cost: usize) -> int {
    match obj {
        Objective::Weighted { offset, .. } => cost + offset,
        Objective::Unweighted { offset, unit_weight, .. } => cost * unit_weight + offset,
        Objective::Constant { offset } => offset as int,
    }
}

/// Internal costs are written out with the unit weight and the offset of each
/// objective, however large they are.
pub proof fn law_costs_are_written_out<L, T>(
    kernel: &SolverKernel<L, T>,
    costs: &Vec<usize>,
    ext: Vec<isize>,
    i: int,
)
    requires
        call_ensures(SolverKernel::<L, T>::externalize_internal_costs, (kernel, costs), ext),
        0 <= i < costs@.len(),
    ensures
        ext@.len() == costs@.len(),
        ext@[i] == written_out(kernel.objs@[i], costs@[i]),
{
}

/// Costs are refused only if one of them, times the unit weight or with the
/// offset as well, is out of range; otherwise they can be written out.
pub proof fn law_costs_that_can_be_written_out<L, T>(
    kernel: &SolverKernel<L, T>,
    costs: &Vec<usize>,
    b: bool,
)
    requires
        costs@.len() <= kernel.objs@.len(),
        call_ensures(SolverKernel::<L, T>::can_externalize, (kernel, costs), b),
    ensures
        b ==> forall|i: int|
            0 <= i < costs@.len() ==> isize::MIN <= written_out(
                kernel.objs@[i],
                #[trigger] costs@[i],
            ) <= isize::MAX,
        b ==> call_requires(SolverKernel::<L, T>::externalize_internal_costs, (kernel, costs)),
        !b ==> exists|i: int|
            0 <= i < costs@.len() && (written_out(kernel.objs@[i], #[trigger] costs@[i])
                > isize::MAX || written_out(kernel.objs@[i], costs@[i]) - (match kernel.objs@[i] {
                Objective::Weighted { offset, .. } => offset as int,
                Objective::Unweighted { offset, .. } => offset as int,
                Objective::Constant { offset } => offset as int,
            }) > isize::MAX),
{
    if b {
        assert forall|i: int| 0 <= i < costs@.len() implies isize::MIN <= written_out(
            kernel.objs@[i],
            #[trigger] costs@[i],
        ) <= isize::MAX by {
            assert(representable(kernel.objs@[i], costs@[i] as int));
            assert(written_out(kernel.objs@[i], costs@[i]) == kernel.objs@[i].external(
                costs@[i] as int,
            ));
        }
    }
    if !b {
        let i = choose|i: int|
            0 <= i < costs@.len() && !representable(
                kernel.objs@[i],
                #[trigger] costs@[i] as int,
            );
        assert(written_out(kernel.objs@[i], costs@[i]) == kernel.objs@[i].external(
            costs@[i] as int,
        ));
        if let Objective::Unweighted { unit_weight, .. } = kernel.objs@[i] {
            assert(costs@[i] * unit_weight >= 0) by (nonlinear_arith);
        }
    }
}

/// In solution-guided search the oracle is to prefer the literals that are true
/// in the solution, and to forget about all variables afterwards; otherwise it
/// is to do nothing.
pub proof fn law_guidance<L, T>(
    kernel: &SolverKernel<L, T>,
    sol: &Assignment,
    lits: Vec<Lit>,
    vars: Vec<Var>,
    l: Lit,
    v: u32,
)
    requires
        sol.values@.len() <= MAX_VAR_IDX + 1,
        call_ensures(SolverKernel::<L, T>::phase_solution, (kernel, sol), lits),
        call_ensures(SolverKernel::<L, T>::unphase_solution, (kernel,), vars),
    ensures
        lits@.contains(l) <==> kernel.opts.solution_guided_search && l.lidx as int / 2
            < sol.values@.len() && sol.values@[l.lidx as int / 2] == if l.lidx % 2 == 1 {
            TernaryVal::False
        } else {
            TernaryVal::True
        },
        vars@.contains(Var { idx: v }) <==> kernel.opts.solution_guided_search && v
            < kernel.var_manager.next,
{
    lemma_true_lits(sol@, l);
    if kernel.opts.solution_guided_search && v < kernel.var_manager.next {
        assert(vars@[v as int] == Var { idx: v });
    }
    if vars@.contains(Var { idx: v }) {
        let i = choose|i: int| 0 <= i < vars@.len() && vars@[i] == Var { idx: v };
        assert(vars@[i] == Var { idx: i as u32 });
    }
}

/// Recording starts at a point with the given costs, written out, and without
/// solutions. The solution is cut off behind the original variables, and the
/// assumptions stay.
pub proof fn law_recording_starts<L, T>(
    kernel: &SolverKernel<L, T>,
    costs: &Vec<usize>,
    assumps: Vec<Lit>,
    sol: Assignment,
    r: (Vec<Var>, YieldRun),
)
    requires
        call_ensures(SolverKernel::<L, T>::start_yield, (kernel, costs, assumps, sol), r),
    ensures
        r.1.point@.costs.len() == costs@.len(),
        forall|i: int|
            0 <= i < costs@.len() ==> #[trigger] r.1.point@.costs[i] == written_out(
                kernel.objs@[i],
                costs@[i],
            ),
        r.1.point@.sols.len() == 0,
        r.1.assumps == assumps,
        r.1.solution@.len() <= kernel.max_orig_var.idx + 1,
        r.1.solution@.len() == sol@.len() || r.1.solution@.len() == kernel.max_orig_var.idx + 1,
        r.1.solution@.len() <= sol@.len(),
        forall|i: int| 0 <= i < r.1.solution@.len() ==> #[trigger] r.1.solution@[i] == sol@[i],
        !kernel.opts.solution_guided_search ==> r.0@.len() == 0,
        kernel.opts.solution_guided_search ==> r.0@.len() == kernel.var_manager.next,
        forall|i: int| 0 <= i < r.0@.len() ==> (#[trigger] r.0@[i]).idx == i,
{
}

/// The clause that blocks a Pareto-MCS consists of the opposites of the true
/// literals that are in some objective, each once.
pub proof fn law_mcs_clause_literals<L, T>(
    kernel: &SolverKernel<L, T>,
    sol: &Assignment,
    cl: Clause,
    l: Lit,
)
    requires
        call_ensures(SolverKernel::<L, T>::block_pareto_mcs, (kernel, sol), cl),
    ensures
        cl.lits@.contains(l.flipped()) <==> occurs(kernel.objs@, l) && l.lidx as int / 2
            < sol.values@.len() && sol.values@[l.lidx as int / 2] == if l.lidx % 2 == 1 {
            TernaryVal::False
        } else {
            TernaryVal::True
        },
        forall|i: int, j: int|
            0 <= i < j < cl.lits@.len() ==> (#[trigger] cl.lits@[i]).lidx < (
            #[trigger] cl.lits@[j]).lidx,
{
    lemma_flipped(l);
}

/// Undoing the renaming of variables gives each variable the value of the one
/// that stands for it.
pub proof fn law_renaming_is_undone(
    reindexer: &ReindexingVarManager,
    sol: &Assignment,
    res: Assignment,
    v: u32,
)
    requires
        sol.values@.len() <= MAX_VAR_IDX + 1,
        call_ensures(reverse_solution, (reindexer, sol), res),
        forall|u: u32| #[trigger]
            renamed_from(*reindexer).contains_key(u) ==> renamed_from(*reindexer)[u]
                <= MAX_VAR_IDX,
        forall|u: u32, w: u32| #[trigger]
            renamed_from(*reindexer).contains_key(u) && #[trigger] renamed_from(
                *reindexer,
            ).contains_key(w) && renamed_from(*reindexer)[u] == renamed_from(*reindexer)[w] ==> u
                == w,
        renamed_from(*reindexer).contains_key(v),
    ensures
        ({
            let name = renamed_from(*reindexer)[v] as int;
            let given = if v < sol.values@.len() {
                sol.values@[v as int]
            } else {
                TernaryVal::DontCare
            };
            if name < res.values@.len() {
                res.values@[name] == given
            } else {
                given == TernaryVal::DontCare
            }
        }),
{
    law_reversing_keeps_values(renamed_from(*reindexer), sol@, v);
}

/// What was attached is handed back when it is detached, and what was found can
/// be read at any time.
pub proof fn law_attached_is_handed_back<L, T>(logger: L, term_cb: T)
    ensures
        forall|m: &mut SolverKernel<L, T>, r: ()| #[trigger]
            call_ensures(
                <SolverKernel<L, T> as KernelFunctions>::attach_logger,
                (m, logger),
                r,
            ) ==> final(m).logger == Some(logger) && final(m).pareto_front == m.pareto_front
                && final(m).stats == m.stats && final(m).lims == m.lims && final(m).term_cb
                == m.term_cb && final(m).objs == m.objs && final(m).var_manager == m.var_manager,
        forall|m: &mut SolverKernel<L, T>, r: Option<L>| #[trigger]
            call_ensures(<SolverKernel<L, T> as KernelFunctions>::detach_logger, (m,), r) ==> r
                == m.logger && final(m).logger is None && final(m).pareto_front == m.pareto_front
                && final(m).stats == m.stats && final(m).lims == m.lims && final(m).term_cb
                == m.term_cb && final(m).objs == m.objs && final(m).var_manager == m.var_manager,
        forall|m: &mut SolverKernel<L, T>, r: ()| #[trigger]
            call_ensures(
                <SolverKernel<L, T> as KernelFunctions>::attach_terminator,
                (m, term_cb),
                r,
            ) ==> final(m).term_cb == Some(term_cb) && final(m).pareto_front == m.pareto_front
                && final(m).stats == m.stats && final(m).lims == m.lims && final(m).logger
                == m.logger && final(m).objs == m.objs && final(m).var_manager == m.var_manager,
        forall|m: &mut SolverKernel<L, T>, r: ()| #[trigger]
            call_ensures(<SolverKernel<L, T> as KernelFunctions>::detach_terminator, (m,), r)
                ==> final(m).term_cb is None && final(m).pareto_front == m.pareto_front
                && final(m).stats == m.stats && final(m).lims == m.lims && final(m).logger
                == m.logger && final(m).objs == m.objs && final(m).var_manager == m.var_manager,
        forall|m: &SolverKernel<L, T>, front: ParetoFront| #[trigger]
            call_ensures(<SolverKernel<L, T> as KernelFunctions>::pareto_front, (m,), front)
                ==> front@ == m.pareto_front@,
        forall|m: &SolverKernel<L, T>, stats| #[trigger]
            call_ensures(<SolverKernel<L, T> as KernelFunctions>::stats, (m,), stats) ==> stats
                == m.stats,
{
}

} // verus!
