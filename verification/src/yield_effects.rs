//! What recording solutions and closing points does, said of the arguments and
//! results of the calls.
use vstd::prelude::*;

use crate::config::{ControlSignal, EnumOptions, SolverResult, Termination};
use crate::cost_effects::occurs;
use crate::front::{NonDomPoint, PointView};
use crate::kernel::SolverKernel;
use crate::logging::WriteSolverLog;
use crate::types::{lemma_flipped, Assignment, Lit, TernaryVal};
use crate::yielding::{Blocking, YieldNext, YieldRun, YieldStep, YieldWait};

verus! {

/// Without enumeration one solution is enough. An unlimited enumeration never
/// has enough, however many solutions there are, and a limited one has enough
/// from the limit on.
pub proof fn law_enumeration_limits(options: &EnumOptions, n_sols: usize, b: bool)
    requires
        call_ensures(EnumOptions::is_enough, (options, n_sols), b),
    ensures
        *options is NoEnum ==> b,
        *options == EnumOptions::Solutions(None) ==> !b,
        *options == EnumOptions::PMCSs(None) ==> !b,
        forall|limit: usize|
            *options == EnumOptions::Solutions(Some(limit)) || *options == EnumOptions::PMCSs(
                Some(limit),
            ) ==> (b <==> #[trigger] (n_sols - limit) >= 0),
{
}

/// Recording a solution counts it, and either leaves the front alone or appends
/// the point, with the solution, to it and counts the point. The point is
/// appended exactly if nothing is left to do and the termination callback is
/// not the reason.
pub proof fn law_recorded_points_are_appended<L: WriteSolverLog, T: Fn() -> ControlSignal>(
    run: YieldRun,
)
    ensures
        forall|m: &mut SolverKernel<L, T>, step: YieldStep| #[trigger]
            call_ensures(SolverKernel::<L, T>::record_solution, (m, run), step)
                && m.stats.n_solutions < usize::MAX && m.stats.n_pareto_points < usize::MAX ==> {
                let closes = step is Done && step != YieldStep::Done(Err(Termination::Callback));
                &&& final(m).stats.n_solutions == m.stats.n_solutions + 1
                &&& final(m).stats.n_pareto_points == m.stats.n_pareto_points + if closes {
                    1int
                } else {
                    0int
                }
                &&& final(m).pareto_front@ == if closes {
                    m.pareto_front@.push(
                        PointView {
                            costs: run.point@.costs,
                            sols: run.point@.sols.push(run.solution@),
                        },
                    )
                } else {
                    m.pareto_front@
                }
                &&& final(m).stats.n_oracle_calls == m.stats.n_oracle_calls
                &&& final(m).stats.n_candidates == m.stats.n_candidates
                &&& final(m).stats.n_orig_clauses == m.stats.n_orig_clauses
                &&& final(m).objs == m.objs
                &&& final(m).opts == m.opts
                &&& final(m).var_manager == m.var_manager
                &&& final(m).max_orig_var == m.max_orig_var
                &&& final(m).term_cb == m.term_cb
                &&& final(m).lims.candidates == m.lims.candidates
                &&& final(m).lims.oracle_calls == m.lims.oracle_calls
                &&& !closes ==> final(m).lims.pps == m.lims.pps
            },
{
}

/// A point at which all solutions are enumerated stays open: recording a
/// solution there, whatever the number of solutions, only ends because of a
/// limit, a failing logger or the termination callback. Without any of these
/// the oracle is asked for a further solution under the same assumptions.
pub proof fn law_unlimited_enumeration_goes_on<L: WriteSolverLog, T: Fn() -> ControlSignal>(
    run: YieldRun,
)
    ensures
        forall|m: &mut SolverKernel<L, T>, step: YieldStep| #[trigger]
            call_ensures(SolverKernel::<L, T>::record_solution, (m, run), step) && (
            m.opts.enumeration == EnumOptions::Solutions(None) || m.opts.enumeration
                == EnumOptions::PMCSs(None)) ==> {
                &&& step != YieldStep::Done(Ok(()))
                &&& m.logger is None && m.lims.sols is None && m.term_cb is None ==> step is Solve
                &&& step matches YieldStep::Solve { block, wait } ==> {
                    &&& wait.point@.costs == run.point@.costs
                    &&& wait.point@.sols == run.point@.sols.push(run.solution@)
                    &&& wait.assumps@ == run.assumps@
                    &&& block is Solution <==> m.opts.enumeration is Solutions
                    &&& block matches Blocking::Solution(sol) ==> sol@ == run.solution@
                }
            },
{
}

/// Without enumeration a point is closed with its first solution, and nothing
/// is blocked. With neither a logger nor limits that is no termination.
pub proof fn law_single_solutions_close_points<L: WriteSolverLog, T: Fn() -> ControlSignal>(
    run: YieldRun,
)
    ensures
        forall|m: &mut SolverKernel<L, T>, step: YieldStep| #[trigger]
            call_ensures(SolverKernel::<L, T>::record_solution, (m, run), step)
                && m.opts.enumeration is NoEnum ==> {
                &&& step is Done
                &&& m.logger is None && m.lims.sols is None && m.lims.pps is None ==> step
                    == YieldStep::Done(Ok(()))
                &&& m.logger is None && m.lims.pps == Some(1usize) ==> step == YieldStep::Done(
                    Err(Termination::PPLimit),
                )
            },
{
}

/// With a limited enumeration, and neither a logger nor other limits, a point
/// is closed exactly if the solution is the one that makes up the limit.
pub proof fn law_limited_enumeration_closes_points<L: WriteSolverLog, T: Fn() -> ControlSignal>(
    run: YieldRun,
    limit: usize,
)
    ensures
        forall|m: &mut SolverKernel<L, T>, step: YieldStep| #[trigger]
            call_ensures(SolverKernel::<L, T>::record_solution, (m, run), step) && (
            m.opts.enumeration == EnumOptions::Solutions(Some(limit)) || m.opts.enumeration
                == EnumOptions::PMCSs(Some(limit))) && m.logger is None && m.lims.sols is None
                && m.lims.pps is None && m.term_cb is None ==> {
                &&& run.point@.sols.len() + 1 >= limit ==> step == YieldStep::Done(Ok(()))
                &&& run.point@.sols.len() + 1 < limit ==> step is Solve
            },
{
}

/// When the oracle has no further solution, and neither a failing logger nor
/// the limit on oracle calls ends solving, the point is appended to the front
/// as it stands and counted. In all other cases the front is left alone: after
/// any other answer the point stays open.
pub proof fn law_exhausted_points_are_appended<L: WriteSolverLog, T: Fn() -> ControlSignal>(
    wait: YieldWait,
    res: SolverResult,
)
    ensures
        forall|m: &mut SolverKernel<L, T>, next: YieldNext| #[trigger]
            call_ensures(SolverKernel::<L, T>::continue_yield, (m, wait, res), next)
                && m.stats.n_pareto_points < usize::MAX && m.stats.n_oracle_calls < usize::MAX
                ==> {
                let n = final(m).stats.n_pareto_points - m.stats.n_pareto_points;
                &&& n == 0 ==> final(m).pareto_front@ == m.pareto_front@
                &&& n != 0 ==> n == 1 && res is Unsat && next is Done && final(m).pareto_front@
                    == m.pareto_front@.push(wait.point@)
                &&& next == YieldNext::Done(Ok(())) ==> n == 1
                &&& next == YieldNext::Done(Err(Termination::PPLimit)) ==> n == 1
                &&& res is Unsat && m.logger is None && m.lims.oracle_calls is None ==> n == 1
                &&& res is Unsat && m.logger is None && m.lims.oracle_calls is None
                    && m.lims.pps is None ==> next == YieldNext::Done(Ok(()))
                &&& res is Interrupted ==> next is Done && next != YieldNext::Done(Ok(()))
                &&& res is Interrupted ==> *final(m) == *m
                &&& !(res is Interrupted) ==> final(m).stats.n_oracle_calls
                    == m.stats.n_oracle_calls + 1
                &&& res is Sat && m.logger is None && m.lims.oracle_calls is None
                    && m.term_cb is None ==> next == YieldNext::Solution {
                    max_var: m.max_orig_var,
                    wait,
                }
                &&& next is Solution ==> res is Sat && next->wait == wait && next->max_var
                    == m.max_orig_var
                &&& final(m).stats.n_solutions == m.stats.n_solutions
                &&& final(m).stats.n_candidates == m.stats.n_candidates
                &&& final(m).objs == m.objs
                &&& final(m).opts == m.opts
                &&& final(m).var_manager == m.var_manager
                &&& final(m).max_orig_var == m.max_orig_var
                &&& final(m).lims.candidates == m.lims.candidates
                &&& final(m).lims.sols == m.lims.sols
            },
{
}

/// Of the points at hand in the steps from one kernel to the next, those that
/// were counted.
pub open spec fn counted_points<L, T>(
    kernels: Seq<SolverKernel<L, T>>,
    points: Seq<PointView>,
) -> Seq<PointView>
    decreases points.len(),
{
    if points.len() == 0 {
        Seq::empty()
    } else {
        let k = points.len() - 1;
        let before = counted_points(kernels, points.drop_last());
        if kernels[k + 1].stats.n_pareto_points > kernels[k].stats.n_pareto_points {
            before.push(points[k])
        } else {
            before
        }
    }
}

/// Over a run of calls, the front lists exactly the points that were closed, in
/// the order in which they were, behind those that it held before, and its
/// length grows with the number of points in the statistics.
pub proof fn law_front_lists_closed_points<L: WriteSolverLog, T: Fn() -> ControlSignal>(
    kernels: Seq<SolverKernel<L, T>>,
    points: Seq<PointView>,
)
    requires
        kernels.len() == points.len() + 1,
        forall|k: int|
            0 <= k < points.len() ==> (#[trigger] kernels[k]).stats.n_pareto_points < usize::MAX
                && kernels[k].stats.n_solutions < usize::MAX && kernels[k].stats.n_oracle_calls
                < usize::MAX,
        forall|k: int| #![trigger points[k]]
            0 <= k < points.len() ==> (exists|
                m: &mut SolverKernel<L, T>,
                run: YieldRun,
                step: YieldStep,
            |
                {
                    &&& #[trigger] call_ensures(
                        SolverKernel::<L, T>::record_solution,
                        (m, run),
                        step,
                    )
                    &&& *m == kernels[k]
                    &&& *final(m) == kernels[k + 1]
                    &&& points[k].costs == run.point@.costs
                    &&& points[k].sols == run.point@.sols.push(run.solution@)
                }) || (exists|
                m: &mut SolverKernel<L, T>,
                wait: YieldWait,
                res: SolverResult,
                next: YieldNext,
            |
                {
                    &&& #[trigger] call_ensures(
                        SolverKernel::<L, T>::continue_yield,
                        (m, wait, res),
                        next,
                    )
                    &&& *m == kernels[k]
                    &&& *final(m) == kernels[k + 1]
                    &&& points[k] == wait.point@
                }),
    ensures
        kernels.last().pareto_front@ == kernels[0].pareto_front@ + counted_points(kernels, points),
        kernels.last().pareto_front@.len() - kernels[0].pareto_front@.len()
            == kernels.last().stats.n_pareto_points - kernels[0].stats.n_pareto_points,
{
    assert forall|k: int| 0 <= k < points.len() implies appended(
        kernels[k],
        kernels[k + 1],
        #[trigger] points[k],
    ) by {
        if exists|m: &mut SolverKernel<L, T>, run: YieldRun, step: YieldStep|
            {
                &&& #[trigger] call_ensures(SolverKernel::<L, T>::record_solution, (m, run), step)
                &&& *m == kernels[k]
                &&& *final(m) == kernels[k + 1]
                &&& points[k].costs == run.point@.costs
                &&& points[k].sols == run.point@.sols.push(run.solution@)
            } {
            let (m, run, step) = choose|m: &mut SolverKernel<L, T>, run: YieldRun, step: YieldStep|
                {
                    &&& #[trigger] call_ensures(
                        SolverKernel::<L, T>::record_solution,
                        (m, run),
                        step,
                    )
                    &&& *m == kernels[k]
                    &&& *final(m) == kernels[k + 1]
                    &&& points[k].costs == run.point@.costs
                    &&& points[k].sols == run.point@.sols.push(run.solution@)
                };
            law_recorded_points_are_appended::<L, T>(run);
        } else {
            let (m, wait, res, next) = choose|
                m: &mut SolverKernel<L, T>,
                wait: YieldWait,
                res: SolverResult,
                next: YieldNext,
            |
                {
                    &&& #[trigger] call_ensures(
                        SolverKernel::<L, T>::continue_yield,
                        (m, wait, res),
                        next,
                    )
                    &&& *m == kernels[k]
                    &&& *final(m) == kernels[k + 1]
                    &&& points[k] == wait.point@
                };
            law_exhausted_points_are_appended::<L, T>(wait, res);
        }
    }
    lemma_front_grows(kernels, points);
}

/// Whether a step leaves the front alone, or appends the point and counts it.
pub open spec fn appended<L, T>(
    before: SolverKernel<L, T>,
    after: SolverKernel<L, T>,
    point: PointView,
) -> bool {
    ||| after.stats.n_pareto_points == before.stats.n_pareto_points && after.pareto_front@
        == before.pareto_front@
    ||| after.stats.n_pareto_points == before.stats.n_pareto_points + 1 && after.pareto_front@
        == before.pareto_front@.push(point)
}

/// Steps that append the points that they count make up the front.
proof fn lemma_front_grows<L, T>(kernels: Seq<SolverKernel<L, T>>, points: Seq<PointView>)
    requires
        kernels.len() == points.len() + 1,
        forall|k: int|
            0 <= k < points.len() ==> appended(kernels[k], kernels[k + 1], #[trigger] points[k]),
    ensures
        kernels.last().pareto_front@ == kernels[0].pareto_front@ + counted_points(kernels, points),
        kernels.last().pareto_front@.len() - kernels[0].pareto_front@.len()
            == kernels.last().stats.n_pareto_points - kernels[0].stats.n_pareto_points,
    decreases points.len(),
{
    if points.len() > 0 {
        let k = points.len() - 1;
        let some = kernels.drop_last();
        let fewer = points.drop_last();
        assert forall|j: int| 0 <= j < fewer.len() implies appended(
            some[j],
            some[j + 1],
            #[trigger] fewer[j],
        ) by {
            assert(fewer[j] == points[j]);
        }
        lemma_front_grows(some, fewer);
        lemma_counted_points(some, kernels, fewer);
        assert(appended(kernels[k], kernels[k + 1], points[k]));
        assert(kernels.last().pareto_front@ =~= kernels[0].pareto_front@ + counted_points(
            kernels,
            points,
        ));
    }
}

/// Which points were counted only depends on the kernels around them.
proof fn lemma_counted_points<L, T>(
    some: Seq<SolverKernel<L, T>>,
    more: Seq<SolverKernel<L, T>>,
    points: Seq<PointView>,
)
    requires
        some.len() == points.len() + 1,
        some.len() <= more.len(),
        forall|j: int| 0 <= j < some.len() ==> #[trigger] some[j] == more[j],
    ensures
        counted_points(some, points) == counted_points(more, points),
    decreases points.len(),
{
    if points.len() > 0 {
        let k = points.len() - 1;
        lemma_counted_points(some.drop_last(), some, points.drop_last());
        lemma_counted_points(some.drop_last(), more, points.drop_last());
        assert(some[k] == more[k] && some[k + 1] == more[k + 1]);
    }
}

/// Before the oracle is asked for a further solution, what was found is blocked:
/// the solution itself if solutions are enumerated, and if Pareto-MCSs are, the
/// opposites of exactly the true literals that are in some objective. The point
/// has the solution then, and the assumptions are the same.
pub proof fn law_found_is_blocked<L: WriteSolverLog, T: Fn() -> ControlSignal>(
    run: YieldRun,
    l: Lit,
)
    ensures
        forall|m: &mut SolverKernel<L, T>, block: Blocking, wait: YieldWait| #[trigger]
            call_ensures(
                SolverKernel::<L, T>::record_solution,
                (m, run),
                YieldStep::Solve { block, wait },
            ) ==> {
                &&& !(m.opts.enumeration is NoEnum)
                &&& wait.point@.costs == run.point@.costs
                &&& wait.point@.sols == run.point@.sols.push(run.solution@)
                &&& wait.assumps@ == run.assumps@
                &&& block is Solution <==> m.opts.enumeration is Solutions
                &&& block matches Blocking::Solution(sol) ==> sol.values@ == run.solution.values@
                &&& block matches Blocking::Clause(cl) ==> (cl.lits@.contains(l.flipped())
                    <==> occurs(m.objs@, l) && l.lidx as int / 2 < run.solution.values@.len()
                    && run.solution.values@[l.lidx as int / 2] == if l.lidx % 2 == 1 {
                    TernaryVal::False
                } else {
                    TernaryVal::True
                })
            },
{
    lemma_flipped(l);
}

/// Going on with a further solution keeps the point and the assumptions.
pub proof fn law_further_solutions(wait: YieldWait, sol: Assignment, run: YieldRun)
    requires
        call_ensures(YieldWait::with_solution, (wait, sol), run),
    ensures
        run.point == wait.point,
        run.solution == sol,
        run.assumps == wait.assumps,
{
}

/// A logger that never fails is told of each solution that is recorded, and
/// afterwards of the point if that is closed; it has no say in what is done.
pub proof fn law_loggers_only_listen<L: WriteSolverLog, T: Fn() -> ControlSignal>(run: YieldRun)
    requires
        forall|l: &mut L, reply| #[trigger] call_ensures(L::log_solution, (l,), reply) ==> reply
            is Ok,
        forall|l: &mut L, point: &NonDomPoint, reply| #[trigger]
            call_ensures(L::log_pareto_point, (l, point), reply) ==> reply is Ok,
    ensures
        forall|m: &mut SolverKernel<L, T>, step: YieldStep| #[trigger]
            call_ensures(SolverKernel::<L, T>::record_solution, (m, run), step)
                && m.logger is Some ==> {
                &&& m.lims.sols is None && m.lims.pps is None && m.opts.enumeration is NoEnum
                    ==> step == YieldStep::Done(Ok(()))
                &&& m.lims.sols is None && m.term_cb is None && (m.opts.enumeration
                    == EnumOptions::Solutions(None) || m.opts.enumeration == EnumOptions::PMCSs(
                    None,
                )) ==> step is Solve
                &&& exists|l: &mut L, reply|
                    {
                        &&& #[trigger] call_ensures(L::log_solution, (l,), reply)
                        &&& *l == m.logger->0
                        &&& step is Solve ==> *final(l) == final(m).logger->0
                    }
            },
{
}

/// Without a logger, what follows a recorded solution is settled by the limits,
/// the options and the callback alone. The point is closed if the limit on
/// solutions is reached or there are enough, and the limit on points comes first
/// then. Otherwise the callback decides whether the oracle is asked.
pub proof fn law_recording_without_logger<L: WriteSolverLog, T: Fn() -> ControlSignal>(
    run: YieldRun,
)
    ensures
        forall|m: &mut SolverKernel<L, T>, step: YieldStep| #[trigger]
            call_ensures(SolverKernel::<L, T>::record_solution, (m, run), step)
                && m.logger is None && m.lims.sols != Some(0usize) && m.lims.pps != Some(0usize)
                ==> {
                let n = run.point@.sols.len() + 1;
                let enough = match m.opts.enumeration {
                    EnumOptions::NoEnum => true,
                    EnumOptions::Solutions(limit) => limit is Some && limit->0 <= n,
                    EnumOptions::PMCSs(limit) => limit is Some && limit->0 <= n,
                };
                let last_sol = m.lims.sols == Some(1usize);
                let last_pp = m.lims.pps == Some(1usize);
                &&& last_sol || enough ==> step == YieldStep::Done(
                    if last_pp {
                        Err(Termination::PPLimit)
                    } else if last_sol {
                        Err(Termination::SolsLimit)
                    } else {
                        Ok(())
                    },
                )
                &&& !last_sol && !enough ==> {
                    &&& step is Solve || step == YieldStep::Done(Err(Termination::Callback))
                    &&& m.term_cb is None ==> step is Solve
                    &&& m.term_cb matches Some(cb) ==> {
                        &&& (forall|signal| #[trigger]
                            cb.ensures((), signal) ==> signal is Continue) ==> step is Solve
                        &&& (forall|signal| #[trigger]
                            cb.ensures((), signal) ==> signal is Terminate) ==> step is Done
                    }
                }
                &&& final(m).logger is None
                &&& final(m).lims.sols is Some <==> m.lims.sols is Some
                &&& m.lims.sols is Some ==> final(m).lims.sols->0 == m.lims.sols->0 - 1
                &&& final(m).lims.pps is Some <==> m.lims.pps is Some
                &&& m.lims.pps is Some ==> final(m).lims.pps->0 == m.lims.pps->0 - if last_sol
                    || enough {
                    1int
                } else {
                    0int
                }
            },
{
}

/// Without a logger, what follows an answer of the oracle is settled by the
/// limits, the answer and the callback alone.
pub proof fn law_continuing_without_logger<L: WriteSolverLog, T: Fn() -> ControlSignal>(
    wait: YieldWait,
    res: SolverResult,
)
    ensures
        forall|m: &mut SolverKernel<L, T>, next: YieldNext| #[trigger]
            call_ensures(SolverKernel::<L, T>::continue_yield, (m, wait, res), next)
                && m.logger is None && m.lims.oracle_calls != Some(0usize) && m.lims.pps != Some(
                0usize,
            ) && !(res is Interrupted) ==> {
                let last_call = m.lims.oracle_calls == Some(1usize);
                let last_pp = m.lims.pps == Some(1usize);
                &&& last_call ==> next == YieldNext::Done(Err(Termination::OracleCallsLimit))
                    && final(m).pareto_front@ == m.pareto_front@
                &&& !last_call && res is Unsat ==> next == YieldNext::Done(
                    if last_pp {
                        Err(Termination::PPLimit)
                    } else {
                        Ok(())
                    },
                ) && final(m).pareto_front@ == m.pareto_front@.push(wait.point@)
                &&& !last_call && res is Sat ==> {
                    &&& final(m).pareto_front@ == m.pareto_front@
                    &&& next is Solution || next == YieldNext::Done(Err(Termination::Callback))
                    &&& m.term_cb is None ==> next is Solution
                    &&& m.term_cb matches Some(cb) ==> {
                        &&& (forall|signal| #[trigger]
                            cb.ensures((), signal) ==> signal is Continue) ==> next is Solution
                        &&& (forall|signal| #[trigger]
                            cb.ensures((), signal) ==> signal is Terminate) ==> next is Done
                    }
                }
                &&& final(m).lims.oracle_calls is Some <==> m.lims.oracle_calls is Some
                &&& m.lims.oracle_calls is Some ==> final(m).lims.oracle_calls->0
                    == m.lims.oracle_calls->0 - 1
            },
{
}

/// Solutions can be recorded, and answers be dealt with, as long as numbers stay
/// in range and no limit was passed before.
pub proof fn law_recording_is_possible<L: WriteSolverLog, T: Fn() -> ControlSignal>(
    run: YieldRun,
    wait: YieldWait,
    res: SolverResult,
)
    ensures
        forall|m: &mut SolverKernel<L, T>|
            m.stats.n_solutions < usize::MAX && m.stats.n_pareto_points < usize::MAX
                && m.lims.sols != Some(0usize) && m.lims.pps != Some(0usize)
                && m.term_cb is None ==> #[trigger] call_requires(
                SolverKernel::<L, T>::record_solution,
                (m, run),
            ),
        forall|m: &mut SolverKernel<L, T>|
            m.stats.n_oracle_calls < usize::MAX && m.stats.n_pareto_points < usize::MAX
                && m.lims.oracle_calls != Some(0usize) && m.lims.pps != Some(0usize)
                && m.term_cb is None ==> #[trigger] call_requires(
                SolverKernel::<L, T>::continue_yield,
                (m, wait, res),
            ),
{
}

} // verus!
