//! Recording the solutions at a non-dominated point, and enumerating further
//! ones.
//!
//! Enumeration alternates between the kernel, which records solutions and says
//! what is to be blocked, and the oracle, which is asked for the next solution.
use vstd::prelude::*;

use crate::blocking::{
    blocks_mcs, law_default_clause_blocks_solution, law_mcs_clause_blocks_supersets, negations,
};
use crate::config::{settled, ControlSignal, EnumOptions, SolverResult, Termination};
use crate::front::{NonDomPoint, PointView};
use crate::kernel::{
    answer_noted, in_objectives, point_noted, representable, solution_noted, SolverKernel,
};
use crate::logging::WriteSolverLog;
use crate::objective::Objective;
use crate::semantics::{all_hold, clause_holds, cnf_holds, extends, lit_holds, Valuation};
use crate::types::{
    lit_true, true_lits, truncated, Assignment, Clause, Lit, TernaryVal, Var, MAX_VAR_IDX,
};

verus! {

/// A solution that is to be recorded at a point.
pub struct YieldRun {
    /// The point, with the solutions recorded so far.
    pub point: NonDomPoint,
    /// The solution.
    pub solution: Assignment,
    /// Assumptions that only allow for solutions at the point.
    pub assumps: Vec<Lit>,
}

/// A point for which the oracle is asked for a further solution.
pub struct YieldWait {
    /// The point, with the solutions recorded so far.
    pub point: NonDomPoint,
    /// Assumptions that only allow for solutions at the point.
    pub assumps: Vec<Lit>,
}

/// What is blocked before the oracle is asked for a further solution.
pub enum Blocking {
    /// A solution, by a clause that a generator makes of it.
    Solution(Assignment),
    /// A Pareto-MCS, by the given clause.
    Clause(Clause),
}

/// What follows after a solution was recorded.
pub enum YieldStep {
    /// Nothing is left to do.
    Done(Result<(), Termination>),
    /// Something is to be blocked, and the oracle is to be called with the
    /// assumptions.
    Solve { block: Blocking, wait: YieldWait },
}

/// What follows after the oracle was called.
pub enum YieldNext {
    /// Nothing is left to do.
    Done(Result<(), Termination>),
    /// The solution of the oracle is to be recorded, up to the given variable.
    Solution { max_var: Var, wait: YieldWait },
}

impl YieldWait {
    /// Goes on with a further solution.
    pub fn with_solution(self, solution: Assignment) -> (run: YieldRun)
        ensures
            run == (YieldRun { point: self.point, solution, assumps: self.assumps }),
    {
        YieldRun { point: self.point, solution, assumps: self.assumps }
    }
}

/// Whether a point was logged with the result `r`, and then added to the front.
pub open spec fn point_closed<L: WriteSolverLog, T>(
    before: SolverKernel<L, T>,
    after: SolverKernel<L, T>,
    point: NonDomPoint,
    r: Result<(), Termination>,
) -> bool {
    exists|mid: SolverKernel<L, T>| #[trigger]
        point_noted(before, mid, &point, r) && {
            &&& after == (SolverKernel { pareto_front: after.pareto_front, ..mid })
            &&& after.pareto_front@ == mid.pareto_front@.push(point@)
        }
}

/// A point with one more solution.
pub open spec fn with_sol(point: PointView, sol: Seq<TernaryVal>) -> PointView {
    PointView { costs: point.costs, sols: point.sols.push(sol) }
}

/// What is blocked after a solution was found.
pub open spec fn blocks_found(
    objs: Seq<Objective>,
    enumeration: EnumOptions,
    sol: Seq<TernaryVal>,
    block: Blocking,
) -> bool {
    match block {
        Blocking::Solution(s) => enumeration is Solutions && s@ == sol,
        Blocking::Clause(cl) => enumeration is PMCSs && blocks_mcs(objs, sol, cl@),
    }
}

/// What follows after a solution was logged, with the result `logged`. If
/// solving ends there, or the point has enough solutions, the point is closed;
/// a limit on points then comes before a limit on solutions. The point is lost
/// if the termination callback ends solving.
pub open spec fn follows_solution<L: WriteSolverLog, T: Fn() -> ControlSignal>(
    before: SolverKernel<L, T>,
    after: SolverKernel<L, T>,
    point: NonDomPoint,
    sol: Seq<TernaryVal>,
    assumps: Seq<Lit>,
    logged: Result<(), Termination>,
    step: YieldStep,
) -> bool {
    match logged {
        Err(t) => exists|r: Result<(), Termination>| #[trigger]
            point_closed(before, after, point, r) && step == YieldStep::Done(
                match r {
                    Ok(_) => Err(t),
                    Err(pp_term) => Err(pp_term),
                },
            ),
        Ok(_) => if before.opts.enumeration.enough(point@.sols.len() as int) {
            exists|r: Result<(), Termination>| #[trigger]
                point_closed(before, after, point, r) && step == YieldStep::Done(r)
        } else {
            exists|signal: ControlSignal| #[trigger]
                before.signalled(signal) && after == before && match step {
                    YieldStep::Done(r) => signal is Terminate && r == Err::<(), Termination>(
                        Termination::Callback,
                    ),
                    YieldStep::Solve { block, wait } => {
                        &&& signal is Continue
                        &&& wait.point == point
                        &&& wait.assumps@ == assumps
                        &&& blocks_found(before.objs@, before.opts.enumeration, sol, block)
                    },
                }
        },
    }
}

/// What follows after an answer of the oracle was noted, with the result
/// `noted`. Without a further solution the point is closed. The point is lost
/// if solving ends otherwise.
pub open spec fn follows_answer<L: WriteSolverLog, T: Fn() -> ControlSignal>(
    before: SolverKernel<L, T>,
    after: SolverKernel<L, T>,
    wait: YieldWait,
    noted: Result<SolverResult, Termination>,
    next: YieldNext,
) -> bool {
    match noted {
        Err(t) => after == before && next == YieldNext::Done(Err(t)),
        Ok(res) => if res is Unsat {
            exists|r: Result<(), Termination>| #[trigger]
                point_closed(before, after, wait.point, r) && next == YieldNext::Done(r)
        } else {
            exists|signal: ControlSignal| #[trigger]
                before.signalled(signal) && after == before && next == (if signal is Terminate {
                    YieldNext::Done(Err(Termination::Callback))
                } else {
                    YieldNext::Solution { max_var: before.max_orig_var, wait }
                })
        },
    }
}

impl<L, T> SolverKernel<L, T> {
    /// Starts recording solutions at the point with the given internal costs.
    /// The given assumptions must only allow for solutions at this point. Of the
    /// solution, only original variables are kept. Beforehand, the oracle is to
    /// forget the preferred values of the returned variables.
    pub fn start_yield(
        &self,
        costs: &Vec<usize>,
        assumps: Vec<Lit>,
        solution: Assignment,
    ) -> (r: (Vec<Var>, YieldRun))
        requires
            costs@.len() == self.objs@.len(),
            forall|i: int|
                0 <= i < costs@.len() ==> representable(
                    self.objs@[i],
                    #[trigger] costs@[i] as int,
                ),
            self.opts.solution_guided_search ==> self.var_manager.next > 0,
        ensures
            r.0@ == (if self.opts.solution_guided_search {
                Seq::new(self.var_manager.next as nat, |i: int| Var { idx: i as u32 })
            } else {
                Seq::empty()
            }),
            r.1.point@.costs.len() == costs@.len(),
            forall|i: int|
                0 <= i < costs@.len() ==> #[trigger] r.1.point@.costs[i] == self.objs@[i].external(
                    costs@[i] as int,
                ),
            r.1.point@.sols.len() == 0,
            r.1.solution@ == truncated(solution@, self.max_orig_var.idx as int),
            r.1.assumps == assumps,
    {
        let unphase = self.unphase_solution();
        // Create Pareto point
        let point = NonDomPoint::new(self.externalize_internal_costs(costs));
        // Truncate internal solution to only include original variables
        let solution = solution.truncate(self.max_orig_var);
        (unphase, YieldRun { point, solution, assumps })
    }
}

impl<L: WriteSolverLog, T> SolverKernel<L, T> {
    /// Logs a point and adds it to the front. Can return a termination if the
    /// Pareto point limit is reached.
    fn close_point(&mut self, point: NonDomPoint) -> (r: Result<(), Termination>)
        requires
            old(self).stats.n_pareto_points < usize::MAX,
            old(self).lims.pps != Some(0usize),
        ensures
            point_closed(*old(self), *final(self), point, r),
            old(self).logger is Some ==> exists|m: &mut L, reply|
                {
                    &&& old(self).logger == Some(*m)
                    &&& final(self).logger == Some(*final(m))
                    &&& #[trigger] call_ensures(L::log_pareto_point, (m, &point), reply)
                    &&& (final(self).lims.pps, r) == settled(
                        old(self).lims.pps,
                        reply,
                        Termination::PPLimit,
                    )
                },
    {
        let pp_term = self.log_pareto_point(&point);
        let ghost mid = *self;
        assert(point_noted(*old(self), mid, &point, pp_term));
        self.pareto_front.add_pp(point);
        pp_term
    }
}

impl<L: WriteSolverLog, T: Fn() -> ControlSignal> SolverKernel<L, T> {
    /// Records a solution at a point. If the options ask for enumeration, says
    /// what is to be blocked before the oracle is asked for a further solution.
    pub fn record_solution(&mut self, run: YieldRun) -> (step: YieldStep)
        requires
            old(self).stats.n_solutions < usize::MAX,
            old(self).stats.n_pareto_points < usize::MAX,
            old(self).lims.sols != Some(0usize),
            old(self).lims.pps != Some(0usize),
            old(self).callable(),
        ensures
            old(self).wf() ==> final(self).wf(),
            exists|mid: SolverKernel<L, T>, point: NonDomPoint, logged: Result<(), Termination>|
                {
                    &&& #[trigger] solution_noted(*old(self), mid, logged)
                    &&& point@ == with_sol(run.point@, run.solution@)
                    &&& #[trigger] follows_solution(
                        mid,
                        *final(self),
                        point,
                        run.solution@,
                        run.assumps@,
                        logged,
                        step,
                    )
                },
            old(self).logger is Some ==> exists|m: &mut L, reply|
                {
                    let (sols, logged) = settled(
                        old(self).lims.sols,
                        reply,
                        Termination::SolsLimit,
                    );
                    &&& old(self).logger == Some(*m)
                    &&& #[trigger] call_ensures(L::log_solution, (m,), reply)
                    &&& final(self).lims.sols == sols
                    &&& if logged is Ok && !old(self).opts.enumeration.enough(
                        run.point@.sols.len() as int + 1,
                    ) {
                        final(self).logger == Some(*final(m))
                    } else {
                        exists|p: &mut L, point: NonDomPoint, pp_reply|
                            {
                                let (pps, closed) = settled(
                                    old(self).lims.pps,
                                    pp_reply,
                                    Termination::PPLimit,
                                );
                                &&& *p == *final(m)
                                &&& final(self).logger == Some(*final(p))
                                &&& point@ == with_sol(run.point@, run.solution@)
                                &&& #[trigger] call_ensures(
                                    L::log_pareto_point,
                                    (p, &point),
                                    pp_reply,
                                )
                                &&& final(self).lims.pps == pps
                                &&& step == YieldStep::Done(
                                    if closed is Err {
                                        closed
                                    } else {
                                        logged
                                    },
                                )
                            }
                    }
                },
    {
        let YieldRun { mut point, solution, assumps } = run;
        point.add_sol(solution.clone());
        let logged = self.log_solution();
        let ghost mid = *self;
        let ghost given = point;
        assert(solution_noted(*old(self), mid, logged));
        if let Err(term) = logged {
            let pp_term = self.close_point(point);
            assert(point_closed(mid, *self, given, pp_term));
            let step = match pp_term {
                Err(t) => YieldStep::Done(Err(t)),
                Ok(_) => YieldStep::Done(Err(term)),
            };
            assert(follows_solution(mid, *self, given, run.solution@, run.assumps@, logged, step));
            return step;
        }
        if self.opts.enumeration.is_enough(point.n_sols()) {
            let pp_term = self.close_point(point);
            assert(point_closed(mid, *self, given, pp_term));
            let step = YieldStep::Done(pp_term);
            assert(follows_solution(mid, *self, given, run.solution@, run.assumps@, logged, step));
            return step;
        }
        let checked = self.check_terminator();
        let ghost signal = choose|signal: ControlSignal| #[trigger]
            self.signalled(signal) && checked == (if signal is Terminate {
                Err::<(), Termination>(Termination::Callback)
            } else {
                Ok::<(), Termination>(())
            });
        assert(mid.signalled(signal));
        if let Err(term) = checked {
            let step = YieldStep::Done(Err(term));
            assert(follows_solution(mid, *self, given, run.solution@, run.assumps@, logged, step));
            return step;
        }
        // Block last solution
        let block = match self.opts.enumeration {
            EnumOptions::PMCSs(_) => Blocking::Clause(self.block_pareto_mcs(&solution)),
            _ => Blocking::Solution(solution),
        };
        let step = YieldStep::Solve { block, wait: YieldWait { point, assumps } };
        assert(follows_solution(mid, *self, given, run.solution@, run.assumps@, logged, step));
        step
    }

    /// Takes note of the answer of the oracle when it was asked for a further
    /// solution.
    pub fn continue_yield(&mut self, wait: YieldWait, res: SolverResult) -> (next: YieldNext)
        requires
            old(self).stats.n_oracle_calls < usize::MAX,
            old(self).stats.n_pareto_points < usize::MAX,
            old(self).lims.oracle_calls != Some(0usize),
            old(self).lims.pps != Some(0usize),
            old(self).callable(),
        ensures
            old(self).wf() ==> final(self).wf(),
            exists|mid: SolverKernel<L, T>, noted: Result<SolverResult, Termination>|
                {
                    &&& #[trigger] answer_noted(*old(self), mid, res, noted)
                    &&& #[trigger] follows_answer(mid, *final(self), wait, noted, next)
                },
            res is Interrupted ==> final(self).logger == old(self).logger,
            !(res is Interrupted) && old(self).logger is Some ==> exists|m: &mut L, reply|
                {
                    let (calls, noted) = settled(
                        old(self).lims.oracle_calls,
                        reply,
                        Termination::OracleCallsLimit,
                    );
                    &&& old(self).logger == Some(*m)
                    &&& #[trigger] call_ensures(L::log_oracle_call, (m, res), reply)
                    &&& final(self).lims.oracle_calls == calls
                    &&& if noted is Err || !(res is Unsat) {
                        final(self).logger == Some(*final(m))
                    } else {
                        exists|p: &mut L, pp_reply|
                            {
                                let (pps, closed) = settled(
                                    old(self).lims.pps,
                                    pp_reply,
                                    Termination::PPLimit,
                                );
                                &&& *p == *final(m)
                                &&& final(self).logger == Some(*final(p))
                                &&& #[trigger] call_ensures(
                                    L::log_pareto_point,
                                    (p, &wait.point),
                                    pp_reply,
                                )
                                &&& final(self).lims.pps == pps
                                &&& next == YieldNext::Done(closed)
                            }
                    }
                },
    {
        let noted = self.note_oracle_answer(res);
        let ghost mid = *self;
        assert(answer_noted(*old(self), mid, res, noted));
        match noted {
            Err(t) => {
                let next = YieldNext::Done(Err(t));
                assert(follows_answer(mid, *self, wait, noted, next));
                return next;
            },
            Ok(_) => {},
        }
        if let SolverResult::Unsat = res {
            // All solutions enumerated
            let pp_term = self.close_point(wait.point);
            assert(point_closed(mid, *self, wait.point, pp_term));
            let next = YieldNext::Done(pp_term);
            assert(follows_answer(mid, *self, wait, noted, next));
            return next;
        }
        let checked = self.check_terminator();
        let ghost signal = choose|signal: ControlSignal| #[trigger]
            self.signalled(signal) && checked == (if signal is Terminate {
                Err::<(), Termination>(Termination::Callback)
            } else {
                Ok::<(), Termination>(())
            });
        assert(mid.signalled(signal));
        let next = match checked {
            Err(t) => YieldNext::Done(Err(t)),
            Ok(_) => YieldNext::Solution { max_var: self.max_orig_var, wait },
        };
        assert(follows_answer(mid, *self, wait, noted, next));
        next
    }
}

/// A limited enumeration stops at the limit, but records one solution at least:
/// as long as a point does not have enough solutions, one more makes up the
/// limit or leaves it out of reach.
pub proof fn law_enumeration_stops_at_limit(enumeration: EnumOptions, limit: usize, n_sols: int)
    requires
        enumeration == EnumOptions::Solutions(Some(limit)) || enumeration == EnumOptions::PMCSs(
            Some(limit),
        ),
        n_sols == 0 || (0 < n_sols && !enumeration.enough(n_sols)),
    ensures
        enumeration.enough(n_sols + 1) <==> n_sols + 1 == limit || (n_sols == 0 && limit == 0),
        limit > 0 ==> n_sols + 1 <= limit,
{
}

/// Whether the default clauses for all given solutions hold.
pub open spec fn solutions_blocked(a: Valuation, sols: Seq<Seq<TernaryVal>>) -> bool {
    forall|k: int|
        0 <= k < sols.len() ==> clause_holds(a, negations(true_lits(#[trigger] sols[k])))
}

/// Whether the clauses for the Pareto-MCSs of all given solutions hold.
pub open spec fn mcses_blocked(a: Valuation, blocks: Seq<Seq<Lit>>) -> bool {
    forall|k: int| 0 <= k < blocks.len() ==> clause_holds(a, #[trigger] blocks[k])
}

/// A solution that was found once others are blocked by default clauses is
/// none of these.
pub proof fn law_enumeration_finds_new(
    sols: Seq<Seq<TernaryVal>>,
    found: Seq<TernaryVal>,
    a: Valuation,
    k: int,
)
    requires
        forall|i: int| 0 <= i < sols.len() ==> (#[trigger] sols[i]).len() <= MAX_VAR_IDX + 1,
        solutions_blocked(a, sols),
        extends(a, found),
        0 <= k < sols.len(),
    ensures
        found != sols[k],
{
    assert(clause_holds(a, negations(true_lits(sols[k]))));
    law_default_clause_blocks_solution(sols[k], a);
}

/// A solution that was found once Pareto-MCSs are blocked leaves out an
/// objective literal of each of them.
pub proof fn law_mcs_enumeration_finds_new(
    objs: Seq<Objective>,
    sols: Seq<Seq<TernaryVal>>,
    blocks: Seq<Seq<Lit>>,
    a: Valuation,
    k: int,
)
    requires
        blocks.len() == sols.len(),
        forall|i: int| 0 <= i < sols.len() ==> blocks_mcs(objs, #[trigger] sols[i], blocks[i]),
        mcses_blocked(a, blocks),
        0 <= k < sols.len(),
    ensures
        exists|l: Lit| #[trigger]
            in_objectives(objs, l) && lit_true(sols[k], l) && !lit_holds(a, l),
{
    assert(blocks_mcs(objs, sols[k], blocks[k]));
    assert(clause_holds(a, blocks[k]));
    law_mcs_clause_blocks_supersets(objs, sols[k], blocks[k], a);
}

/// One round of an enumeration: a solution was recorded, and something was
/// blocked before the oracle was asked for a further one.
pub struct YieldRound {
    pub run: YieldRun,
    pub block: Blocking,
    pub wait: YieldWait,
}

/// Whether rounds follow one another in an enumeration: each is what follows
/// when a solution is recorded without solving being ended, and each but the
/// first goes on with what the one before was waiting for.
pub open spec fn rounds_follow(
    objs: Seq<Objective>,
    enumeration: EnumOptions,
    rounds: Seq<YieldRound>,
) -> bool {
    &&& forall|k: int|
        0 <= k < rounds.len() ==> {
            let round = #[trigger] rounds[k];
            &&& round.wait.point@ == with_sol(round.run.point@, round.run.solution@)
            &&& blocks_found(objs, enumeration, round.run.solution@, round.block)
        }
    &&& forall|k: int|
        0 < k < rounds.len() ==> (#[trigger] rounds[k]).run.point == rounds[k - 1].wait.point
    &&& rounds.len() > 0 ==> rounds[0].run.point@.sols.len() == 0
}

/// Whether what was blocked holds, where solutions are blocked by default
/// clauses.
pub open spec fn block_holds(a: Valuation, block: Blocking) -> bool {
    match block {
        Blocking::Solution(s) => clause_holds(a, negations(true_lits(s@))),
        Blocking::Clause(cl) => clause_holds(a, cl@),
    }
}

/// The solutions at the point are those of the rounds, in order.
proof fn lemma_rounds_record(
    objs: Seq<Objective>,
    enumeration: EnumOptions,
    rounds: Seq<YieldRound>,
    k: int,
)
    requires
        rounds_follow(objs, enumeration, rounds),
        0 <= k < rounds.len(),
    ensures
        rounds[k].wait.point@.sols == Seq::new(
            (k + 1) as nat,
            |i: int| rounds[i].run.solution@,
        ),
    decreases k,
{
    let sols = rounds[k].wait.point@.sols;
    if k > 0 {
        lemma_rounds_record(objs, enumeration, rounds, k - 1);
        assert(rounds[k].run.point == rounds[k - 1].wait.point);
    }
    assert(sols =~= Seq::new((k + 1) as nat, |i: int| rounds[i].run.solution@));
}

/// If the oracle has no further solution after some rounds of an enumeration,
/// all solutions are enumerated: every one agrees with a solution that is
/// recorded at the point on all variables that it assigns or, if Pareto-MCSs
/// are enumerated, sets all objective literals that a recorded one sets.
pub proof fn law_enumeration_is_complete(
    objs: Seq<Objective>,
    enumeration: EnumOptions,
    rounds: Seq<YieldRound>,
    cnf: Seq<Seq<Lit>>,
    assumps: Seq<Lit>,
    a: Valuation,
) -> (k: int)
    requires
        rounds.len() > 0,
        rounds_follow(objs, enumeration, rounds),
        forall|i: int|
            0 <= i < rounds.len() ==> (#[trigger] rounds[i]).run.solution@.len() <= MAX_VAR_IDX + 1,
        forall|b: Valuation| #[trigger]
            cnf_holds(b, cnf) && all_hold(b, assumps) ==> exists|i: int|
                0 <= i < rounds.len() && !block_holds(b, (#[trigger] rounds[i]).block),
        cnf_holds(a, cnf),
        all_hold(a, assumps),
    ensures
        0 <= k < rounds.last().wait.point@.sols.len(),
        enumeration is Solutions ==> extends(a, rounds.last().wait.point@.sols[k]),
        enumeration is PMCSs ==> forall|l: Lit|
            in_objectives(objs, l) && lit_true(rounds.last().wait.point@.sols[k], l)
                ==> #[trigger] lit_holds(a, l),
{
    let n = rounds.len() - 1;
    lemma_rounds_record(objs, enumeration, rounds, n);
    let k = choose|k: int| 0 <= k < rounds.len() && !block_holds(a, (#[trigger] rounds[k]).block);
    let sol = rounds[k].run.solution@;
    assert(rounds.last() == rounds[n]);
    assert(rounds[n].wait.point@.sols[k] == sol);
    assert(blocks_found(objs, enumeration, sol, rounds[k].block));
    match rounds[k].block {
        Blocking::Solution(_) => {
            law_default_clause_blocks_solution(sol, a);
        },
        Blocking::Clause(cl) => {
            law_mcs_clause_blocks_supersets(objs, sol, cl@, a);
        },
    }
    k
}

} // verus!
