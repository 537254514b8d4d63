use scuttle::config::{
    ControlSignal, EnumOptions, Limits, LoggerError, Options, Phase, SolverResult, Termination,
};
use scuttle::front::NonDomPoint;
use scuttle::kernel::{OracleSetup, SolverKernel};
use scuttle::logging::WriteSolverLog;
use scuttle::objective::SoftObjective;
use scuttle::solve::{KernelFunctions, Solve};
use scuttle::types::{Assignment, Clause, Lit, TernaryVal, Var};
use scuttle::vars::VarManager;

/// Counts what it is told, and fails on request.
#[derive(Default)]
struct Counter {
    candidates: usize,
    calls: usize,
    solutions: usize,
    points: usize,
    improvements: Vec<(usize, usize, usize)>,
    fail: bool,
}

impl Counter {
    fn reply(&self) -> Result<(), LoggerError> {
        if self.fail {
            Err(LoggerError { message: "closed".to_string() })
        } else {
            Ok(())
        }
    }
}

impl WriteSolverLog for Counter {
    fn log_candidate(&mut self, _: &Vec<usize>, _: Phase) -> Result<(), LoggerError> {
        self.candidates += 1;
        self.reply()
    }

    fn log_oracle_call(&mut self, _: SolverResult) -> Result<(), LoggerError> {
        self.calls += 1;
        self.reply()
    }

    fn log_solution(&mut self) -> Result<(), LoggerError> {
        self.solutions += 1;
        self.reply()
    }

    fn log_pareto_point(&mut self, _: &NonDomPoint) -> Result<(), LoggerError> {
        self.points += 1;
        self.reply()
    }

    fn log_heuristic_obj_improvement(
        &mut self,
        obj_idx: usize,
        apparent_cost: usize,
        improved_cost: usize,
    ) -> Result<(), LoggerError> {
        self.improvements.push((obj_idx, apparent_cost, improved_cost));
        self.reply()
    }
}

type Kernel = SolverKernel<Counter, fn() -> ControlSignal>;

fn pos(idx: u32) -> Lit {
    Lit::new(idx, false)
}

fn neg(idx: u32) -> Lit {
    Lit::new(idx, true)
}

fn clause(lits: &[Lit]) -> Clause {
    Clause::from_lits(lits.to_vec())
}

fn options(guided: bool) -> Options {
    Options { enumeration: EnumOptions::NoEnum, solution_guided_search: guided }
}

fn sample(guided: bool) -> (Kernel, OracleSetup) {
    let cnf = vec![clause(&[pos(0), pos(1)]), clause(&[neg(2)])];
    let objs = vec![
        SoftObjective::Weighted {
            offset: 10,
            softs: vec![(clause(&[neg(0)]), 4), (clause(&[pos(1), pos(2)]), 3)],
        },
        SoftObjective::Unweighted {
            offset: -1,
            unit_weight: 5,
            softs: vec![clause(&[pos(1), pos(2)]), clause(&[pos(1)])],
        },
        SoftObjective::Constant { offset: 0 },
    ];
    match Kernel::from_parts(cnf, VarManager::from_next_free(3), objs, options(guided)) {
        Ok(r) => r,
        Err(_) => panic!("the kernel has variables"),
    }
}

fn go_on() -> ControlSignal {
    ControlSignal::Continue
}

fn stop() -> ControlSignal {
    ControlSignal::Terminate
}

#[test]
fn setting_up_relaxes_soft_clauses() {
    let (kernel, setup) = sample(false);
    assert_eq!(kernel.objs.len(), 3);
    assert_eq!(kernel.objs[0].iter(), vec![(pos(0), 4), (pos(3), 3)]);
    assert_eq!(kernel.objs[1].iter(), vec![(pos(3), 1), (neg(1), 1)]);
    assert!(kernel.objs[2].iter().is_empty());
    assert_eq!(kernel.var_manager.next, 4);
    assert_eq!(kernel.max_orig_var, Var { idx: 3 });
    assert_eq!(setup.reserve, Var { idx: 3 });
    assert_eq!(setup.cnf.len(), 2);
    assert_eq!(setup.obj_cnf.len(), 1);
    assert_eq!(setup.obj_cnf[0].lits, vec![pos(1), pos(2), pos(3)]);
    assert_eq!(kernel.stats().n_objs, 3);
    assert_eq!(kernel.stats().n_orig_clauses, 2);
    assert_eq!(kernel.stats().n_solve_calls, 0);
    assert_eq!(kernel.lims, Limits::none());
}

#[test]
fn occurrences_of_objective_literals_are_recorded() {
    let (kernel, _) = sample(false);
    assert_eq!(kernel.obj_lit_data[&pos(0).lidx].objs, vec![0]);
    assert_eq!(kernel.obj_lit_data[&pos(3).lidx].objs, vec![0, 1]);
    assert_eq!(kernel.obj_lit_data[&neg(1).lidx].objs, vec![1]);
    assert!(!kernel.obj_lit_data.contains_key(&pos(1).lidx));
    assert_eq!(kernel.obj_lit_data.len(), 3);
}

#[test]
fn no_variables_at_all() {
    let r = Kernel::from_parts(
        Vec::new(),
        VarManager::from_next_free(0),
        vec![SoftObjective::Constant { offset: 3 }],
        options(false),
    );
    assert!(matches!(r, Err(Termination::NoVars)));
}

#[test]
fn external_costs_have_offset_and_multiplier() {
    let (kernel, _) = sample(false);
    assert_eq!(kernel.externalize_internal_costs(&vec![7, 2, 0]), vec![17, 9, 0]);
    assert_eq!(kernel.externalize_internal_costs(&vec![0, 0, 0]), vec![10, -1, 0]);
}

#[test]
fn costs_that_cannot_be_externalized() {
    let (kernel, _) = sample(false);
    assert!(kernel.can_externalize(&vec![7, 2, 0]));
    assert!(!kernel.can_externalize(&vec![isize::MAX as usize, 0, 0]));
    assert!(kernel.can_externalize(&vec![isize::MAX as usize - 10, 0, 0]));
    assert!(!kernel.can_externalize(&vec![0, usize::MAX / 2, 0]));
    assert!(!kernel.can_externalize(&vec![0, usize::MAX, 0]));
    assert!(kernel.can_externalize(&vec![0, 0, usize::MAX]));
}

#[test]
fn starting_counts_calls_and_sets_limits() {
    let (mut kernel, _) = sample(false);
    let lims = Limits { pps: Some(2), ..Limits::none() };
    kernel.start_solving(lims);
    kernel.start_solving(lims);
    assert_eq!(kernel.stats().n_solve_calls, 2);
    assert_eq!(kernel.lims.pps, Some(2));
}

#[test]
fn events_are_counted_logged_and_limited() {
    let (mut kernel, _) = sample(false);
    kernel.start_solving(Limits {
        pps: Some(2),
        sols: Some(1),
        candidates: Some(1),
        oracle_calls: Some(2),
    });
    kernel.attach_logger(Counter::default());
    let point = NonDomPoint::new(vec![1]);
    assert!(kernel.log_pareto_point(&point).is_ok());
    assert!(matches!(kernel.log_pareto_point(&point), Err(Termination::PPLimit)));
    assert!(matches!(kernel.log_solution(), Err(Termination::SolsLimit)));
    assert!(matches!(
        kernel.log_candidate(&vec![1, 0, 0], Phase::OuterLoop),
        Err(Termination::CandidatesLimit)
    ));
    assert!(kernel.log_oracle_call(SolverResult::Sat).is_ok());
    assert!(matches!(
        kernel.log_oracle_call(SolverResult::Unsat),
        Err(Termination::OracleCallsLimit)
    ));
    assert!(kernel.log_heuristic_obj_improvement(1, 5, 3).is_ok());
    let stats = kernel.stats();
    assert_eq!(stats.n_pareto_points, 2);
    assert_eq!(stats.n_solutions, 1);
    assert_eq!(stats.n_candidates, 1);
    assert_eq!(stats.n_oracle_calls, 2);
    let logger = kernel.detach_logger().unwrap();
    assert_eq!(logger.points, 2);
    assert_eq!(logger.solutions, 1);
    assert_eq!(logger.candidates, 1);
    assert_eq!(logger.calls, 2);
    assert_eq!(logger.improvements, vec![(1, 5, 3)]);
    assert!(kernel.detach_logger().is_none());
}

#[test]
fn without_logger_and_limits_nothing_ends() {
    let (mut kernel, _) = sample(false);
    for _ in 0..5 {
        assert!(kernel.log_candidate(&vec![0, 0, 0], Phase::Minimization).is_ok());
        assert!(kernel.log_solution().is_ok());
        assert!(kernel.log_heuristic_obj_improvement(0, 1, 1).is_ok());
    }
    assert_eq!(kernel.stats().n_candidates, 5);
}

#[test]
fn failing_loggers_end_solving() {
    let (mut kernel, _) = sample(false);
    kernel.attach_logger(Counter { fail: true, ..Counter::default() });
    assert!(matches!(kernel.log_solution(), Err(Termination::LoggerError(_))));
    assert!(matches!(
        kernel.log_candidate(&vec![0, 0, 0], Phase::Enumeration),
        Err(Termination::LoggerError(_))
    ));
    assert!(matches!(
        kernel.log_oracle_call(SolverResult::Sat),
        Err(Termination::LoggerError(_))
    ));
    assert!(matches!(
        kernel.log_pareto_point(&NonDomPoint::new(vec![])),
        Err(Termination::LoggerError(_))
    ));
    assert!(matches!(
        kernel.log_heuristic_obj_improvement(0, 2, 1),
        Err(Termination::LoggerError(_))
    ));
}

#[test]
fn answers_of_the_oracle_are_noted() {
    let (mut kernel, _) = sample(false);
    assert!(matches!(
        kernel.note_oracle_answer(SolverResult::Sat),
        Ok(SolverResult::Sat)
    ));
    assert!(matches!(
        kernel.note_oracle_answer(SolverResult::Unsat),
        Ok(SolverResult::Unsat)
    ));
    assert!(matches!(
        kernel.note_oracle_answer(SolverResult::Interrupted),
        Err(Termination::Callback)
    ));
    assert_eq!(kernel.stats().n_oracle_calls, 2);
    kernel.lims.oracle_calls = Some(1);
    assert!(matches!(
        kernel.note_oracle_answer(SolverResult::Sat),
        Err(Termination::OracleCallsLimit)
    ));
}

#[test]
fn the_last_terminator_decides() {
    let (mut kernel, _) = sample(false);
    assert!(kernel.check_terminator().is_ok());
    kernel.attach_terminator(go_on);
    assert!(kernel.check_terminator().is_ok());
    kernel.attach_terminator(stop);
    assert!(matches!(kernel.check_terminator(), Err(Termination::Callback)));
    kernel.detach_terminator();
    assert!(kernel.check_terminator().is_ok());
}

#[test]
fn phases_follow_the_solution_if_asked() {
    let sol = Assignment {
        values: vec![TernaryVal::False, TernaryVal::DontCare, TernaryVal::True],
    };
    let (plain, _) = sample(false);
    assert!(plain.phase_solution(&sol).is_empty());
    assert!(plain.unphase_solution().is_empty());
    let (guided, _) = sample(true);
    assert_eq!(guided.phase_solution(&sol), vec![neg(0), pos(2)]);
    let unphased = guided.unphase_solution();
    assert_eq!(unphased.len(), 4);
    for l in guided.phase_solution(&sol) {
        assert!(unphased.contains(&Var { idx: l.vidx() }));
    }
}

#[test]
fn large_weights_do_not_fit() {
    let (kernel, _) = sample(false);
    assert!(kernel.weights_fit());
    let heavy = SoftObjective::Weighted {
        offset: 0,
        softs: vec![(clause(&[pos(0)]), usize::MAX), (clause(&[pos(1)]), 1)],
    };
    let (kernel, _) = Kernel::from_parts(
        Vec::new(),
        VarManager::from_next_free(2),
        vec![heavy],
        options(false),
    )
    .unwrap_or_else(|_| panic!("the kernel has variables"));
    assert!(!kernel.weights_fit());
}

/// An algorithm that finds one point without looking.
struct Guess {
    kernel: Kernel,
}

impl KernelFunctions for Guess {
    type Logger = Counter;
    type Terminator = fn() -> ControlSignal;

    fn pareto_front(&self) -> scuttle::front::ParetoFront {
        self.kernel.pareto_front()
    }

    fn stats(&self) -> scuttle::config::Stats {
        self.kernel.stats()
    }

    fn attach_logger(&mut self, logger: Counter) {
        self.kernel.attach_logger(logger)
    }

    fn detach_logger(&mut self) -> Option<Counter> {
        self.kernel.detach_logger()
    }

    fn attach_terminator(&mut self, term_cb: fn() -> ControlSignal) {
        self.kernel.attach_terminator(term_cb)
    }

    fn detach_terminator(&mut self) {
        self.kernel.detach_terminator()
    }
}

impl Solve for Guess {
    fn solve(&mut self, limits: Limits) -> Result<(), Termination> {
        self.kernel.start_solving(limits);
        self.kernel.check_terminator()?;
        let point = NonDomPoint::new(vec![0]);
        let r = self.kernel.log_pareto_point(&point);
        self.kernel.pareto_front.add_pp(point);
        r
    }
}

#[test]
fn algorithms_share_the_functions_of_the_kernel() {
    let (kernel, _) = sample(false);
    let mut guess = Guess { kernel };
    guess.attach_logger(Counter::default());
    assert!(guess.solve(Limits::none()).is_ok());
    assert!(matches!(
        guess.solve(Limits { pps: Some(1), ..Limits::none() }),
        Err(Termination::PPLimit)
    ));
    guess.attach_terminator(stop);
    assert!(matches!(guess.solve(Limits::none()), Err(Termination::Callback)));
    assert_eq!(guess.pareto_front().points().len(), 2);
    assert_eq!(guess.stats().n_solve_calls, 3);
    assert_eq!(guess.detach_logger().unwrap().points, 2);
}

#[test]
fn candidates_are_counted_up_to_the_limit() {
    let (mut kernel, _) = sample(false);
    kernel.start_solving(Limits { candidates: Some(4), ..Limits::none() });
    for n in 1usize..5 {
        let r = kernel.log_candidate(&vec![n, 0, 0], Phase::OuterLoop);
        if n < 4 {
            assert!(r.is_ok());
        } else {
            assert!(matches!(r, Err(Termination::CandidatesLimit)));
        }
        assert_eq!(kernel.stats.n_candidates, n);
        assert_eq!(kernel.lims, Limits { candidates: Some(4 - n), ..Limits::none() });
    }
    kernel.start_solving(Limits::none());
    for _ in 0..9 {
        assert!(kernel.log_candidate(&vec![0, 0, 0], Phase::Minimization).is_ok());
    }
    assert_eq!(kernel.stats.n_candidates, 13);
}

#[test]
fn occurrences_rise_and_repeat() {
    let objs = vec![
        SoftObjective::Unweighted {
            offset: 0,
            unit_weight: 1,
            softs: vec![clause(&[neg(0)]), clause(&[neg(0)])],
        },
        SoftObjective::Constant { offset: 2 },
        SoftObjective::Weighted { offset: 0, softs: vec![(clause(&[neg(0)]), 3)] },
    ];
    let (kernel, _) =
        match Kernel::from_parts(Vec::new(), VarManager::from_next_free(1), objs, options(false)) {
            Ok(r) => r,
            Err(_) => panic!("the kernel has variables"),
        };
    assert_eq!(kernel.obj_lit_data.len(), 1);
    assert_eq!(kernel.obj_lit_data[&pos(0).lidx].objs, vec![0, 0, 2]);
}
