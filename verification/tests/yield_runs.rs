use scuttle::blocking::default_blocking_clause;
use scuttle::config::{
    ControlSignal, EnumOptions, LoggerError, Options, Phase, SolverResult, Termination,
};
use scuttle::front::NonDomPoint;
use scuttle::kernel::SolverKernel;
use scuttle::logging::WriteSolverLog;
use scuttle::objective::SoftObjective;
use scuttle::solve::KernelFunctions;
use scuttle::types::{Assignment, Clause, Lit, TernaryVal, Var};
use scuttle::vars::VarManager;
use scuttle::yielding::{Blocking, YieldNext, YieldStep};

#[derive(Default)]
struct Events {
    fail_solutions: bool,
    fail_points: bool,
    points: usize,
}

impl WriteSolverLog for Events {
    fn log_candidate(&mut self, _: &Vec<usize>, _: Phase) -> Result<(), LoggerError> {
        Ok(())
    }

    fn log_oracle_call(&mut self, _: SolverResult) -> Result<(), LoggerError> {
        Ok(())
    }

    fn log_solution(&mut self) -> Result<(), LoggerError> {
        if self.fail_solutions {
            return Err(LoggerError { message: "solution".to_string() });
        }
        Ok(())
    }

    fn log_pareto_point(&mut self, _: &NonDomPoint) -> Result<(), LoggerError> {
        self.points += 1;
        if self.fail_points {
            return Err(LoggerError { message: "point".to_string() });
        }
        Ok(())
    }

    fn log_heuristic_obj_improvement(
        &mut self,
        _: usize,
        _: usize,
        _: usize,
    ) -> Result<(), LoggerError> {
        Ok(())
    }
}

type Kernel = SolverKernel<Events, fn() -> ControlSignal>;

fn pos(idx: u32) -> Lit {
    Lit::new(idx, false)
}

fn neg(idx: u32) -> Lit {
    Lit::new(idx, true)
}

fn stop() -> ControlSignal {
    ControlSignal::Terminate
}

/// Two objectives over three variables: the first variable, and the second.
fn kernel(enumeration: EnumOptions) -> Kernel {
    let unit = |l: Lit| Clause::from_lits(vec![l]);
    let objs = vec![
        SoftObjective::Unweighted { offset: 5, unit_weight: 2, softs: vec![unit(neg(0))] },
        SoftObjective::Weighted { offset: 0, softs: vec![(unit(neg(1)), 3)] },
    ];
    let opts = Options { enumeration, solution_guided_search: true };
    match Kernel::from_parts(Vec::new(), VarManager::from_next_free(3), objs, opts) {
        Ok((kernel, _)) => kernel,
        Err(_) => panic!("there are variables"),
    }
}

fn from_bits(bits: u32, n: u32) -> Assignment {
    let values = (0..n)
        .map(|i| if (bits >> i) & 1 == 1 { TernaryVal::True } else { TernaryVal::False })
        .collect();
    Assignment { values }
}

fn holds(l: Lit, bits: u32) -> bool {
    ((bits >> l.vidx()) & 1 == 1) != l.is_neg()
}

/// Runs an enumeration with an oracle that searches all assignments.
fn run(
    kernel: &mut Kernel,
    costs: Vec<usize>,
    assumps: Vec<Lit>,
    first: Assignment,
) -> Result<(), Termination> {
    let mut cnf: Vec<Clause> = Vec::new();
    let (_, mut run) = kernel.start_yield(&costs, assumps, first);
    loop {
        let wait = match kernel.record_solution(run) {
            YieldStep::Done(r) => return r,
            YieldStep::Solve { block, wait } => {
                cnf.push(match block {
                    Blocking::Solution(sol) => default_blocking_clause(sol),
                    Blocking::Clause(cl) => cl,
                });
                wait
            }
        };
        let model = (0u32..8).find(|bits| {
            wait.assumps.iter().all(|l| holds(*l, *bits))
                && cnf.iter().all(|cl| cl.lits.iter().any(|l| holds(*l, *bits)))
        });
        let res = if model.is_some() { SolverResult::Sat } else { SolverResult::Unsat };
        run = match kernel.continue_yield(wait, res) {
            YieldNext::Done(r) => return r,
            YieldNext::Solution { max_var, wait } => {
                wait.with_solution(from_bits(model.unwrap(), max_var.idx + 1))
            }
        };
    }
}

#[test]
fn one_solution_without_enumeration() {
    let mut kernel = kernel(EnumOptions::NoEnum);
    let mut longer = from_bits(1, 3);
    longer.assign_lit(pos(6));
    let (unphase, first) = kernel.start_yield(&vec![1, 0], vec![neg(1)], longer);
    assert_eq!(unphase, vec![Var { idx: 0 }, Var { idx: 1 }, Var { idx: 2 }]);
    assert_eq!(first.solution.values.len(), 3);
    assert_eq!(first.assumps, vec![neg(1)]);
    assert!(matches!(kernel.record_solution(first), YieldStep::Done(Ok(()))));
    let front = kernel.pareto_front();
    assert_eq!(front.points().len(), 1);
    assert_eq!(front.points()[0].costs(), &vec![7, 0]);
    assert_eq!(front.points()[0].n_sols(), 1);
    assert_eq!(kernel.stats().n_solutions, 1);
    assert_eq!(kernel.stats().n_pareto_points, 1);
}

#[test]
fn all_solutions_are_enumerated() {
    let mut kernel = kernel(EnumOptions::Solutions(None));
    assert!(run(&mut kernel, vec![1, 0], vec![pos(0), neg(1)], from_bits(1, 3)).is_ok());
    let front = kernel.pareto_front();
    let sols: Vec<Vec<TernaryVal>> =
        front.points()[0].sols().iter().map(|s| s.values.clone()).collect();
    assert_eq!(sols, vec![from_bits(1, 3).values, from_bits(5, 3).values]);
    assert_eq!(kernel.stats().n_oracle_calls, 2);
}

#[test]
fn enumeration_stops_at_the_limit() {
    let mut kernel = kernel(EnumOptions::Solutions(Some(3)));
    assert!(run(&mut kernel, vec![0, 0], vec![], from_bits(0, 3)).is_ok());
    assert_eq!(kernel.pareto_front().points()[0].n_sols(), 3);
    assert_eq!(kernel.stats().n_oracle_calls, 2);
}

#[test]
fn enumeration_of_mcses_leaves_supersets_out() {
    let mut kernel = kernel(EnumOptions::PMCSs(None));
    assert!(run(&mut kernel, vec![1, 0], vec![], from_bits(1, 3)).is_ok());
    let front = kernel.pareto_front();
    let sols: Vec<Vec<TernaryVal>> =
        front.points()[0].sols().iter().map(|s| s.values.clone()).collect();
    // The second solution sets no objective literal, so all others set more
    assert_eq!(sols, vec![from_bits(1, 3).values, from_bits(0, 3).values]);
}

#[test]
fn solution_limits_close_the_point() {
    let mut kernel = kernel(EnumOptions::Solutions(None));
    kernel.lims.sols = Some(2);
    assert!(matches!(
        run(&mut kernel, vec![0, 0], vec![], from_bits(0, 3)),
        Err(Termination::SolsLimit)
    ));
    assert_eq!(kernel.pareto_front().points()[0].n_sols(), 2);
}

#[test]
fn point_limits_come_before_solution_limits() {
    let mut kernel = kernel(EnumOptions::Solutions(None));
    kernel.lims.sols = Some(1);
    kernel.lims.pps = Some(1);
    assert!(matches!(
        run(&mut kernel, vec![0, 0], vec![], from_bits(0, 3)),
        Err(Termination::PPLimit)
    ));
    assert_eq!(kernel.pareto_front().points().len(), 1);
}

#[test]
fn point_limits_still_add_the_point() {
    let mut kernel = kernel(EnumOptions::NoEnum);
    kernel.lims.pps = Some(1);
    assert!(matches!(
        run(&mut kernel, vec![0, 0], vec![], from_bits(0, 3)),
        Err(Termination::PPLimit)
    ));
    assert_eq!(kernel.pareto_front().points().len(), 1);
}

#[test]
fn failures_of_the_logger_are_returned() {
    let mut kernel = kernel(EnumOptions::NoEnum);
    kernel.attach_logger(Events { fail_solutions: true, ..Events::default() });
    match run(&mut kernel, vec![0, 0], vec![], from_bits(0, 3)) {
        Err(Termination::LoggerError(e)) => assert_eq!(e.message, "solution"),
        _ => panic!("expected the failure of the logger"),
    }
    assert_eq!(kernel.pareto_front().points().len(), 1);
    kernel.attach_logger(Events { fail_solutions: true, fail_points: true, points: 0 });
    match run(&mut kernel, vec![0, 0], vec![], from_bits(0, 3)) {
        Err(Termination::LoggerError(e)) => assert_eq!(e.message, "point"),
        _ => panic!("expected the failure of the logger"),
    }
    assert_eq!(kernel.pareto_front().points().len(), 2);
    assert_eq!(kernel.detach_logger().unwrap().points, 1);
}

#[test]
fn terminators_drop_the_point() {
    let mut kernel = kernel(EnumOptions::Solutions(None));
    kernel.attach_terminator(stop);
    assert!(matches!(
        run(&mut kernel, vec![0, 0], vec![], from_bits(0, 3)),
        Err(Termination::Callback)
    ));
    assert!(kernel.pareto_front().points().is_empty());
    assert_eq!(kernel.stats().n_solutions, 1);
}

#[test]
fn interrupted_and_limited_calls_drop_the_point() {
    let mut kernel = kernel(EnumOptions::Solutions(None));
    let (_, first) = kernel.start_yield(&vec![0, 0], vec![], from_bits(0, 3));
    let wait = match kernel.record_solution(first) {
        YieldStep::Solve { wait, .. } => wait,
        YieldStep::Done(_) => panic!("expected a call of the oracle"),
    };
    assert!(matches!(
        kernel.continue_yield(wait, SolverResult::Interrupted),
        YieldNext::Done(Err(Termination::Callback))
    ));
    assert_eq!(kernel.stats().n_oracle_calls, 0);
    kernel.lims.oracle_calls = Some(1);
    assert!(matches!(
        run(&mut kernel, vec![0, 0], vec![], from_bits(0, 3)),
        Err(Termination::OracleCallsLimit)
    ));
    assert!(kernel.pareto_front().points().is_empty());
}

#[test]
fn terminators_are_checked_after_the_oracle() {
    let mut kernel = kernel(EnumOptions::Solutions(None));
    let (_, first) = kernel.start_yield(&vec![0, 0], vec![], from_bits(0, 3));
    let wait = match kernel.record_solution(first) {
        YieldStep::Solve { wait, .. } => wait,
        YieldStep::Done(_) => panic!("expected a call of the oracle"),
    };
    kernel.attach_terminator(stop);
    assert!(matches!(
        kernel.continue_yield(wait, SolverResult::Sat),
        YieldNext::Done(Err(Termination::Callback))
    ));
    assert_eq!(kernel.stats().n_oracle_calls, 1);
}
