use scuttle::config::{
    ControlSignal, EnumOptions, LoggerError, Options, Phase, SolverResult, Termination,
};
use scuttle::costs::CostStep;
use scuttle::front::NonDomPoint;
use scuttle::kernel::SolverKernel;
use scuttle::logging::WriteSolverLog;
use scuttle::objective::SoftObjective;
use scuttle::types::{Assignment, Clause, Lit, TernaryVal};
use scuttle::vars::VarManager;

#[derive(Default)]
struct Improvements {
    seen: Vec<(usize, usize, usize)>,
    fail_at: Option<usize>,
}

impl WriteSolverLog for Improvements {
    fn log_candidate(&mut self, _: &Vec<usize>, _: Phase) -> Result<(), LoggerError> {
        Ok(())
    }

    fn log_oracle_call(&mut self, _: SolverResult) -> Result<(), LoggerError> {
        Ok(())
    }

    fn log_solution(&mut self) -> Result<(), LoggerError> {
        Ok(())
    }

    fn log_pareto_point(&mut self, _: &NonDomPoint) -> Result<(), LoggerError> {
        Ok(())
    }

    fn log_heuristic_obj_improvement(
        &mut self,
        obj_idx: usize,
        apparent_cost: usize,
        improved_cost: usize,
    ) -> Result<(), LoggerError> {
        self.seen.push((obj_idx, apparent_cost, improved_cost));
        if self.fail_at == Some(obj_idx) {
            return Err(LoggerError { message: "closed".to_string() });
        }
        Ok(())
    }
}

type Kernel = SolverKernel<Improvements, fn() -> ControlSignal>;

fn pos(idx: u32) -> Lit {
    Lit::new(idx, false)
}

fn neg(idx: u32) -> Lit {
    Lit::new(idx, true)
}

fn kernel(objs: Vec<SoftObjective>) -> Kernel {
    let opts = Options { enumeration: EnumOptions::NoEnum, solution_guided_search: false };
    match Kernel::from_parts(Vec::new(), VarManager::from_next_free(5), objs, opts) {
        Ok((kernel, _)) => kernel,
        Err(_) => panic!("there are variables"),
    }
}

fn weighted(entries: &[(Lit, usize)]) -> SoftObjective {
    let softs =
        entries.iter().map(|(l, w)| (Clause::from_lits(vec![l.negate()]), *w)).collect();
    SoftObjective::Weighted { offset: 0, softs }
}

fn unweighted(lits: &[Lit]) -> SoftObjective {
    let softs = lits.iter().map(|l| Clause::from_lits(vec![l.negate()])).collect();
    SoftObjective::Unweighted { offset: 0, unit_weight: 3, softs }
}

fn all_true(n: usize) -> Assignment {
    Assignment { values: vec![TernaryVal::True; n] }
}

/// Runs the computation with an oracle that flips the given literals.
fn run(
    kernel: &mut Kernel,
    sol: Assignment,
    tightening: bool,
    flips: &[Lit],
    asked: &mut Vec<Lit>,
) -> Result<(Vec<usize>, Assignment), Termination> {
    let mut search = kernel.start_costs(sol, tightening);
    loop {
        match kernel.step_costs(&mut search)? {
            CostStep::Flip(l) => {
                asked.push(l);
                search.answer(flips.contains(&l));
            }
            CostStep::Moved => (),
            CostStep::Finished => return Ok(search.into_result()),
        }
    }
}

#[test]
fn costs_without_improvement() {
    let mut kernel = kernel(vec![
        weighted(&[(pos(0), 4), (neg(1), 2), (pos(2), 1)]),
        unweighted(&[pos(0), pos(0), neg(3)]),
        SoftObjective::Constant { offset: 3 },
    ]);
    kernel.logger = Some(Improvements::default());
    let sol = Assignment {
        values: vec![TernaryVal::True, TernaryVal::False, TernaryVal::DontCare, TernaryVal::True],
    };
    let mut asked = Vec::new();
    let (costs, after) = match run(&mut kernel, sol.clone(), false, &[neg(0)], &mut asked) {
        Ok(r) => r,
        Err(_) => panic!("nothing ends the computation"),
    };
    assert_eq!(costs, vec![6, 2, 0]);
    assert_eq!(after.values, sol.values);
    assert!(asked.is_empty());
    assert!(kernel.logger.unwrap().seen.is_empty());
}

#[test]
fn improvement_flips_what_the_oracle_can() {
    let mut kernel = kernel(vec![
        weighted(&[(pos(0), 4), (pos(1), 2), (pos(2), 1)]),
        weighted(&[(pos(1), 7), (neg(2), 5)]),
    ]);
    kernel.logger = Some(Improvements::default());
    let mut asked = Vec::new();
    let (costs, after) = match run(&mut kernel, all_true(3), true, &[neg(1)], &mut asked) {
        Ok(r) => r,
        Err(_) => panic!("nothing ends the computation"),
    };
    // The negation of the last literal occurs in the second objective
    assert_eq!(asked, vec![neg(0), neg(1)]);
    assert_eq!(costs, vec![5, 0]);
    assert_eq!(
        after.values,
        vec![TernaryVal::True, TernaryVal::False, TernaryVal::True]
    );
    assert_eq!(kernel.logger.unwrap().seen, vec![(0, 7, 5), (1, 0, 0)]);
}

#[test]
fn later_flips_leave_earlier_costs_as_bounds() {
    let mut kernel = kernel(vec![weighted(&[(pos(0), 4)]), weighted(&[(pos(0), 9)])]);
    let mut search = kernel.start_costs(all_true(1), true);
    let mut answers = [false, true].into_iter();
    let (costs, after) = loop {
        match kernel.step_costs(&mut search) {
            Ok(CostStep::Flip(_)) => search.answer(answers.next().unwrap()),
            Ok(CostStep::Moved) => (),
            Ok(CostStep::Finished) => break search.into_result(),
            Err(_) => panic!("nothing ends the computation"),
        }
    };
    assert_eq!(costs, vec![4, 0]);
    assert_eq!(after.values, vec![TernaryVal::False]);
}

#[test]
fn repeated_literals_count_each_time() {
    let mut kernel = kernel(vec![unweighted(&[pos(0), pos(0), pos(0)])]);
    kernel.logger = Some(Improvements::default());
    let mut asked = Vec::new();
    let (costs, _) = match run(&mut kernel, all_true(1), true, &[], &mut asked) {
        Ok(r) => r,
        Err(_) => panic!("nothing ends the computation"),
    };
    assert_eq!(costs, vec![3]);
    assert_eq!(asked.len(), 3);
    let (costs, _) = match run(&mut kernel, all_true(1), true, &[neg(0)], &mut asked) {
        Ok(r) => r,
        Err(_) => panic!("nothing ends the computation"),
    };
    assert_eq!(costs, vec![0]);
    assert_eq!(asked.len(), 4);
    assert_eq!(kernel.logger.unwrap().seen, vec![(0, 3, 3), (0, 1, 0)]);
}

#[test]
fn failing_loggers_end_the_computation() {
    let mut kernel = kernel(vec![weighted(&[(pos(0), 4)]), weighted(&[(pos(1), 2)])]);
    kernel.logger = Some(Improvements { seen: Vec::new(), fail_at: Some(1) });
    let mut asked = Vec::new();
    assert!(matches!(
        run(&mut kernel, all_true(2), true, &[], &mut asked),
        Err(Termination::LoggerError(_))
    ));
    assert_eq!(kernel.logger.unwrap().seen, vec![(0, 4, 4), (1, 2, 2)]);
}

#[test]
fn no_objective_gets_heavier() {
    let entries = [
        vec![(pos(0), 4), (pos(1), 2), (neg(2), 1)],
        vec![(pos(1), 3), (pos(3), 1)],
        vec![(pos(3), 5), (pos(0), 1)],
    ];
    let weight = |sol: &Assignment, obj: usize| -> usize {
        entries[obj]
            .iter()
            .filter(|(l, _)| {
                let val = if l.is_neg() { TernaryVal::False } else { TernaryVal::True };
                sol.values[l.vidx() as usize] == val
            })
            .map(|e| e.1)
            .sum()
    };
    for answers in 0u32..64 {
        for fail_at in [None, Some(0), Some(1), Some(2)] {
            let mut kernel = kernel(entries.iter().map(|e| weighted(e)).collect());
            kernel.logger = Some(Improvements { seen: Vec::new(), fail_at });
            let first = all_true(4);
            let mut search = kernel.start_costs(all_true(4), true);
            let mut asked: u32 = 0;
            let failed = loop {
                match kernel.step_costs(&mut search) {
                    Ok(CostStep::Flip(_)) => {
                        search.answer((answers >> asked) & 1 == 1);
                        asked += 1;
                    }
                    Ok(CostStep::Moved) => (),
                    Ok(CostStep::Finished) => break false,
                    Err(_) => break true,
                }
            };
            assert_eq!(failed, fail_at.is_some());
            let (costs, sol) = search.into_result();
            for obj in 0usize..3 {
                assert!(weight(&sol, obj) <= weight(&first, obj));
            }
            for (obj, cost) in costs.iter().enumerate() {
                assert!(weight(&sol, obj) <= *cost && *cost <= weight(&first, obj));
            }
        }
    }
}

#[test]
fn costs_are_exact_without_repeated_literals() {
    let entries = [vec![(pos(0), 4), (pos(1), 2)], vec![(pos(2), 3), (pos(3), 1)]];
    for answers in 0u32..16 {
        let mut kernel = kernel(entries.iter().map(|e| weighted(e)).collect());
        let mut search = kernel.start_costs(all_true(4), true);
        let mut asked: u32 = 0;
        loop {
            match kernel.step_costs(&mut search) {
                Ok(CostStep::Flip(_)) => {
                    search.answer((answers >> asked) & 1 == 1);
                    asked += 1;
                }
                Ok(CostStep::Moved) => (),
                Ok(CostStep::Finished) => break,
                Err(_) => panic!("nothing ends the computation"),
            }
        }
        assert_eq!(asked, 4);
        let (costs, sol) = search.into_result();
        for (obj, cost) in costs.iter().enumerate() {
            let weight: usize = entries[obj]
                .iter()
                .filter(|(l, _)| sol.values[l.vidx() as usize] == TernaryVal::True)
                .map(|e| e.1)
                .sum();
            assert_eq!(*cost, weight);
        }
    }
}
