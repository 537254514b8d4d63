use scuttle::blocking::default_blocking_clause;
use scuttle::config::{ControlSignal, EnumOptions, Options};
use scuttle::kernel::SolverKernel;
use scuttle::objective::SoftObjective;
use scuttle::types::{Assignment, Clause, Lit, TernaryVal};
use scuttle::vars::VarManager;

type Kernel = SolverKernel<(), fn() -> ControlSignal>;

fn pos(idx: u32) -> Lit {
    Lit::new(idx, false)
}

fn neg(idx: u32) -> Lit {
    Lit::new(idx, true)
}

fn holds(l: Lit, bits: u32) -> bool {
    ((bits >> l.vidx()) & 1 == 1) != l.is_neg()
}

fn sample() -> Kernel {
    let opts = Options { enumeration: EnumOptions::NoEnum, solution_guided_search: false };
    let unit = |l: Lit| Clause::from_lits(vec![l]);
    let objs = vec![
        SoftObjective::Weighted { offset: 0, softs: vec![(unit(neg(2)), 4), (unit(neg(0)), 3)] },
        SoftObjective::Unweighted {
            offset: 0,
            unit_weight: 1,
            softs: vec![unit(pos(1)), unit(neg(0)), unit(neg(0))],
        },
    ];
    match Kernel::from_parts(Vec::new(), VarManager::from_next_free(4), objs, opts) {
        Ok((kernel, _)) => kernel,
        Err(_) => panic!("there are variables"),
    }
}

#[test]
fn default_clause_negates_the_solution() {
    let sol = Assignment {
        values: vec![TernaryVal::True, TernaryVal::DontCare, TernaryVal::False],
    };
    assert_eq!(default_blocking_clause(sol).lits, vec![neg(0), pos(2)]);
    assert_eq!(default_blocking_clause(Assignment { values: vec![] }).len(), 0);
}

#[test]
fn default_clause_blocks_exactly_the_solution() {
    let sol = Assignment {
        values: vec![TernaryVal::True, TernaryVal::DontCare, TernaryVal::False],
    };
    let cl = default_blocking_clause(sol);
    for bits in 0u32..8 {
        let extends = bits & 1 == 1 && bits & 4 == 0;
        assert_eq!(cl.lits.iter().any(|l| holds(*l, bits)), !extends);
    }
}

#[test]
fn mcs_clause_is_sorted_without_repetition() {
    let kernel = sample();
    let sol = Assignment {
        values: vec![TernaryVal::True, TernaryVal::False, TernaryVal::True, TernaryVal::True],
    };
    assert_eq!(kernel.block_pareto_mcs(&sol).lits, vec![neg(0), pos(1), neg(2)]);
    let sol = Assignment {
        values: vec![TernaryVal::True, TernaryVal::True, TernaryVal::DontCare],
    };
    assert_eq!(kernel.block_pareto_mcs(&sol).lits, vec![neg(0)]);
    assert_eq!(kernel.block_pareto_mcs(&Assignment { values: vec![] }).len(), 0);
}

#[test]
fn mcs_clause_blocks_what_sets_at_least_the_same_literals() {
    let kernel = sample();
    let sol = Assignment {
        values: vec![TernaryVal::True, TernaryVal::False, TernaryVal::False],
    };
    let cl = kernel.block_pareto_mcs(&sol);
    for bits in 0u32..8 {
        let superset = bits & 1 == 1 && bits & 2 == 0;
        assert_eq!(cl.lits.iter().any(|l| holds(*l, bits)), !superset);
    }
}
