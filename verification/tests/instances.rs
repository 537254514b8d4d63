use rustsat::instances::{MultiOptInstance, Objective as RsObjective, SatInstance};
use rustsat::types::constraints::CardConstraint;
use scuttle::config::{ControlSignal, EnumOptions, LoggerError, Options, Phase, SolverResult, Termination};
use scuttle::front::NonDomPoint;
use scuttle::instance::{enough_vars, soft_objective, take_apart, Instance};
use scuttle::kernel::SolverKernel;
use scuttle::logging::WriteSolverLog;
use scuttle::objective::SoftObjective;
use scuttle::types::{Clause, Lit, MAX_VAR_IDX};

struct Silent;

impl WriteSolverLog for Silent {
    fn log_candidate(&mut self, _: &Vec<usize>, _: Phase) -> Result<(), LoggerError> {
        Ok(())
    }

    fn log_oracle_call(&mut self, _: SolverResult) -> Result<(), LoggerError> {
        Ok(())
    }

    fn log_solution(&mut self) -> Result<(), LoggerError> {
        Ok(())
    }

    fn log_pareto_point(&mut self, _: &NonDomPoint) -> Result<(), LoggerError> {
        Ok(())
    }

    fn log_heuristic_obj_improvement(
        &mut self,
        _: usize,
        _: usize,
        _: usize,
    ) -> Result<(), LoggerError> {
        Ok(())
    }
}

type Kernel = SolverKernel<Silent, fn() -> ControlSignal>;

const OPTS: Options =
    Options { enumeration: EnumOptions::NoEnum, solution_guided_search: false };

fn rs(idx: u32, negated: bool) -> rustsat::types::Lit {
    rustsat::types::Lit::new(idx, negated)
}

fn rs_clause(lits: &[rustsat::types::Lit]) -> rustsat::types::Clause {
    lits.iter().copied().collect()
}

fn pos(idx: u32) -> Lit {
    Lit::new(idx, false)
}

fn neg(idx: u32) -> Lit {
    Lit::new(idx, true)
}

fn holds(l: Lit, bits: u32) -> bool {
    ((bits >> l.vidx()) & 1 == 1) != l.is_neg()
}

fn satisfied(cnf: &[Clause], bits: u32) -> bool {
    cnf.iter().all(|cl| cl.lits.iter().any(|l| holds(*l, bits)))
}

fn compose(constrs: SatInstance, objs: Vec<RsObjective>) -> Instance {
    Instance { inner: MultiOptInstance::compose(constrs, objs) }
}

#[test]
fn empty_objectives_are_constant() {
    assert!(matches!(
        soft_objective(RsObjective::new()),
        SoftObjective::Constant { offset: 0 }
    ));
}

#[test]
fn objectives_with_only_an_offset_have_no_soft_clauses() {
    let mut obj = RsObjective::new();
    obj.set_offset(9);
    match soft_objective(obj) {
        SoftObjective::Unweighted { offset, softs, .. } => {
            assert_eq!(offset, 9);
            assert!(softs.is_empty());
        }
        _ => panic!("expected an unweighted objective"),
    }
}

#[test]
fn unweighted_objectives_are_read_in_order() {
    let mut obj = RsObjective::new();
    obj.set_offset(-4);
    obj.add_soft_clause(3, rs_clause(&[rs(0, false), rs(1, true)]));
    obj.add_soft_lit(3, rs(2, false));
    obj.add_soft_clause(3, rs_clause(&[rs(1, false), rs(2, false)]));
    match soft_objective(obj) {
        SoftObjective::Unweighted { offset, unit_weight, softs } => {
            assert_eq!(offset, -4);
            assert_eq!(unit_weight, 3);
            let lits: Vec<Vec<Lit>> = softs.into_iter().map(|c| c.lits).collect();
            assert_eq!(
                lits,
                vec![vec![pos(0), neg(1)], vec![pos(1), pos(2)], vec![neg(2)]]
            );
        }
        _ => panic!("expected an unweighted objective"),
    }
}

#[test]
fn weighted_objectives_are_read_with_weights() {
    let mut obj = RsObjective::new();
    obj.set_offset(6);
    obj.add_soft_clause(3, rs_clause(&[rs(0, false), rs(1, true)]));
    obj.add_soft_lit(5, rs(2, true));
    match soft_objective(obj) {
        SoftObjective::Weighted { offset, softs } => {
            assert_eq!(offset, 6);
            let mut read: Vec<(Vec<Lit>, usize)> =
                softs.into_iter().map(|(c, w)| (c.lits, w)).collect();
            read.sort_by_key(|(_, w)| *w);
            assert_eq!(read, vec![(vec![pos(0), neg(1)], 3), (vec![pos(2)], 5)]);
        }
        _ => panic!("expected a weighted objective"),
    }
}

#[test]
fn clauses_of_an_instance_stay_as_they_are() {
    let mut constrs = SatInstance::<rustsat::instances::BasicVarManager>::new();
    constrs.add_binary(rs(0, false), rs(1, true));
    constrs.add_unit(rs(2, false));
    let mut obj = RsObjective::new();
    obj.add_soft_lit(1, rs(5, false));
    let parts = take_apart(compose(constrs, vec![obj, RsObjective::new()])).unwrap();
    assert_eq!(parts.cnf.len(), 2);
    assert_eq!(parts.cnf[0].lits, vec![pos(0), neg(1)]);
    assert_eq!(parts.cnf[1].lits, vec![pos(2)]);
    assert_eq!(parts.next, 6);
    assert_eq!(parts.objs.len(), 2);
    assert!(matches!(parts.objs[1], SoftObjective::Constant { offset: 0 }));
}

#[test]
fn other_constraints_are_turned_into_clauses() {
    let mut constrs = SatInstance::<rustsat::instances::BasicVarManager>::new();
    constrs.add_unit(rs(3, false));
    constrs.add_card_constr(CardConstraint::new_ub(
        vec![rs(0, false), rs(1, false), rs(2, false)],
        1,
    ));
    let parts = take_apart(compose(constrs, vec![])).unwrap();
    assert_eq!(parts.cnf[0].lits, vec![pos(3)]);
    assert!(parts.cnf.len() > 1);
    assert!(parts.next >= 4);
    assert!(parts.next < 16);
    for inputs in 0u32..16 {
        let allowed = (inputs & 7).count_ones() <= 1 && inputs & 8 != 0;
        let extendable = (0u32..1 << (parts.next - 4))
            .any(|aux| satisfied(&parts.cnf, inputs | (aux << 4)));
        assert_eq!(extendable, allowed);
    }
}

#[test]
fn variables_may_run_out() {
    let unit = SoftObjective::Unweighted {
        offset: 0,
        unit_weight: 1,
        softs: vec![Clause::from_lits(vec![pos(0)])],
    };
    let long = SoftObjective::Weighted {
        offset: 0,
        softs: vec![(Clause::from_lits(vec![pos(0), pos(1)]), 2)],
    };
    assert!(enough_vars(MAX_VAR_IDX + 1, &vec![unit]));
    let objs = vec![long];
    assert!(!enough_vars(MAX_VAR_IDX + 1, &objs));
    assert!(enough_vars(MAX_VAR_IDX, &objs));
    assert!(!enough_vars(MAX_VAR_IDX + 2, &vec![]));
    assert!(enough_vars(7, &vec![SoftObjective::Constant { offset: 1 }]));
}

#[test]
fn equal_soft_clauses_share_a_variable() {
    let weighted = || SoftObjective::Weighted {
        offset: 0,
        softs: vec![(Clause::from_lits(vec![pos(0), pos(1)]), 2)],
    };
    let unweighted = || SoftObjective::Unweighted {
        offset: 0,
        unit_weight: 1,
        softs: vec![Clause::from_lits(vec![pos(0), pos(1)]), Clause::from_lits(vec![pos(0), pos(1)])],
    };
    let other = || SoftObjective::Unweighted {
        offset: 0,
        unit_weight: 1,
        softs: vec![Clause::from_lits(vec![pos(1), pos(0)])],
    };
    assert!(enough_vars(MAX_VAR_IDX, &vec![weighted(), unweighted()]));
    assert!(!enough_vars(MAX_VAR_IDX, &vec![weighted(), unweighted(), other()]));
    assert!(enough_vars(MAX_VAR_IDX - 1, &vec![weighted(), unweighted(), other()]));
    let mut constrs = SatInstance::<rustsat::instances::BasicVarManager>::new();
    constrs.add_unit(rs(MAX_VAR_IDX - 1, false));
    let objective = || {
        let mut obj = RsObjective::new();
        obj.add_soft_clause(1, rs_clause(&[rs(0, false), rs(1, false)]));
        obj
    };
    match Kernel::new(compose(constrs, vec![objective(), objective()]), OPTS) {
        Ok((kernel, _)) => {
            assert_eq!(kernel.max_orig_var.idx, MAX_VAR_IDX);
            assert_eq!(kernel.objs[0].iter(), kernel.objs[1].iter());
        }
        Err(_) => panic!("there are enough variables"),
    }
}

#[test]
fn setup_is_over_original_variables() {
    let mut constrs = SatInstance::<rustsat::instances::BasicVarManager>::new();
    constrs.add_binary(rs(0, false), rs(1, false));
    constrs.add_card_constr(CardConstraint::new_ub(
        vec![rs(0, false), rs(1, false), rs(2, false)],
        1,
    ));
    let mut obj = RsObjective::new();
    obj.add_soft_clause(1, rs_clause(&[rs(0, false), rs(4, false)]));
    obj.add_soft_lit(2, rs(3, false));
    let (kernel, setup) = match Kernel::new(compose(constrs, vec![obj]), OPTS) {
        Ok(r) => r,
        Err(_) => panic!("the instance has variables"),
    };
    let max = kernel.max_orig_var.idx;
    assert_eq!(max + 1, kernel.var_manager.next);
    assert!(setup.cnf.iter().chain(&setup.obj_cnf).all(|c| c.lits.iter().all(|l| l.vidx() <= max)));
    assert!(kernel.objs[0].iter().iter().all(|(l, _)| l.vidx() <= max));
}

#[test]
fn kernels_are_set_up_from_instances() {
    let mut constrs = SatInstance::<rustsat::instances::BasicVarManager>::new();
    constrs.add_binary(rs(0, false), rs(1, false));
    let mut first = RsObjective::new();
    first.add_soft_lit(2, rs(0, false));
    let mut second = RsObjective::new();
    second.add_soft_clause(1, rs_clause(&[rs(0, false), rs(1, true)]));
    let (kernel, setup) = match Kernel::new(compose(constrs, vec![first, second]), OPTS) {
        Ok(r) => r,
        Err(_) => panic!("the instance has variables"),
    };
    assert_eq!(kernel.objs[0].iter(), vec![(pos(0), 1)]);
    assert_eq!(kernel.objs[1].iter(), vec![(pos(2), 1)]);
    assert_eq!(kernel.externalize_internal_costs(&vec![1, 1]), vec![2, 1]);
    assert_eq!(setup.cnf.len(), 1);
    assert_eq!(setup.obj_cnf.len(), 1);
    assert_eq!(setup.obj_cnf[0].lits, vec![pos(0), neg(1), pos(2)]);
    assert_eq!(kernel.max_orig_var.idx, 2);
}

#[test]
fn kernels_need_enough_variables() {
    let mut constrs = SatInstance::<rustsat::instances::BasicVarManager>::new();
    constrs.add_unit(rs(MAX_VAR_IDX - 1, false));
    let mut obj = RsObjective::new();
    obj.add_soft_clause(1, rs_clause(&[rs(0, false), rs(1, false)]));
    obj.add_soft_clause(1, rs_clause(&[rs(1, false), rs(2, false)]));
    assert!(matches!(
        Kernel::new(compose(constrs, vec![obj]), OPTS),
        Err(Termination::VarLimit)
    ));
}

#[test]
fn setup_keeps_solutions_and_their_costs() {
    let mut constrs = SatInstance::<rustsat::instances::BasicVarManager>::new();
    constrs.add_binary(rs(0, false), rs(1, false));
    let mut obj = RsObjective::new();
    obj.set_offset(1);
    obj.add_soft_clause(4, rs_clause(&[rs(0, true), rs(1, true)]));
    obj.add_soft_lit(2, rs(1, false));
    let (kernel, setup) = match Kernel::new(compose(constrs, vec![obj]), OPTS) {
        Ok(r) => r,
        Err(_) => panic!("the instance has variables"),
    };
    assert_eq!(kernel.max_orig_var.idx, 2);
    for inputs in 0u32..4 {
        let solution = inputs != 0;
        let violated = (if inputs == 3 { 4 } else { 0 }) + (if inputs & 2 != 0 { 2 } else { 0 });
        let costs: Vec<usize> = (0u32..2)
            .map(|blit| inputs | (blit << 2))
            .filter(|bits| satisfied(&setup.cnf, *bits) && satisfied(&setup.obj_cnf, *bits))
            .map(|bits| {
                kernel.objs[0].iter().iter().filter(|(l, _)| holds(*l, bits)).map(|e| e.1).sum()
            })
            .collect();
        assert_eq!(!costs.is_empty(), solution);
        if solution {
            let best = *costs.iter().min().unwrap();
            assert_eq!(kernel.externalize_internal_costs(&vec![best]), vec![1 + violated]);
        }
    }
}
