use scuttle::blits::BlitTable;
use scuttle::config::{
    settle, EnumOptions, Limits, LoggerError, OracleError, Termination,
};
use scuttle::front::{NonDomPoint, ParetoFront};
use scuttle::types::{copy_lits, Assignment, Clause, Lit, TernaryVal, Var, MAX_VAR_IDX};
use scuttle::vars::VarManager;

fn lit(idx: u32) -> Lit {
    Lit::new(idx, false)
}

fn assignment(vals: &[TernaryVal]) -> Assignment {
    Assignment { values: vals.to_vec() }
}

#[test]
fn literals_have_variable_and_sign() {
    let l = Lit::new(5, true);
    assert_eq!(l.lidx, 11);
    assert_eq!(l.vidx(), 5);
    assert!(l.is_neg());
    assert_eq!(l.negate(), lit(5));
    assert_eq!(l.negate().negate(), l);
    assert_eq!(Lit::new(MAX_VAR_IDX, true).lidx, u32::MAX);
}

#[test]
fn clauses_compare_by_literals_in_order() {
    let mut cl = Clause::new();
    assert_eq!(cl.len(), 0);
    cl.add(lit(1));
    cl.add(lit(2));
    assert!(cl.same(&Clause::from_lits(vec![lit(1), lit(2)])));
    assert!(!cl.same(&Clause::from_lits(vec![lit(2), lit(1)])));
    assert!(!cl.same(&Clause::from_lits(vec![lit(1)])));
    assert!(cl.clone().same(&cl));
    assert_eq!(copy_lits(&cl.lits), vec![lit(1), lit(2)]);
}

#[test]
fn assignments_give_values_to_literals() {
    let sol = assignment(&[TernaryVal::True, TernaryVal::False, TernaryVal::DontCare]);
    assert_eq!(sol.lit_value(lit(0)), TernaryVal::True);
    assert_eq!(sol.lit_value(lit(0).negate()), TernaryVal::False);
    assert_eq!(sol.lit_value(lit(1).negate()), TernaryVal::True);
    assert_eq!(sol.lit_value(lit(2).negate()), TernaryVal::DontCare);
    assert_eq!(sol.var_value(17), TernaryVal::DontCare);
    assert_eq!(sol.lits(), vec![lit(0), lit(1).negate()]);
}

#[test]
fn assigning_beyond_the_end_leaves_gaps_open() {
    let mut sol = assignment(&[TernaryVal::True]);
    sol.assign_lit(lit(3).negate());
    assert_eq!(
        sol.values,
        vec![TernaryVal::True, TernaryVal::DontCare, TernaryVal::DontCare, TernaryVal::False]
    );
    sol.assign_lit(lit(0).negate());
    assert_eq!(sol.values[0], TernaryVal::False);
}

#[test]
fn truncating_keeps_the_first_variables() {
    let vals = [TernaryVal::True, TernaryVal::False, TernaryVal::True];
    assert_eq!(assignment(&vals).truncate(Var { idx: 1 }).values, vals[..2].to_vec());
    assert_eq!(assignment(&vals).truncate(Var { idx: 2 }).values, vals.to_vec());
    assert_eq!(assignment(&vals).truncate(Var { idx: 9 }).values, vals.to_vec());
}

#[test]
fn variables_are_handed_out_in_order() {
    let mut vm = VarManager::from_next_free(0);
    assert_eq!(vm.max_var(), None);
    assert_eq!(vm.new_var(), Var { idx: 0 });
    assert_eq!(vm.new_var(), Var { idx: 1 });
    assert_eq!(vm.max_var(), Some(Var { idx: 1 }));
    assert_eq!(vm.next, 2);
}

#[test]
fn blocking_literals_are_found_by_clause() {
    let mut table = BlitTable::new();
    let one = Clause::from_lits(vec![lit(0), lit(1)]);
    let other = Clause::from_lits(vec![lit(1), lit(0)]);
    assert_eq!(table.get(&one), None);
    table.insert(one.clone(), lit(7));
    assert_eq!(table.get(&one), Some(lit(7)));
    assert_eq!(table.get(&other), None);
    table.insert(other.clone(), lit(8));
    assert_eq!(table.get(&one), Some(lit(7)));
    assert_eq!(table.get(&other), Some(lit(8)));
}

#[test]
fn points_and_fronts_keep_the_order() {
    let mut first = NonDomPoint::new(vec![3, -1]);
    assert_eq!(first.n_sols(), 0);
    first.add_sol(assignment(&[TernaryVal::True]));
    first.add_sol(assignment(&[TernaryVal::False]));
    assert_eq!(first.n_sols(), 2);
    assert_eq!(first.costs(), &vec![3, -1]);
    assert_eq!(first.sols()[1].values, vec![TernaryVal::False]);
    let mut front = ParetoFront::new();
    front.add_pp(first.clone());
    front.add_pp(NonDomPoint::new(vec![0, 0]));
    let copy = front.clone();
    assert_eq!(copy.points().len(), 2);
    assert_eq!(copy.points()[0].n_sols(), 2);
    assert_eq!(copy.points()[1].costs(), &vec![0, 0]);
}

#[test]
fn enumeration_limits() {
    assert!(EnumOptions::NoEnum.is_enough(1));
    assert!(!EnumOptions::Solutions(None).is_enough(1000));
    assert!(!EnumOptions::PMCSs(None).is_enough(1000));
    assert!(!EnumOptions::Solutions(Some(3)).is_enough(2));
    assert!(EnumOptions::Solutions(Some(3)).is_enough(3));
    assert!(!EnumOptions::PMCSs(Some(2)).is_enough(1));
    assert!(EnumOptions::PMCSs(Some(2)).is_enough(5));
}

#[test]
fn a_limit_of_three_ends_at_the_third_event() {
    let mut limit = Some(3);
    assert!(settle(&mut limit, Ok(()), Termination::PPLimit).is_ok());
    assert!(settle(&mut limit, Ok(()), Termination::PPLimit).is_ok());
    assert_eq!(limit, Some(1));
    assert!(matches!(
        settle(&mut limit, Ok(()), Termination::PPLimit),
        Err(Termination::PPLimit)
    ));
    assert_eq!(limit, Some(0));
}

#[test]
fn a_failing_logger_comes_before_the_limit() {
    let mut limit = Some(1);
    let failure = LoggerError { message: "disk full".to_string() };
    match settle(&mut limit, Err(failure), Termination::SolsLimit) {
        Err(Termination::LoggerError(e)) => assert_eq!(e.message, "disk full"),
        _ => panic!("expected the failure of the logger"),
    }
    assert_eq!(limit, Some(1));
    let mut none = None;
    assert!(settle(&mut none, Ok(()), Termination::SolsLimit).is_ok());
    assert_eq!(none, None);
}

#[test]
fn only_failures_are_errors() {
    assert!(Termination::LoggerError(LoggerError { message: String::new() }).is_error());
    assert!(Termination::OracleError(OracleError { message: String::new() }).is_error());
    assert!(!Termination::PPLimit.is_error());
    assert!(!Termination::SolsLimit.is_error());
    assert!(!Termination::CandidatesLimit.is_error());
    assert!(!Termination::OracleCallsLimit.is_error());
    assert!(!Termination::Callback.is_error());
    assert!(!Termination::NoVars.is_error());
    assert!(!Termination::VarLimit.is_error());
    assert!(!Termination::UnsupportedConstraint.is_error());
    assert_eq!(
        Limits::none(),
        Limits { pps: None, sols: None, candidates: None, oracle_calls: None }
    );
}
