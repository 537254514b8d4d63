use rustsat::instances::{ReindexVars, ReindexingVarManager};
use scuttle::front::{NonDomPoint, ParetoFront};
use scuttle::reindex::reverse_solution;
use scuttle::types::{Assignment, TernaryVal};

fn assignment(vals: &[TernaryVal]) -> Assignment {
    Assignment { values: vals.to_vec() }
}

/// Renames the variables 4, 1 and 6 to 0, 1 and 2.
fn reindexer() -> ReindexingVarManager {
    let mut reindexer = ReindexingVarManager::default();
    for (renamed, var) in [4u32, 1, 6].into_iter().enumerate() {
        assert_eq!(reindexer.reindex(rustsat::types::Var::new(var)).idx(), renamed);
    }
    reindexer
}

#[test]
fn renaming_is_undone() {
    let sol = assignment(&[TernaryVal::False, TernaryVal::True, TernaryVal::DontCare]);
    assert_eq!(
        reverse_solution(&reindexer(), &sol).values,
        vec![
            TernaryVal::DontCare,
            TernaryVal::True,
            TernaryVal::DontCare,
            TernaryVal::DontCare,
            TernaryVal::False,
        ]
    );
}

#[test]
fn variables_without_a_name_are_left_out() {
    let sol = assignment(&[
        TernaryVal::DontCare,
        TernaryVal::False,
        TernaryVal::DontCare,
        TernaryVal::True,
    ]);
    assert_eq!(
        reverse_solution(&reindexer(), &sol).values,
        vec![TernaryVal::DontCare, TernaryVal::False]
    );
    assert!(reverse_solution(&reindexer(), &assignment(&[])).values.is_empty());
}

#[test]
fn solutions_of_all_points_are_converted() {
    let mut front = ParetoFront::new();
    let mut point = NonDomPoint::new(vec![2, 5]);
    point.add_sol(assignment(&[TernaryVal::True]));
    point.add_sol(assignment(&[TernaryVal::False]));
    front.add_pp(point);
    front.add_pp(NonDomPoint::new(vec![-1, 0]));
    let reindexer = reindexer();
    let converted = front.convert_solutions(&|sol: &Assignment| reverse_solution(&reindexer, sol));
    assert_eq!(converted.points().len(), 2);
    assert_eq!(converted.points()[0].costs(), &vec![2, 5]);
    assert_eq!(converted.points()[0].n_sols(), 2);
    assert_eq!(converted.points()[0].sols()[0].values[4], TernaryVal::True);
    assert_eq!(converted.points()[0].sols()[1].values[4], TernaryVal::False);
    assert_eq!(converted.points()[1].costs(), &vec![-1, 0]);
    assert_eq!(converted.points()[1].n_sols(), 0);
}
