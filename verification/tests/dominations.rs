use scuttle::config::{ControlSignal, EnumOptions, Options, Termination};
use scuttle::domination::{lit_impl_cube, literal_for_cube};
use scuttle::encoding::ObjEncoding;
use scuttle::kernel::SolverKernel;
use scuttle::objective::SoftObjective;
use scuttle::types::{Clause, Lit, MAX_VAR_IDX};
use scuttle::vars::VarManager;

type Kernel = SolverKernel<(), fn() -> ControlSignal>;

fn pos(idx: u32) -> Lit {
    Lit::new(idx, false)
}

fn neg(idx: u32) -> Lit {
    Lit::new(idx, true)
}

fn holds(l: Lit, bits: u32) -> bool {
    ((bits >> l.vidx()) & 1 == 1) != l.is_neg()
}

fn satisfied(cnf: &[Clause], bits: u32) -> bool {
    cnf.iter().all(|cl| cl.lits.iter().any(|l| holds(*l, bits)))
}

fn kernel(next: u32) -> Kernel {
    let opts = Options { enumeration: EnumOptions::NoEnum, solution_guided_search: false };
    let objs = vec![SoftObjective::Constant { offset: 0 }];
    match Kernel::from_parts(Vec::new(), VarManager::from_next_free(next), objs, opts) {
        Ok((kernel, _)) => kernel,
        Err(_) => panic!("there are variables"),
    }
}

#[test]
fn a_literal_implies_each_literal_of_a_cube() {
    let cnf = lit_impl_cube(pos(4), &vec![pos(0), neg(1)]);
    assert_eq!(cnf.len(), 2);
    assert_eq!(cnf[0].lits, vec![neg(4), pos(0)]);
    assert_eq!(cnf[1].lits, vec![neg(4), neg(1)]);
    assert!(lit_impl_cube(pos(4), &vec![]).is_empty());
}

#[test]
fn one_literal_stands_for_a_cube() {
    let mut vm = VarManager::from_next_free(6);
    let (l, cnf) = literal_for_cube(&vec![neg(2)], &mut vm).unwrap();
    assert_eq!(l, neg(2));
    assert!(cnf.is_empty());
    assert_eq!(vm.next, 6);
    let (l, cnf) = literal_for_cube(&vec![neg(2), pos(3)], &mut vm).unwrap();
    assert_eq!(l, pos(6));
    assert_eq!(cnf.len(), 2);
    assert_eq!(vm.next, 7);
    let (l, cnf) = literal_for_cube(&vec![], &mut vm).unwrap();
    assert_eq!(l, pos(7));
    assert!(cnf.is_empty());
    let mut full = VarManager::from_next_free(MAX_VAR_IDX + 1);
    assert!(literal_for_cube(&vec![], &mut full).is_none());
    assert!(literal_for_cube(&vec![neg(2)], &mut full).is_some());
}

#[test]
fn costs_of_zero_and_constants_block_nothing() {
    let mut kernel = kernel(2);
    let mut vm = kernel.var_manager;
    let mut encs = vec![
        ObjEncoding::new_unweighted(vec![pos(0), pos(1)], false, &mut vm),
        ObjEncoding::Constant,
    ];
    let block = match kernel.dominated_block_clause(&vec![0, 3], &mut encs) {
        Ok(block) => block,
        Err(_) => panic!("there are enough variables"),
    };
    assert_eq!(block.clause.len(), 0);
    assert!(block.cnf.is_empty());
    assert_eq!(kernel.var_manager.next, 2);
}

#[test]
fn exactly_the_dominated_assignments_are_blocked() {
    let weighted = vec![(pos(0), 2), (pos(1), 3)];
    let unweighted = vec![neg(0), pos(1), pos(2)];
    for first in 0usize..7 {
        for second in 0usize..5 {
            let mut kernel = kernel(3);
            let mut vm = kernel.var_manager;
            let mut encs = vec![
                ObjEncoding::new_weighted(weighted.clone(), false, &mut vm),
                ObjEncoding::new_unweighted(unweighted.clone(), false, &mut vm),
                ObjEncoding::Constant,
            ];
            let block = match kernel.dominated_block_clause(&vec![first, second, 0], &mut encs) {
                Ok(block) => block,
                Err(_) => panic!("there are enough variables"),
            };
            let counted = (first != 0) as usize + (second != 0) as usize;
            assert_eq!(block.clause.len(), counted);
            let next = kernel.var_manager.next;
            assert!(next < 20);
            for bits in 0u32..8 {
                let w: usize = weighted.iter().filter(|(l, _)| holds(*l, bits)).map(|e| e.1).sum();
                let u = unweighted.iter().filter(|l| holds(**l, bits)).count();
                let allowed = (0u32..1 << (next - 3)).any(|aux| {
                    let all = bits | (aux << 3);
                    satisfied(&block.cnf, all) && block.clause.lits.iter().any(|l| holds(*l, all))
                });
                assert_eq!(allowed, w < first || u < second);
            }
        }
    }
}

#[test]
fn blocking_goes_on_with_the_same_encodings() {
    let lits = vec![pos(0), pos(1), pos(2)];
    let mut kernel = kernel(3);
    let mut vm = kernel.var_manager;
    let mut encs = vec![
        ObjEncoding::new_unweighted(lits.clone(), true, &mut vm),
        ObjEncoding::new_weighted(vec![(neg(0), 1), (neg(1), 2), (neg(2), 3)], true, &mut vm),
    ];
    let mut cnf = Vec::new();
    let mut clauses = Vec::new();
    let points = [(3usize, 1usize), (2, 2)];
    for (u, w) in points {
        let block = match kernel.dominated_block_clause(&vec![u, w], &mut encs) {
            Ok(block) => block,
            Err(_) => panic!("there are enough variables"),
        };
        cnf.extend(block.cnf);
        clauses.push(block.clause);
    }
    let next = kernel.var_manager.next;
    assert!(next < 22);
    for bits in 0u32..8 {
        let u = lits.iter().filter(|l| holds(**l, bits)).count();
        let w: usize =
            [1usize, 2, 3].iter().enumerate().filter(|(i, _)| (bits >> *i) & 1 == 0).map(|e| e.1).sum();
        let dominated = points.iter().any(|(pu, pw)| u >= *pu && w >= *pw);
        let allowed = (0u32..1 << (next - 3)).any(|aux| {
            let all = bits | (aux << 3);
            satisfied(&cnf, all) && satisfied(&clauses, all)
        });
        assert_eq!(allowed, !dominated);
    }
}

#[test]
fn blocking_needs_variables() {
    let mut kernel = kernel(MAX_VAR_IDX + 1);
    let mut vm = kernel.var_manager;
    let mut encs = vec![ObjEncoding::new_unweighted(vec![pos(0), pos(1)], false, &mut vm)];
    assert!(matches!(
        kernel.dominated_block_clause(&vec![1], &mut encs),
        Err(Termination::VarLimit)
    ));
}

#[test]
fn blocking_with_one_literal_needs_no_variables() {
    let mut kernel = kernel(MAX_VAR_IDX + 1);
    let mut vm = kernel.var_manager;
    let mut encs = vec![
        ObjEncoding::new_unweighted(vec![pos(0)], false, &mut vm),
        ObjEncoding::new_weighted(vec![(neg(1), 4)], true, &mut vm),
    ];
    let block = match kernel.dominated_block_clause(&vec![1, 4], &mut encs) {
        Ok(block) => block,
        Err(_) => panic!("no variables are needed"),
    };
    assert_eq!(block.clause.lits, vec![neg(0), pos(1)]);
    assert!(block.cnf.is_empty());
    assert_eq!(kernel.var_manager.next, MAX_VAR_IDX + 1);
}

#[test]
fn failed_blocking_leaves_later_objectives_alone() {
    let mut kernel = kernel(MAX_VAR_IDX + 1);
    let mut vm = kernel.var_manager;
    let mut encs = vec![
        ObjEncoding::new_unweighted(vec![pos(0)], false, &mut vm),
        ObjEncoding::new_weighted(vec![(pos(0), 1), (pos(1), 1)], false, &mut vm),
        ObjEncoding::new_unweighted(vec![pos(2)], false, &mut vm),
    ];
    assert!(kernel.dominated_block_clause(&vec![1, 1, 1], &mut encs).is_err());
    assert!(encs[0].enforce_ub(0).is_ok());
    assert!(encs[2].enforce_ub(0).is_err());
}

#[test]
fn what_blocking_needs_rules_nothing_out() {
    let mut kernel = kernel(3);
    let mut vm = kernel.var_manager;
    let mut encs = vec![
        ObjEncoding::new_weighted(vec![(pos(0), 1), (pos(1), 2), (pos(2), 3)], false, &mut vm),
        ObjEncoding::new_unweighted(vec![neg(0), neg(1), neg(2)], false, &mut vm),
    ];
    let mut known: Vec<Clause> = Vec::new();
    for costs in [vec![4, 2], vec![2, 3], vec![6, 1]] {
        let before = kernel.var_manager.next;
        let block = match kernel.dominated_block_clause(&costs, &mut encs) {
            Ok(block) => block,
            Err(_) => panic!("there are enough variables"),
        };
        let next = kernel.var_manager.next;
        assert!(next < 22);
        let mut all = known.clone();
        all.extend(block.cnf.iter().cloned());
        for bits in (0u32..1 << before).filter(|bits| satisfied(&known, *bits)) {
            assert!((0u32..1 << (next - before)).any(|aux| satisfied(&all, bits | (aux << before))));
        }
        known = all;
    }
}

#[test]
fn bounds_may_be_encoded_between_blocks() {
    let lits = vec![pos(0), pos(1), pos(2)];
    let weights = vec![(neg(0), 1), (neg(1), 2), (neg(2), 3)];
    let mut kernel = kernel(3);
    let mut vm = kernel.var_manager;
    let mut encs = vec![
        ObjEncoding::new_unweighted(lits.clone(), false, &mut vm),
        ObjEncoding::new_weighted(weights.clone(), false, &mut vm),
    ];
    let mut cnf: Vec<Clause> = Vec::new();
    let points = [(3usize, 2usize), (2, 4)];
    for (u, w) in points {
        cnf.extend(encs[0].encode_ub_change(u..u + 1, &mut kernel.var_manager));
        cnf.extend(encs[1].encode_ub_change(w..w + 1, &mut kernel.var_manager));
        let block = match kernel.dominated_block_clause(&vec![u, w], &mut encs) {
            Ok(block) => block,
            Err(_) => panic!("there are enough variables"),
        };
        cnf.extend(block.cnf);
        cnf.push(block.clause);
    }
    let next = kernel.var_manager.next;
    assert!(next < 24);
    for bits in 0u32..8 {
        let u = lits.iter().filter(|l| holds(**l, bits)).count();
        let w: usize = weights.iter().filter(|(l, _)| holds(*l, bits)).map(|e| e.1).sum();
        let dominated = points.iter().any(|(pu, pw)| u >= *pu && w >= *pw);
        let allowed =
            (0u32..1 << (next - 3)).any(|aux| satisfied(&cnf, bits | (aux << 3)));
        assert_eq!(allowed, !dominated);
    }
}
