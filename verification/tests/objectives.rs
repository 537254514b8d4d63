use scuttle::blits::BlitTable;
use scuttle::objective::{
    absorb_objective, absorb_soft_clause, LitWeights, Objective, SoftObjective,
};
use scuttle::types::{Clause, Lit};
use scuttle::vars::VarManager;

fn pos(idx: u32) -> Lit {
    Lit::new(idx, false)
}

fn neg(idx: u32) -> Lit {
    Lit::new(idx, true)
}

fn clause(lits: &[Lit]) -> Clause {
    Clause::from_lits(lits.to_vec())
}

#[test]
fn weights_of_known_literals_are_replaced() {
    let mut t = LitWeights::new();
    t.insert(pos(1), 4);
    t.insert(neg(1), 5);
    t.insert(pos(1), 9);
    assert_eq!(t.into_entries(), vec![(pos(1), 9), (neg(1), 5)]);
}

#[test]
fn unit_clauses_need_no_new_literal() {
    let mut cnf = Vec::new();
    let mut blits = BlitTable::new();
    let mut vm = VarManager::from_next_free(4);
    let l = absorb_soft_clause(clause(&[neg(2)]), &mut cnf, &mut blits, &mut vm);
    assert_eq!(l, pos(2));
    assert!(cnf.is_empty());
    assert_eq!(vm.next, 4);
}

#[test]
fn long_clauses_are_relaxed_once() {
    let mut cnf = Vec::new();
    let mut blits = BlitTable::new();
    let mut vm = VarManager::from_next_free(4);
    let first = absorb_soft_clause(clause(&[pos(0), neg(1)]), &mut cnf, &mut blits, &mut vm);
    let again = absorb_soft_clause(clause(&[pos(0), neg(1)]), &mut cnf, &mut blits, &mut vm);
    let other = absorb_soft_clause(clause(&[neg(1), pos(0)]), &mut cnf, &mut blits, &mut vm);
    let empty = absorb_soft_clause(clause(&[]), &mut cnf, &mut blits, &mut vm);
    assert_eq!(first, pos(4));
    assert_eq!(again, pos(4));
    assert_eq!(other, pos(5));
    assert_eq!(empty, pos(6));
    assert_eq!(cnf.len(), 3);
    assert_eq!(cnf[0].lits, vec![pos(0), neg(1), pos(4)]);
    assert_eq!(cnf[1].lits, vec![neg(1), pos(0), pos(5)]);
    assert_eq!(cnf[2].lits, vec![pos(6)]);
    assert_eq!(vm.next, 7);
}

#[test]
fn weighted_objectives_keep_weights_and_offset() {
    let mut cnf = Vec::new();
    let mut blits = BlitTable::new();
    let mut vm = VarManager::from_next_free(3);
    let soft = SoftObjective::Weighted {
        offset: -7,
        softs: vec![(clause(&[pos(0)]), 3), (clause(&[pos(1), pos(2)]), 8)],
    };
    let obj = absorb_objective(soft, &mut cnf, &mut blits, &mut vm);
    assert_eq!(obj.offset(), -7);
    assert_eq!(obj.len(), 2);
    assert_eq!(obj.iter(), vec![(neg(0), 3), (pos(3), 8)]);
    assert_eq!(obj.entry(1), (pos(3), 8));
}

#[test]
fn unweighted_objectives_have_unit_literals() {
    let mut cnf = Vec::new();
    let mut blits = BlitTable::new();
    let mut vm = VarManager::from_next_free(3);
    let soft = SoftObjective::Unweighted {
        offset: 2,
        unit_weight: 6,
        softs: vec![clause(&[pos(0)]), clause(&[pos(1), pos(2)]), clause(&[pos(0)])],
    };
    let obj = absorb_objective(soft, &mut cnf, &mut blits, &mut vm);
    assert_eq!(obj.iter(), vec![(neg(0), 1), (pos(3), 1), (neg(0), 1)]);
    match obj {
        Objective::Unweighted { offset, unit_weight, .. } => {
            assert_eq!(offset, 2);
            assert_eq!(unit_weight, 6);
        }
        _ => panic!("expected an unweighted objective"),
    }
}

#[test]
fn constant_objectives_have_no_literals() {
    let mut cnf = Vec::new();
    let mut blits = BlitTable::new();
    let mut vm = VarManager::from_next_free(0);
    let obj = absorb_objective(
        SoftObjective::Constant { offset: 12 },
        &mut cnf,
        &mut blits,
        &mut vm,
    );
    assert_eq!(obj.offset(), 12);
    assert_eq!(obj.len(), 0);
    assert!(obj.iter().is_empty());
}

#[test]
fn objectives_share_the_literals_of_equal_clauses() {
    let mut cnf = Vec::new();
    let mut blits = BlitTable::new();
    let mut vm = VarManager::from_next_free(2);
    let one = absorb_objective(
        SoftObjective::Unweighted {
            offset: 0,
            unit_weight: 1,
            softs: vec![clause(&[pos(0), pos(1)])],
        },
        &mut cnf,
        &mut blits,
        &mut vm,
    );
    let other = absorb_objective(
        SoftObjective::Weighted { offset: 0, softs: vec![(clause(&[pos(0), pos(1)]), 4)] },
        &mut cnf,
        &mut blits,
        &mut vm,
    );
    assert_eq!(one.iter(), vec![(pos(2), 1)]);
    assert_eq!(other.iter(), vec![(pos(2), 4)]);
    assert_eq!(cnf.len(), 1);
}

#[test]
fn absorbing_again_changes_nothing() {
    let obj = || SoftObjective::Weighted {
        offset: 3,
        softs: vec![
            (clause(&[pos(0), pos(1)]), 2),
            (clause(&[neg(2)]), 5),
            (clause(&[]), 1),
        ],
    };
    let mut cnf = Vec::new();
    let mut blits = BlitTable::new();
    let mut vm = VarManager::from_next_free(3);
    let first = absorb_objective(obj(), &mut cnf, &mut blits, &mut vm);
    let n_clauses = cnf.len();
    let next = vm.next;
    absorb_soft_clause(clause(&[pos(1), pos(0)]), &mut cnf, &mut blits, &mut vm);
    assert_eq!((cnf.len(), vm.next), (n_clauses + 1, next + 1));
    let again = absorb_objective(obj(), &mut cnf, &mut blits, &mut vm);
    assert_eq!((cnf.len(), vm.next), (n_clauses + 1, next + 1));
    assert_eq!(first.iter(), again.iter());
    assert_eq!(first.offset(), again.offset());
    assert_eq!(first.iter(), vec![(pos(3), 2), (pos(2), 5), (pos(4), 1)]);
}
