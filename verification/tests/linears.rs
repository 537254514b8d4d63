use rustsat::instances::{BasicVarManager, MultiOptInstance, Objective as RsObjective, SatInstance};
use rustsat::types::constraints::{CardConstraint, PBConstraint};
use scuttle::config::{ControlSignal, EnumOptions, Options, Termination};
use scuttle::instance::{take_apart, Instance, InstanceParts};
use scuttle::kernel::SolverKernel;
use scuttle::linear::{encode_all, Cardinality, PseudoBoolean, Relation};
use scuttle::types::{Clause, Lit, MAX_VAR_IDX};

fn pos(idx: u32) -> Lit {
    Lit::new(idx, false)
}

fn neg(idx: u32) -> Lit {
    Lit::new(idx, true)
}

fn rs(idx: u32, negated: bool) -> rustsat::types::Lit {
    rustsat::types::Lit::new(idx, negated)
}

fn holds(l: Lit, bits: u32) -> bool {
    ((bits >> l.vidx()) & 1 == 1) != l.is_neg()
}

/// Looks for values of the variables that are not yet assigned.
fn solvable(cnf: &[Clause], vals: &mut Vec<Option<bool>>) -> bool {
    for cl in cnf {
        let mut open: Vec<Lit> = Vec::new();
        let mut done = false;
        for l in &cl.lits {
            match vals[l.vidx() as usize] {
                Some(val) => done |= val != l.is_neg(),
                None => open.push(*l),
            }
        }
        if done {
            continue;
        }
        let l = match open.first() {
            Some(l) => *l,
            None => return false,
        };
        let values = if open.len() == 1 { vec![!l.is_neg()] } else { vec![true, false] };
        for val in values {
            let mut next = vals.clone();
            next[l.vidx() as usize] = Some(val);
            if solvable(cnf, &mut next) {
                return true;
            }
        }
        return false;
    }
    true
}

/// Whether the values of the first variables can be extended.
fn extendable(cnf: &[Clause], next: u32, inputs: u32, bits: u32) -> bool {
    let mut vals: Vec<Option<bool>> =
        (0..next).map(|v| if v < inputs { Some((bits >> v) & 1 == 1) } else { None }).collect();
    solvable(cnf, &mut vals)
}

const RELATIONS: [Relation; 3] = [Relation::AtMost, Relation::AtLeast, Relation::Exactly];

fn relates(relation: Relation, sum: isize, bound: isize) -> bool {
    match relation {
        Relation::AtMost => sum <= bound,
        Relation::AtLeast => sum >= bound,
        Relation::Exactly => sum == bound,
    }
}

fn check_pb(entries: &[(Lit, usize)], inputs: u32) {
    let total: usize = entries.iter().map(|e| e.1).sum();
    for relation in RELATIONS {
        for bound in -1..=(total as isize + 1) {
            let pb = PseudoBoolean { relation, entries: entries.to_vec(), bound };
            let uniform = entries.iter().all(|e| e.1 == entries[0].1 && e.1 > 0);
            let indivisible = relation == Relation::Exactly
                && uniform
                && bound >= 0
                && bound <= total as isize
                && bound as usize % entries[0].1 != 0;
            assert_eq!(pb.can_encode(), !indivisible);
            if indivisible {
                continue;
            }
            let f = encode_all(Vec::new(), inputs, &Vec::new(), &vec![pb]).unwrap();
            for bits in 0u32..1 << inputs {
                let sum: usize = entries.iter().filter(|e| holds(e.0, bits)).map(|e| e.1).sum();
                assert_eq!(
                    extendable(&f.cnf, f.next, inputs, bits),
                    relates(relation, sum as isize, bound)
                );
            }
        }
    }
}

fn check_card(lits: &[Lit], inputs: u32) {
    for relation in RELATIONS {
        for bound in 0..=lits.len() + 1 {
            let card = Cardinality { relation, lits: lits.to_vec(), bound };
            let f = encode_all(Vec::new(), inputs, &vec![card], &Vec::new()).unwrap();
            for bits in 0u32..1 << inputs {
                let sum = lits.iter().filter(|l| holds(**l, bits)).count();
                assert_eq!(
                    extendable(&f.cnf, f.next, inputs, bits),
                    relates(relation, sum as isize, bound as isize)
                );
            }
        }
    }
}

#[test]
fn pseudo_boolean_constraints_are_encoded() {
    for a in 1usize..5 {
        for b in 1usize..5 {
            check_pb(&[(pos(0), a), (neg(1), b)], 2);
            for c in 1usize..5 {
                check_pb(&[(pos(0), a), (neg(1), b), (pos(2), c)], 3);
            }
        }
    }
    check_pb(&[(neg(0), 3)], 1);
    check_pb(&[(pos(0), 1), (pos(1), 3), (neg(2), 3), (pos(3), 7)], 4);
}

#[test]
fn literals_of_equal_weight_may_repeat() {
    check_pb(&[(pos(0), 2), (pos(0), 2), (neg(1), 2)], 2);
    check_pb(&[(pos(0), 1), (neg(0), 1), (pos(1), 1)], 2);
    check_pb(&[(pos(0), 3), (neg(0), 1), (pos(1), 2)], 2);
}

#[test]
fn weights_of_repeated_literals_add_up() {
    check_pb(&[(pos(0), 1), (pos(0), 2), (pos(1), 3)], 2);
    check_pb(&[(pos(0), 1), (pos(1), 2), (pos(0), 1), (neg(1), 1)], 2);
    check_pb(&[(neg(0), 2), (neg(0), 1), (neg(0), 4)], 1);
    check_pb(&[(pos(0), 1), (pos(0), 1), (pos(1), 2), (neg(2), 2)], 3);
}

#[test]
fn weights_of_zero_count_for_nothing() {
    check_pb(&[(pos(0), 1), (pos(1), 0)], 2);
    check_pb(&[(pos(0), 0)], 1);
    check_pb(&[(pos(0), 0), (neg(0), 0)], 1);
    check_pb(&[(pos(0), 2), (pos(1), 0), (neg(2), 2)], 3);
    check_pb(&[(pos(0), 0), (pos(0), 3), (neg(1), 2), (pos(2), 0)], 3);
}

#[test]
fn simplifying_merges_and_drops() {
    let pb = |entries: &[(Lit, usize)]| PseudoBoolean {
        relation: Relation::AtMost,
        entries: entries.to_vec(),
        bound: 2,
    };
    let given = [(pos(0), 1), (pos(1), 0), (neg(0), 4), (pos(0), 2)];
    assert_eq!(pb(&given).simplified().entries, vec![(pos(0), 3), (neg(0), 4)]);
    let uniform = [(pos(0), 2), (pos(0), 2)];
    assert_eq!(pb(&uniform).simplified().entries, uniform.to_vec());
    let distinct = [(pos(1), 2), (pos(0), 5)];
    assert_eq!(pb(&distinct).simplified().entries, distinct.to_vec());
    assert!(pb(&[(pos(0), 0)]).simplified().entries.is_empty());
}

#[test]
fn large_weights_are_encoded() {
    let q = 1usize << 62;
    let entries = vec![(pos(0), q), (pos(1), q), (neg(2), q), (pos(3), 5)];
    for relation in RELATIONS {
        for bound in [0, 5, q as isize, q as isize + 4, q as isize + 5, isize::MAX] {
            let pb = PseudoBoolean { relation, entries: entries.clone(), bound };
            // All but the small bound and one more weight are out of range
            if relation == Relation::Exactly && bound == 5 {
                assert!(!pb.can_encode());
                continue;
            }
            assert!(pb.can_encode());
            let f = encode_all(Vec::new(), 4, &Vec::new(), &vec![pb]).unwrap();
            for bits in 0u32..16 {
                let sum: i128 =
                    entries.iter().filter(|e| holds(e.0, bits)).map(|e| e.1 as i128).sum();
                let allowed = match relation {
                    Relation::AtMost => sum <= bound as i128,
                    Relation::AtLeast => sum >= bound as i128,
                    Relation::Exactly => sum == bound as i128,
                };
                assert_eq!(extendable(&f.cnf, f.next, 4, bits), allowed);
            }
        }
    }
}

#[test]
fn the_constraint_decides_how_many_variables_are_taken() {
    let cards = |lits: Vec<Lit>| vec![Cardinality { relation: Relation::Exactly, lits, bound: 2 }];
    let pbs = |entries: Vec<(Lit, usize)>| {
        vec![PseudoBoolean { relation: Relation::Exactly, entries, bound: 5 }]
    };
    let lits = vec![pos(0), pos(1), neg(2), pos(3)];
    let entries = vec![(pos(0), 1), (pos(1), 2), (neg(2), 3), (pos(3), 4), (pos(4), 4)];
    let card_next = encode_all(Vec::new(), 5, &cards(lits.clone()), &Vec::new()).unwrap().next;
    let pb_next = encode_all(Vec::new(), 5, &Vec::new(), &pbs(entries.clone())).unwrap().next;
    assert!(card_next > 5 && pb_next > 5);
    for start in [5u32, 6, 100, 1 << 30] {
        let f = encode_all(Vec::new(), start, &cards(lits.clone()), &Vec::new()).unwrap();
        assert_eq!(f.next - start, card_next - 5);
        let f = encode_all(Vec::new(), start, &Vec::new(), &pbs(entries.clone())).unwrap();
        assert_eq!(f.next - start, pb_next - 5);
        let f = encode_all(Vec::new(), start, &cards(lits.clone()), &pbs(entries.clone())).unwrap();
        assert_eq!(f.next - start, card_next + pb_next - 10);
    }
}

#[test]
fn constraints_without_literals_are_encoded() {
    for relation in RELATIONS {
        for bound in -1isize..2 {
            let pb = PseudoBoolean { relation, entries: Vec::new(), bound };
            assert!(pb.can_encode());
            let f = encode_all(Vec::new(), 1, &Vec::new(), &vec![pb]).unwrap();
            assert_eq!(extendable(&f.cnf, f.next, 1, 0), relates(relation, 0, bound));
        }
    }
    check_card(&[], 1);
}

#[test]
fn cardinality_constraints_are_encoded() {
    check_card(&[pos(0)], 1);
    check_card(&[pos(0), neg(1)], 2);
    check_card(&[pos(0), neg(1), pos(2)], 3);
    check_card(&[pos(0), neg(1), pos(2), pos(3), neg(4)], 5);
    check_card(&[pos(0), pos(0), neg(1)], 2);
    check_card(&[pos(0), neg(0), pos(0)], 1);
}

#[test]
fn constraints_that_cannot_be_encoded_are_told() {
    let q = 1usize << 62;
    let huge = || vec![(pos(0), q), (pos(1), q), (pos(2), q), (pos(3), q - 2)];
    let refused = [
        (Relation::Exactly, vec![(pos(0), 2), (pos(1), 2)], 3),
        (Relation::Exactly, vec![(pos(0), 3)], 1),
        (Relation::AtLeast, huge(), q as isize),
        (Relation::AtMost, vec![(pos(0), usize::MAX), (pos(1), 1)], 1),
        (Relation::AtMost, vec![(pos(0), usize::MAX)], 1),
    ];
    for (relation, entries, bound) in refused {
        assert!(!PseudoBoolean { relation, entries, bound }.can_encode());
    }
    let accepted = [
        (Relation::AtMost, vec![(pos(0), 2), (pos(1), 2)], 3),
        (Relation::Exactly, vec![(pos(0), 2), (pos(1), 2)], 5),
        (Relation::Exactly, vec![(pos(0), 2), (pos(1), 2)], -1),
        (Relation::Exactly, vec![(pos(0), 2), (pos(1), 2), (pos(2), 0)], 3),
        (Relation::AtLeast, huge(), 5),
        (Relation::AtMost, huge(), q as isize),
        (Relation::AtLeast, vec![(pos(0), isize::MAX as usize), (pos(1), 1)], 1),
    ];
    for (relation, entries, bound) in accepted {
        let pb = PseudoBoolean { relation, entries, bound };
        assert!(pb.can_encode());
        assert!(encode_all(Vec::new(), 4, &Vec::new(), &vec![pb]).is_some());
    }
}

#[test]
fn clauses_come_before_encodings() {
    let given = vec![Clause::from_lits(vec![pos(4)]), Clause::from_lits(vec![neg(0), pos(3)])];
    let card = Cardinality { relation: Relation::AtMost, lits: vec![pos(0), pos(1), pos(2)], bound: 1 };
    let pb = PseudoBoolean {
        relation: Relation::AtLeast,
        entries: vec![(pos(1), 2), (pos(2), 3), (pos(3), 4)],
        bound: 5,
    };
    let f = encode_all(given, 5, &vec![card], &vec![pb]).unwrap();
    assert_eq!(f.cnf[0].lits, vec![pos(4)]);
    assert_eq!(f.cnf[1].lits, vec![neg(0), pos(3)]);
    for bits in 0u32..32 {
        let b = |i: u32| (bits >> i) & 1;
        let allowed = b(4) == 1
            && (b(0) == 0 || b(3) == 1)
            && b(0) + b(1) + b(2) <= 1
            && 2 * b(1) + 3 * b(2) + 4 * b(3) >= 5;
        assert_eq!(extendable(&f.cnf, f.next, 5, bits), allowed);
    }
}

#[test]
fn encodings_may_run_out_of_variables() {
    let card = || Cardinality {
        relation: Relation::AtMost,
        lits: vec![pos(0), pos(1), pos(2)],
        bound: 1,
    };
    assert!(encode_all(Vec::new(), MAX_VAR_IDX + 2, &vec![card()], &Vec::new()).is_none());
    assert!(encode_all(Vec::new(), MAX_VAR_IDX + 1, &vec![card(), card()], &Vec::new()).is_none());
    assert!(encode_all(Vec::new(), MAX_VAR_IDX + 2, &Vec::new(), &Vec::new()).is_some());
}

fn instance(pbs: Vec<PBConstraint>, cards: Vec<CardConstraint>) -> Instance {
    let mut constrs = SatInstance::<BasicVarManager>::new();
    for pb in pbs {
        constrs.add_pb_constr(pb);
    }
    for card in cards {
        constrs.add_card_constr(card);
    }
    let mut obj = RsObjective::new();
    obj.add_soft_lit(1, rs(0, false));
    Instance { inner: MultiOptInstance::compose(constrs, vec![obj]) }
}

fn check_instance(parts: InstanceParts, inputs: u32, allowed: fn(u32) -> bool) {
    for bits in 0u32..1 << inputs {
        assert_eq!(extendable(&parts.cnf, parts.next, inputs, bits), allowed(bits));
    }
}

#[test]
fn constraints_of_instances_are_read() {
    let xyz = || vec![rs(0, false), rs(1, false), rs(2, false)];
    let weighted = || vec![(rs(0, false), 1), (rs(1, false), 2), (rs(2, false), 3)];
    let parts = take_apart(instance(vec![PBConstraint::new_ub(weighted(), 3)], vec![]));
    check_instance(parts.unwrap(), 3, |b| (b & 1) + (b & 2) + 3 * (b >> 2) <= 3);
    let parts = take_apart(instance(vec![PBConstraint::new_lb(weighted(), 4)], vec![]));
    check_instance(parts.unwrap(), 3, |b| (b & 1) + (b & 2) + 3 * (b >> 2) >= 4);
    let parts = take_apart(instance(vec![PBConstraint::new_eq(weighted(), 3)], vec![]));
    check_instance(parts.unwrap(), 3, |b| (b & 1) + (b & 2) + 3 * (b >> 2) == 3);
    let negative = vec![(rs(0, false), -2), (rs(1, false), 1), (rs(2, false), 1)];
    let parts = take_apart(instance(vec![PBConstraint::new_ub(negative, -1)], vec![]));
    check_instance(parts.unwrap(), 3, |b| ((b >> 1) & 1) + (b >> 2) + 1 <= 2 * (b & 1));
    let parts = take_apart(instance(
        vec![PBConstraint::new_lb(weighted(), 2)],
        vec![CardConstraint::new_ub(xyz(), 2), CardConstraint::new_eq(xyz()[..2].to_vec(), 1)],
    ));
    check_instance(parts.unwrap(), 3, |b| {
        (b & 1) + (b & 2) + 3 * (b >> 2) >= 2 && b.count_ones() <= 2 && (b & 3).count_ones() == 1
    });
    let parts = take_apart(instance(vec![], vec![CardConstraint::new_lb(xyz(), 2)]));
    check_instance(parts.unwrap(), 3, |b| b.count_ones() >= 2);
}

#[test]
fn zero_weights_and_repeats_of_instances_are_simplified() {
    let pb = PBConstraint::new_ub(vec![(rs(0, false), 1), (rs(1, false), 0)], 1);
    let parts = take_apart(instance(vec![pb], vec![])).unwrap();
    assert!(parts.cnf.is_empty());
    check_instance(parts, 2, |_| true);
    let pb = PBConstraint::new_ub(vec![(rs(0, false), 1), (rs(0, false), 2), (rs(1, false), 3)], 2);
    check_instance(take_apart(instance(vec![pb], vec![])).unwrap(), 2, |b| b == 0);
    let pb = PBConstraint::new_eq(vec![(rs(0, false), 0)], 0);
    check_instance(take_apart(instance(vec![pb], vec![])).unwrap(), 1, |_| true);
}

#[test]
fn instances_with_indivisible_equalities_are_refused() {
    let opts = Options { enumeration: EnumOptions::NoEnum, solution_guided_search: false };
    let refused = || PBConstraint::new_eq(vec![(rs(0, false), 2), (rs(1, false), 2)], 3);
    let fine = PBConstraint::new_ub(vec![(rs(0, false), 1), (rs(1, false), 2)], 2);
    assert!(matches!(
        take_apart(instance(vec![fine, refused()], vec![])),
        Err(Termination::UnsupportedConstraint)
    ));
    assert!(matches!(
        SolverKernel::<(), fn() -> ControlSignal>::new(instance(vec![refused()], vec![]), opts),
        Err(Termination::UnsupportedConstraint)
    ));
}
