use scuttle::encoding::{can_encode, EncodingError, ObjEncoding};
use scuttle::types::{Clause, Lit, MAX_VAR_IDX};
use scuttle::vars::VarManager;

fn pos(idx: u32) -> Lit {
    Lit::new(idx, false)
}

fn neg(idx: u32) -> Lit {
    Lit::new(idx, true)
}

fn holds(l: Lit, bits: u32) -> bool {
    ((bits >> l.vidx()) & 1 == 1) != l.is_neg()
}

fn satisfied(cnf: &[Clause], bits: u32) -> bool {
    cnf.iter().all(|cl| cl.lits.iter().any(|l| holds(*l, bits)))
}

/// Checks that clauses and literals allow for exactly the assignments of the
/// inputs whose weight is at most the bound.
fn check_bound(
    inputs: &[(Lit, usize)],
    n_inputs: u32,
    cnf: &[Clause],
    lits: &[Lit],
    next: u32,
    ub: usize,
) {
    assert!(next <= n_inputs + 14);
    for bits in 0u32..1 << n_inputs {
        let weight: usize = inputs.iter().filter(|(l, _)| holds(*l, bits)).map(|e| e.1).sum();
        let allowed = (0u32..1 << (next - n_inputs)).any(|aux| {
            let all = bits | (aux << n_inputs);
            satisfied(cnf, all) && lits.iter().all(|l| holds(*l, all))
        });
        assert_eq!(allowed, weight <= ub, "bits {:b}, bound {}", bits, ub);
    }
}

#[test]
fn next_higher_before_encoding() {
    let mut vm = VarManager::from_next_free(3);
    let enc = ObjEncoding::new_weighted(vec![(pos(0), 2), (pos(1), 3)], false, &mut vm);
    assert_eq!(enc.next_higher(0), 1);
    assert_eq!(enc.next_higher(7), 8);
    let enc = ObjEncoding::new_unweighted(vec![pos(0)], false, &mut vm);
    assert_eq!(enc.next_higher(4), 5);
    assert_eq!(ObjEncoding::Constant.next_higher(4), 4);
}

#[test]
fn next_higher_goes_to_the_next_sum() {
    let mut vm = VarManager::from_next_free(3);
    let mut enc =
        ObjEncoding::new_weighted(vec![(pos(0), 2), (pos(1), 3), (pos(2), 7)], false, &mut vm);
    enc.encode_ub_change(0..12, &mut vm);
    assert_eq!(enc.next_higher(0), 2);
    assert_eq!(enc.next_higher(2), 3);
    assert_eq!(enc.next_higher(3), 5);
    assert_eq!(enc.next_higher(5), 7);
    assert_eq!(enc.next_higher(7), 9);
    assert_eq!(enc.next_higher(10), 12);
    assert_eq!(enc.next_higher(12), 13);
}

#[test]
fn next_higher_knows_only_what_is_encoded() {
    let mut vm = VarManager::from_next_free(2);
    let mut enc = ObjEncoding::new_weighted(vec![(pos(0), 2), (pos(1), 7)], false, &mut vm);
    enc.encode_ub_change(0..3, &mut vm);
    assert_eq!(enc.next_higher(0), 2);
    assert_eq!(enc.next_higher(2), 3);
}

#[test]
fn next_higher_skips_no_cost() {
    let weights = [3usize, 5, 6];
    let mut vm = VarManager::from_next_free(3);
    let inputs = vec![(pos(0), 3), (neg(1), 5), (pos(2), 6)];
    let mut enc = ObjEncoding::new_weighted(inputs.clone(), false, &mut vm);
    enc.encode_ub_change(0..weights.iter().sum(), &mut vm);
    for bits in 0u32..8 {
        let weight: usize = inputs.iter().filter(|(l, _)| holds(*l, bits)).map(|e| e.1).sum();
        for val in 0..weight {
            assert!(enc.next_higher(val) <= weight);
        }
    }
}

#[test]
fn reserving_does_nothing_before_encoding() {
    let mut vm = VarManager::from_next_free(2);
    ObjEncoding::new_weighted(vec![(pos(0), 2), (pos(1), 7)], true, &mut vm);
    ObjEncoding::new_unweighted(vec![pos(0), pos(1)], true, &mut vm);
    assert_eq!(vm.next, 2);
}

#[test]
fn bounds_need_to_be_encoded() {
    let mut vm = VarManager::from_next_free(2);
    let enc = ObjEncoding::new_weighted(vec![(pos(0), 1), (neg(1), 2)], false, &mut vm);
    assert_eq!(enc.enforce_ub(1).unwrap_err(), EncodingError::NotEncoded);
    assert_eq!(enc.enforce_ub(3).unwrap(), vec![]);
    let mut lits = enc.enforce_ub(0).unwrap();
    lits.sort_by_key(|l| l.lidx);
    assert_eq!(lits, vec![neg(0), pos(1)]);
    let enc = ObjEncoding::new_unweighted(vec![pos(0), pos(1)], false, &mut vm);
    assert_eq!(enc.enforce_ub(0).unwrap_err(), EncodingError::NotEncoded);
    assert_eq!(enc.enforce_ub(2).unwrap(), vec![]);
}

#[test]
fn weighted_bounds_are_enforced() {
    let inputs = vec![(pos(0), 2), (neg(1), 3), (pos(2), 4)];
    for ub in 0usize..10 {
        let mut vm = VarManager::from_next_free(3);
        let mut enc = ObjEncoding::new_weighted(inputs.clone(), false, &mut vm);
        let cnf = enc.encode_ub_change(ub..ub + 1, &mut vm);
        let lits = enc.enforce_ub(ub).unwrap();
        check_bound(&inputs, 3, &cnf, &lits, vm.next, ub);
    }
}

#[test]
fn weighted_bounds_are_tightened_step_by_step() {
    let inputs = vec![(pos(0), 2), (pos(1), 3), (pos(2), 3)];
    let mut vm = VarManager::from_next_free(3);
    let mut enc = ObjEncoding::new_weighted(inputs.clone(), true, &mut vm);
    let mut cnf = Vec::new();
    for ub in [6usize, 4, 3, 1] {
        cnf.append(&mut enc.encode_ub_change(ub..ub + 1, &mut vm));
        let lits = enc.enforce_ub(ub).unwrap();
        check_bound(&inputs, 3, &cnf, &lits, vm.next, ub);
    }
}

#[test]
fn the_last_weight_of_a_literal_counts() {
    let mut vm = VarManager::from_next_free(1);
    let mut enc = ObjEncoding::new_weighted(vec![(pos(0), 9), (pos(0), 2)], false, &mut vm);
    enc.encode_ub_change(0..3, &mut vm);
    assert_eq!(enc.enforce_ub(2).unwrap(), vec![]);
    assert_eq!(enc.enforce_ub(1).unwrap(), vec![neg(0)]);
}

#[test]
fn unweighted_bounds_are_enforced() {
    let lits = vec![pos(0), neg(1), pos(2), pos(2)];
    let inputs: Vec<(Lit, usize)> = lits.iter().map(|l| (*l, 1)).collect();
    for ub in 0usize..5 {
        let mut vm = VarManager::from_next_free(3);
        let mut enc = ObjEncoding::new_unweighted(lits.clone(), false, &mut vm);
        let cnf = enc.encode_ub_change(ub..ub + 1, &mut vm);
        let assumps = enc.enforce_ub(ub).unwrap();
        assert_eq!(assumps.len(), if ub < 4 { 1 } else { 0 });
        check_bound(&inputs, 3, &cnf, &assumps, vm.next, ub);
    }
}

#[test]
fn unweighted_bounds_outside_the_range_stay_unknown() {
    let mut vm = VarManager::from_next_free(4);
    let mut enc = ObjEncoding::new_unweighted(vec![pos(0), pos(1), pos(2), pos(3)], false, &mut vm);
    enc.encode_ub_change(1..3, &mut vm);
    assert!(enc.enforce_ub(0).is_err());
    assert!(enc.enforce_ub(1).is_ok());
    assert!(enc.enforce_ub(2).is_ok());
    assert!(enc.enforce_ub(3).is_err());
    assert!(enc.enforce_ub(4).is_ok());
}

#[test]
fn constants_have_nothing_to_encode() {
    let mut vm = VarManager::from_next_free(3);
    let mut enc = ObjEncoding::Constant;
    assert!(enc.encode_ub_change(0..5, &mut vm).is_empty());
    assert_eq!(vm.next, 3);
    assert_eq!(enc.enforce_ub(0).unwrap(), vec![]);
}

#[test]
fn weights_that_can_be_encoded() {
    assert!(can_encode(&vec![]));
    assert!(can_encode(&vec![(pos(0), 1), (pos(1), 5)]));
    assert!(!can_encode(&vec![(pos(0), 1), (pos(1), 0)]));
    let half = usize::MAX / 2;
    assert!(can_encode(&vec![(pos(0), half - 1)]));
    assert!(can_encode(&vec![(pos(0), half - 1), (pos(1), 0)]) == false);
    assert!(can_encode(&vec![(pos(0), half - 1), (pos(1), 2)]));
    assert!(!can_encode(&vec![(pos(0), half - 1), (pos(1), 3)]));
    assert!(!can_encode(&vec![(pos(0), usize::MAX), (pos(1), 1)]));
    assert!(can_encode(&vec![(pos(0), half), (pos(1), half - 8), (pos(2), 4)]) == false);
    assert!(can_encode(&vec![(pos(0), 5); 9]));
}

/// Checks that one assignment of the taken variables satisfies all clauses and
/// enforces all bounds that the inputs meet, and that each new clause holds if
/// the new variables are true.
fn check_jointly(mut enc: ObjEncoding, weights: &[(Lit, usize)], ranges: &[(usize, usize)]) {
    let inputs = weights.len() as u32;
    let mut vm = VarManager::from_next_free(inputs);
    let mut cnf: Vec<Clause> = Vec::new();
    for (lo, hi) in ranges {
        let before = vm.next;
        let new = enc.encode_ub_change(*lo..*hi, &mut vm);
        assert!(new.iter().all(|cl| cl
            .lits
            .iter()
            .any(|l| !l.is_neg() && before <= l.vidx() && l.vidx() < vm.next)));
        cnf.extend(new);
    }
    assert!(vm.next < 24);
    let total: usize = weights.iter().map(|e| e.1).sum();
    for bits in 0u32..1 << inputs {
        let weight: usize = weights.iter().filter(|(l, _)| holds(*l, bits)).map(|e| e.1).sum();
        let assumps: Vec<Lit> =
            (weight..=total).filter_map(|ub| enc.enforce_ub(ub).ok()).flatten().collect();
        assert!((0u32..1 << (vm.next - inputs)).any(|aux| {
            let all = bits | (aux << inputs);
            satisfied(&cnf, all) && assumps.iter().all(|l| holds(*l, all))
        }));
    }
}

#[test]
fn all_bounds_can_be_met_at_once() {
    let weights = [(pos(0), 1), (neg(1), 2), (pos(2), 4), (pos(3), 4)];
    let mut vm = VarManager::from_next_free(4);
    for ranges in [vec![(0, 12)], vec![(3, 4), (5, 7)], vec![(8, 9), (1, 2), (4, 6)]] {
        let enc = ObjEncoding::new_weighted(weights.to_vec(), false, &mut vm);
        check_jointly(enc, &weights, &ranges);
    }
    let lits = [pos(0), neg(1), pos(2), pos(3)];
    let units: Vec<(Lit, usize)> = lits.iter().map(|l| (*l, 1)).collect();
    for ranges in [vec![(0, 4)], vec![(1, 2), (3, 4)], vec![(2, 3), (0, 1)]] {
        let enc = ObjEncoding::new_unweighted(lits.to_vec(), true, &mut vm);
        check_jointly(enc, &units, &ranges);
    }
}

#[test]
fn one_literal_is_encoded_without_variables() {
    let mut vm = VarManager::from_next_free(MAX_VAR_IDX + 1);
    let mut one = ObjEncoding::new_unweighted(vec![pos(3)], true, &mut vm);
    assert!(one.encode_ub_change(0..1, &mut vm).is_empty());
    assert_eq!(one.enforce_ub(0).unwrap(), vec![neg(3)]);
    let mut other = ObjEncoding::new_weighted(vec![(neg(2), 5)], true, &mut vm);
    assert!(other.encode_ub_change(4..5, &mut vm).is_empty());
    assert_eq!(other.enforce_ub(4).unwrap(), vec![pos(2)]);
    assert_eq!(vm.next, MAX_VAR_IDX + 1);
}

/// The sums that some of the weights have.
fn sums(weights: &[usize]) -> Vec<usize> {
    let mut sums: Vec<usize> = (0u32..1 << weights.len())
        .map(|bits| (0..weights.len()).filter(|i| (bits >> *i) & 1 == 1).map(|i| weights[i]).sum())
        .collect();
    sums.sort();
    sums.dedup();
    sums
}

/// Checks which bounds can be enforced after some ranges were encoded: those
/// below all weights that are not covered, for which all sums up to one more
/// weight have an output.
fn check_enforceable(weights: &[usize], ranges: &[(usize, usize)]) {
    let lits: Vec<(Lit, usize)> =
        weights.iter().enumerate().map(|(i, w)| (pos(i as u32), *w)).collect();
    let mut vm = VarManager::from_next_free(weights.len() as u32);
    let mut enc = ObjEncoding::new_weighted(lits, false, &mut vm);
    let total: usize = weights.iter().sum();
    let mut tree: Vec<usize> = Vec::new();
    let mut rest: Vec<usize> = weights.to_vec();
    let mut outputs: Vec<usize> = Vec::new();
    for (lo, hi) in ranges {
        enc.encode_ub_change(*lo..*hi, &mut vm);
        let end = total.min(*hi);
        if *lo < end {
            let new: Vec<usize> = rest.iter().copied().filter(|w| *w < end).collect();
            if !new.is_empty() {
                tree.extend(new);
                rest.retain(|w| *w >= end);
                outputs.clear();
            }
            if tree.len() == 1 {
                outputs.push(tree[0]);
            }
            if let Some(max) = tree.iter().max() {
                outputs.extend(sums(&tree).into_iter().filter(|s| lo < s && *s <= end + max));
            }
        }
        for ub in 0..total + 2 {
            let max = tree.iter().max().copied().unwrap_or(0);
            let known = rest.iter().all(|w| ub < *w)
                && sums(&tree).iter().all(|s| *s <= ub || *s > ub + max || outputs.contains(s));
            assert_eq!(enc.enforce_ub(ub).is_ok(), known || ub >= total);
        }
    }
}

#[test]
fn weighted_bounds_outside_the_range() {
    let objectives: [&[usize]; 6] =
        [&[4], &[2, 2, 2], &[1, 3, 6], &[1, 2, 4, 8], &[3, 3, 5, 5], &[7, 1, 1, 2]];
    for weights in objectives {
        let total: usize = weights.iter().sum();
        for first in 0..total + 2 {
            for second in 0..total + 2 {
                check_enforceable(weights, &[(first, first + 1), (second, second + 2)]);
                check_enforceable(weights, &[(first, second), (second, second), (0, first)]);
            }
        }
    }
}
