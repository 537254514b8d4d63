//! What encoding and enforcing bounds does, said of the arguments and results of
//! the calls.
use std::ops::Range;

use vstd::prelude::*;

use crate::encoding::{
    can_encode, gte_tree, law_encodable_fits, units, EncodingError, ObjEncoding,
};
use crate::merging::lemma_weight_at_most_total;
use crate::objective::{distinct_lits, lemma_collect};
use crate::semantics::{all_hold, cnf_holds, weight_total, weight_under, Valuation};
use crate::types::{clause_views, Clause, Lit, MAX_VAR_IDX};
use crate::vars::VarManager;
use crate::weights::{bag_total, bag_weight, lemma_bag, lemma_weight_attainable};

verus! {

/// Literals with positive weights are accepted if twice their sum is in range,
/// however many they are. They are refused only because of a weight of zero or a
/// sum that is out of range.
pub proof fn law_positive_weights_are_accepted(lits: &Vec<(Lit, usize)>, b: bool)
    requires
        call_ensures(can_encode, (lits,), b),
    ensures
        (forall|i: int| 0 <= i < lits@.len() ==> (#[trigger] lits@[i]).1 > 0) && 2 * weight_total(
            lits@,
        ) < usize::MAX ==> b,
        b ==> forall|i: int| 0 <= i < lits@.len() ==> (#[trigger] lits@[i]).1 > 0,
        b ==> lits@.len() == 0 || weight_total(lits@) < usize::MAX,
        !b ==> exists|i: int|
            0 <= i < lits@.len() && ((#[trigger] lits@[i]).1 == 0 || weight_total(lits@)
                + lits@[i].1 >= usize::MAX),
{
    assert forall|i: int| 0 <= i < lits@.len() implies (#[trigger] lits@[i]).1 <= weight_total(
        lits@,
    ) by {
        lemma_weight_at_most_total(lits@, i);
    }
}

/// A new encoding of weighted literals weighs what they do, has taken no
/// variable and handed out no clause, whether or not variables are to be
/// reserved, and can be used if the literals are accepted.
pub proof fn law_new_weighted_encodings(lits: Vec<(Lit, usize)>, reserve: bool, a: Valuation)
    ensures
        forall|vm: &mut VarManager, enc: ObjEncoding| #[trigger]
            call_ensures(ObjEncoding::new_weighted, (lits, reserve, vm), enc) && distinct_lits(
                lits@,
            ) ==> {
                &&& enc is Weighted
                &&& final(vm).next == vm.next
                &&& bag_weight(enc.state().inputs, a) == weight_under(lits@, a)
                &&& bag_total(enc.state().inputs) == weight_total(lits@)
                &&& enc.state().clauses.len() == 0
                &&& forall|v: int| !#[trigger] enc.state().vars.contains(v)
                &&& forall|b: bool| #[trigger]
                    call_ensures(can_encode, (&lits,), b) && b ==> enc.fits()
            },
{
    lemma_collect(lits@);
    lemma_bag(lits@, a);
    assert forall|vm: &mut VarManager, enc: ObjEncoding, b: bool| #[trigger]
        call_ensures(ObjEncoding::new_weighted, (lits, reserve, vm), enc) && distinct_lits(lits@)
            && #[trigger] call_ensures(can_encode, (&lits,), b) && b implies enc.fits() by {
        law_encodable_fits(lits@, enc.state());
    }
}

/// A new encoding of literals without weights counts those that are true, has
/// taken no variable and handed out no clause, and can be used.
pub proof fn law_new_unweighted_encodings(lits: Vec<Lit>, reserve: bool, a: Valuation)
    ensures
        forall|vm: &mut VarManager, enc: ObjEncoding| #[trigger]
            call_ensures(ObjEncoding::new_unweighted, (lits, reserve, vm), enc) ==> {
                &&& enc is Unweighted
                &&& enc.fits()
                &&& final(vm).next == vm.next
                &&& bag_weight(enc.state().inputs, a) == weight_under(
                    lits@.map_values(|l: Lit| (l, 1usize)),
                    a,
                )
                &&& bag_total(enc.state().inputs) == lits@.len()
                &&& enc.state().clauses.len() == 0
                &&& forall|v: int| !#[trigger] enc.state().vars.contains(v)
            },
{
    lemma_bag(units(lits@), a);
    lemma_units_total(lits@);
}

/// Literals with a weight of one each weigh as many as they are.
proof fn lemma_units_total(lits: Seq<Lit>)
    ensures
        weight_total(units(lits)) == lits.len(),
    decreases lits.len(),
{
    if lits.len() > 0 {
        lemma_units_total(lits.drop_last());
        assert(units(lits).drop_last() =~= units(lits.drop_last()));
    }
}

/// Encoding bounds keeps what an encoding weighs, takes variables from the next
/// free one on, and keeps all clauses that were handed out before.
pub proof fn law_encoding_keeps_inputs(range: Range<usize>)
    ensures
        forall|m: &mut ObjEncoding, vm: &mut VarManager, cnf: Vec<Clause>| #[trigger]
            call_ensures(ObjEncoding::encode_ub_change, (m, range, vm), cnf) ==> {
                &&& final(m).state().inputs == m.state().inputs
                &&& *final(m) is Weighted <==> *m is Weighted
                &&& *final(m) is Unweighted <==> *m is Unweighted
                &&& vm.next <= final(vm).next
                &&& forall|v: int| #[trigger]
                    final(m).state().vars.contains(v) <==> m.state().vars.contains(v) || vm.next
                        <= v < final(vm).next
                &&& final(m).state().clauses.len() == m.state().clauses.len() + cnf@.len()
                &&& forall|i: int|
                    0 <= i < m.state().clauses.len() ==> #[trigger] final(m).state().clauses[i]
                        == m.state().clauses[i]
                &&& forall|i: int|
                    0 <= i < cnf@.len() ==> final(m).state().clauses[m.state().clauses.len() + i]
                        == (#[trigger] cnf@[i])@
                &&& *m is Constant ==> cnf@.len() == 0 && final(vm).next == vm.next
            },
{
    assert forall|m: &mut ObjEncoding, vm: &mut VarManager, cnf: Vec<Clause>| #[trigger]
        call_ensures(ObjEncoding::encode_ub_change, (m, range, vm), cnf) implies {
        &&& final(m).state().clauses.len() == m.state().clauses.len() + cnf@.len()
        &&& forall|i: int|
            0 <= i < m.state().clauses.len() ==> #[trigger] final(m).state().clauses[i]
                == m.state().clauses[i]
        &&& forall|i: int|
            0 <= i < cnf@.len() ==> final(m).state().clauses[m.state().clauses.len() + i] == (
            #[trigger] cnf@[i])@
    } by {
        assert(final(m).state().clauses == m.state().clauses + clause_views(cnf@));
        assert(clause_views(cnf@).len() == cnf@.len());
        assert forall|i: int| 0 <= i < cnf@.len() implies final(m).state().clauses[
            m.state().clauses.len() + i
        ] == (#[trigger] cnf@[i])@ by {
            assert(clause_views(cnf@)[i] == cnf@[i]@);
        }
    }
}

/// A bound can be enforced once it was encoded, whatever it is.
pub proof fn law_encoded_bounds_can_be_enforced(range: Range<usize>, ub: usize)
    ensures
        forall|
            m: &mut ObjEncoding,
            vm: &mut VarManager,
            cnf: Vec<Clause>,
            r: Result<Vec<Lit>, EncodingError>,
        |
            #[trigger] call_ensures(ObjEncoding::encode_ub_change, (m, range, vm), cnf)
                && #[trigger] call_ensures(ObjEncoding::enforce_ub, (&*final(m), ub), r)
                && range.start <= ub < range.end ==> r is Ok,
{
    assert forall|
        m: &mut ObjEncoding,
        vm: &mut VarManager,
        cnf: Vec<Clause>,
        r: Result<Vec<Lit>, EncodingError>,
    |
        #[trigger] call_ensures(ObjEncoding::encode_ub_change, (m, range, vm), cnf)
            && #[trigger] call_ensures(ObjEncoding::enforce_ub, (&*final(m), ub), r)
            && range.start <= ub < range.end implies r is Ok by {
        assert(final(m).state().enforceable(ub as int));
    }
}

/// Enforcing a bound rules out exactly the assignments that weigh more: those
/// that satisfy the literals and all clauses of the encoding weigh no more than
/// the bound, and any assignment that does not can be made to satisfy them by a
/// choice of values for the variables of the encoding. A bound that is never
/// exceeded needs no literal.
pub proof fn law_enforced_bounds_hold(
    enc: &ObjEncoding,
    ub: usize,
    r: Result<Vec<Lit>, EncodingError>,
    a: Valuation,
)
    requires
        call_ensures(ObjEncoding::enforce_ub, (enc, ub), r),
    ensures
        ub >= bag_total(enc.state().inputs) ==> r is Ok && r->Ok_0@.len() == 0,
        r matches Ok(lits) ==> {
            &&& cnf_holds(a, enc.state().clauses) && all_hold(a, lits@) ==> bag_weight(
                enc.state().inputs,
                a,
            ) <= ub
            &&& bag_weight(enc.state().inputs, a) <= ub ==> exists|b: Valuation|
                {
                    &&& #[trigger] cnf_holds(b, enc.state().clauses)
                    &&& all_hold(b, lits@)
                    &&& forall|v: int| #[trigger]
                        a.contains(v) != b.contains(v) ==> enc.state().vars.contains(v)
                }
        },
{
    if let Ok(lits) = r {
        if bag_weight(enc.state().inputs, a) <= ub {
            let b = enc.state().filled(a);
            assert(cnf_holds(b, enc.state().clauses));
            assert forall|v: int| #[trigger] a.contains(v) != b.contains(v) implies
                enc.state().vars.contains(v) by {}
        }
    }
}

/// The next higher value of an objective is higher, and is the next one: without
/// weights one more, and with weights no assignment lies in between once the
/// tree covers all inputs. A constant has no higher value.
pub proof fn law_next_higher_values(enc: &ObjEncoding, val: usize, r: usize, a: Valuation)
    requires
        call_ensures(ObjEncoding::next_higher, (enc, val), r),
    ensures
        enc is Constant ==> r == val,
        enc is Unweighted ==> r == val + 1,
        enc is Weighted ==> r > val,
        *enc matches ObjEncoding::Weighted(gte) ==> forall|entries: Seq<(Lit, usize)>|
            gte_tree(gte) == #[trigger] entries.to_multiset() && weight_under(entries, a) > val
                ==> r <= weight_under(entries, a),
{
    if let ObjEncoding::Weighted(gte) = *enc {
        assert forall|entries: Seq<(Lit, usize)>|
            gte_tree(gte) == #[trigger] entries.to_multiset() && weight_under(entries, a)
                > val implies r <= weight_under(entries, a) by {
            lemma_weight_attainable(entries, a);
        }
    }
}

/// A bound that was never encoded cannot be enforced with a new encoding, unless
/// it is never exceeded: bounds have to be encoded first.
pub proof fn law_bounds_need_encoding(lits: Vec<Lit>, reserve: bool, ub: usize)
    ensures
        forall|vm: &mut VarManager, enc: ObjEncoding, r: Result<Vec<Lit>, EncodingError>|
            #[trigger] call_ensures(ObjEncoding::new_unweighted, (lits, reserve, vm), enc)
                && #[trigger] call_ensures(ObjEncoding::enforce_ub, (&enc, ub), r) ==> {
                &&& ub < lits@.len() ==> r is Err && r->Err_0 is NotEncoded
                &&& ub >= lits@.len() ==> r is Ok
            },
{
    lemma_bag(units(lits@), Set::empty());
    lemma_units_total(lits@);
}

/// Bounds can be encoded with any encoding that fits and uses variables below
/// the next free one only, and enforced if its variables are in range.
pub proof fn law_bounds_can_be_encoded(range: Range<usize>, ub: usize)
    ensures
        forall|m: &mut ObjEncoding, vm: &mut VarManager|
            m.fits() && m.state().below(vm.next as int) && vm.next <= MAX_VAR_IDX + 1
                ==> #[trigger] call_requires(ObjEncoding::encode_ub_change, (m, range, vm)),
        forall|enc: &ObjEncoding|
            enc.fits() && enc.state().below(MAX_VAR_IDX + 1) ==> #[trigger] call_requires(
                ObjEncoding::enforce_ub,
                (enc, ub),
            ),
{
}

} // verus!
