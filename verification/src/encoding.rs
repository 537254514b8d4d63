//! Encodings of upper bounds on objectives as clauses.
use std::ops::Range;

use rustsat::encodings::card::DbTotalizer;
use rustsat::encodings::pb::DbGte;
use rustsat::encodings::Error as RsEncodingError;
use rustsat::instances::{BasicVarManager, Cnf, ManageVars};
use rustsat::types::Var as RsVar;
use vstd::multiset::Multiset;
use vstd::prelude::*;

use crate::objective::{collect_weights, distinct_lits, lemma_collect};
use crate::semantics::{
    all_hold, cnf_holds, lemma_total_prefix, weight_total, weight_under, Valuation,
};
use crate::types::{clause_views, Clause, Lit, MAX_VAR_IDX};
use crate::vars::VarManager;
use crate::weights::{
    attainable, bag_total, bag_weight, lemma_bag, lemma_weight_attainable, Bag,
};

verus! {

#[verifier::external_type_specification]
#[verifier::external_body]
pub struct ExDbGte(DbGte);

#[verifier::external_type_specification]
#[verifier::external_body]
pub struct ExDbTotalizer(DbTotalizer);

#[verifier::external_type_specification]
#[verifier::external_body]
pub struct ExEncodingError(RsEncodingError);

/// The weighted input literals of a generalized totalizer.
pub uninterp spec fn gte_inputs(enc: DbGte) -> Bag;

/// The input literals that the tree of a generalized totalizer covers so far.
pub uninterp spec fn gte_tree(enc: DbGte) -> Bag;

/// All clauses that a generalized totalizer has handed out.
pub uninterp spec fn gte_clauses(enc: DbGte) -> Seq<Seq<Lit>>;

/// The variables that a generalized totalizer has taken.
pub uninterp spec fn gte_vars(enc: DbGte) -> Set<int>;

/// The sums for which the tree of a generalized totalizer has an encoded output.
pub uninterp spec fn gte_outputs(enc: DbGte) -> Set<int>;

/// The variables that are reserved for outputs of a generalized totalizer for
/// which no clause was handed out yet.
pub uninterp spec fn gte_reserved(enc: DbGte) -> Set<int>;

/// What an assignment of the inputs means for the variables that a generalized
/// totalizer has taken: an output is true exactly if some of the inputs below it
/// that are true sum up to its value.
pub uninterp spec fn gte_meaning(enc: DbGte, a: Set<int>) -> Set<int>;

/// The input literals of a totalizer, each with a weight of one.
pub uninterp spec fn tot_inputs(enc: DbTotalizer) -> Bag;

/// The input literals that the tree of a totalizer covers so far.
pub uninterp spec fn tot_tree(enc: DbTotalizer) -> Bag;

/// All clauses that a totalizer has handed out.
pub uninterp spec fn tot_clauses(enc: DbTotalizer) -> Seq<Seq<Lit>>;

/// The variables that a totalizer has taken.
pub uninterp spec fn tot_vars(enc: DbTotalizer) -> Set<int>;

/// The upper bounds that a totalizer has been encoded for.
pub uninterp spec fn tot_bounds(enc: DbTotalizer) -> Set<int>;

/// The variables that are reserved for outputs of a totalizer for which no
/// clause was handed out yet.
pub uninterp spec fn tot_reserved(enc: DbTotalizer) -> Set<int>;

/// What an assignment of the inputs means for the variables that a totalizer
/// has taken: an output is true exactly if at least as many inputs below it are
/// true as it counts.
pub uninterp spec fn tot_meaning(enc: DbTotalizer, a: Set<int>) -> Set<int>;

/// Whether two total assignments agree on all variables but the given ones.
pub open spec fn agree_off(a: Valuation, b: Valuation, vars: Set<int>) -> bool {
    forall|v: int| !vars.contains(v) ==> a.contains(v) == b.contains(v)
}

/// What an encoding consists of.
pub struct EncodingState {
    /// The weighted input literals.
    pub inputs: Bag,
    /// All clauses that were handed out.
    pub clauses: Seq<Seq<Lit>>,
    /// The variables that were taken.
    pub vars: Set<int>,
    /// The upper bounds that were encoded.
    pub bounds: Set<int>,
    /// The variables that were taken before any clause needs them.
    pub reserved: Set<int>,
    /// The values of the taken variables, given those of the inputs.
    pub meaning: spec_fn(Valuation) -> Valuation,
}

impl EncodingState {
    /// All variables are below the given one.
    pub open spec fn below(self, next: int) -> bool {
        &&& forall|v: int| #[trigger] self.vars.contains(v) ==> 0 <= v < next
        &&& forall|x: (Lit, usize)| #[trigger] self.inputs.count(x) > 0 ==> x.0.var() < next
    }

    /// The variable is one of an input or was taken.
    pub open spec fn knows(self, v: int) -> bool {
        ||| self.vars.contains(v)
        ||| exists|x: (Lit, usize)| #[trigger] self.inputs.count(x) > 0 && x.0.var() == v
    }

    /// No variable of an input was taken.
    pub open spec fn disjoint(self) -> bool {
        forall|x: (Lit, usize)| #[trigger]
            self.inputs.count(x) > 0 ==> !self.vars.contains(x.0.var())
    }

    /// All weights are positive, and the sum of all weights is in range with one
    /// more weight.
    pub open spec fn fits(self) -> bool {
        forall|x: (Lit, usize)| #[trigger]
            self.inputs.count(x) > 0 ==> x.1 > 0 && bag_total(self.inputs) + x.1 < usize::MAX
    }

    /// The clauses speak of known variables only.
    pub open spec fn closed_clauses(self) -> bool {
        forall|i: int, j: int|
            0 <= i < self.clauses.len() && 0 <= j < self.clauses[i].len() ==> self.knows(
                (#[trigger] self.clauses[i][j]).var(),
            )
    }

    /// The upper bound can be enforced.
    pub open spec fn enforceable(self, ub: int) -> bool {
        self.bounds.contains(ub) || ub >= bag_total(self.inputs)
    }

    /// An assignment with the values of the taken variables that the inputs
    /// give them.
    pub open spec fn filled(self, a: Valuation) -> Valuation {
        Set::new(
            |v: int|
                if self.vars.contains(v) {
                    (self.meaning)(a).contains(v)
                } else {
                    a.contains(v)
                },
        )
    }

    /// The clauses on their own rule nothing out: they hold for any inputs once
    /// the taken variables have the values that the inputs give them.
    pub open spec fn conservative(self) -> bool {
        forall|a: Valuation| cnf_holds(#[trigger] self.filled(a), self.clauses)
    }

    /// The literals enforce the upper bound: together with the clauses they
    /// rule out all larger sums, and nothing else.
    pub open spec fn enforces(self, ub: int, lits: Seq<Lit>) -> bool {
        &&& forall|i: int| 0 <= i < lits.len() ==> self.knows((#[trigger] lits[i]).var())
        &&& forall|a: Valuation| #[trigger]
            cnf_holds(a, self.clauses) && all_hold(a, lits) ==> bag_weight(self.inputs, a) <= ub
        &&& forall|a: Valuation|
            bag_weight(self.inputs, a) <= ub ==> cnf_holds(
                #[trigger] self.filled(a),
                self.clauses,
            ) && all_hold(self.filled(a), lits)
        &&& ub >= bag_total(self.inputs) ==> lits.len() == 0
    }

    /// Encoding the bounds from `lo` up to but not including `hi` has added
    /// the clauses `cls`, taking variables from `next` on. What was taken before
    /// keeps its meaning, and every new clause holds if the new variables are
    /// true.
    pub open spec fn encoded_to(
        self,
        after: EncodingState,
        lo: int,
        hi: int,
        next: int,
        cls: Seq<Seq<Lit>>,
        new_next: int,
    ) -> bool {
        &&& after.inputs == self.inputs
        &&& after.reserved == self.reserved
        &&& after.clauses == self.clauses + cls
        &&& next <= new_next
        &&& forall|v: int| #[trigger]
            after.vars.contains(v) <==> self.vars.contains(v) || next <= v < new_next
        &&& forall|ub: int| lo <= ub < hi ==> #[trigger] after.enforceable(ub)
        &&& forall|a: Valuation, v: int|
            self.vars.contains(v) ==> #[trigger] after.filled(a).contains(v) == self.filled(
                a,
            ).contains(v)
        &&& new_next <= MAX_VAR_IDX + 1 ==> {
            &&& after.closed_clauses()
            &&& after.conservative()
            &&& forall|i: int| 0 <= i < cls.len() ==> has_new(#[trigger] cls[i], next, new_next)
        }
    }
}

/// Whether a clause has a literal that is true if the variables from `start` up
/// to but not including `end` are.
pub open spec fn has_new(cl: Seq<Lit>, start: int, end: int) -> bool {
    exists|j: int|
        0 <= j < cl.len() && !(#[trigger] cl[j]).neg() && start <= cl[j].var() < end
}

/// Whether a generalized totalizer can enforce an upper bound: what the tree does
/// not cover weighs more than the bound, and outputs are encoded for all sums
/// above the bound that one more weight can lead to.
pub open spec fn can_bound(inputs: Bag, tree: Bag, outputs: Set<int>, ub: int) -> bool {
    &&& 0 <= ub
    &&& forall|x: (Lit, usize)| #[trigger]
        inputs.count(x) > 0 && tree.count(x) == 0 ==> ub < x.1
    &&& forall|sum: int| #[trigger]
        attainable(tree, sum) && within(tree, ub, sum) ==> outputs.contains(sum)
}

/// Whether a sum is above `base`, but by no more than some weight.
pub open spec fn within(tree: Bag, base: int, sum: int) -> bool {
    base < sum && exists|x: (Lit, usize)| #[trigger] tree.count(x) > 0 && sum <= base + x.1
}

/// The upper bounds that a generalized totalizer can enforce.
pub open spec fn gte_bounds(enc: DbGte) -> Set<int> {
    Set::new(|ub: int| can_bound(gte_inputs(enc), gte_tree(enc), gte_outputs(enc), ub))
}

/// Whether `after` are the encoded outputs once the bounds from `lo` up to but
/// not including `hi` are encoded: those for sums above `lo` that one more weight
/// than the highest bound can lead to, the only literal if there is but one, and
/// those that were there, unless the tree has grown.
pub open spec fn outputs_follow(
    before: Set<int>,
    after: Set<int>,
    tree: Bag,
    inputs: Bag,
    lo: int,
    hi: int,
) -> bool {
    let end = if hi < bag_total(inputs) {
        hi
    } else {
        bag_total(inputs)
    };
    let grown = covered(tree, inputs, lo, hi);
    if lo < end {
        forall|sum: int| #[trigger]
            after.contains(sum) <==> {
                ||| grown == tree && before.contains(sum)
                ||| attainable(grown, sum) && lo < sum && exists|x: (Lit, usize)| #[trigger]
                    grown.count(x) > 0 && sum <= end + x.1
                ||| grown.len() == 1 && exists|x: (Lit, usize)| #[trigger]
                    grown.count(x) > 0 && x.1 == sum
            }
    } else {
        after == before
    }
}

/// What a generalized totalizer consists of.
pub open spec fn gte_state(enc: DbGte) -> EncodingState {
    EncodingState {
        inputs: gte_inputs(enc),
        clauses: gte_clauses(enc),
        vars: gte_vars(enc),
        bounds: gte_bounds(enc),
        reserved: gte_reserved(enc),
        meaning: |a: Valuation| gte_meaning(enc, a),
    }
}

/// What a totalizer consists of.
pub open spec fn tot_state(enc: DbTotalizer) -> EncodingState {
    EncodingState {
        inputs: tot_inputs(enc),
        clauses: tot_clauses(enc),
        vars: tot_vars(enc),
        bounds: tot_bounds(enc),
        reserved: tot_reserved(enc),
        meaning: |a: Valuation| tot_meaning(enc, a),
    }
}

/// The inputs that the tree of a generalized totalizer covers once the bounds
/// from `lo` up to but not including `hi` are encoded: those that were there,
/// and those whose weight is below `hi`, unless all bounds hold trivially.
pub open spec fn covered(tree: Bag, inputs: Bag, lo: int, hi: int) -> Bag {
    let end = if hi < bag_total(inputs) {
        hi
    } else {
        bag_total(inputs)
    };
    if lo < end {
        inputs.filter(|x: (Lit, usize)| tree.count(x) > 0 || x.1 < end)
    } else {
        tree
    }
}

/// Literals with a weight of one each.
pub open spec fn units(lits: Seq<Lit>) -> Seq<(Lit, usize)> {
    lits.map_values(|l: Lit| (l, 1usize))
}

/// `DbGte::from_iter`: puts the weighted literals into a map and builds no
/// tree yet.
#[verifier::external_body]
fn gte_from_iter(lits: Vec<(Lit, usize)>) -> (enc: DbGte)
    ensures
        gte_inputs(enc) == collect_weights(lits@).to_multiset(),
        gte_tree(enc) == Multiset::<(Lit, usize)>::empty(),
        gte_clauses(enc) == Seq::<Seq<Lit>>::empty(),
        gte_vars(enc) == Set::<int>::empty(),
        gte_reserved(enc) == Set::<int>::empty(),
        gte_outputs(enc) == Set::<int>::empty(),
{
    DbGte::from_iter(
        lits.into_iter().map(|(l, w)| (rustsat::types::Lit::new(l.vidx(), l.is_neg()), w)),
    )
}

/// `DbGte::reserve` where there is no tree yet: there are no outputs to take
/// variables for.
#[verifier::external_body]
fn gte_reserve(enc: &mut DbGte, next: u32) -> (new_next: u32)
    requires
        gte_tree(*old(enc)).len() == 0,
    ensures
        *final(enc) == *old(enc),
        new_next == next,
{
    let mut vm = BasicVarManager::from_next_free(RsVar::new_unchecked(next));
    rustsat::encodings::pb::EncodeIncremental::reserve(enc, &mut vm);
    vm.n_used()
}

/// `DbGte::next_higher`: the least sum above `val` that inputs in the tree can
/// have, or `val + 1` if there is none.
#[verifier::external_body]
fn gte_next_higher(enc: &DbGte, val: usize) -> (r: usize)
    requires
        val < usize::MAX,
        forall|x: (Lit, usize)| #[trigger]
            gte_inputs(*enc).count(x) > 0 ==> val + 1 + x.1 <= usize::MAX,
    ensures
        steps_up(gte_tree(*enc), val as int, r as int),
{
    rustsat::encodings::pb::Encode::next_higher(enc, val)
}

/// `DbGte::encode_ub_change`: extends the tree and hands out the clauses that
/// are missing for the bounds of the range, with variables from `next` on. As
/// with any allocation, the call does not return if memory runs out. It is left
/// unsaid which clauses these are.
#[verifier::external_body]
fn gte_encode_ub_change(enc: &mut DbGte, range: Range<usize>, next: u32) -> (r: (Vec<Clause>, u32))
    requires
        gte_state(*old(enc)).fits(),
        gte_state(*old(enc)).below(next as int),
        gte_reserved(*old(enc)) == Set::<int>::empty(),
        next <= MAX_VAR_IDX + 1,
    ensures
        gte_state(*old(enc)).encoded_to(
            gte_state(*final(enc)),
            range.start as int,
            range.end as int,
            next as int,
            clause_views(r.0@),
            r.1 as int,
        ),
        forall|a: Valuation, v: int|
            gte_vars(*old(enc)).contains(v) ==> #[trigger] gte_meaning(*final(enc), a).contains(v)
                == gte_meaning(*old(enc), a).contains(v),
        outputs_follow(
            gte_outputs(*old(enc)),
            gte_outputs(*final(enc)),
            gte_tree(*old(enc)),
            gte_inputs(*old(enc)),
            range.start as int,
            range.end as int,
        ),
        gte_tree(*final(enc)) == covered(
            gte_tree(*old(enc)),
            gte_inputs(*old(enc)),
            range.start as int,
            range.end as int,
        ),
{
    let mut vm = BasicVarManager::from_next_free(RsVar::new_unchecked(next));
    let mut cnf = Cnf::new();
    rustsat::encodings::pb::BoundUpperIncremental::encode_ub_change(enc, range, &mut cnf, &mut vm)
        .expect("out of memory");
    let cls = cnf.into_iter().map(
        |cl| Clause { lits: cl.into_iter().map(|l| Lit::new(l.vidx32(), l.is_neg())).collect() },
    ).collect();
    (cls, vm.n_used())
}

/// `DbGte::enforce_ub`: gives literals that enforce the bound if it is encoded
/// or holds trivially, in which case there are none, and the error `NotEncoded`
/// otherwise.
#[verifier::external_body]
fn gte_enforce_ub(enc: &DbGte, ub: usize) -> (r: Result<Vec<Lit>, RsEncodingError>)
    requires
        gte_state(*enc).fits(),
        gte_state(*enc).below(MAX_VAR_IDX + 1),
    ensures
        r is Ok <==> gte_state(*enc).enforceable(ub as int),
        r matches Ok(lits) ==> gte_state(*enc).enforces(ub as int, lits@),
{
    rustsat::encodings::pb::BoundUpper::enforce_ub(enc, ub).map(
        |lits| lits.into_iter().map(|l| Lit::new(l.vidx32(), l.is_neg())).collect(),
    )
}

/// `DbTotalizer::from_iter`: keeps the literals, also where they occur more
/// than once, and builds no tree yet.
#[verifier::external_body]
fn tot_from_iter(lits: Vec<Lit>) -> (enc: DbTotalizer)
    ensures
        tot_inputs(enc) == units(lits@).to_multiset(),
        tot_tree(enc) == Multiset::<(Lit, usize)>::empty(),
        tot_clauses(enc) == Seq::<Seq<Lit>>::empty(),
        tot_vars(enc) == Set::<int>::empty(),
        tot_reserved(enc) == Set::<int>::empty(),
        tot_bounds(enc) == Set::<int>::empty(),
{
    DbTotalizer::from_iter(
        lits.into_iter().map(|l| rustsat::types::Lit::new(l.vidx(), l.is_neg())),
    )
}

/// `DbTotalizer::reserve` where there is no tree yet: there are no outputs to take
/// variables for.
#[verifier::external_body]
fn tot_reserve(enc: &mut DbTotalizer, next: u32) -> (new_next: u32)
    requires
        tot_tree(*old(enc)).len() == 0,
    ensures
        *final(enc) == *old(enc),
        new_next == next,
{
    let mut vm = BasicVarManager::from_next_free(RsVar::new_unchecked(next));
    rustsat::encodings::card::EncodeIncremental::reserve(enc, &mut vm);
    vm.n_used()
}

/// `DbTotalizer::encode_ub_change`: builds the tree over all inputs, unless all
/// bounds of the range hold trivially, and hands out the clauses that are
/// missing for these bounds, with variables from `next` on. As with any
/// allocation, the call does not return if memory runs out. It is left unsaid
/// which clauses these are.
#[verifier::external_body]
fn tot_encode_ub_change(enc: &mut DbTotalizer, range: Range<usize>, next: u32) -> (r: (
    Vec<Clause>,
    u32,
))
    requires
        tot_state(*old(enc)).below(next as int),
        tot_reserved(*old(enc)) == Set::<int>::empty(),
        next <= MAX_VAR_IDX + 1,
    ensures
        tot_state(*old(enc)).encoded_to(
            tot_state(*final(enc)),
            range.start as int,
            range.end as int,
            next as int,
            clause_views(r.0@),
            r.1 as int,
        ),
        forall|ub: int| #[trigger]
            tot_bounds(*final(enc)).contains(ub) <==> tot_bounds(*old(enc)).contains(ub) || (
            range.start <= ub < range.end && ub < bag_total(tot_inputs(*old(enc)))),
        forall|a: Valuation, v: int|
            tot_vars(*old(enc)).contains(v) ==> #[trigger] tot_meaning(*final(enc), a).contains(v)
                == tot_meaning(*old(enc), a).contains(v),
        tot_tree(*final(enc)) == (if range.start < range.end && range.start < bag_total(
            tot_inputs(*old(enc)),
        ) {
            tot_inputs(*old(enc))
        } else {
            tot_tree(*old(enc))
        }),
{
    let mut vm = BasicVarManager::from_next_free(RsVar::new_unchecked(next));
    let mut cnf = Cnf::new();
    rustsat::encodings::card::BoundUpperIncremental::encode_ub_change(enc, range, &mut cnf, &mut vm)
        .expect("out of memory");
    let cls = cnf.into_iter().map(
        |cl| Clause { lits: cl.into_iter().map(|l| Lit::new(l.vidx32(), l.is_neg())).collect() },
    ).collect();
    (cls, vm.n_used())
}

/// `DbTotalizer::enforce_ub`: gives one literal that enforces the bound if it
/// is encoded, none if it holds trivially, and the error `NotEncoded`
/// otherwise.
#[verifier::external_body]
fn tot_enforce_ub(enc: &DbTotalizer, ub: usize) -> (r: Result<Vec<Lit>, RsEncodingError>)
    requires
        tot_state(*enc).below(MAX_VAR_IDX + 1),
    ensures
        r is Ok <==> tot_state(*enc).enforceable(ub as int),
        r matches Ok(lits) ==> tot_state(*enc).enforces(ub as int, lits@) && (ub < bag_total(
            tot_inputs(*enc),
        ) ==> lits@.len() == 1),
{
    rustsat::encodings::card::BoundUpper::enforce_ub(enc, ub).map(
        |lits| lits.into_iter().map(|l| Lit::new(l.vidx32(), l.is_neg())).collect(),
    )
}

/// Whether `r` is the least sum above `val` that some of the weighted literals
/// have, or `val + 1` if they have no larger sum.
pub open spec fn steps_up(bag: Bag, val: int, r: int) -> bool {
    &&& r > val
    &&& forall|sum: int| #[trigger] attainable(bag, sum) && sum > val ==> r <= sum
    &&& attainable(bag, r) || (r == val + 1 && forall|sum: int| #[trigger]
        attainable(bag, sum) ==> sum <= val)
}

/// A bound cannot be enforced because it was not encoded.
#[derive(Clone, Copy, Debug, PartialEq, Eq, Structural)]
pub enum EncodingError {
    NotEncoded,
}

/// An objective encoding for either a weighted or an unweighted objective.
pub enum ObjEncoding {
    Weighted(DbGte),
    Unweighted(DbTotalizer),
    Constant,
}

impl ObjEncoding {
    /// What the encoding consists of. A constant has no inputs.
    pub open spec fn state(self) -> EncodingState {
        match self {
            ObjEncoding::Weighted(enc) => gte_state(enc),
            ObjEncoding::Unweighted(enc) => tot_state(enc),
            ObjEncoding::Constant => EncodingState {
                inputs: Multiset::empty(),
                clauses: Seq::empty(),
                vars: Set::empty(),
                bounds: Set::empty(),
                reserved: Set::empty(),
                meaning: |a: Valuation| a,
            },
        }
    }

    /// The weights of a weighted objective allow for encoding, and no variables
    /// are reserved.
    pub open spec fn fits(self) -> bool {
        &&& self.state().reserved == Set::<int>::empty()
        &&& self is Weighted ==> self.state().fits()
    }

    /// Initializes a new objective encoding for a weighted objective. As long as
    /// nothing is encoded, there is nothing to reserve variables for.
    pub fn new_weighted(
        lits: Vec<(Lit, usize)>,
        reserve: bool,
        var_manager: &mut VarManager,
    ) -> (enc: ObjEncoding)
        ensures
            *final(var_manager) == *old(var_manager),
            enc matches ObjEncoding::Weighted(gte) && gte_tree(gte) == Multiset::<
                (Lit, usize),
            >::empty() && gte_outputs(gte) == Set::<int>::empty(),
            enc.state().inputs == collect_weights(lits@).to_multiset(),
            enc.state().clauses == Seq::<Seq<Lit>>::empty(),
            enc.state().vars == Set::<int>::empty(),
            enc.state().reserved == Set::<int>::empty(),
            forall|ub: int| #[trigger]
                enc.state().bounds.contains(ub) <==> 0 <= ub && forall|x: (Lit, usize)| #[trigger]
                    enc.state().inputs.count(x) > 0 ==> ub < x.1,
    {
        let mut encoding = gte_from_iter(lits);
        if reserve {
            let next = gte_reserve(&mut encoding, var_manager.next);
            var_manager.next = next;
        }
        let enc = ObjEncoding::Weighted(encoding);
        assert(enc.state().inputs == gte_inputs(encoding));
        proof {
            assert forall|ub: int| #[trigger] enc.state().bounds.contains(ub) <==> 0 <= ub
                && forall|x: (Lit, usize)| #[trigger]
                enc.state().inputs.count(x) > 0 ==> ub < x.1 by {
                assert forall|sum: int| !within(gte_tree(encoding), ub, sum) by {}
            }
        }
        enc
    }

    /// Initializes a new objective encoding for an unweighted objective. As long
    /// as nothing is encoded, there is nothing to reserve variables for.
    pub fn new_unweighted(
        lits: Vec<Lit>,
        reserve: bool,
        var_manager: &mut VarManager,
    ) -> (enc: ObjEncoding)
        ensures
            *final(var_manager) == *old(var_manager),
            enc matches ObjEncoding::Unweighted(tot) && tot_tree(tot) == Multiset::<
                (Lit, usize),
            >::empty(),
            enc.state().inputs == units(lits@).to_multiset(),
            enc.state().clauses == Seq::<Seq<Lit>>::empty(),
            enc.state().vars == Set::<int>::empty(),
            enc.state().reserved == Set::<int>::empty(),
            enc.state().bounds == Set::<int>::empty(),
    {
        let mut encoding = tot_from_iter(lits);
        if reserve {
            let next = tot_reserve(&mut encoding, var_manager.next);
            var_manager.next = next;
        }
        ObjEncoding::Unweighted(encoding)
    }

    /// Gets the next higher objective value.
    pub fn next_higher(&self, val: usize) -> (r: usize)
        requires
            !(self is Constant) ==> val < usize::MAX,
            self is Weighted ==> forall|x: (Lit, usize)| #[trigger]
                self.state().inputs.count(x) > 0 ==> val + 1 + x.1 <= usize::MAX,
        ensures
            match self {
                ObjEncoding::Weighted(enc) => steps_up(gte_tree(*enc), val as int, r as int),
                ObjEncoding::Unweighted(_) => r == val + 1,
                ObjEncoding::Constant => r == val,
            },
    {
        match self {
            ObjEncoding::Weighted(enc) => {
                assert(self.state().inputs == gte_inputs(*enc));
                gte_next_higher(enc, val)
            },
            ObjEncoding::Unweighted(_) => val + 1,
            ObjEncoding::Constant => val,
        }
    }

    /// Encodes the given range.
    pub fn encode_ub_change(
        &mut self,
        range: Range<usize>,
        var_manager: &mut VarManager,
    ) -> (cnf: Vec<Clause>)
        requires
            old(self).fits(),
            old(self).state().below(old(var_manager).next as int),
            !(*old(self) is Constant) ==> old(var_manager).next <= MAX_VAR_IDX + 1,
        ensures
            final(self).fits(),
            old(self).state().encoded_to(
                final(self).state(),
                range.start as int,
                range.end as int,
                old(var_manager).next as int,
                clause_views(cnf@),
                final(var_manager).next as int,
            ),
            match *old(self) {
                ObjEncoding::Weighted(before) => *final(self) matches ObjEncoding::Weighted(after)
                    && gte_tree(after) == covered(
                    gte_tree(before),
                    gte_inputs(before),
                    range.start as int,
                    range.end as int,
                ) && outputs_follow(
                    gte_outputs(before),
                    gte_outputs(after),
                    gte_tree(before),
                    gte_inputs(before),
                    range.start as int,
                    range.end as int,
                ),
                ObjEncoding::Unweighted(before) => *final(self) matches ObjEncoding::Unweighted(
                    after,
                ) && {
                    &&& forall|ub: int| #[trigger]
                        tot_bounds(after).contains(ub) <==> tot_bounds(before).contains(ub) || (
                        range.start <= ub < range.end && ub < bag_total(tot_inputs(before)))
                    &&& tot_tree(after) == (if range.start < range.end && range.start < bag_total(
                        tot_inputs(before),
                    ) {
                        tot_inputs(before)
                    } else {
                        tot_tree(before)
                    })
                },
                ObjEncoding::Constant => *final(self) is Constant && cnf@.len() == 0
                    && *final(var_manager) == *old(var_manager),
            },
    {
        match self {
            ObjEncoding::Weighted(enc) => {
                let (cnf, next) = gte_encode_ub_change(enc, range, var_manager.next);
                var_manager.next = next;
                cnf
            },
            ObjEncoding::Unweighted(enc) => {
                let (cnf, next) = tot_encode_ub_change(enc, range, var_manager.next);
                var_manager.next = next;
                cnf
            },
            ObjEncoding::Constant => {
                let cnf: Vec<Clause> = Vec::new();
                proof {
                    lemma_constant();
                    assert(clause_views(cnf@) =~= Seq::empty());
                    assert(Seq::<Seq<Lit>>::empty() + Seq::<Seq<Lit>>::empty() =~= Seq::empty());
                }
                cnf
            },
        }
    }

    /// Enforces the given upper bound.
    pub fn enforce_ub(&self, ub: usize) -> (r: Result<Vec<Lit>, EncodingError>)
        requires
            self.fits(),
            self.state().below(MAX_VAR_IDX + 1),
        ensures
            r is Ok <==> self.state().enforceable(ub as int),
            r matches Err(e) ==> e is NotEncoded,
            r matches Ok(lits) ==> self.state().enforces(ub as int, lits@),
            r matches Ok(lits) ==> self is Unweighted && ub < bag_total(self.state().inputs)
                ==> lits@.len() == 1,
    {
        let r = match self {
            ObjEncoding::Weighted(enc) => gte_enforce_ub(enc, ub),
            ObjEncoding::Unweighted(enc) => tot_enforce_ub(enc, ub),
            ObjEncoding::Constant => {
                proof {
                    lemma_constant();
                }
                return Ok(Vec::new());
            },
        };
        match r {
            Ok(lits) => Ok(lits),
            Err(_) => Err(EncodingError::NotEncoded),
        }
    }
}

/// Whether weighted literals can be encoded: all weights are positive, and the
/// sum of all weights is in range with one more weight.
pub open spec fn encodable(lits: Seq<(Lit, usize)>) -> bool {
    forall|i: int|
        0 <= i < lits.len() ==> (#[trigger] lits[i]).1 > 0 && weight_total(lits) + lits[i].1
            < usize::MAX
}

/// Checks whether weighted literals can be encoded.
pub fn can_encode(lits: &Vec<(Lit, usize)>) -> (b: bool)
    ensures
        b == encodable(lits@),
{
    let mut total: usize = 0;
    assert(lits@.take(0) =~= Seq::empty());
    for k in 0..lits.len()
        invariant
            total == weight_total(lits@.take(k as int)),
    {
        assert(lits@.take(k + 1).drop_last() =~= lits@.take(k as int));
        match total.checked_add(lits[k].1) {
            Some(sum) => {
                total = sum;
            },
            None => {
                proof {
                    lemma_total_prefix(lits@, k + 1);
                    assert(weight_total(lits@) + lits@[k as int].1 >= usize::MAX);
                }
                return false;
            },
        }
    }
    assert(lits@.take(lits@.len() as int) =~= lits@);
    for k in 0..lits.len()
        invariant
            total == weight_total(lits@),
            forall|i: int|
                0 <= i < k ==> (#[trigger] lits@[i]).1 > 0 && total + lits@[i].1 < usize::MAX,
    {
        let w = lits[k].1;
        if w == 0 || w >= usize::MAX - total {
            assert(lits@[k as int].1 == w);
            return false;
        }
    }
    true
}

/// An encoding of different literals that can be encoded is one whose weights
/// allow for encoding.
pub proof fn law_encodable_fits(lits: Seq<(Lit, usize)>, st: EncodingState)
    requires
        distinct_lits(lits),
        encodable(lits),
        st.inputs == collect_weights(lits).to_multiset(),
    ensures
        st.fits(),
        bag_total(st.inputs) == weight_total(lits),
{
    broadcast use vstd::seq_lib::group_to_multiset_ensures;

    lemma_collect(lits);
    lemma_bag(lits, Set::empty());
    assert forall|x: (Lit, usize)| #[trigger] st.inputs.count(x) > 0 implies x.1 > 0 by {
        assert(lits.contains(x));
    }
}

/// All bounds of a constant can be enforced with nothing.
proof fn lemma_constant()
    ensures
        bag_total(Multiset::empty()) == 0,
        ObjEncoding::Constant.state().conservative(),
        forall|ub: int|
            ub >= 0 ==> #[trigger] ObjEncoding::Constant.state().enforceable(ub)
                && ObjEncoding::Constant.state().enforces(ub, Seq::empty()),
{
    broadcast use vstd::seq_lib::group_to_multiset_ensures;

    let st = ObjEncoding::Constant.state();
    let none = Seq::<(Lit, usize)>::empty();
    assert(none.to_multiset() =~= Multiset::empty());
    assert forall|a: Valuation| #[trigger] bag_weight(st.inputs, a) == 0 by {
        lemma_bag(none, a);
    }
    lemma_bag(none, Set::empty());
    assert forall|ub: int| ub >= 0 implies #[trigger] st.enforceable(ub) && st.enforces(
        ub,
        Seq::empty(),
    ) by {
        assert forall|a: Valuation| #[trigger]
            cnf_holds(a, st.clauses) && all_hold(a, Seq::empty()) implies bag_weight(st.inputs, a)
            <= ub by {}
    }
}

/// Variables of listed literals.
proof fn lemma_listed_below(entries: Seq<(Lit, usize)>, next: int)
    requires
        forall|i: int| 0 <= i < entries.len() ==> (#[trigger] entries[i]).0.var() < next,
    ensures
        forall|x: (Lit, usize)| #[trigger]
            entries.to_multiset().count(x) > 0 ==> x.0.var() < next,
{
    broadcast use vstd::seq_lib::group_to_multiset_ensures;

    assert forall|x: (Lit, usize)| #[trigger] entries.to_multiset().count(x) > 0 implies x.0.var()
        < next by {
        assert(entries.contains(x));
    }
}

/// Collecting weights adds no literals.
pub proof fn lemma_collected_lits(pairs: Seq<(Lit, usize)>, next: int)
    requires
        forall|i: int| 0 <= i < pairs.len() ==> (#[trigger] pairs[i]).0.var() < next,
    ensures
        forall|i: int|
            0 <= i < collect_weights(pairs).len() ==> (#[trigger] collect_weights(
                pairs,
            )[i]).0.var() < next,
    decreases pairs.len(),
{
    if pairs.len() > 0 {
        let init = pairs.drop_last();
        assert forall|i: int| 0 <= i < init.len() implies (#[trigger] init[i]).0.var() < next by {
            assert(init[i] == pairs[i]);
        }
        lemma_collected_lits(init, next);
        assert(pairs[pairs.len() - 1].0.var() < next);
        let before = collect_weights(init);
        let after = collect_weights(pairs);
        assert forall|i: int| 0 <= i < after.len() implies (#[trigger] after[i]).0.var() < next by {
            if i < before.len() {
                assert(before[i].0.var() < next);
            }
        }
    }
}

/// A new encoding has no variables but those of its inputs.
pub proof fn law_new_encoding_below(lits: Seq<(Lit, usize)>, st: EncodingState, next: int)
    requires
        forall|i: int| 0 <= i < lits.len() ==> (#[trigger] lits[i]).0.var() < next,
        st.inputs == lits.to_multiset() || st.inputs == collect_weights(lits).to_multiset(),
        st.vars == Set::<int>::empty(),
    ensures
        st.below(next),
{
    lemma_listed_below(lits, next);
    lemma_collected_lits(lits, next);
    lemma_listed_below(collect_weights(lits), next);
}

/// All bounds that the inputs of an assignment meet hold at once: one assignment
/// of the taken variables satisfies all clauses, and the literals of all these
/// bounds.
pub proof fn law_bounds_hold_together(
    st: EncodingState,
    bounds: Seq<int>,
    lits: Seq<Seq<Lit>>,
    a: Valuation,
)
    requires
        st.conservative(),
        bounds.len() == lits.len(),
        forall|i: int| 0 <= i < bounds.len() ==> st.enforces(#[trigger] bounds[i], lits[i]),
        forall|i: int|
            0 <= i < bounds.len() ==> bag_weight(st.inputs, a) <= #[trigger] bounds[i],
    ensures
        exists|b: Valuation| #[trigger]
            agree_off(a, b, st.vars) && cnf_holds(b, st.clauses) && forall|i: int|
                0 <= i < lits.len() ==> all_hold(b, #[trigger] lits[i]),
{
    let b = st.filled(a);
    assert forall|i: int| 0 <= i < lits.len() implies all_hold(b, #[trigger] lits[i]) by {
        assert(st.enforces(bounds[i], lits[i]));
    }
    assert(agree_off(a, b, st.vars));
}

/// The next higher value skips no value that the objective can have, once the
/// tree covers all inputs.
pub proof fn law_next_higher_skips_nothing(
    entries: Seq<(Lit, usize)>,
    val: int,
    r: int,
    a: Valuation,
)
    requires
        steps_up(entries.to_multiset(), val, r),
        weight_under(entries, a) > val,
    ensures
        r <= weight_under(entries, a),
{
    lemma_weight_attainable(entries, a);
}

} // verus!
