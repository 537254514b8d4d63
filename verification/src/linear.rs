//! Cardinality and pseudo-boolean constraints, and their encoding as clauses.
use std::collections::HashSet;

use rustsat::encodings::card::default_encode_cardinality_constraint;
use rustsat::encodings::pb::default_encode_pb_constraint;
use rustsat::instances::{BasicVarManager, Cnf, ManageVars};
use rustsat::types::constraints::{CardConstraint, PBConstraint};
use rustsat::types::{Lit as RsLit, Var as RsVar};
use vstd::prelude::*;

use crate::linear::Relation::{AtLeast, AtMost, Exactly};
use crate::merging::{lemma_merged, lemma_weight_at_most_total, merged};
use crate::objective::{distinct_lits, has_lit, place_of, LitWeights};
use crate::semantics::{
    agree_below, clause_holds, cnf_below, cnf_holds, lemma_cnf_agree, lemma_cnf_append, lemma_lit_agree,
    lemma_total_prefix, weight_total, weight_under, Valuation,
};
use crate::types::{clause_views, Clause, Lit, MAX_VAR_IDX};

verus! {

broadcast use vstd::std_specs::hash::group_hash_axioms;

/// How a sum of weights relates to a bound.
#[derive(Clone, Copy, Debug, PartialEq, Eq, Structural)]
pub enum Relation {
    AtMost,
    AtLeast,
    Exactly,
}

/// A constraint on the sum of the weights of the literals that are true.
pub struct LinearView {
    pub relation: Relation,
    pub entries: Seq<(Lit, usize)>,
    pub bound: int,
}

impl LinearView {
    /// Whether a total assignment satisfies the constraint.
    pub open spec fn holds(self, a: Valuation) -> bool {
        let sum = weight_under(self.entries, a);
        match self.relation {
            Relation::AtMost => sum <= self.bound,
            Relation::AtLeast => sum >= self.bound,
            Relation::Exactly => sum == self.bound,
        }
    }

    /// Whether all variables of the constraint are below the given one.
    pub open spec fn below(self, next: int) -> bool {
        forall|i: int| 0 <= i < self.entries.len() ==> (#[trigger] self.entries[i]).0.var() < next
    }

    /// Whether all weights are the same.
    pub open spec fn uniform(self) -> bool {
        forall|i: int|
            0 <= i < self.entries.len() ==> (#[trigger] self.entries[i]).1 == self.entries[0].1
    }

    /// Whether an equality asks for a sum that is within reach but not a
    /// multiple of the positive weight that all literals share.
    pub open spec fn indivisible(self) -> bool {
        &&& self.relation is Exactly
        &&& self.entries.len() > 0
        &&& self.entries[0].1 > 0
        &&& self.uniform()
        &&& 0 <= self.bound <= weight_total(self.entries)
        &&& self.bound % (self.entries[0].1 as int) != 0
    }

    /// Whether weights are positive, and literals with weights of their own do
    /// not repeat.
    pub open spec fn plain(self) -> bool {
        &&& forall|i: int| 0 <= i < self.entries.len() ==> (#[trigger] self.entries[i]).1 > 0
        &&& self.uniform() || distinct_lits(self.entries)
    }

    /// The constraint without weights of zero and with each literal once, unless
    /// it is plain as it stands.
    pub open spec fn simple(self) -> LinearView {
        if self.plain() {
            self
        } else {
            LinearView { entries: merged(self.entries), ..self }
        }
    }

    /// Whether sums are out of range that bounding the weight of the literals by
    /// `ub` takes.
    pub open spec fn too_large(self, ub: int) -> bool {
        exists|i: int|
            0 <= i < self.entries.len() && (#[trigger] self.entries[i]).1 <= ub && (weight_total(
                self.entries,
            ) >= usize::MAX || ub + self.entries[i].1 + 2 > usize::MAX)
    }

    /// Whether sums are out of range that encoding the constraint takes. There
    /// are none if all weights are the same, if the constraint holds always or
    /// never, or if it is a clause.
    pub open spec fn overflows(self) -> bool {
        let total = weight_total(self.entries);
        &&& !self.uniform()
        &&& match self.relation {
            Relation::AtMost => {
                &&& 0 <= self.bound < total
                &&& !forall|i: int|
                    0 <= i < self.entries.len() ==> total <= self.bound + (
                    #[trigger] self.entries[i]).1
                &&& self.too_large(self.bound)
            },
            Relation::AtLeast => {
                &&& 0 < self.bound <= total
                &&& !forall|i: int|
                    0 <= i < self.entries.len() ==> self.bound <= (#[trigger] self.entries[i]).1
                &&& self.too_large(total - self.bound)
            },
            Relation::Exactly => {
                &&& 0 < self.bound < total
                &&& self.too_large(self.bound) || self.too_large(total - self.bound)
            },
        }
    }

    /// Whether no weight and no sum is out of range that encoding the constraint
    /// takes.
    pub open spec fn in_range(self) -> bool {
        &&& weight_total(self.entries) <= usize::MAX
        &&& forall|i: int|
            0 <= i < self.entries.len() ==> (#[trigger] self.entries[i]).1 <= isize::MAX
        &&& !self.overflows()
    }

    /// Whether the constraint can be encoded as a pseudo-boolean constraint as
    /// it stands.
    pub open spec fn encodable(self) -> bool {
        &&& self.plain()
        &&& self.in_range()
        &&& !self.indivisible()
    }

    /// Whether the constraint is supported: it is no indivisible equality, and
    /// what encoding it takes is in range.
    pub open spec fn supported(self) -> bool {
        &&& !self.indivisible()
        &&& weight_total(self.entries) <= usize::MAX
        &&& self.simple().in_range()
    }

    /// The number of variables that encoding the constraint as a pseudo-boolean
    /// constraint takes.
    pub open spec fn vars_needed(self) -> nat {
        if self.simple().indivisible() {
            0
        } else {
            pb_vars(self.simple())
        }
    }
}

/// A cardinality constraint: how many of the literals are true.
pub struct Cardinality {
    pub relation: Relation,
    pub lits: Vec<Lit>,
    pub bound: usize,
}

impl View for Cardinality {
    type V = LinearView;

    open spec fn view(&self) -> LinearView {
        LinearView {
            relation: self.relation,
            entries: self.lits@.map_values(|l: Lit| (l, 1usize)),
            bound: self.bound as int,
        }
    }
}

/// A pseudo-boolean constraint: what the literals weigh that are true.
pub struct PseudoBoolean {
    pub relation: Relation,
    pub entries: Vec<(Lit, usize)>,
    pub bound: isize,
}

impl View for PseudoBoolean {
    type V = LinearView;

    open spec fn view(&self) -> LinearView {
        LinearView {
            relation: self.relation,
            entries: self.entries@,
            bound: self.bound as int,
        }
    }
}

#[verifier::external_type_specification]
#[verifier::external_body]
pub struct ExCardConstraint(CardConstraint);

#[verifier::external_type_specification]
#[verifier::external_body]
pub struct ExPBConstraint(PBConstraint);

/// What a cardinality constraint says, with a weight of one for each literal.
pub uninterp spec fn card_content(card: CardConstraint) -> LinearView;

/// What a pseudo-boolean constraint says.
pub uninterp spec fn pb_content(pb: PBConstraint) -> LinearView;

/// `CardUBConstr::decompose`, `CardLBConstr::decompose` and
/// `CardEQConstr::decompose`: the literals and the bound of a cardinality
/// constraint.
#[verifier::external_body]
fn read_card(card: CardConstraint) -> (c: Cardinality)
    ensures
        c@ == card_content(card),
{
    let (relation, (lits, bound)) = match card {
        CardConstraint::UB(c) => (Relation::AtMost, c.decompose()),
        CardConstraint::LB(c) => (Relation::AtLeast, c.decompose()),
        CardConstraint::EQ(c) => (Relation::Exactly, c.decompose()),
    };
    let lits = lits.into_iter().map(|l| Lit::new(l.vidx32(), l.is_neg())).collect();
    Cardinality { relation, lits, bound }
}

/// `PBUBConstr::decompose`, `PBLBConstr::decompose` and `PBEQConstr::decompose`:
/// the weighted literals and the bound of a pseudo-boolean constraint.
#[verifier::external_body]
fn read_pb(pb: PBConstraint) -> (p: PseudoBoolean)
    ensures
        p@ == pb_content(pb),
{
    let (relation, (lits, bound)) = match pb {
        PBConstraint::UB(p) => (Relation::AtMost, p.decompose()),
        PBConstraint::LB(p) => (Relation::AtLeast, p.decompose()),
        PBConstraint::EQ(p) => (Relation::Exactly, p.decompose()),
    };
    let entries = lits.into_iter().map(|(l, w)| (Lit::new(l.vidx32(), l.is_neg()), w)).collect();
    PseudoBoolean { relation, entries, bound }
}

/// The number of variables that encoding a cardinality constraint takes.
pub uninterp spec fn card_vars(c: LinearView) -> nat;

/// The number of variables that encoding a pseudo-boolean constraint takes.
pub uninterp spec fn pb_vars(c: LinearView) -> nat;

/// Keeps what a cardinality constraint says.
pub(crate) fn keep_card(cards: &mut Vec<Cardinality>, card: CardConstraint)
    ensures
        card_views(final(cards)@) == card_views(old(cards)@).push(card_content(card)),
{
    cards.push(read_card(card));
    assert(card_views(cards@) =~= card_views(old(cards)@).push(card_content(card)));
}

/// Keeps what a pseudo-boolean constraint says.
pub(crate) fn keep_pb(pbs: &mut Vec<PseudoBoolean>, pb: PBConstraint)
    ensures
        pb_views(final(pbs)@) == pb_views(old(pbs)@).push(pb_content(pb)),
{
    pbs.push(read_pb(pb));
    assert(pb_views(pbs@) =~= pb_views(old(pbs)@).push(pb_content(pb)));
}

/// Whether clauses say the same as constraints on the variables below `bound`,
/// where `holds` tells which assignments satisfy the constraints.
pub open spec fn clauses_say(
    cnf: Seq<Seq<Lit>>,
    holds: spec_fn(Valuation) -> bool,
    bound: int,
) -> bool {
    &&& forall|a: Valuation| #[trigger] cnf_holds(a, cnf) ==> holds(a)
    &&& forall|a: Valuation| holds(a) ==> #[trigger] has_model_like(cnf, a, bound)
}

/// Whether clauses are satisfied by an assignment that agrees with a given one
/// on the variables below `bound`.
pub open spec fn has_model_like(cnf: Seq<Seq<Lit>>, a: Valuation, bound: int) -> bool {
    exists|b: Valuation| #[trigger] agree_below(a, b, bound) && cnf_holds(b, cnf)
}

/// Whether clauses, with variables from `next` on, encode a constraint. Nothing
/// is said where variables count as free that the constraint uses, or where
/// there are not enough variables.
pub open spec fn encodes(
    c: LinearView,
    cls: Seq<Seq<Lit>>,
    next: int,
    new_next: int,
) -> bool {
    &&& next <= new_next
    &&& c.below(next) && new_next <= MAX_VAR_IDX + 1 ==> {
        &&& cnf_below(cls, new_next)
        &&& clauses_say(cls, |a: Valuation| c.holds(a), next)
    }
}

/// `default_encode_cardinality_constraint` on a constraint that
/// `CardConstraint::new_ub`, `new_lb` or `new_eq` makes of the literals: clauses
/// that say the same as the constraint, with variables from `next` on. How many
/// variables are taken depends on the constraint only. As with any allocation,
/// the call does not return if memory runs out. It is left unsaid which clauses
/// these are.
#[verifier::external_body]
fn encode_card(c: &Cardinality, next: u32) -> (r: (Vec<Clause>, u32))
    requires
        next <= MAX_VAR_IDX + 1,
    ensures
        encodes(c@, clause_views(r.0@), next as int, r.1 as int),
        r.1 == next + card_vars(c@),
{
    let lits = c.lits.iter().map(|l| RsLit::new(l.vidx(), l.is_neg()));
    let constr = match c.relation {
        AtMost => CardConstraint::new_ub(lits, c.bound),
        AtLeast => CardConstraint::new_lb(lits, c.bound),
        Exactly => CardConstraint::new_eq(lits, c.bound),
    };
    let mut vm = BasicVarManager::from_next_free(RsVar::new_unchecked(next));
    let mut cnf = Cnf::new();
    default_encode_cardinality_constraint(constr, &mut cnf, &mut vm).expect("out of memory");
    (cnf.into_iter().map(
        |cl| Clause { lits: cl.into_iter().map(|l| Lit::new(l.vidx32(), l.is_neg())).collect() },
    ).collect(), vm.n_used())
}

/// `default_encode_pb_constraint` on a constraint that `PBConstraint::new_ub`,
/// `new_lb` or `new_eq` makes of the weighted literals: clauses that say the
/// same as the constraint, with variables from `next` on. How many variables
/// are taken depends on the constraint only. As with any allocation, the call
/// does not return if memory runs out. It is left unsaid which clauses these
/// are.
#[verifier::external_body]
fn encode_pb(p: &PseudoBoolean, next: u32) -> (r: (Vec<Clause>, u32))
    requires
        p@.encodable(),
        next <= MAX_VAR_IDX + 1,
    ensures
        encodes(p@, clause_views(r.0@), next as int, r.1 as int),
        r.1 == next + pb_vars(p@),
{
    let lits = p.entries.iter().map(|(l, w)| (RsLit::new(l.vidx(), l.is_neg()), *w as isize));
    let constr = match p.relation {
        AtMost => PBConstraint::new_ub(lits, p.bound),
        AtLeast => PBConstraint::new_lb(lits, p.bound),
        Exactly => PBConstraint::new_eq(lits, p.bound),
    };
    let mut vm = BasicVarManager::from_next_free(RsVar::new_unchecked(next));
    let mut cnf = Cnf::new();
    default_encode_pb_constraint(constr, &mut cnf, &mut vm).expect("out of memory");
    (cnf.into_iter().map(
        |cl| Clause { lits: cl.into_iter().map(|l| Lit::new(l.vidx32(), l.is_neg())).collect() },
    ).collect(), vm.n_used())
}

impl PseudoBoolean {
    /// The sum of all weights, if it is in range.
    fn total(&self) -> (total: Option<usize>)
        ensures
            total is Some <==> weight_total(self@.entries) <= usize::MAX,
            total matches Some(t) ==> t == weight_total(self@.entries),
    {
        let ghost entries = self.entries@;
        let mut total: usize = 0;
        assert(entries.take(0) =~= Seq::empty());
        for k in 0..self.entries.len()
            invariant
                entries == self.entries@,
                total == weight_total(entries.take(k as int)),
        {
            assert(entries.take(k + 1).drop_last() =~= entries.take(k as int));
            match total.checked_add(self.entries[k].1) {
                Some(sum) => {
                    total = sum;
                },
                None => {
                    proof {
                        lemma_total_prefix(entries, k + 1);
                    }
                    return None;
                },
            }
        }
        assert(entries.take(entries.len() as int) =~= entries);
        Some(total)
    }

    /// Checks whether all weights are the same.
    fn is_uniform(&self) -> (b: bool)
        ensures
            b == self@.uniform(),
    {
        for k in 0..self.entries.len()
            invariant
                forall|i: int|
                    0 <= i < k ==> (#[trigger] self.entries@[i]).1 == self.entries@[0].1,
        {
            if self.entries[k].1 != self.entries[0].1 {
                assert(self@.entries[k as int].1 != self@.entries[0].1);
                return false;
            }
        }
        true
    }

    /// Checks whether no literal occurs twice.
    fn is_distinct(&self) -> (b: bool)
        ensures
            b == distinct_lits(self@.entries),
    {
        let ghost entries = self.entries@;
        let mut seen: HashSet<u32> = HashSet::new();
        for k in 0..self.entries.len()
            invariant
                entries == self.entries@,
                forall|i: int, j: int|
                    0 <= i < k && 0 <= j < k && i != j ==> (#[trigger] entries[i]).0 != (
                    #[trigger] entries[j]).0,
                forall|i: int| 0 <= i < k ==> seen@.contains((#[trigger] entries[i]).0.lidx),
                forall|x: u32| #[trigger]
                    seen@.contains(x) ==> exists|i: int|
                        0 <= i < k && (#[trigger] entries[i]).0.lidx == x,
        {
            let l = self.entries[k].0;
            let ghost known = seen@.contains(l.lidx);
            if !seen.insert(l.lidx) {
                proof {
                    assert(known);
                    let i = choose|i: int| 0 <= i < k && (#[trigger] entries[i]).0.lidx == l.lidx;
                    assert(entries[i].0 == entries[k as int].0);
                }
                return false;
            }
            assert forall|i: int, j: int| 0 <= i < k + 1 && 0 <= j < k + 1 && i != j implies (
            #[trigger] entries[i]).0 != (#[trigger] entries[j]).0 by {
                if i == k {
                    assert(seen@.contains(entries[j].0.lidx));
                } else if j == k {
                    assert(seen@.contains(entries[i].0.lidx));
                }
            }
        }
        true
    }

    /// Checks whether the constraint is plain.
    fn is_plain(&self) -> (b: bool)
        ensures
            b == self@.plain(),
    {
        for k in 0..self.entries.len()
            invariant
                forall|i: int| 0 <= i < k ==> (#[trigger] self.entries@[i]).1 > 0,
        {
            if self.entries[k].1 == 0 {
                assert(self@.entries[k as int].1 == 0);
                return false;
            }
        }
        self.is_uniform() || self.is_distinct()
    }

    /// The constraint without weights of zero and with each literal once, unless
    /// it is plain as it stands.
    pub fn simplified(&self) -> (p: PseudoBoolean)
        requires
            weight_total(self@.entries) <= usize::MAX,
        ensures
            p@ == self@.simple(),
    {
        let ghost entries = self.entries@;
        let mut list = LitWeights::new();
        let plain = self.is_plain();
        assert(entries.take(0) =~= Seq::empty());
        for k in 0..self.entries.len()
            invariant
                entries == self.entries@,
                weight_total(entries) <= usize::MAX,
                list.wf(),
                !plain ==> list@ == merged(entries.take(k as int)),
                plain ==> list@ == Seq::<(Lit, usize)>::empty(),
        {
            let (l, w) = self.entries[k];
            proof {
                let before = entries.take(k as int);
                assert(entries.take(k + 1).drop_last() =~= before);
                lemma_total_prefix(entries, k + 1);
                lemma_merged(before, Set::empty());
                if has_lit(merged(before), l) {
                    let p = place_of(merged(before), l);
                    assert(merged(before)[p].0 == l);
                    lemma_weight_at_most_total(merged(before), p);
                }
            }
            if !plain {
                list.add(l, w);
            }
        }
        assert(entries.take(entries.len() as int) =~= entries);
        let entries = if plain {
            copy_entries(&self.entries)
        } else {
            list.into_entries()
        };
        PseudoBoolean { relation: self.relation, entries, bound: self.bound }
    }

    /// Checks whether the constraint is an indivisible equality.
    fn is_indivisible(&self, total: usize) -> (b: bool)
        requires
            total == weight_total(self@.entries),
        ensures
            b == self@.indivisible(),
    {
        if let Relation::Exactly = self.relation {
            if self.entries.len() > 0 && self.entries[0].1 > 0 && self.is_uniform() && 0
                <= self.bound && self.bound as usize <= total {
                return self.bound as usize % self.entries[0].1 != 0;
            }
        }
        false
    }

    /// Checks whether sums are out of range that bounding the weight by `ub`
    /// takes.
    fn is_too_large(&self, total: usize, ub: usize) -> (b: bool)
        requires
            total == weight_total(self@.entries),
        ensures
            b == self@.too_large(ub as int),
    {
        for k in 0..self.entries.len()
            invariant
                total == weight_total(self@.entries),
                forall|i: int|
                    0 <= i < k && (#[trigger] self.entries@[i]).1 <= ub ==> total < usize::MAX && ub
                        + self.entries@[i].1 + 2 <= usize::MAX,
        {
            let w = self.entries[k].1;
            if w <= ub && (total == usize::MAX || ub > usize::MAX - 2 || w > usize::MAX - 2 - ub) {
                assert(self@.entries[k as int].1 == w);
                return true;
            }
        }
        false
    }

    /// Checks whether sums are out of range that encoding the constraint takes.
    fn does_overflow(&self, total: usize) -> (b: bool)
        requires
            total == weight_total(self@.entries),
        ensures
            b == self@.overflows(),
    {
        if self.is_uniform() || self.bound < 0 || self.bound as usize > total {
            return false;
        }
        let bound = self.bound as usize;
        match self.relation {
            Relation::AtMost => {
                if bound == total || !self.is_too_large(total, bound) {
                    return false;
                }
                for k in 0..self.entries.len()
                    invariant
                        bound == self.bound,
                        bound < total == weight_total(self@.entries),
                        !self@.uniform(),
                        self.relation is AtMost,
                        self@.too_large(bound as int),
                        forall|i: int|
                            0 <= i < k ==> total <= bound + (#[trigger] self.entries@[i]).1,
                {
                    if self.entries[k].1 < total - bound {
                        assert(self@.entries[k as int].1 < total - bound);
                        return true;
                    }
                }
                false
            },
            Relation::AtLeast => {
                if bound == 0 || !self.is_too_large(total, total - bound) {
                    return false;
                }
                for k in 0..self.entries.len()
                    invariant
                        bound == self.bound,
                        0 < bound <= total == weight_total(self@.entries),
                        !self@.uniform(),
                        self.relation is AtLeast,
                        self@.too_large(total - bound),
                        forall|i: int| 0 <= i < k ==> bound <= (#[trigger] self.entries@[i]).1,
                {
                    if self.entries[k].1 < bound {
                        assert(self@.entries[k as int].1 < bound);
                        return true;
                    }
                }
                false
            },
            Relation::Exactly => 0 < bound && bound < total && (self.is_too_large(total, bound)
                || self.is_too_large(total, total - bound)),
        }
    }

    /// Checks whether the constraint is supported.
    pub fn can_encode(&self) -> (b: bool)
        ensures
            b == self@.supported(),
    {
        let total = match self.total() {
            Some(total) => total,
            None => {
                return false;
            },
        };
        if self.is_indivisible(total) {
            return false;
        }
        let p = self.simplified();
        proof {
            law_simplifying_keeps_meaning(self@, Set::empty());
        }
        for k in 0..p.entries.len()
            invariant
                p@ == self@.simple(),
                forall|i: int| 0 <= i < k ==> (#[trigger] p.entries@[i]).1 <= isize::MAX,
        {
            if p.entries[k].1 > isize::MAX as usize {
                assert(p@.entries[k as int].1 > isize::MAX);
                return false;
            }
        }
        !p.does_overflow(total)
    }

    /// Encodes the constraint with variables from `next` on. An equality that
    /// turns out to be indivisible once it is simplified never holds.
    fn encode(&self, next: u32) -> (r: (Vec<Clause>, u32))
        requires
            self@.supported(),
            next <= MAX_VAR_IDX + 1,
        ensures
            encodes(self@, clause_views(r.0@), next as int, r.1 as int),
            r.1 == next + self@.vars_needed(),
    {
        let p = self.simplified();
        let ghost s = p@;
        proof {
            law_simplifying_keeps_meaning(self@, Set::empty());
        }
        let total: usize = match p.total() {
            Some(total) => total,
            None => 0,
        };
        if p.is_indivisible(total) {
            let mut cnf: Vec<Clause> = Vec::new();
            cnf.push(Clause::new());
            proof {
                let cls = clause_views(cnf@);
                assert(cls[0].len() == 0);
                assert forall|a: Valuation| !cnf_holds(a, cls) by {
                    assert(!clause_holds(a, cls[0]));
                }
                assert forall|a: Valuation| !#[trigger] self@.holds(a) by {
                    law_simplifying_keeps_meaning(self@, a);
                    lemma_multiple(s.entries, a);
                }
            }
            return (cnf, next);
        }
        let (cnf, new_next) = encode_pb(&p, next);
        proof {
            let cls = clause_views(cnf@);
            let holds = |a: Valuation| self@.holds(a);
            let simple = |a: Valuation| s.holds(a);
            assert forall|a: Valuation| #[trigger] self@.holds(a) == s.holds(a) by {
                law_simplifying_keeps_meaning(self@, a);
            }
            if self@.below(next as int) && new_next <= MAX_VAR_IDX + 1 {
                assert forall|i: int| 0 <= i < s.entries.len() implies (
                #[trigger] s.entries[i]).0.var() < next by {
                    let l = s.entries[i].0;
                    assert(has_lit(self@.entries, l));
                    let j = choose|j: int|
                        0 <= j < self@.entries.len() && (#[trigger] self@.entries[j]).0 == l;
                    assert(self@.entries[j].0.var() < next);
                }
                assert(clauses_say(cls, simple, next as int));
                assert forall|a: Valuation| #[trigger] cnf_holds(a, cls) implies holds(a) by {
                    assert(simple(a));
                    assert(self@.holds(a) == s.holds(a));
                }
                assert forall|a: Valuation| holds(a) implies #[trigger] has_model_like(
                    cls,
                    a,
                    next as int,
                ) by {
                    assert(self@.holds(a) == s.holds(a));
                    assert(simple(a));
                }
                assert(clauses_say(cls, holds, next as int));
            }
        }
        (cnf, new_next)
    }
}

/// Copies weighted literals.
fn copy_entries(entries: &Vec<(Lit, usize)>) -> (res: Vec<(Lit, usize)>)
    ensures
        res@ == entries@,
{
    let mut res: Vec<(Lit, usize)> = Vec::new();
    for i in 0..entries.len()
        invariant
            res@ == entries@.take(i as int),
    {
        res.push(entries[i]);
        assert(entries@.take(i + 1) =~= entries@.take(i as int).push(entries@[i as int]));
    }
    assert(entries@.take(entries@.len() as int) =~= entries@);
    res
}

/// A simplified constraint is plain, and says the same.
pub proof fn law_simplifying_keeps_meaning(c: LinearView, a: Valuation)
    requires
        weight_total(c.entries) <= usize::MAX,
    ensures
        c.simple().plain(),
        c.simple().holds(a) == c.holds(a),
        weight_total(c.simple().entries) == weight_total(c.entries),
        forall|i: int|
            0 <= i < c.simple().entries.len() ==> has_lit(
                c.entries,
                (#[trigger] c.simple().entries[i]).0,
            ),
{
    lemma_merged(c.entries, a);
}

/// Sums of literals of one weight are multiples of that weight.
proof fn lemma_multiple(entries: Seq<(Lit, usize)>, a: Valuation)
    requires
        entries.len() > 0,
        entries[0].1 > 0,
        forall|i: int| 0 <= i < entries.len() ==> (#[trigger] entries[i]).1 == entries[0].1,
    ensures
        weight_under(entries, a) % (entries[0].1 as int) == 0,
    decreases entries.len(),
{
    let w = entries[0].1 as int;
    let init = entries.drop_last();
    assert(entries[entries.len() - 1] == entries.last());
    if init.len() > 0 {
        assert forall|i: int| 0 <= i < init.len() implies (#[trigger] init[i]).1
            == init[0].1 by {
            assert(init[i] == entries[i]);
        }
        lemma_multiple(init, a);
        let rest = weight_under(init, a);
        assert((rest + w) % w == rest % w) by {
            vstd::arithmetic::div_mod::lemma_mod_add_multiples_vanish(rest, w);
        }
    } else {
        assert(weight_under(init, a) == 0);
        vstd::arithmetic::div_mod::lemma_mod_self_0(w);
        vstd::arithmetic::div_mod::lemma_small_mod(0, w as nat);
    }
}

/// The sum of weights depends on the variables of the literals only.
proof fn lemma_weight_agree(entries: Seq<(Lit, usize)>, a: Valuation, b: Valuation, bound: int)
    requires
        agree_below(a, b, bound),
        forall|i: int| 0 <= i < entries.len() ==> (#[trigger] entries[i]).0.var() < bound,
    ensures
        weight_under(entries, a) == weight_under(entries, b),
    decreases entries.len(),
{
    if entries.len() > 0 {
        let init = entries.drop_last();
        assert forall|i: int| 0 <= i < init.len() implies (#[trigger] init[i]).0.var() < bound by {
            assert(init[i] == entries[i]);
        }
        lemma_weight_agree(init, a, b, bound);
        assert(entries[entries.len() - 1].0.var() < bound);
        lemma_lit_agree(a, b, bound, entries.last().0);
    }
}

/// Whether a total assignment satisfies clauses and linear constraints.
pub open spec fn all_satisfied(
    clauses: Seq<Seq<Lit>>,
    linears: Seq<LinearView>,
    a: Valuation,
) -> bool {
    &&& cnf_holds(a, clauses)
    &&& forall|i: int| 0 <= i < linears.len() ==> (#[trigger] linears[i]).holds(a)
}

/// Whether all variables of clauses and linear constraints are below `next`.
pub open spec fn all_below(
    clauses: Seq<Seq<Lit>>,
    linears: Seq<LinearView>,
    next: int,
) -> bool {
    &&& cnf_below(clauses, next)
    &&& forall|i: int| 0 <= i < linears.len() ==> (#[trigger] linears[i]).below(next)
}

/// Clauses say the same as one more constraint once its encoding is added.
proof fn lemma_one_more(
    clauses: Seq<Seq<Lit>>,
    linears: Seq<LinearView>,
    c: LinearView,
    cnf: Seq<Seq<Lit>>,
    more: Seq<Seq<Lit>>,
    first: int,
    next: int,
    new_next: int,
)
    requires
        first <= next,
        clauses_say(cnf, |a: Valuation| all_satisfied(clauses, linears, a), first),
        cnf_below(cnf, next),
        c.below(first),
        encodes(c, more, next, new_next),
        new_next <= MAX_VAR_IDX + 1,
    ensures
        clauses_say(
            cnf + more,
            |a: Valuation| all_satisfied(clauses, linears.push(c), a),
            first,
        ),
        cnf_below(cnf + more, new_next),
{
    let all = linears.push(c);
    let before = |a: Valuation| all_satisfied(clauses, linears, a);
    let after = |a: Valuation| all_satisfied(clauses, all, a);
    let one = |a: Valuation| c.holds(a);
    assert(clauses_say(more, one, next));
    assert forall|a: Valuation| #[trigger] cnf_holds(a, cnf + more) implies after(a) by {
        lemma_cnf_append(a, cnf, more);
        assert(before(a) && one(a));
        assert forall|i: int| 0 <= i < all.len() implies (#[trigger] all[i]).holds(a) by {
            if i < linears.len() {
                assert(all[i] == linears[i]);
            }
        }
    }
    assert forall|a: Valuation| after(a) implies #[trigger] has_model_like(
        cnf + more,
        a,
        first,
    ) by {
        assert forall|i: int| 0 <= i < linears.len() implies (#[trigger] linears[i]).holds(a) by {
            assert(all[i] == linears[i]);
        }
        assert(all[linears.len() as int] == c);
        assert(before(a) && c.holds(a));
        assert(has_model_like(cnf, a, first));
        let b = choose|b: Valuation| #[trigger] agree_below(a, b, first) && cnf_holds(b, cnf);
        lemma_weight_agree(c.entries, a, b, first);
        assert(one(b));
        assert(has_model_like(more, b, next));
        let d = choose|d: Valuation| #[trigger] agree_below(b, d, next) && cnf_holds(d, more);
        lemma_cnf_agree(b, d, next, cnf);
        lemma_cnf_append(d, cnf, more);
        assert(agree_below(a, d, first));
    }
    let both = cnf + more;
    assert forall|i: int| 0 <= i < both.len() implies crate::semantics::lits_below(
        #[trigger] both[i],
        new_next,
    ) by {
        if i < cnf.len() {
            assert(both[i] == cnf[i]);
        } else {
            assert(both[i] == more[i - cnf.len()]);
        }
    }
}

/// A formula that linear constraints are added to.
pub struct Formula {
    pub cnf: Vec<Clause>,
    /// The next free variable.
    pub next: u32,
}

/// Whether a formula consists of clauses, followed by the encoding of linear
/// constraints with variables from `first` on, and says the same as all of
/// them. Nothing is said of its meaning where variables count as free that the
/// constraints use, or where there are not enough variables.
pub open spec fn formula_of(
    f: Formula,
    clauses: Seq<Seq<Lit>>,
    linears: Seq<LinearView>,
    first: int,
) -> bool {
    &&& first <= f.next
    &&& clauses.is_prefix_of(clause_views(f.cnf@))
    &&& linears.len() == 0 ==> clause_views(f.cnf@) == clauses && f.next == first
    &&& all_below(clauses, linears, first) && f.next <= MAX_VAR_IDX + 1 ==> {
        &&& cnf_below(clause_views(f.cnf@), f.next as int)
        &&& clauses_say(
            clause_views(f.cnf@),
            |a: Valuation| all_satisfied(clauses, linears, a),
            first,
        )
    }
}

/// Clauses on their own say what they say.
proof fn lemma_clauses_only(f: Formula, clauses: Seq<Seq<Lit>>, first: int)
    requires
        clause_views(f.cnf@) == clauses,
        f.next == first,
    ensures
        formula_of(f, clauses, Seq::empty(), first),
{
    let holds = |a: Valuation| all_satisfied(clauses, Seq::empty(), a);
    assert forall|a: Valuation| holds(a) implies #[trigger] has_model_like(clauses, a, first) by {
        assert(agree_below(a, a, first));
    }
}

/// The encoding of one more constraint is added at the end.
proof fn lemma_formula_step(
    f: Formula,
    g: Formula,
    clauses: Seq<Seq<Lit>>,
    linears: Seq<LinearView>,
    c: LinearView,
    more: Seq<Seq<Lit>>,
    first: int,
)
    requires
        formula_of(f, clauses, linears, first),
        encodes(c, more, f.next as int, g.next as int),
        clause_views(g.cnf@) == clause_views(f.cnf@) + more,
    ensures
        formula_of(g, clauses, linears.push(c), first),
{
    let all = linears.push(c);
    assert(clauses.is_prefix_of(clause_views(g.cnf@))) by {
        assert(clause_views(g.cnf@).subrange(0, clauses.len() as int) =~= clause_views(
            f.cnf@,
        ).subrange(0, clauses.len() as int));
    }
    if all_below(clauses, all, first) && g.next <= MAX_VAR_IDX + 1 {
        assert(all[linears.len() as int] == c);
        assert forall|i: int| 0 <= i < linears.len() implies (#[trigger] linears[i]).below(
            first,
        ) by {
            assert(all[i] == linears[i]);
        }
        assert(c.below(first));
        lemma_one_more(
            clauses,
            linears,
            c,
            clause_views(f.cnf@),
            more,
            first,
            f.next as int,
            g.next as int,
        );
    }
}

/// The views of cardinality constraints.
pub open spec fn card_views(cards: Seq<Cardinality>) -> Seq<LinearView> {
    cards.map_values(|c: Cardinality| c@)
}

/// The views of pseudo-boolean constraints.
pub open spec fn pb_views(pbs: Seq<PseudoBoolean>) -> Seq<LinearView> {
    pbs.map_values(|p: PseudoBoolean| p@)
}

/// The numbers of variables that encoding constraints takes, in order.
pub open spec fn needs(cards: Seq<LinearView>, pbs: Seq<LinearView>) -> Seq<nat> {
    cards.map_values(|c: LinearView| card_vars(c)) + pbs.map_values(
        |c: LinearView| c.vars_needed(),
    )
}

/// The sum of numbers.
pub open spec fn sum_of(numbers: Seq<nat>) -> nat
    decreases numbers.len(),
{
    if numbers.len() == 0 {
        0
    } else {
        sum_of(numbers.drop_last()) + numbers.last()
    }
}

/// Whether encoding constraints runs out of variables: those before the last one
/// need more than there are from `next` on.
pub open spec fn runs_out(needs: Seq<nat>, next: int) -> bool {
    needs.len() > 0 && next + sum_of(needs.drop_last()) > MAX_VAR_IDX + 1
}

/// The first numbers sum up to no more than all of them.
proof fn lemma_sum_prefix(numbers: Seq<nat>, k: int)
    requires
        0 <= k <= numbers.len(),
    ensures
        sum_of(numbers.take(k)) <= sum_of(numbers),
    decreases numbers.len(),
{
    if k == numbers.len() {
        assert(numbers.take(k) =~= numbers);
    } else {
        lemma_sum_prefix(numbers.drop_last(), k);
        assert(numbers.drop_last().take(k) =~= numbers.take(k));
    }
}

proof fn lemma_runs_out(numbers: Seq<nat>, k: int, next: int)
    requires
        0 <= k < numbers.len(),
        next + sum_of(numbers.take(k)) > MAX_VAR_IDX + 1,
    ensures
        runs_out(numbers, next),
{
    lemma_sum_prefix(numbers.drop_last(), k);
    assert(numbers.drop_last().take(k) =~= numbers.take(k));
}

/// Adds the encodings of cardinality and pseudo-boolean constraints to clauses,
/// in this order. Gives nothing exactly if no variables are left for a
/// constraint after those before it.
pub fn encode_all(
    clauses: Vec<Clause>,
    next: u32,
    cards: &Vec<Cardinality>,
    pbs: &Vec<PseudoBoolean>,
) -> (r: Option<Formula>)
    requires
        forall|i: int| 0 <= i < pbs@.len() ==> (#[trigger] pbs@[i])@.supported(),
    ensures
        r is None <==> runs_out(needs(card_views(cards@), pb_views(pbs@)), next as int),
        r matches Some(f) ==> {
            &&& formula_of(
                f,
                clause_views(clauses@),
                card_views(cards@) + pb_views(pbs@),
                next as int,
            )
            &&& f.next == next + sum_of(needs(card_views(cards@), pb_views(pbs@)))
        },
{
    let ghost given = clause_views(clauses@);
    let ghost all = needs(card_views(cards@), pb_views(pbs@));
    let mut f = Formula { cnf: clauses, next };
    let ghost mut done: Seq<LinearView> = Seq::empty();
    proof {
        lemma_clauses_only(f, given, next as int);
        assert(all.take(0) =~= Seq::empty());
    }
    for i in 0..cards.len()
        invariant
            all == needs(card_views(cards@), pb_views(pbs@)),
            done == card_views(cards@).take(i as int),
            f.next == next + sum_of(all.take(i as int)),
            i > 0 ==> next + sum_of(all.take(i - 1)) <= MAX_VAR_IDX + 1,
            formula_of(f, given, done, next as int),
    {
        if f.next > MAX_VAR_IDX + 1 {
            proof {
                lemma_runs_out(all, i as int, next as int);
            }
            return None;
        }
        let ghost before = f;
        let (mut more, new_next) = encode_card(&cards[i], f.next);
        let ghost added = clause_views(more@);
        f.cnf.append(&mut more);
        f.next = new_next;
        proof {
            assert(clause_views(f.cnf@) =~= clause_views(before.cnf@) + added);
            lemma_formula_step(before, f, given, done, cards@[i as int]@, added, next as int);
            done = done.push(cards@[i as int]@);
            assert(done =~= card_views(cards@).take(i + 1));
            assert(all.take(i + 1).drop_last() =~= all.take(i as int));
            assert(all[i as int] == card_vars(cards@[i as int]@));
        }
    }
    let ghost n = cards@.len() as int;
    assert(done =~= card_views(cards@) + pb_views(pbs@).take(0));
    for i in 0..pbs.len()
        invariant
            n == cards@.len(),
            all == needs(card_views(cards@), pb_views(pbs@)),
            forall|k: int| 0 <= k < pbs@.len() ==> (#[trigger] pbs@[k])@.supported(),
            done == card_views(cards@) + pb_views(pbs@).take(i as int),
            f.next == next + sum_of(all.take(n + i)),
            n + i > 0 ==> next + sum_of(all.take(n + i - 1)) <= MAX_VAR_IDX + 1,
            formula_of(f, given, done, next as int),
    {
        if f.next > MAX_VAR_IDX + 1 {
            proof {
                lemma_runs_out(all, n + i, next as int);
            }
            return None;
        }
        let ghost before = f;
        assert(pbs@[i as int]@.supported());
        let (mut more, new_next) = pbs[i].encode(f.next);
        let ghost added = clause_views(more@);
        f.cnf.append(&mut more);
        f.next = new_next;
        proof {
            assert(clause_views(f.cnf@) =~= clause_views(before.cnf@) + added);
            lemma_formula_step(before, f, given, done, pbs@[i as int]@, added, next as int);
            done = done.push(pbs@[i as int]@);
            assert(done =~= card_views(cards@) + pb_views(pbs@).take(i + 1));
            assert(all.take(n + i + 1).drop_last() =~= all.take(n + i));
            assert(all[n + i] == pbs@[i as int]@.vars_needed());
        }
    }
    proof {
        assert(done =~= card_views(cards@) + pb_views(pbs@));
        assert(all.take(all.len() as int) =~= all);
        if all.len() > 0 {
            assert(all.take(all.len() - 1) =~= all.drop_last());
        }
    }
    Some(f)
}

} // verus!
