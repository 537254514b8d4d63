//! Which linear constraints can be encoded, said of the constraints.
use vstd::prelude::*;

use crate::linear::{
    all_below, all_satisfied, card_vars, card_views, clauses_say, encode_all, has_model_like,
    law_simplifying_keeps_meaning, needs, pb_views, sum_of, Cardinality, Formula, LinearView,
    PseudoBoolean, Relation,
};
use crate::merging::{lemma_merged, lemma_weight_at_most_total};
use crate::semantics::{agree_below, cnf_holds, weight_total, weight_under, Valuation};
use crate::types::{clause_views, Clause, Lit, MAX_VAR_IDX};

verus! {

/// A constraint is accepted if its weights sum up to at most the largest signed
/// number, unless it is an equality whose literals all have the same weight and
/// whose bound is within reach and no multiple of that weight. How many literals
/// there are, how often they repeat and what the bound is makes no difference
/// beyond that.
pub proof fn law_small_constraints_are_accepted(c: &PseudoBoolean, b: bool)
    requires
        call_ensures(PseudoBoolean::can_encode, (c,), b),
        weight_total(c.entries@) <= isize::MAX,
        forall|w: usize|
            c.relation is Exactly && w > 0 && 0 <= c.bound <= weight_total(c.entries@)
                && c.entries@.len() > 0 && (forall|i: int|
                0 <= i < c.entries@.len() ==> (#[trigger] c.entries@[i]).1 == w)
                ==> #[trigger] (c.bound as int % w as int) == 0,
    ensures
        b,
{
    if c@.indivisible() {
        let w = c.entries@[0].1;
        assert(c.bound as int % w as int == 0);
    }
    lemma_small_is_supported(c@);
}

/// Nothing is out of range if the weights sum up to at most the largest signed
/// number.
pub proof fn lemma_small_is_supported(v: LinearView)
    requires
        weight_total(v.entries) <= isize::MAX,
        !v.indivisible(),
    ensures
        v.supported(),
{
    lemma_total_not_negative(v.entries);
    law_simplifying_keeps_meaning(v, Set::empty());
    lemma_merged(v.entries, Set::empty());
    let s = v.simple();
    assert forall|i: int| 0 <= i < s.entries.len() implies (#[trigger] s.entries[i]).1
        <= isize::MAX by {
        lemma_weight_at_most_total(s.entries, i);
    }
    assert forall|ub: int| ub < weight_total(s.entries) implies !#[trigger] s.too_large(ub) by {}
}

/// A weight in total is never negative.
proof fn lemma_total_not_negative(entries: Seq<(Lit, usize)>)
    ensures
        weight_total(entries) >= 0,
    decreases entries.len(),
{
    if entries.len() > 0 {
        lemma_total_not_negative(entries.drop_last());
    }
}

/// A constraint is only refused for one of two reasons: it is an equality whose
/// literals share a weight that does not divide the bound, or its weights sum up
/// to more than the largest signed number.
pub proof fn law_refusal_has_a_reason(c: &PseudoBoolean, b: bool)
    requires
        call_ensures(PseudoBoolean::can_encode, (c,), b),
    ensures
        !b ==> weight_total(c.entries@) > isize::MAX || {
            &&& c.relation is Exactly
            &&& c.entries@.len() > 0
            &&& forall|i: int|
                0 <= i < c.entries@.len() ==> (#[trigger] c.entries@[i]).1 == c.entries@[0].1
            &&& c.entries@[0].1 > 0
            &&& c.bound as int % c.entries@[0].1 as int != 0
            &&& 0 <= c.bound <= weight_total(c.entries@)
        },
{
    if !b && weight_total(c.entries@) <= isize::MAX {
        if !c@.indivisible() {
            assert forall|w: usize|
                c.relation is Exactly && w > 0 && 0 <= c.bound <= weight_total(c.entries@)
                    && c.entries@.len() > 0 && (forall|i: int|
                    0 <= i < c.entries@.len() ==> (#[trigger] c.entries@[i]).1 == w) implies
                #[trigger] (c.bound as int % w as int) == 0 by {
                assert(c.entries@[0].1 == w);
            }
            law_small_constraints_are_accepted(c, b);
        }
    }
}

/// An accepted constraint is none of those that cannot be encoded: its weights
/// sum up to at most the largest number, and an equality over literals of one
/// positive weight has a bound that the weight divides, if it is within reach.
pub proof fn law_acceptance_is_deserved(c: &PseudoBoolean, b: bool)
    requires
        call_ensures(PseudoBoolean::can_encode, (c,), b),
        b,
    ensures
        weight_total(c.entries@) <= usize::MAX,
        forall|w: usize|
            c.relation is Exactly && w > 0 && 0 <= c.bound <= weight_total(c.entries@)
                && c.entries@.len() > 0 && (forall|i: int|
                0 <= i < c.entries@.len() ==> (#[trigger] c.entries@[i]).1 == w)
                ==> #[trigger] (c.bound as int % w as int) == 0,
{
    assert forall|w: usize|
        c.relation is Exactly && w > 0 && 0 <= c.bound <= weight_total(c.entries@)
            && c.entries@.len() > 0 && (forall|i: int|
            0 <= i < c.entries@.len() ==> (#[trigger] c.entries@[i]).1 == w) implies
        #[trigger] (c.bound as int % w as int) == 0 by {
        assert(c.entries@[0].1 == w);
        assert(c@.uniform());
    }
}

/// Simplifying a constraint keeps how it compares the weight, and the weight of
/// its true literals under every assignment, so long as sums are in range.
pub proof fn law_simplified_weighs_the_same(c: &PseudoBoolean, p: PseudoBoolean, a: Valuation)
    requires
        call_ensures(PseudoBoolean::simplified, (c,), p),
        weight_total(c.entries@) <= usize::MAX,
    ensures
        p.relation == c.relation,
        p.bound == c.bound,
        weight_under(p.entries@, a) == weight_under(c.entries@, a),
        weight_total(p.entries@) == weight_total(c.entries@),
        forall|i: int| 0 <= i < p.entries@.len() ==> (#[trigger] p.entries@[i]).1 > 0,
{
    law_simplifying_keeps_meaning(c@, a);
    lemma_merged(c.entries@, a);
}

/// Encoding constraints only fails for want of variables: those before the last
/// one need more than there are. Otherwise the given clauses come first, and the
/// variables that were taken are those that the constraints need.
pub proof fn law_constraints_are_encoded(
    clauses: Vec<Clause>,
    next: u32,
    cards: &Vec<Cardinality>,
    pbs: &Vec<PseudoBoolean>,
    r: Option<Formula>,
)
    requires
        call_ensures(encode_all, (clauses, next, cards, pbs), r),
    ensures
        r is None ==> next + sum_of(needs(card_views(cards@), pb_views(pbs@))) > MAX_VAR_IDX + 1,
        cards@.len() == 0 && pbs@.len() == 0 ==> r is Some,
        cards@.len() + pbs@.len() == 1 && next <= MAX_VAR_IDX + 1 ==> r is Some,
        r matches Some(f) ==> {
            &&& f.next == next + sum_of(needs(card_views(cards@), pb_views(pbs@)))
            &&& clause_views(clauses@).is_prefix_of(clause_views(f.cnf@))
            &&& cards@.len() == 0 && pbs@.len() == 0 ==> clause_views(f.cnf@) == clause_views(
                clauses@,
            )
        },
{
    let all = needs(card_views(cards@), pb_views(pbs@));
    assert(all.len() == cards@.len() + pbs@.len());
    if all.len() == 1 {
        assert(all.drop_last() =~= Seq::empty());
    }
}

/// The numbers of variables that constraints need are those of the cardinality
/// constraints and then those of the pseudo-boolean ones, and their sum is that of
/// all of them.
pub proof fn law_needs_add_up(
    cards: Seq<LinearView>,
    pbs: Seq<LinearView>,
    numbers: Seq<nat>,
    n: nat,
)
    ensures
        needs(cards, pbs).len() == cards.len() + pbs.len(),
        forall|i: int|
            0 <= i < cards.len() ==> #[trigger] needs(cards, pbs)[i] == card_vars(cards[i]),
        sum_of(numbers.push(n)) == sum_of(numbers) + n,
        sum_of(Seq::empty()) == 0,
{
    assert(numbers.push(n).drop_last() =~= numbers);
}

/// The clauses that constraints are encoded as have the same solutions as the
/// constraints. No variable that the constraints use may count as free, and there
/// have to be enough variables.
pub proof fn law_encoded_constraints_keep_solutions(
    clauses: Vec<Clause>,
    next: u32,
    cards: &Vec<Cardinality>,
    pbs: &Vec<PseudoBoolean>,
    r: Option<Formula>,
    a: Valuation,
)
    requires
        call_ensures(encode_all, (clauses, next, cards, pbs), r),
        r is Some,
        r->0.next <= MAX_VAR_IDX + 1,
        all_below(clause_views(clauses@), card_views(cards@) + pb_views(pbs@), next as int),
    ensures
        cnf_holds(a, clause_views(r->0.cnf@)) ==> {
            &&& cnf_holds(a, clause_views(clauses@))
            &&& forall|i: int| 0 <= i < cards@.len() ==> meets(a, (#[trigger] cards@[i])@)
            &&& forall|i: int| 0 <= i < pbs@.len() ==> meets(a, (#[trigger] pbs@[i])@)
        },
        cnf_holds(a, clause_views(clauses@)) && (forall|i: int|
            0 <= i < cards@.len() ==> meets(a, (#[trigger] cards@[i])@)) && (forall|i: int|
            0 <= i < pbs@.len() ==> meets(a, (#[trigger] pbs@[i])@)) ==> exists|b: Valuation|
            {
                &&& #[trigger] cnf_holds(b, clause_views(r->0.cnf@))
                &&& forall|v: int| 0 <= v < next ==> (#[trigger] a.contains(v) <==> b.contains(v))
            },
{
    let f = r->0;
    let given = clause_views(clauses@);
    let linears = card_views(cards@) + pb_views(pbs@);
    let n = cards@.len() as int;
    let holds = |v: Valuation| all_satisfied(given, linears, v);
    assert(clauses_say(clause_views(f.cnf@), holds, next as int));
    if cnf_holds(a, clause_views(f.cnf@)) {
        assert(holds(a));
        assert forall|i: int| 0 <= i < cards@.len() implies meets(a, (#[trigger] cards@[i])@) by {
            assert(linears[i] == cards@[i]@);
            assert(linears[i].holds(a));
        }
        assert forall|i: int| 0 <= i < pbs@.len() implies meets(a, (#[trigger] pbs@[i])@) by {
            assert(linears[n + i] == pbs@[i]@);
            assert(linears[n + i].holds(a));
        }
    }
    if cnf_holds(a, given) && (forall|i: int|
        0 <= i < cards@.len() ==> meets(a, (#[trigger] cards@[i])@)) && (forall|i: int|
        0 <= i < pbs@.len() ==> meets(a, (#[trigger] pbs@[i])@)) {
        assert forall|i: int| 0 <= i < linears.len() implies (#[trigger] linears[i]).holds(a) by {
            if i < n {
                assert(meets(a, cards@[i]@));
            } else {
                assert(meets(a, pbs@[i - n]@));
            }
        }
        assert(holds(a));
        assert(has_model_like(clause_views(f.cnf@), a, next as int));
        let b = choose|b: Valuation| #[trigger]
            agree_below(a, b, next as int) && cnf_holds(b, clause_views(f.cnf@));
        assert(cnf_holds(b, clause_views(f.cnf@)));
    }
}

/// Whether an assignment meets a linear constraint.
pub open spec fn meets(a: Valuation, c: LinearView) -> bool {
    match c.relation {
        Relation::AtMost => weight_under(c.entries, a) <= c.bound,
        Relation::AtLeast => weight_under(c.entries, a) >= c.bound,
        Relation::Exactly => weight_under(c.entries, a) == c.bound,
    }
}

/// What constraints say: a cardinality constraint counts its literals, and a
/// pseudo-boolean one weighs them.
pub proof fn law_constraint_contents(card: &Cardinality, pb: &PseudoBoolean)
    ensures
        card@.relation == card.relation,
        card@.bound == card.bound,
        card@.entries.len() == card.lits@.len(),
        forall|i: int|
            0 <= i < card.lits@.len() ==> #[trigger] card@.entries[i] == (card.lits@[i], 1usize),
        pb@.relation == pb.relation,
        pb@.bound == pb.bound,
        pb@.entries == pb.entries@,
{
}

} // verus!
