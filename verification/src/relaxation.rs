//! What turning soft clauses into literals means.
use vstd::prelude::*;

use crate::config::Options;
use crate::encoding::lemma_collected_lits;
use crate::instance::{
    constraints_below, instance_objectives, instance_satisfied, parts_of, reads, Instance,
    InstanceParts,
};
use crate::kernel::{
    absorb_all, absorb_start, lemma_absorb_all_next, set_up, OracleSetup, SolverKernel,
};
use crate::linear::{clauses_say, has_model_like};
use crate::objective::{
    absorb_clause, absorb_clauses, collect_weights, distinct_lits, lemma_absorb_len,
    lemma_absorb_next, lemma_collect, stands_for, Absorbed, Objective, SoftObjective,
};
use crate::semantics::{
    agree_below, clause_holds, cnf_below, cnf_holds, lemma_clause_agree, lemma_clause_push, lemma_cnf_agree,
    lit_holds, lits_below, weight_under, Valuation,
};
use crate::types::{
    clause_views, lemma_flipped, lemma_lit_of_parts, lemma_over, Clause, Lit, MAX_VAR_IDX,
};

verus! {

/// Whether the soft clauses of some objectives use variables below `bound`
/// only.
pub open spec fn softs_below(softs: Seq<SoftObjective>, bound: int) -> bool {
    forall|i: int, k: int|
        0 <= i < softs.len() && 0 <= k < softs[i].clauses().len() ==> lits_below(
            #[trigger] softs[i].clauses()[k],
            bound,
        )
}

/// The literal that stands for a clause once it is absorbed.
spec fn lit_for(st: Absorbed, cl: Seq<Lit>) -> Lit {
    if cl.len() == 1 {
        cl[0].flipped()
    } else {
        st.blits[cl]
    }
}

/// A literal can stand for the clause.
spec fn known(st: Absorbed, cl: Seq<Lit>) -> bool {
    cl.len() == 1 || st.blits.contains_key(cl)
}

/// Blocking literals are new variables, different clauses have different ones,
/// and the formula consists of the relaxed clauses.
spec fn inv(st: Absorbed, start: int) -> bool {
    &&& 0 <= start <= st.next <= MAX_VAR_IDX + 1
    &&& forall|cl: Seq<Lit>| #[trigger]
        st.blits.contains_key(cl) ==> {
            &&& cl.len() != 1
            &&& lits_below(cl, start)
            &&& !st.blits[cl].neg()
            &&& start <= st.blits[cl].var() < st.next
            &&& st.cnf.contains(cl.push(st.blits[cl]))
        }
    &&& forall|c1: Seq<Lit>, c2: Seq<Lit>| #[trigger]
        st.blits.contains_key(c1) && #[trigger] st.blits.contains_key(c2) && st.blits[c1]
            == st.blits[c2] ==> c1 == c2
    &&& forall|i: int|
        0 <= i < st.cnf.len() ==> exists|cl: Seq<Lit>| #[trigger]
            st.blits.contains_key(cl) && #[trigger] st.cnf[i] == cl.push(st.blits[cl])
}

/// Nothing that was known has changed.
spec fn grows(st: Absorbed, end: Absorbed) -> bool {
    forall|cl: Seq<Lit>| #[trigger]
        st.blits.contains_key(cl) ==> end.blits.contains_key(cl) && end.blits[cl] == st.blits[cl]
}

proof fn lemma_step(st: Absorbed, start: int, cl: Seq<Lit>)
    requires
        inv(st, start),
        lits_below(cl, start),
        absorb_clause(st, cl).1.next <= MAX_VAR_IDX + 1,
    ensures
        inv(absorb_clause(st, cl).1, start),
        grows(st, absorb_clause(st, cl).1),
        known(absorb_clause(st, cl).1, cl),
        absorb_clause(st, cl).0 == lit_for(absorb_clause(st, cl).1, cl),
{
    if cl.len() != 1 && !st.blits.contains_key(cl) {
        let end = absorb_clause(st, cl).1;
        let blit = Lit::over(st.next, false);
        lemma_over(st.next, false);
        let last = st.cnf.len() as int;
        assert(end.cnf[last] == cl.push(blit));
        assert forall|c: Seq<Lit>| #[trigger] end.blits.contains_key(c) implies {
            &&& c.len() != 1
            &&& lits_below(c, start)
            &&& !end.blits[c].neg()
            &&& start <= end.blits[c].var() < end.next
            &&& end.cnf.contains(c.push(end.blits[c]))
        } by {
            if c == cl {
                assert(end.cnf.contains(cl.push(blit)));
            } else {
                assert(st.blits.contains_key(c));
                let relaxed = c.push(st.blits[c]);
                let i = choose|i: int| 0 <= i < st.cnf.len() && st.cnf[i] == relaxed;
                assert(end.cnf[i] == relaxed);
            }
        }
        assert forall|i: int| 0 <= i < end.cnf.len() implies exists|c: Seq<Lit>| #[trigger]
            end.blits.contains_key(c) && #[trigger] end.cnf[i] == c.push(end.blits[c]) by {
            if i == last {
                assert(end.blits.contains_key(cl));
            } else {
                assert(end.cnf[i] == st.cnf[i]);
                let c = choose|c: Seq<Lit>| #[trigger]
                    st.blits.contains_key(c) && st.cnf[i] == c.push(st.blits[c]);
                assert(end.blits.contains_key(c));
            }
        }
        assert forall|c1: Seq<Lit>, c2: Seq<Lit>| #[trigger]
            end.blits.contains_key(c1) && #[trigger] end.blits.contains_key(c2) && end.blits[c1]
                == end.blits[c2] implies c1 == c2 by {
            if c1 != cl {
                assert(st.blits.contains_key(c1));
            }
            if c2 != cl {
                assert(st.blits.contains_key(c2));
            }
        }
    }
}

proof fn lemma_steps(st: Absorbed, start: int, cls: Seq<Seq<Lit>>)
    requires
        inv(st, start),
        forall|k: int| 0 <= k < cls.len() ==> lits_below(#[trigger] cls[k], start),
        absorb_clauses(st, cls).1.next <= MAX_VAR_IDX + 1,
    ensures
        inv(absorb_clauses(st, cls).1, start),
        grows(st, absorb_clauses(st, cls).1),
        absorb_clauses(st, cls).0.len() == cls.len(),
        forall|k: int|
            0 <= k < cls.len() ==> known(absorb_clauses(st, cls).1, #[trigger] cls[k])
                && absorb_clauses(st, cls).0[k] == lit_for(absorb_clauses(st, cls).1, cls[k]),
    decreases cls.len(),
{
    lemma_absorb_len(st, cls);
    if cls.len() > 0 {
        let init = cls.drop_last();
        let n = init.len() as int;
        lemma_absorb_next(st, cls, n);
        assert(cls.take(n) =~= init);
        assert forall|k: int| 0 <= k < init.len() implies lits_below(#[trigger] init[k], start) by {
            assert(init[k] == cls[k]);
        }
        lemma_steps(st, start, init);
        let mid = absorb_clauses(st, init).1;
        let end = absorb_clauses(st, cls).1;
        assert(cls[n] == cls.last());
        lemma_step(mid, start, cls.last());
        assert forall|k: int| 0 <= k < cls.len() implies known(end, #[trigger] cls[k])
            && absorb_clauses(st, cls).0[k] == lit_for(end, cls[k]) by {
            if k < n {
                assert(init[k] == cls[k]);
                assert(known(mid, init[k]));
            }
        }
    }
}

proof fn lemma_all_steps(st: Absorbed, start: int, softs: Seq<SoftObjective>)
    requires
        inv(st, start),
        softs_below(softs, start),
        absorb_all(st, softs).1.next <= MAX_VAR_IDX + 1,
    ensures
        inv(absorb_all(st, softs).1, start),
        grows(st, absorb_all(st, softs).1),
        absorb_all(st, softs).0.len() == softs.len(),
        forall|i: int|
            0 <= i < softs.len() ==> (#[trigger] absorb_all(st, softs).0[i]).len()
                == softs[i].clauses().len(),
        forall|i: int, k: int|
            0 <= i < softs.len() && 0 <= k < softs[i].clauses().len() ==> known(
                absorb_all(st, softs).1,
                #[trigger] softs[i].clauses()[k],
            ) && absorb_all(st, softs).0[i][k] == lit_for(
                absorb_all(st, softs).1,
                softs[i].clauses()[k],
            ),
    decreases softs.len(),
{
    lemma_absorb_all_next(st, softs, softs.len() as int);
    if softs.len() > 0 {
        let init = softs.drop_last();
        let n = init.len() as int;
        lemma_absorb_all_next(st, softs, n);
        assert(softs.take(n) =~= init);
        assert(softs[n] == softs.last());
        assert forall|i: int, k: int|
            0 <= i < init.len() && 0 <= k < init[i].clauses().len() implies lits_below(
            #[trigger] init[i].clauses()[k],
            start,
        ) by {
            assert(lits_below(softs[i].clauses()[k], start));
        }
        lemma_all_steps(st, start, init);
        let (done, mid) = absorb_all(st, init);
        let (all, end) = absorb_all(st, softs);
        let cls = softs.last().clauses();
        assert forall|k: int| 0 <= k < cls.len() implies lits_below(#[trigger] cls[k], start) by {
            assert(lits_below(softs[n].clauses()[k], start));
        }
        lemma_steps(mid, start, cls);
        assert forall|i: int| 0 <= i < softs.len() implies (#[trigger] all[i]).len()
            == softs[i].clauses().len() by {
            if i < n {
                assert(all[i] == done[i]);
            }
        }
        assert forall|i: int, k: int|
            0 <= i < softs.len() && 0 <= k < softs[i].clauses().len() implies known(
            end,
            #[trigger] softs[i].clauses()[k],
        ) && all[i][k] == lit_for(end, softs[i].clauses()[k]) by {
            if i < n {
                assert(all[i] == done[i]);
                assert(init[i] == softs[i]);
                assert(known(mid, init[i].clauses()[k]));
            } else {
                assert(known(end, cls[k]));
            }
        }
    }
}

proof fn lemma_from_start(next: int, softs: Seq<SoftObjective>)
    requires
        0 <= next,
        softs_below(softs, next),
        absorb_all(absorb_start(next), softs).1.next <= MAX_VAR_IDX + 1,
    ensures
        inv(absorb_all(absorb_start(next), softs).1, next),
        absorb_all(absorb_start(next), softs).0.len() == softs.len(),
        forall|i: int|
            0 <= i < softs.len() ==> (#[trigger] absorb_all(absorb_start(next), softs).0[i]).len()
                == softs[i].clauses().len(),
        forall|i: int, k: int|
            0 <= i < softs.len() && 0 <= k < softs[i].clauses().len() ==> known(
                absorb_all(absorb_start(next), softs).1,
                #[trigger] softs[i].clauses()[k],
            ) && absorb_all(absorb_start(next), softs).0[i][k] == lit_for(
                absorb_all(absorb_start(next), softs).1,
                softs[i].clauses()[k],
            ),
{
    lemma_absorb_all_next(absorb_start(next), softs, 0);
    lemma_all_steps(absorb_start(next), next, softs);
}

/// Soft clauses have the same literal exactly if they are the same, also in
/// different objectives.
pub proof fn law_same_clause_same_literal(
    next: int,
    softs: Seq<SoftObjective>,
    i: int,
    k: int,
    j: int,
    m: int,
)
    requires
        0 <= next,
        softs_below(softs, next),
        absorb_all(absorb_start(next), softs).1.next <= MAX_VAR_IDX + 1,
        0 <= i < softs.len(),
        0 <= k < softs[i].clauses().len(),
        0 <= j < softs.len(),
        0 <= m < softs[j].clauses().len(),
    ensures
        absorb_all(absorb_start(next), softs).0[i][k] == absorb_all(
            absorb_start(next),
            softs,
        ).0[j][m] <==> softs[i].clauses()[k] == softs[j].clauses()[m],
{
    lemma_from_start(next, softs);
    let end = absorb_all(absorb_start(next), softs).1;
    let c1 = softs[i].clauses()[k];
    let c2 = softs[j].clauses()[m];
    assert(known(end, c1) && known(end, c2));
    assert(lits_below(c1, next) && lits_below(c2, next));
    if c1.len() == 1 {
        lemma_flipped(c1[0]);
    }
    if c2.len() == 1 {
        lemma_flipped(c2[0]);
    }
    if c1.len() == 1 && c2.len() == 1 && c1[0] == c2[0] {
        assert(c1 =~= c2);
    }
}

/// Where the relaxed clauses hold, the literal of a soft clause that is not
/// satisfied is true.
pub proof fn law_violated_clause_sets_literal(
    next: int,
    softs: Seq<SoftObjective>,
    a: Valuation,
    i: int,
    k: int,
)
    requires
        0 <= next,
        softs_below(softs, next),
        absorb_all(absorb_start(next), softs).1.next <= MAX_VAR_IDX + 1,
        cnf_holds(a, absorb_all(absorb_start(next), softs).1.cnf),
        0 <= i < softs.len(),
        0 <= k < softs[i].clauses().len(),
        !clause_holds(a, softs[i].clauses()[k]),
    ensures
        lit_holds(a, absorb_all(absorb_start(next), softs).0[i][k]),
{
    lemma_from_start(next, softs);
    let end = absorb_all(absorb_start(next), softs).1;
    let cl = softs[i].clauses()[k];
    assert(known(end, cl));
    if cl.len() == 1 {
        lemma_flipped(cl[0]);
        assert(!lit_holds(a, cl[0]));
    } else {
        let relaxed = cl.push(end.blits[cl]);
        let r = choose|r: int| 0 <= r < end.cnf.len() && end.cnf[r] == relaxed;
        assert(clause_holds(a, end.cnf[r]));
        lemma_clause_push(a, cl, end.blits[cl]);
    }
}

/// Every assignment can be extended such that the relaxed clauses hold and
/// exactly the literals of the soft clauses that are not satisfied are true.
pub proof fn law_relaxing_keeps_assignments(next: int, softs: Seq<SoftObjective>, a: Valuation)
    requires
        0 <= next,
        softs_below(softs, next),
        absorb_all(absorb_start(next), softs).1.next <= MAX_VAR_IDX + 1,
    ensures
        exists|b: Valuation| #[trigger]
            agree_below(a, b, next) && {
                &&& cnf_holds(b, absorb_all(absorb_start(next), softs).1.cnf)
                &&& forall|i: int, k: int|
                    0 <= i < softs.len() && 0 <= k < softs[i].clauses().len() ==> lit_holds(
                        b,
                        absorb_all(absorb_start(next), softs).0[i][k],
                    ) == !clause_holds(a, #[trigger] softs[i].clauses()[k])
            },
{
    lemma_from_start(next, softs);
    let (lits, end) = absorb_all(absorb_start(next), softs);
    let b = Set::new(
        |v: int|
            if v < next {
                a.contains(v)
            } else {
                exists|cl: Seq<Lit>| #[trigger]
                    end.blits.contains_key(cl) && end.blits[cl].var() == v && !clause_holds(a, cl)
            },
    );
    assert(agree_below(a, b, next));
    // A blocking literal is true exactly if its clause is not satisfied
    assert forall|cl: Seq<Lit>| #[trigger] end.blits.contains_key(cl) implies lit_holds(
        b,
        end.blits[cl],
    ) == !clause_holds(a, cl) && clause_holds(a, cl) == clause_holds(b, cl) by {
        let v = end.blits[cl].var();
        if exists|c: Seq<Lit>| #[trigger]
            end.blits.contains_key(c) && end.blits[c].var() == v && !clause_holds(a, c) {
            let c = choose|c: Seq<Lit>| #[trigger]
                end.blits.contains_key(c) && end.blits[c].var() == v && !clause_holds(a, c);
            lemma_lit_of_parts(end.blits[c]);
            lemma_lit_of_parts(end.blits[cl]);
            assert(c == cl);
        }
        lemma_clause_agree(a, b, next, cl);
    }
    assert forall|r: int| 0 <= r < end.cnf.len() implies clause_holds(b, #[trigger] end.cnf[r]) by {
        let cl = choose|cl: Seq<Lit>| #[trigger]
            end.blits.contains_key(cl) && end.cnf[r] == cl.push(end.blits[cl]);
        lemma_clause_push(b, cl, end.blits[cl]);
    }
    assert forall|i: int, k: int|
        0 <= i < softs.len() && 0 <= k < softs[i].clauses().len() implies lit_holds(b, lits[i][k])
        == !clause_holds(a, #[trigger] softs[i].clauses()[k]) by {
        let cl = softs[i].clauses()[k];
        assert(known(end, cl));
        assert(lits_below(cl, next));
        if cl.len() == 1 {
            lemma_flipped(cl[0]);
            assert(lit_holds(a, cl[0]) == lit_holds(b, cl[0]));
            assert(clause_holds(a, cl) == lit_holds(a, cl[0]));
        }
    }
}

/// The sum of the weights of the clauses that are not satisfied.
pub open spec fn violated_weight(softs: Seq<(Seq<Lit>, usize)>, a: Valuation) -> int
    decreases softs.len(),
{
    if softs.len() == 0 {
        0
    } else {
        violated_weight(softs.drop_last(), a) + if clause_holds(a, softs.last().0) {
            0
        } else {
            softs.last().1 as int
        }
    }
}

/// Literals that are true exactly if clauses are not satisfied weigh what the
/// clauses do, and literals that are true at least then weigh no less.
proof fn lemma_weights_match(
    pairs: Seq<(Lit, usize)>,
    softs: Seq<(Seq<Lit>, usize)>,
    unit: int,
    a: Valuation,
    b: Valuation,
)
    requires
        pairs.len() == softs.len(),
        0 <= unit,
        forall|k: int|
            0 <= k < softs.len() ==> (#[trigger] pairs[k]).1 * unit == softs[k].1 && (clause_holds(
                a,
                softs[k].0,
            ) || lit_holds(b, pairs[k].0)),
    ensures
        weight_under(pairs, b) * unit >= violated_weight(softs, a),
        (forall|k: int|
            0 <= k < softs.len() ==> lit_holds(b, (#[trigger] pairs[k]).0) == !clause_holds(
                a,
                softs[k].0,
            )) ==> weight_under(pairs, b) * unit == violated_weight(softs, a),
    decreases pairs.len(),
{
    if pairs.len() == 0 {
        assert(weight_under(pairs, b) * unit == 0) by (nonlinear_arith)
            requires
                weight_under(pairs, b) == 0,
        ;
    } else {
        let n = pairs.len() - 1;
        let init = pairs.drop_last();
        assert forall|k: int| 0 <= k < n implies #[trigger] init[k] == pairs[k] by {}
        lemma_weights_match(init, softs.drop_last(), unit, a, b);
        let rest = weight_under(init, b);
        let w = pairs[n].1 as int;
        assert((rest + w) * unit == rest * unit + w * unit) by (nonlinear_arith);
        if forall|k: int|
            0 <= k < softs.len() ==> lit_holds(b, (#[trigger] pairs[k]).0) == !clause_holds(
                a,
                softs[k].0,
            ) {
            assert(lit_holds(b, pairs[n].0) == !clause_holds(a, softs[n].0));
        }
    }
}

/// Which weighted literals an objective consists of.
proof fn lemma_entries_match(obj: Objective, soft: SoftObjective, lits: Seq<Lit>)
    requires
        stands_for(obj, soft, lits),
        lits.len() == soft.clauses().len(),
        soft is Weighted ==> lits.no_duplicates(),
    ensures
        obj.entries().len() == soft.softs().len(),
        obj.constant_part() == soft.constant_part(),
        0 <= obj.unit(),
        forall|k: int|
            0 <= k < lits.len() ==> (#[trigger] obj.entries()[k]).0 == lits[k]
                && obj.entries()[k].1 * obj.unit() == soft.softs()[k].1,
{
    if let SoftObjective::Weighted { softs, .. } = soft {
        let pairs = Seq::new(lits.len(), |i: int| (lits[i], softs@[i].1));
        lemma_collect(pairs);
        assert(distinct_lits(pairs));
        assert(obj.entries() == pairs);
    }
}

/// An objective costs what its soft clauses cost that are not satisfied plus
/// the constant part, if exactly the literals of these are true. The clauses of
/// a weighted objective have to be different from each other.
pub proof fn law_cost_of_violated(
    next: int,
    softs: Seq<SoftObjective>,
    i: int,
    obj: Objective,
    a: Valuation,
    b: Valuation,
)
    requires
        0 <= next,
        softs_below(softs, next),
        absorb_all(absorb_start(next), softs).1.next <= MAX_VAR_IDX + 1,
        0 <= i < softs.len(),
        stands_for(obj, softs[i], absorb_all(absorb_start(next), softs).0[i]),
        softs[i] is Weighted ==> softs[i].clauses().no_duplicates(),
        forall|k: int|
            0 <= k < softs[i].clauses().len() ==> lit_holds(
                b,
                absorb_all(absorb_start(next), softs).0[i][k],
            ) == !clause_holds(a, #[trigger] softs[i].clauses()[k]),
    ensures
        obj.external(weight_under(obj.entries(), b)) == softs[i].constant_part() + violated_weight(
            softs[i].softs(),
            a,
        ),
{
    let lits = absorb_all(absorb_start(next), softs).0[i];
    lemma_from_start(next, softs);
    lemma_distinct(next, softs, i);
    lemma_entries_match(obj, softs[i], lits);
    let entries = obj.entries();
    let given = softs[i].softs();
    assert forall|k: int| 0 <= k < given.len() implies lit_holds(b, (#[trigger] entries[k]).0)
        == !clause_holds(a, given[k].0) by {
        assert(softs[i].clauses()[k] == given[k].0);
    }
    lemma_weights_match(entries, given, obj.unit(), a, b);
}

/// Where the relaxed clauses hold, an objective costs no less than its soft
/// clauses that are not satisfied plus the constant part. The clauses of a
/// weighted objective have to be different from each other.
pub proof fn law_cost_at_least_violated(
    next: int,
    softs: Seq<SoftObjective>,
    i: int,
    obj: Objective,
    a: Valuation,
)
    requires
        0 <= next,
        softs_below(softs, next),
        absorb_all(absorb_start(next), softs).1.next <= MAX_VAR_IDX + 1,
        0 <= i < softs.len(),
        stands_for(obj, softs[i], absorb_all(absorb_start(next), softs).0[i]),
        softs[i] is Weighted ==> softs[i].clauses().no_duplicates(),
        cnf_holds(a, absorb_all(absorb_start(next), softs).1.cnf),
    ensures
        obj.external(weight_under(obj.entries(), a)) >= softs[i].constant_part() + violated_weight(
            softs[i].softs(),
            a,
        ),
{
    let lits = absorb_all(absorb_start(next), softs).0[i];
    lemma_from_start(next, softs);
    lemma_distinct(next, softs, i);
    lemma_entries_match(obj, softs[i], lits);
    let entries = obj.entries();
    let given = softs[i].softs();
    assert forall|k: int| 0 <= k < given.len() implies clause_holds(a, given[k].0) || lit_holds(
        a,
        (#[trigger] entries[k]).0,
    ) by {
        assert(softs[i].clauses()[k] == given[k].0);
        if !clause_holds(a, given[k].0) {
            law_violated_clause_sets_literal(next, softs, a, i, k);
        }
    }
    lemma_weights_match(entries, given, obj.unit(), a, a);
}

/// Different clauses have different literals.
proof fn lemma_distinct(next: int, softs: Seq<SoftObjective>, i: int)
    requires
        0 <= next,
        softs_below(softs, next),
        absorb_all(absorb_start(next), softs).1.next <= MAX_VAR_IDX + 1,
        0 <= i < softs.len(),
    ensures
        softs[i].clauses().no_duplicates() ==> absorb_all(
            absorb_start(next),
            softs,
        ).0[i].no_duplicates(),
{
    let lits = absorb_all(absorb_start(next), softs).0[i];
    lemma_from_start(next, softs);
    if softs[i].clauses().no_duplicates() {
        assert forall|k: int, m: int|
            0 <= k < lits.len() && 0 <= m < lits.len() && k != m implies lits[k] != lits[m] by {
            law_same_clause_same_literal(next, softs, i, k, i, m);
        }
    }
}

/// Soft clauses that are read from an instance use the variables that are in
/// use, and the clauses of a weighted objective differ.
proof fn lemma_read_softs(parts: InstanceParts, inst: Instance, first_free: nat)
    requires
        parts_of(parts, inst, first_free),
    ensures
        softs_below(parts.objs@, first_free as int),
        forall|i: int|
            0 <= i < parts.objs@.len() && (#[trigger] parts.objs@[i]) is Weighted
                ==> parts.objs@[i].clauses().no_duplicates(),
{
    let contents = instance_objectives(inst);
    let objs = parts.objs@;
    assert forall|i: int, k: int|
        0 <= i < objs.len() && 0 <= k < objs[i].clauses().len() implies lits_below(
        #[trigger] objs[i].clauses()[k],
        first_free as int,
    ) by {
        let cl = objs[i].clauses()[k];
        assert(reads(objs[i], contents[i]));
        assert(contents[i].has_soft(cl)) by {
            match objs[i] {
                SoftObjective::Weighted { softs, .. } => {
                    assert(softs@[k].0@ == cl);
                },
                SoftObjective::Unweighted { softs, .. } => {
                    let views = softs@.map_values(|c: Clause| c@);
                    assert(views[k] == cl);
                },
                SoftObjective::Constant { .. } => {},
            }
        }
        assert forall|j: int| 0 <= j < cl.len() implies (#[trigger] cl[j]).var() < first_free by {}
    }
    assert forall|i: int|
        0 <= i < objs.len() && (#[trigger] objs[i]) is Weighted implies objs[i].clauses()
        .no_duplicates() by {
        assert(reads(objs[i], contents[i]));
        if let SoftObjective::Weighted { softs, .. } = objs[i] {
            let cls = objs[i].clauses();
            assert forall|k: int, m: int|
                0 <= k < cls.len() && 0 <= m < cls.len() && k != m implies cls[k] != cls[m] by {
                assert(softs@[k].0@ == cls[k] && softs@[m].0@ == cls[m]);
            }
        }
    }
}

/// Assignments that agree on all variables of soft clauses violate the same.
proof fn lemma_violated_agree(
    softs: Seq<(Seq<Lit>, usize)>,
    a: Valuation,
    b: Valuation,
    bound: int,
)
    requires
        agree_below(a, b, bound),
        forall|k: int| 0 <= k < softs.len() ==> lits_below((#[trigger] softs[k]).0, bound),
    ensures
        violated_weight(softs, a) == violated_weight(softs, b),
    decreases softs.len(),
{
    if softs.len() > 0 {
        let n = softs.len() - 1;
        assert(softs[n] == softs.last());
        assert forall|k: int| 0 <= k < n implies lits_below(
            (#[trigger] softs.drop_last()[k]).0,
            bound,
        ) by {
            assert(softs.drop_last()[k] == softs[k]);
        }
        lemma_violated_agree(softs.drop_last(), a, b, bound);
        lemma_clause_agree(a, b, bound, softs.last().0);
    }
}

/// No solution of an instance is lost when it is set up: each can be extended
/// to satisfy all that the oracle is given, such that the objectives have the
/// costs of the soft clauses that the solution does not satisfy. No variable
/// that the constraints use may count as free.
pub proof fn law_setup_keeps_solutions<L, T>(
    inst: Instance,
    parts: InstanceParts,
    first_free: nat,
    kernel: SolverKernel<L, T>,
    setup: OracleSetup,
    opts: Options,
    a: Valuation,
)
    requires
        parts_of(parts, inst, first_free),
        constraints_below(inst, first_free as int),
        absorb_all(absorb_start(parts.next as int), parts.objs@).1.next <= MAX_VAR_IDX + 1,
        set_up(kernel, setup, parts.cnf, parts.next as int, parts.objs@, opts),
        instance_satisfied(inst, a),
    ensures
        exists|b: Valuation| #[trigger]
            agree_below(a, b, first_free as int) && {
                &&& cnf_holds(b, clause_views(setup.cnf@))
                &&& cnf_holds(b, clause_views(setup.obj_cnf@))
                &&& forall|i: int|
                    0 <= i < parts.objs@.len() ==> (#[trigger] kernel.objs@[i]).external(
                        weight_under(kernel.objs@[i].entries(), b),
                    ) == parts.objs@[i].constant_part() + violated_weight(
                        parts.objs@[i].softs(),
                        a,
                    )
            },
{
    let softs = parts.objs@;
    let next = parts.next as int;
    let start = absorb_start(next);
    lemma_absorb_all_next(start, softs, 0);
    lemma_read_softs(parts, inst, first_free);
    assert(softs_below(softs, next)) by {
        assert forall|i: int, k: int|
            0 <= i < softs.len() && 0 <= k < softs[i].clauses().len() implies lits_below(
            #[trigger] softs[i].clauses()[k],
            next,
        ) by {
            assert(lits_below(softs[i].clauses()[k], first_free as int));
        }
    }
    let cnf = clause_views(parts.cnf@);
    let holds = |v: Valuation| instance_satisfied(inst, v);
    assert(clauses_say(cnf, holds, first_free as int));
    assert(holds(a));
    assert(has_model_like(cnf, a, first_free as int));
    let m = choose|m: Valuation| #[trigger]
        agree_below(a, m, first_free as int) && cnf_holds(m, cnf);
    law_relaxing_keeps_assignments(next, softs, m);
    let (lits, end) = absorb_all(start, softs);
    let b = choose|b: Valuation| #[trigger]
        agree_below(m, b, next) && {
            &&& cnf_holds(b, end.cnf)
            &&& forall|i: int, k: int|
                0 <= i < softs.len() && 0 <= k < softs[i].clauses().len() ==> lit_holds(
                    b,
                    lits[i][k],
                ) == !clause_holds(m, #[trigger] softs[i].clauses()[k])
        };
    lemma_cnf_agree(m, b, next, cnf);
    assert(agree_below(a, b, first_free as int));
    assert forall|i: int| 0 <= i < softs.len() implies (#[trigger] kernel.objs@[i]).external(
        weight_under(kernel.objs@[i].entries(), b),
    ) == softs[i].constant_part() + violated_weight(softs[i].softs(), a) by {
        assert(stands_for(kernel.objs@[i], softs[i], lits[i]));
        law_cost_of_violated(next, softs, i, kernel.objs@[i], m, b);
        assert forall|k: int| 0 <= k < softs[i].softs().len() implies lits_below(
            (#[trigger] softs[i].softs()[k]).0,
            first_free as int,
        ) by {
            assert(lits_below(softs[i].clauses()[k], first_free as int));
        }
        lemma_violated_agree(softs[i].softs(), a, m, first_free as int);
    }
}

/// Whatever satisfies all that the oracle is given is a solution of the
/// instance, and no objective costs less than the soft clauses that the
/// solution does not satisfy. No variable that the constraints use may count as
/// free.
pub proof fn law_setup_adds_no_solutions<L, T>(
    inst: Instance,
    parts: InstanceParts,
    first_free: nat,
    kernel: SolverKernel<L, T>,
    setup: OracleSetup,
    opts: Options,
    b: Valuation,
)
    requires
        parts_of(parts, inst, first_free),
        constraints_below(inst, first_free as int),
        absorb_all(absorb_start(parts.next as int), parts.objs@).1.next <= MAX_VAR_IDX + 1,
        set_up(kernel, setup, parts.cnf, parts.next as int, parts.objs@, opts),
        cnf_holds(b, clause_views(setup.cnf@)),
        cnf_holds(b, clause_views(setup.obj_cnf@)),
    ensures
        instance_satisfied(inst, b),
        forall|i: int|
            0 <= i < parts.objs@.len() ==> (#[trigger] kernel.objs@[i]).external(
                weight_under(kernel.objs@[i].entries(), b),
            ) >= parts.objs@[i].constant_part() + violated_weight(parts.objs@[i].softs(), b),
{
    let softs = parts.objs@;
    let next = parts.next as int;
    let start = absorb_start(next);
    lemma_absorb_all_next(start, softs, 0);
    lemma_read_softs(parts, inst, first_free);
    assert(softs_below(softs, next)) by {
        assert forall|i: int, k: int|
            0 <= i < softs.len() && 0 <= k < softs[i].clauses().len() implies lits_below(
            #[trigger] softs[i].clauses()[k],
            next,
        ) by {
            assert(lits_below(softs[i].clauses()[k], first_free as int));
        }
    }
    let holds = |v: Valuation| instance_satisfied(inst, v);
    assert(clauses_say(clause_views(parts.cnf@), holds, first_free as int));
    assert(holds(b));
    let lits = absorb_all(start, softs).0;
    assert forall|i: int| 0 <= i < softs.len() implies (#[trigger] kernel.objs@[i]).external(
        weight_under(kernel.objs@[i].entries(), b),
    ) >= softs[i].constant_part() + violated_weight(softs[i].softs(), b) by {
        assert(stands_for(kernel.objs@[i], softs[i], lits[i]));
        law_cost_at_least_violated(next, softs, i, kernel.objs@[i], b);
    }
}

/// All that the oracle is given and all literals of the objectives are over
/// original variables. No variable that the constraints use may count as free.
pub proof fn law_setup_uses_original_variables<L, T>(
    inst: Instance,
    parts: InstanceParts,
    first_free: nat,
    kernel: SolverKernel<L, T>,
    setup: OracleSetup,
    opts: Options,
)
    requires
        parts_of(parts, inst, first_free),
        constraints_below(inst, first_free as int),
        absorb_all(absorb_start(parts.next as int), parts.objs@).1.next <= MAX_VAR_IDX + 1,
        set_up(kernel, setup, parts.cnf, parts.next as int, parts.objs@, opts),
    ensures
        cnf_below(clause_views(setup.cnf@), kernel.max_orig_var.idx + 1),
        cnf_below(clause_views(setup.obj_cnf@), kernel.max_orig_var.idx + 1),
        forall|i: int, k: int|
            0 <= i < kernel.objs@.len() && 0 <= k < kernel.objs@[i].entries().len() ==> (
            #[trigger] kernel.objs@[i].entries()[k]).0.var() <= kernel.max_orig_var.idx,
{
    let softs = parts.objs@;
    let next = parts.next as int;
    let start = absorb_start(next);
    lemma_absorb_all_next(start, softs, 0);
    lemma_read_softs(parts, inst, first_free);
    assert forall|i: int, k: int|
        0 <= i < softs.len() && 0 <= k < softs[i].clauses().len() implies lits_below(
        #[trigger] softs[i].clauses()[k],
        next,
    ) by {
        assert(lits_below(softs[i].clauses()[k], first_free as int));
    }
    lemma_from_start(next, softs);
    let (lits, end) = absorb_all(start, softs);
    let top = kernel.max_orig_var.idx + 1;
    let cnf = clause_views(setup.cnf@);
    assert forall|i: int| 0 <= i < cnf.len() implies lits_below(#[trigger] cnf[i], top) by {
        assert(lits_below(cnf[i], next));
    }
    assert forall|i: int| 0 <= i < end.cnf.len() implies lits_below(#[trigger] end.cnf[i], top) by {
        let cl = choose|cl: Seq<Lit>| #[trigger]
            end.blits.contains_key(cl) && end.cnf[i] == cl.push(end.blits[cl]);
        assert forall|j: int| 0 <= j < end.cnf[i].len() implies (#[trigger] end.cnf[i][j]).var()
            < top by {
            if j < cl.len() {
                assert(end.cnf[i][j] == cl[j]);
            }
        }
    }
    assert forall|i: int, k: int| 0 <= i < softs.len() && 0 <= k < lits[i].len() implies (
    #[trigger] lits[i][k]).var() < top by {
        let cl = softs[i].clauses()[k];
        assert(known(end, cl));
        assert(lits_below(cl, next));
        if cl.len() == 1 {
            lemma_flipped(cl[0]);
            assert(cl[0].var() < next);
        }
    }
    assert forall|i: int, k: int|
        0 <= i < kernel.objs@.len() && 0 <= k < kernel.objs@[i].entries().len() implies (
    #[trigger] kernel.objs@[i].entries()[k]).0.var() <= kernel.max_orig_var.idx by {
        let obj = kernel.objs@[i];
        assert(stands_for(obj, softs[i], lits[i]));
        if let SoftObjective::Weighted { softs: given, .. } = softs[i] {
            let pairs = Seq::new(lits[i].len(), |j: int| (lits[i][j], given@[j].1));
            assert forall|j: int| 0 <= j < pairs.len() implies (#[trigger] pairs[j]).0.var()
                < top by {
                assert(lits[i][j].var() < top);
            }
            lemma_collected_lits(pairs, top);
            assert(obj.entries() == collect_weights(pairs));
        } else {
            assert(lits[i][k].var() < top);
        }
    }
}

} // verus!
