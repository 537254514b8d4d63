//! What setting up a kernel does, said of the arguments and results of the
//! calls.
use vstd::prelude::*;

use crate::blits::BlitTable;
use crate::config::{Options, Termination};
use crate::instance::enough_vars;
use crate::kernel::{
    absorb_all, absorb_start, lemma_absorb_all_next, OracleSetup, SolverKernel,
};
use crate::objective::{
    absorb_clause, absorb_clauses, absorb_objective, absorb_soft_clause, absorbed, collect_weights,
    has_lit, lemma_absorb_len, lemma_collect, place_of, stands_for, Absorbed, Objective,
    SoftObjective,
};
use crate::relaxation::{
    law_cost_at_least_violated, law_cost_of_violated, law_relaxing_keeps_assignments, softs_below,
    violated_weight,
};
use crate::semantics::{
    agree_below, clause_holds, cnf_holds, lit_holds, weight_under, Valuation,
};
use crate::types::{clause_views, Clause, Lit, MAX_VAR_IDX};
use crate::vars::VarManager;

verus! {

/// A soft clause of one literal is stood for by the opposite literal, and one
/// that is known by the literal that it has. Any other soft clause gets the next
/// variable, is relaxed by it and is known from then on.
pub proof fn law_soft_clauses_get_literals(cl: Clause)
    ensures
        forall|cnf: &mut Vec<Clause>, blits: &mut BlitTable, vm: &mut VarManager, lit: Lit|
            #[trigger] call_ensures(absorb_soft_clause, (cl, cnf, blits, vm), lit)
                && vm.next <= MAX_VAR_IDX ==> {
                let new = cl.lits@.len() != 1 && !blits@.contains_key(cl@);
                &&& cl.lits@.len() == 1 ==> lit.lidx != cl.lits@[0].lidx && lit.lidx / 2
                    == cl.lits@[0].lidx / 2
                &&& cl.lits@.len() != 1 ==> final(blits)@.contains_key(cl@) && final(blits)@[cl@]
                    == lit
                &&& cl.lits@.len() != 1 && !new ==> lit == blits@[cl@]
                &&& !new ==> final(vm).next == vm.next && final(blits)@ == blits@ && clause_views(
                    final(cnf)@,
                ) == clause_views(cnf@)
                &&& new ==> {
                    &&& lit.lidx == 2 * vm.next
                    &&& final(vm).next == vm.next + 1
                    &&& final(cnf)@.len() == cnf@.len() + 1
                    &&& final(cnf)@.last()@.len() == cl.lits@.len() + 1
                    &&& final(cnf)@.last()@.last() == lit
                    &&& forall|j: int|
                        0 <= j < cl.lits@.len() ==> #[trigger] final(cnf)@.last()@[j] == cl.lits@[j]
                    &&& forall|j: int|
                        0 <= j < cnf@.len() ==> (#[trigger] final(cnf)@[j])@ == cnf@[j]@
                    &&& forall|other: Seq<Lit>|
                        other != cl@ ==> (#[trigger] final(blits)@.contains_key(other)
                            <==> blits@.contains_key(other)) && (blits@.contains_key(other)
                            ==> final(blits)@[other] == blits@[other])
                }
            },
{
    assert forall|cnf: &mut Vec<Clause>, blits: &mut BlitTable, vm: &mut VarManager, lit: Lit|
        #[trigger] call_ensures(absorb_soft_clause, (cl, cnf, blits, vm), lit) && vm.next
            <= MAX_VAR_IDX && cl.lits@.len() != 1 && !blits@.contains_key(cl@) implies {
        &&& final(cnf)@.len() == cnf@.len() + 1
        &&& final(cnf)@.last()@.len() == cl.lits@.len() + 1
        &&& final(cnf)@.last()@.last() == lit
        &&& forall|j: int|
            0 <= j < cl.lits@.len() ==> #[trigger] final(cnf)@.last()@[j] == cl.lits@[j]
        &&& forall|j: int| 0 <= j < cnf@.len() ==> (#[trigger] final(cnf)@[j])@ == cnf@[j]@
    } by {
        let after = clause_views(final(cnf)@);
        assert(after == clause_views(cnf@).push(cl@.push(lit)));
        assert(final(cnf)@.len() == after.len());
        assert(final(cnf)@.last()@ == after[after.len() - 1]);
        assert forall|j: int| 0 <= j < cnf@.len() implies (#[trigger] final(cnf)@[j])@
            == cnf@[j]@ by {
            assert(after[j] == clause_views(cnf@)[j]);
        }
    }
}

/// The number of soft clauses of an objective.
pub open spec fn n_softs(obj: SoftObjective) -> int {
    match obj {
        SoftObjective::Weighted { softs, .. } => softs@.len() as int,
        SoftObjective::Unweighted { softs, .. } => softs@.len() as int,
        SoftObjective::Constant { .. } => 0,
    }
}

/// The number of soft clauses of several objectives.
pub open spec fn n_softs_of(objs: Seq<SoftObjective>) -> int
    decreases objs.len(),
{
    if objs.len() == 0 {
        0
    } else {
        n_softs_of(objs.drop_last()) + n_softs(objs.last())
    }
}

/// One clause is relaxed for each variable that is taken, and no more variables
/// are taken than there are clauses. How many are taken does not depend on which
/// variable is next.
proof fn lemma_absorbed_size(st: Absorbed, other: Absorbed, cls: Seq<Seq<Lit>>)
    requires
        st.blits.dom() == other.blits.dom(),
    ensures
        ({
            let end = absorb_clauses(st, cls).1;
            let other_end = absorb_clauses(other, cls).1;
            &&& 0 <= end.next - st.next <= cls.len()
            &&& end.cnf.len() - st.cnf.len() == end.next - st.next
            &&& other_end.next - other.next == end.next - st.next
            &&& end.blits.dom() == other_end.blits.dom()
        }),
    decreases cls.len(),
{
    if cls.len() > 0 {
        lemma_absorbed_size(st, other, cls.drop_last());
        let mid = absorb_clauses(st, cls.drop_last()).1;
        let other_mid = absorb_clauses(other, cls.drop_last()).1;
        assert(mid.blits.contains_key(cls.last()) <==> mid.blits.dom().contains(cls.last()));
        assert(other_mid.blits.contains_key(cls.last()) <==> other_mid.blits.dom().contains(
            cls.last(),
        ));
        let end = absorb_clauses(st, cls).1;
        let other_end = absorb_clauses(other, cls).1;
        assert(end.blits.dom() =~= other_end.blits.dom());
    }
}

/// The same for several objectives.
pub proof fn lemma_all_absorbed_size(st: Absorbed, other: Absorbed, objs: Seq<SoftObjective>)
    requires
        st.blits.dom() == other.blits.dom(),
    ensures
        ({
            let end = absorb_all(st, objs).1;
            let other_end = absorb_all(other, objs).1;
            &&& 0 <= end.next - st.next <= n_softs_of(objs)
            &&& end.cnf.len() - st.cnf.len() == end.next - st.next
            &&& other_end.next - other.next == end.next - st.next
            &&& end.blits.dom() == other_end.blits.dom()
        }),
    decreases objs.len(),
{
    if objs.len() > 0 {
        lemma_all_absorbed_size(st, other, objs.drop_last());
        lemma_absorbed_size(
            absorb_all(st, objs.drop_last()).1,
            absorb_all(other, objs.drop_last()).1,
            objs.last().clauses(),
        );
        assert(objs.last().clauses().len() == n_softs(objs.last()));
    }
}

/// Variables suffice for sure if there is one for each soft clause, however many
/// these are, and never if they have run out before. When they suffice, the
/// kernel can be set up, and they suffice from any lower variable on as well.
pub proof fn law_enough_variables(
    next: u32,
    objs: &Vec<SoftObjective>,
    b: bool,
    lower: u32,
    lower_b: bool,
)
    requires
        call_ensures(enough_vars, (next, objs), b),
        call_ensures(enough_vars, (lower, objs), lower_b),
    ensures
        next + n_softs_of(objs@) <= MAX_VAR_IDX + 1 ==> b,
        next > MAX_VAR_IDX + 1 ==> !b,
        b && lower <= next ==> lower_b,
        forall|cnf: Vec<Clause>, given: Vec<SoftObjective>, opts: Options|
            b && given@ == objs@ ==> #[trigger] call_requires(
                SolverKernel::<(), ()>::from_parts,
                (cnf, VarManager { next }, given, opts),
            ),
{
    lemma_all_absorbed_size(absorb_start(next as int), absorb_start(lower as int), objs@);
}

/// A kernel is set up whenever there is a variable, and a new kernel has found
/// nothing, counted nothing and attached nothing yet. It has one objective for
/// each given one, of the same kind and with the same constants. The oracle gets
/// the given clauses and one relaxed clause for each new variable.
pub proof fn law_kernels_start_empty<L, T>(
    cnf: Vec<Clause>,
    vm: VarManager,
    soft_objs: Vec<SoftObjective>,
    opts: Options,
    r: Result<(SolverKernel<L, T>, OracleSetup), Termination>,
)
    requires
        call_requires(SolverKernel::<L, T>::from_parts, (cnf, vm, soft_objs, opts)),
        call_ensures(SolverKernel::<L, T>::from_parts, (cnf, vm, soft_objs, opts), r),
    ensures
        vm.next > 0 ==> r is Ok,
        r is Err ==> r->Err_0 is NoVars,
        vm.next == 0 && n_softs_of(soft_objs@) == 0 ==> r is Err,
        r matches Ok((kernel, setup)) ==> {
            &&& kernel.opts == opts
            &&& kernel.pareto_front@.len() == 0
            &&& kernel.stats.n_solve_calls == 0
            &&& kernel.stats.n_solutions == 0
            &&& kernel.stats.n_pareto_points == 0
            &&& kernel.stats.n_candidates == 0
            &&& kernel.stats.n_oracle_calls == 0
            &&& kernel.stats.n_objs == soft_objs.len()
            &&& kernel.stats.n_orig_clauses == cnf.len()
            &&& kernel.lims.pps is None
            &&& kernel.lims.sols is None
            &&& kernel.lims.candidates is None
            &&& kernel.lims.oracle_calls is None
            &&& kernel.logger is None
            &&& kernel.term_cb is None
            &&& vm.next <= kernel.var_manager.next <= vm.next + n_softs_of(soft_objs@)
            &&& kernel.max_orig_var.idx + 1 == kernel.var_manager.next
            &&& setup.reserve == kernel.max_orig_var
            &&& setup.cnf == cnf
            &&& setup.obj_cnf@.len() == kernel.var_manager.next - vm.next
            &&& kernel.objs@.len() == soft_objs@.len()
            &&& forall|i: int|
                0 <= i < soft_objs@.len() ==> same_kind(#[trigger] kernel.objs@[i], soft_objs@[i])
        },
{
    let start = absorb_start(vm.next as int);
    lemma_all_absorbed_size(start, start, soft_objs@);
    if let Ok((kernel, setup)) = r {
        assert(clause_views(setup.obj_cnf@).len() == setup.obj_cnf@.len());
        let lits = absorb_all(start, soft_objs@).0;
        assert forall|i: int| 0 <= i < soft_objs@.len() implies same_kind(
            #[trigger] kernel.objs@[i],
            soft_objs@[i],
        ) by {
            assert(stands_for(kernel.objs@[i], soft_objs@[i], lits[i]));
            lemma_lits_len(start, soft_objs@, i);
        }
    }
}

/// There is one literal for each soft clause.
proof fn lemma_lits_len(st: Absorbed, objs: Seq<SoftObjective>, i: int)
    requires
        0 <= i < objs.len(),
    ensures
        absorb_all(st, objs).0.len() == objs.len(),
        absorb_all(st, objs).0[i].len() == n_softs(objs[i]),
    decreases objs.len(),
{
    let init = objs.drop_last();
    lemma_absorb_all_next(st, init, 0);
    if i < init.len() {
        lemma_lits_len(st, init, i);
    } else {
        lemma_absorb_len(absorb_all(st, init).1, objs.last().clauses());
    }
}

/// Whether an objective over literals is of the same kind as one over soft
/// clauses, with the same offset and unit weight and, without weights of its own,
/// with one literal for each soft clause.
pub open spec fn same_kind(obj: Objective, soft: SoftObjective) -> bool {
    match soft {
        SoftObjective::Weighted { offset, .. } => obj matches Objective::Weighted {
            offset: o,
            lits,
        } && o == offset,
        SoftObjective::Unweighted { offset, unit_weight, softs } => obj matches Objective::Unweighted {
            offset: o,
            unit_weight: u,
            lits,
        } && o == offset && u == unit_weight && lits@.len() == softs@.len(),
        SoftObjective::Constant { offset } => obj matches Objective::Constant { offset: o } && o
            == offset,
    }
}

/// What an objective costs under an assignment.
pub open spec fn cost_under(obj: Objective, a: Valuation) -> int {
    match obj {
        Objective::Weighted { offset, lits } => weight_under(lits@, a) + offset,
        Objective::Unweighted { offset, unit_weight, .. } => weight_under(obj.entries(), a)
            * unit_weight + offset,
        Objective::Constant { offset } => offset as int,
    }
}

/// What soft clauses cost under an assignment: the offset and the weights of
/// those that are not satisfied.
pub open spec fn soft_cost(soft: SoftObjective, a: Valuation) -> int {
    match soft {
        SoftObjective::Weighted { offset, softs } => offset + violated_weight(
            softs@.map_values(|s: (Clause, usize)| (s.0@, s.1)),
            a,
        ),
        SoftObjective::Unweighted { offset, unit_weight, softs } => offset + violated_weight(
            softs@.map_values(|c: Clause| (c@, unit_weight)),
            a,
        ),
        SoftObjective::Constant { offset } => offset as int,
    }
}

/// One more soft clause costs its weight if it is not satisfied.
pub proof fn law_violated_weights_add_up(
    softs: Seq<(Seq<Lit>, usize)>,
    cl: Seq<Lit>,
    w: usize,
    a: Valuation,
)
    ensures
        violated_weight(softs.push((cl, w)), a) == violated_weight(softs, a) + if clause_holds(
            a,
            cl,
        ) {
            0
        } else {
            w as int
        },
        violated_weight(Seq::empty(), a) == 0,
{
    assert(softs.push((cl, w)).drop_last() =~= softs);
}

/// Setting up a kernel keeps what the objectives cost. Every assignment can be
/// extended to the new variables such that the relaxed clauses hold and each
/// objective costs what its soft clauses do, and no assignment for which the
/// relaxed clauses hold costs less than its soft clauses. The clauses of a
/// weighted objective have to be different from each other, and all clauses to
/// be over variables in use.
pub proof fn law_kernels_keep_costs<L, T>(
    cnf: Vec<Clause>,
    vm: VarManager,
    soft_objs: Vec<SoftObjective>,
    opts: Options,
    r: Result<(SolverKernel<L, T>, OracleSetup), Termination>,
    a: Valuation,
)
    requires
        call_requires(SolverKernel::<L, T>::from_parts, (cnf, vm, soft_objs, opts)),
        call_ensures(SolverKernel::<L, T>::from_parts, (cnf, vm, soft_objs, opts), r),
        softs_below(soft_objs@, vm.next as int),
        forall|i: int|
            0 <= i < soft_objs@.len() && (#[trigger] soft_objs@[i]) is Weighted
                ==> soft_objs@[i].clauses().no_duplicates(),
    ensures
        r matches Ok((kernel, setup)) ==> {
            &&& exists|b: Valuation| #[trigger]
                agree_below(a, b, vm.next as int) && {
                    &&& cnf_holds(b, clause_views(setup.obj_cnf@))
                    &&& forall|i: int|
                        0 <= i < soft_objs@.len() ==> cost_under(#[trigger] kernel.objs@[i], b)
                            == soft_cost(soft_objs@[i], a)
                }
            &&& cnf_holds(a, clause_views(setup.obj_cnf@)) ==> forall|i: int|
                0 <= i < soft_objs@.len() ==> cost_under(#[trigger] kernel.objs@[i], a)
                    >= soft_cost(soft_objs@[i], a)
        },
{
    if let Ok((kernel, setup)) = r {
        let softs = soft_objs@;
        let next = vm.next as int;
        let lits = absorb_all(absorb_start(next), softs).0;
        law_relaxing_keeps_assignments(next, softs, a);
        let b = choose|b: Valuation| #[trigger]
            agree_below(a, b, next) && cnf_holds(b, absorb_all(absorb_start(next), softs).1.cnf)
                && forall|i: int, k: int|
                0 <= i < softs.len() && 0 <= k < softs[i].clauses().len() ==> lit_holds(
                    b,
                    lits[i][k],
                ) == !clause_holds(a, #[trigger] softs[i].clauses()[k]);
        assert forall|i: int| 0 <= i < softs.len() implies cost_under(#[trigger] kernel.objs@[i], b)
            == soft_cost(softs[i], a) by {
            assert(stands_for(kernel.objs@[i], softs[i], lits[i]));
            law_cost_of_violated(next, softs, i, kernel.objs@[i], a, b);
        }
        if cnf_holds(a, clause_views(setup.obj_cnf@)) {
            assert forall|i: int| 0 <= i < softs.len() implies cost_under(
                #[trigger] kernel.objs@[i],
                a,
            ) >= soft_cost(softs[i], a) by {
                assert(stands_for(kernel.objs@[i], softs[i], lits[i]));
                law_cost_at_least_violated(next, softs, i, kernel.objs@[i], a);
            }
        }
    }
}

/// Whether a literal stands for a soft clause: the opposite one for a clause of
/// one literal, and the one in the table for any other clause.
pub open spec fn stood_for(blits: Map<Seq<Lit>, Lit>, cl: Seq<Lit>, l: Lit) -> bool {
    if cl.len() == 1 {
        l.lidx != cl[0].lidx && l.lidx / 2 == cl[0].lidx / 2
    } else {
        blits.contains_key(cl) && blits[cl] == l
    }
}

/// The literals stand for the clauses, and what was known stays.
proof fn lemma_stood_for(st: Absorbed, cls: Seq<Seq<Lit>>)
    ensures
        ({
            let (lits, end) = absorb_clauses(st, cls);
            &&& lits.len() == cls.len()
            &&& forall|k: int|
                0 <= k < cls.len() ==> stood_for(end.blits, #[trigger] cls[k], lits[k])
            &&& forall|cl: Seq<Lit>| #[trigger]
                st.blits.contains_key(cl) ==> end.blits.contains_key(cl) && end.blits[cl]
                    == st.blits[cl]
        }),
    decreases cls.len(),
{
    if cls.len() > 0 {
        let init = cls.drop_last();
        lemma_stood_for(st, init);
        let (some, mid) = absorb_clauses(st, init);
        let (lits, end) = absorb_clauses(st, cls);
        assert forall|k: int| 0 <= k < cls.len() implies stood_for(
            end.blits,
            #[trigger] cls[k],
            lits[k],
        ) by {
            if k < init.len() {
                assert(init[k] == cls[k] && lits[k] == some[k]);
                assert(stood_for(mid.blits, init[k], some[k]));
            } else {
                assert(cls[k] == cls.last());
                assert((lits[k], end) == absorb_clause(mid, cls.last()));
            }
        }
        assert forall|cl: Seq<Lit>| #[trigger] st.blits.contains_key(cl) implies
            end.blits.contains_key(cl) && end.blits[cl] == st.blits[cl] by {
            assert(mid.blits.contains_key(cl) && mid.blits[cl] == st.blits[cl]);
        }
    }
}

/// Of pairs that are put into a map, those stay behind which there is none with
/// the same literal, and no others.
proof fn lemma_last_weights(pairs: Seq<(Lit, usize)>)
    ensures
        forall|x: (Lit, usize)| #[trigger]
            collect_weights(pairs).contains(x) <==> exists|i: int|
                {
                    &&& 0 <= i < pairs.len()
                    &&& #[trigger] pairs[i] == x
                    &&& forall|j: int| i < j < pairs.len() ==> (#[trigger] pairs[j]).0 != x.0
                },
    decreases pairs.len(),
{
    if pairs.len() > 0 {
        let init = pairs.drop_last();
        let (l, w) = pairs.last();
        let n = pairs.len() - 1;
        lemma_last_weights(init);
        lemma_collect(init);
        let before = collect_weights(init);
        let after = collect_weights(pairs);
        assert forall|x: (Lit, usize)| #[trigger] after.contains(x) <==> x == (l, w) || x.0 != l
            && before.contains(x) by {
            if has_lit(before, l) {
                let p = place_of(before, l);
                assert(before[p].0 == l && after == before.update(p, (l, w)));
                assert(after[p] == (l, w));
                if before.contains(x) && x.0 != l {
                    let q = choose|q: int| 0 <= q < before.len() && before[q] == x;
                    assert(after[q] == x);
                }
                if after.contains(x) {
                    let q = choose|q: int| 0 <= q < after.len() && after[q] == x;
                    if q != p {
                        assert(before[q] == x);
                        assert(before[q].0 != before[p].0);
                    }
                }
            } else {
                assert(after == before.push((l, w)));
                assert(after[before.len() as int] == (l, w));
                if before.contains(x) {
                    let q = choose|q: int| 0 <= q < before.len() && before[q] == x;
                    assert(after[q] == x);
                }
                if after.contains(x) {
                    let q = choose|q: int| 0 <= q < after.len() && after[q] == x;
                    if q < before.len() {
                        assert(before[q] == x);
                    }
                }
            }
        }
        assert forall|x: (Lit, usize)| #[trigger] after.contains(x) <==> exists|i: int|
            {
                &&& 0 <= i < pairs.len()
                &&& #[trigger] pairs[i] == x
                &&& forall|j: int| i < j < pairs.len() ==> (#[trigger] pairs[j]).0 != x.0
            } by {
            if after.contains(x) {
                if x == (l, w) {
                    assert(pairs[n] == x);
                } else {
                    assert(before.contains(x));
                    let i = choose|i: int|
                        {
                            &&& 0 <= i < init.len()
                            &&& #[trigger] init[i] == x
                            &&& forall|j: int| i < j < init.len() ==> (#[trigger] init[j]).0 != x.0
                        };
                    assert(pairs[i] == x);
                    assert forall|j: int| i < j < pairs.len() implies (#[trigger] pairs[j]).0
                        != x.0 by {
                        if j < n {
                            assert(init[j] == pairs[j]);
                        }
                    }
                }
            }
            if exists|i: int|
                {
                    &&& 0 <= i < pairs.len()
                    &&& #[trigger] pairs[i] == x
                    &&& forall|j: int| i < j < pairs.len() ==> (#[trigger] pairs[j]).0 != x.0
                } {
                let i = choose|i: int|
                    {
                        &&& 0 <= i < pairs.len()
                        &&& #[trigger] pairs[i] == x
                        &&& forall|j: int| i < j < pairs.len() ==> (#[trigger] pairs[j]).0 != x.0
                    };
                if i < n {
                    assert(pairs[n].0 != x.0);
                    assert(init[i] == x);
                    assert forall|j: int| i < j < init.len() implies (#[trigger] init[j]).0
                        != x.0 by {
                        assert(pairs[j] == init[j]);
                    }
                    assert(before.contains(x));
                }
            }
        }
    }
}

/// An objective keeps its kind and constants when its soft clauses are turned
/// into literals. Without weights of its own, it has the literals of its soft
/// clauses, in order. With weights, it has the literal of each soft clause once,
/// with the weight of the last clause that the literal stands for.
pub proof fn law_objectives_stand_for_clauses(obj: SoftObjective)
    ensures
        forall|cnf: &mut Vec<Clause>, blits: &mut BlitTable, vm: &mut VarManager, res: Objective|
            #[trigger] call_ensures(absorb_objective, (obj, cnf, blits, vm), res) ==> {
                &&& same_kind(res, obj)
                &&& vm.next <= final(vm).next <= vm.next + n_softs(obj)
                &&& final(cnf)@.len() - cnf@.len() == final(vm).next - vm.next
                &&& obj matches SoftObjective::Unweighted { softs, .. } ==> forall|k: int|
                    0 <= k < softs@.len() ==> stood_for(
                        final(blits)@,
                        (#[trigger] softs@[k])@,
                        res->Unweighted_lits@[k],
                    )
                &&& obj matches SoftObjective::Weighted { softs, .. } ==> exists|lits: Seq<Lit>|
                    {
                        &&& #[trigger] lits.len() == softs@.len()
                        &&& forall|k: int|
                            0 <= k < softs@.len() ==> stood_for(
                                final(blits)@,
                                (#[trigger] softs@[k]).0@,
                                lits[k],
                            )
                        &&& forall|x: (Lit, usize)| #[trigger]
                            res->Weighted_lits@.contains(x) <==> exists|k: int|
                                {
                                    &&& 0 <= k < lits.len()
                                    &&& #[trigger] lits[k] == x.0
                                    &&& softs@[k].1 == x.1
                                    &&& forall|j: int|
                                        k < j < lits.len() ==> #[trigger] lits[j] != x.0
                                }
                    }
            },
{
    assert forall|cnf: &mut Vec<Clause>, blits: &mut BlitTable, vm: &mut VarManager, res: Objective|
        #[trigger] call_ensures(absorb_objective, (obj, cnf, blits, vm), res) implies {
        &&& same_kind(res, obj)
        &&& vm.next <= final(vm).next <= vm.next + n_softs(obj)
        &&& final(cnf)@.len() - cnf@.len() == final(vm).next - vm.next
        &&& obj matches SoftObjective::Unweighted { softs, .. } ==> forall|k: int|
            0 <= k < softs@.len() ==> stood_for(
                final(blits)@,
                (#[trigger] softs@[k])@,
                res->Unweighted_lits@[k],
            )
        &&& obj matches SoftObjective::Weighted { softs, .. } ==> exists|lits: Seq<Lit>|
            {
                &&& #[trigger] lits.len() == softs@.len()
                &&& forall|k: int|
                    0 <= k < softs@.len() ==> stood_for(
                        final(blits)@,
                        (#[trigger] softs@[k]).0@,
                        lits[k],
                    )
                &&& forall|x: (Lit, usize)| #[trigger]
                    res->Weighted_lits@.contains(x) <==> exists|k: int|
                        {
                            &&& 0 <= k < lits.len()
                            &&& #[trigger] lits[k] == x.0
                            &&& softs@[k].1 == x.1
                            &&& forall|j: int| k < j < lits.len() ==> #[trigger] lits[j] != x.0
                        }
            }
    } by {
        let st = absorbed(cnf@, *blits, *vm);
        let cls = obj.clauses();
        let (lits, end) = absorb_clauses(st, cls);
        lemma_stood_for(st, cls);
        lemma_absorbed_size(st, st, cls);
        assert(end == absorbed(final(cnf)@, *final(blits), *final(vm)));
        assert(clause_views(final(cnf)@).len() == final(cnf)@.len());
        assert(clause_views(cnf@).len() == cnf@.len());
        assert(cls.len() == n_softs(obj));
        match obj {
            SoftObjective::Unweighted { softs, .. } => {
                assert forall|k: int| 0 <= k < softs@.len() implies stood_for(
                    final(blits)@,
                    (#[trigger] softs@[k])@,
                    res->Unweighted_lits@[k],
                ) by {
                    assert(cls[k] == softs@[k]@);
                }
            },
            SoftObjective::Weighted { softs, .. } => {
                assert forall|k: int| 0 <= k < softs@.len() implies stood_for(
                    final(blits)@,
                    (#[trigger] softs@[k]).0@,
                    lits[k],
                ) by {
                    assert(cls[k] == softs@[k].0@);
                }
                let pairs = Seq::new(lits.len(), |i: int| (lits[i], softs@[i].1));
                lemma_last_weights(pairs);
                assert forall|x: (Lit, usize)| #[trigger]
                    res->Weighted_lits@.contains(x) <==> exists|k: int|
                        {
                            &&& 0 <= k < lits.len()
                            &&& #[trigger] lits[k] == x.0
                            &&& softs@[k].1 == x.1
                            &&& forall|j: int| k < j < lits.len() ==> #[trigger] lits[j] != x.0
                        } by {
                    assert(res->Weighted_lits@ == collect_weights(pairs));
                    if res->Weighted_lits@.contains(x) {
                        let k = choose|k: int|
                            {
                                &&& 0 <= k < pairs.len()
                                &&& #[trigger] pairs[k] == x
                                &&& forall|j: int|
                                    k < j < pairs.len() ==> (#[trigger] pairs[j]).0 != x.0
                            };
                        assert(lits[k] == x.0);
                        assert forall|j: int| k < j < lits.len() implies #[trigger] lits[j]
                            != x.0 by {
                            assert(pairs[j].0 == lits[j]);
                        }
                    }
                    if exists|k: int|
                        {
                            &&& 0 <= k < lits.len()
                            &&& #[trigger] lits[k] == x.0
                            &&& softs@[k].1 == x.1
                            &&& forall|j: int| k < j < lits.len() ==> #[trigger] lits[j] != x.0
                        } {
                        let k = choose|k: int|
                            {
                                &&& 0 <= k < lits.len()
                                &&& #[trigger] lits[k] == x.0
                                &&& softs@[k].1 == x.1
                                &&& forall|j: int|
                                    k < j < lits.len() ==> #[trigger] lits[j] != x.0
                            };
                        assert(pairs[k] == x);
                        assert forall|j: int| k < j < pairs.len() implies (#[trigger] pairs[j]).0
                            != x.0 by {
                            assert(lits[j] == pairs[j].0);
                        }
                    }
                }
            },
            SoftObjective::Constant { .. } => {},
        }
    }
}

} // verus!
