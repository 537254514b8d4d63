//! What reading an instance does, said of the instance and the results of the
//! calls.
use rustsat::instances::Objective as RsObjective;
use vstd::prelude::*;

use crate::config::{Options, Termination};
use crate::instance::{
    constraints_below, instance_cards, instance_clauses, instance_linears, instance_needs,
    instance_next, instance_objectives, instance_pbs, instance_satisfied, instance_supported,
    is_first_free, objective_content, parts_of, reads, soft_objective, take_apart, Instance,
    InstanceParts, ObjectiveContent,
};
use crate::kernel::{absorb_all, absorb_start, set_up, OracleSetup, SolverKernel};
use crate::linear::{
    clauses_say, has_model_like, runs_out, sum_of, LinearView,
};
use crate::linear_effects::{lemma_small_is_supported, meets};
use crate::objective::{stands_for, SoftObjective};
use crate::relaxation::{
    law_setup_adds_no_solutions, law_setup_keeps_solutions, violated_weight,
};
use crate::semantics::{agree_below, clause_holds, cnf_holds, weight_total, weight_under, Valuation};
use crate::setup_effects::{cost_under, lemma_all_absorbed_size, n_softs_of, soft_cost};
use crate::types::{clause_views, Clause, Lit, MAX_VAR_IDX};

verus! {

/// An objective without soft clauses and without an offset is read as a
/// constant. Any other one is read with its offset and all its soft clauses:
/// without weights of their own, in order and with the unit weight, and with
/// weights, each once and with its weight.
pub proof fn law_objectives_are_read(obj: RsObjective, soft: SoftObjective)
    requires
        call_ensures(soft_objective, (obj,), soft),
    ensures
        match objective_content(obj) {
            ObjectiveContent::Unweighted { offset, unit_weight, softs } => if softs.len() == 0
                && offset == 0 {
                soft is Constant && soft->Constant_offset == 0
            } else {
                &&& soft is Unweighted
                &&& soft->Unweighted_offset == offset
                &&& soft->unit_weight == unit_weight
                &&& soft->Unweighted_softs@.len() == softs.len()
                &&& forall|i: int|
                    0 <= i < softs.len() ==> (#[trigger] soft->Unweighted_softs@[i])@ == softs[i]
            },
            ObjectiveContent::Weighted { offset, softs } => if softs.len() == 0 && offset == 0 {
                soft is Constant && soft->Constant_offset == 0
            } else {
                let read = soft->Weighted_softs@;
                &&& soft is Weighted
                &&& soft->Weighted_offset == offset
                &&& read.len() == softs.len()
                &&& forall|i: int|
                    0 <= i < read.len() ==> softs.contains_key((#[trigger] read[i]).0@)
                        && softs[read[i].0@] == read[i].1
                &&& forall|cl: Seq<Lit>| #[trigger]
                    softs.contains_key(cl) ==> exists|i: int|
                        0 <= i < read.len() && (#[trigger] read[i]).0@ == cl
                &&& forall|i: int, j: int|
                    0 <= i < j < read.len() ==> (#[trigger] read[i]).0@ != (#[trigger] read[j]).0@
            },
        },
{
    if let ObjectiveContent::Unweighted { offset, unit_weight, softs } = objective_content(obj) {
        if soft is Unweighted {
            let read = soft->Unweighted_softs@;
            let views = read.map_values(|c: Clause| c@);
            assert(views.len() == read.len());
            if !(softs.len() == 0 && offset == 0) {
                assert forall|i: int| 0 <= i < softs.len() implies (#[trigger] read[i])@
                    == softs[i] by {
                    assert(views[i] == read[i]@);
                }
            }
        }
    }
}

/// Whether a constraint is an equality over literals of one positive weight that
/// does not divide the bound, although that is within reach.
pub open spec fn never_met(c: LinearView) -> bool {
    &&& c.relation is Exactly
    &&& c.entries.len() > 0
    &&& c.entries[0].1 > 0
    &&& forall|i: int| 0 <= i < c.entries.len() ==> (#[trigger] c.entries[i]).1 == c.entries[0].1
    &&& 0 <= c.bound <= weight_total(c.entries)
    &&& c.bound % c.entries[0].1 as int != 0
}

/// The number of soft clauses of objectives.
pub open spec fn n_contents(contents: Seq<ObjectiveContent>) -> int
    decreases contents.len(),
{
    if contents.len() == 0 {
        0
    } else {
        n_contents(contents.drop_last()) + match contents.last() {
            ObjectiveContent::Weighted { softs, .. } => softs.len() as int,
            ObjectiveContent::Unweighted { softs, .. } => softs.len() as int,
        }
    }
}

/// Reading an instance only fails for a pseudo-boolean constraint that cannot be
/// encoded, because its weights sum up to more than the largest signed number or
/// it is an equality that is never met, and for want of variables. Without
/// constraints other than clauses it always succeeds, and the clauses are
/// unchanged.
pub proof fn law_instances_are_read(inst: Instance, r: Result<InstanceParts, Termination>)
    requires
        call_ensures(take_apart, (inst,), r),
    ensures
        r is Err ==> r->Err_0 is UnsupportedConstraint || r->Err_0 is VarLimit,
        r is Err && r->Err_0 is UnsupportedConstraint ==> exists|i: int|
            0 <= i < instance_pbs(inst).len() && (weight_total(
                (#[trigger] instance_pbs(inst)[i]).entries,
            ) > isize::MAX || never_met(instance_pbs(inst)[i])),
        r is Err && r->Err_0 is VarLimit ==> exists|first: nat| #[trigger]
            is_first_free(inst, first) && first + sum_of(instance_needs(inst)) > MAX_VAR_IDX + 1,
        instance_cards(inst).len() == 0 && instance_pbs(inst).len() == 0 ==> r is Ok
            && clause_views(r->Ok_0.cnf@) == instance_clauses(inst),
        r matches Ok(parts) ==> {
            &&& all_read(parts.objs@, instance_objectives(inst))
            &&& n_softs_of(parts.objs@) == n_contents(instance_objectives(inst))
            &&& parts.next >= 1
            &&& parts.next >= instance_next(inst)
            &&& instance_clauses(inst).is_prefix_of(clause_views(parts.cnf@))
            &&& forall|i: int, cl: Seq<Lit>, j: int|
                0 <= i < instance_objectives(inst).len() && #[trigger] instance_objectives(
                    inst,
                )[i].has_soft(cl) && 0 <= j < cl.len() ==> (#[trigger] cl[j]).lidx as int / 2
                    < parts.next
        },
{
    let first = choose|first: nat| #[trigger]
        is_first_free(inst, first) && if !instance_supported(inst) {
            r matches Err(t) && t is UnsupportedConstraint
        } else if runs_out(instance_needs(inst), first as int) {
            r matches Err(t) && t is VarLimit
        } else {
            r matches Ok(parts) && parts_of(parts, inst, first)
        };
    lemma_unsupported(inst);
    if let Ok(parts) = r {
        lemma_read_sizes(parts.objs@, instance_objectives(inst));
    }
    assert(instance_needs(inst).len() == instance_cards(inst).len() + instance_pbs(inst).len());
}

/// An instance that is not supported has a constraint that cannot be encoded.
proof fn lemma_unsupported(inst: Instance)
    ensures
        !instance_supported(inst) ==> exists|i: int|
            0 <= i < instance_pbs(inst).len() && (weight_total(
                (#[trigger] instance_pbs(inst)[i]).entries,
            ) > isize::MAX || never_met(instance_pbs(inst)[i])),
{
    if !instance_supported(inst) {
        let i = choose|i: int|
            0 <= i < instance_pbs(inst).len() && !(#[trigger] instance_pbs(inst)[i]).supported();
        let c = instance_pbs(inst)[i];
        if weight_total(c.entries) <= isize::MAX && !never_met(c) {
            assert(!c.indivisible());
            lemma_small_is_supported(c);
        }
    }
}

/// All soft clauses are read.
proof fn lemma_read_sizes(objs: Seq<SoftObjective>, contents: Seq<ObjectiveContent>)
    requires
        objs.len() == contents.len(),
        forall|i: int| 0 <= i < contents.len() ==> reads(#[trigger] objs[i], contents[i]),
    ensures
        n_softs_of(objs) == n_contents(contents),
    decreases objs.len(),
{
    if objs.len() > 0 {
        let n = objs.len() - 1;
        assert forall|i: int| 0 <= i < n implies reads(
            #[trigger] objs.drop_last()[i],
            contents.drop_last()[i],
        ) by {
            assert(reads(objs[i], contents[i]));
        }
        lemma_read_sizes(objs.drop_last(), contents.drop_last());
        assert(reads(objs[n], contents[n]));
        if let SoftObjective::Unweighted { softs, .. } = objs[n] {
            assert(softs@.map_values(|c: Clause| c@).len() == softs@.len());
        }
    }
}

/// Whether an assignment satisfies all constraints of an instance.
pub open spec fn solves(a: Valuation, inst: Instance) -> bool {
    &&& forall|i: int|
        0 <= i < instance_clauses(inst).len() ==> clause_holds(
            a,
            #[trigger] instance_clauses(inst)[i],
        )
    &&& forall|i: int|
        0 <= i < instance_cards(inst).len() ==> meets(a, #[trigger] instance_cards(inst)[i])
    &&& forall|i: int|
        0 <= i < instance_pbs(inst).len() ==> meets(a, #[trigger] instance_pbs(inst)[i])
}

proof fn lemma_solves(a: Valuation, inst: Instance)
    ensures
        solves(a, inst) <==> instance_satisfied(inst, a),
{
    let linears = instance_linears(inst);
    let n = instance_cards(inst).len() as int;
    if instance_satisfied(inst, a) {
        assert forall|i: int| 0 <= i < instance_cards(inst).len() implies meets(
            a,
            #[trigger] instance_cards(inst)[i],
        ) by {
            assert(linears[i] == instance_cards(inst)[i]);
            assert(linears[i].holds(a));
        }
        assert forall|i: int| 0 <= i < instance_pbs(inst).len() implies meets(
            a,
            #[trigger] instance_pbs(inst)[i],
        ) by {
            assert(linears[n + i] == instance_pbs(inst)[i]);
            assert(linears[n + i].holds(a));
        }
    }
    if solves(a, inst) {
        assert forall|i: int| 0 <= i < linears.len() implies (#[trigger] linears[i]).holds(a) by {
            if i < n {
                assert(meets(a, instance_cards(inst)[i]));
            } else {
                assert(meets(a, instance_pbs(inst)[i - n]));
            }
        }
    }
}

/// The clauses that an instance is read as have the same solutions as its
/// constraints: whatever satisfies them satisfies all constraints, and a solution
/// of the constraints satisfies them once the new variables have suitable values.
/// No variable that the constraints use may count as free.
pub proof fn law_instances_keep_solutions(
    inst: Instance,
    r: Result<InstanceParts, Termination>,
    a: Valuation,
)
    requires
        call_ensures(take_apart, (inst,), r),
        forall|first: nat| #[trigger]
            is_first_free(inst, first) ==> constraints_below(inst, first as int),
        r is Ok,
        r->Ok_0.next <= MAX_VAR_IDX + 1,
    ensures
        cnf_holds(a, clause_views(r->Ok_0.cnf@)) ==> solves(a, inst),
        solves(a, inst) ==> exists|b: Valuation|
            {
                &&& #[trigger] cnf_holds(b, clause_views(r->Ok_0.cnf@))
                &&& forall|v: int|
                    0 <= v < instance_next(inst) ==> (#[trigger] a.contains(v) <==> b.contains(v))
            },
{
    let parts = r->Ok_0;
    let first = choose|first: nat| #[trigger]
        is_first_free(inst, first) && parts_of(parts, inst, first);
    lemma_solves(a, inst);
    let holds = |v: Valuation| instance_satisfied(inst, v);
    assert(clauses_say(clause_views(parts.cnf@), holds, first as int));
    if cnf_holds(a, clause_views(parts.cnf@)) {
        assert(holds(a));
    }
    if solves(a, inst) {
        assert(holds(a));
        assert(has_model_like(clause_views(parts.cnf@), a, first as int));
        let b = choose|b: Valuation| #[trigger]
            agree_below(a, b, first as int) && cnf_holds(b, clause_views(parts.cnf@));
        assert(cnf_holds(b, clause_views(parts.cnf@)));
    }
}

/// A kernel is set up from an instance unless a constraint cannot be encoded or
/// the variables do not suffice. A new kernel has the given options and one
/// objective for each of the instance, and nothing else yet.
pub proof fn law_kernels_are_set_up<L, T>(
    inst: Instance,
    opts: Options,
    r: Result<(SolverKernel<L, T>, OracleSetup), Termination>,
)
    requires
        call_ensures(SolverKernel::<L, T>::new, (inst, opts), r),
    ensures
        r is Err ==> r->Err_0 is UnsupportedConstraint || r->Err_0 is VarLimit,
        r is Err && r->Err_0 is UnsupportedConstraint ==> exists|i: int|
            0 <= i < instance_pbs(inst).len() && (weight_total(
                (#[trigger] instance_pbs(inst)[i]).entries,
            ) > isize::MAX || never_met(instance_pbs(inst)[i])),
        r is Err && r->Err_0 is VarLimit ==> exists|first: nat| #[trigger]
            is_first_free(inst, first) && first + sum_of(instance_needs(inst)) + n_contents(
                instance_objectives(inst),
            ) > MAX_VAR_IDX + 1,
        r matches Ok((kernel, setup)) ==> {
            &&& kernel.opts == opts
            &&& kernel.objs@.len() == instance_objectives(inst).len()
            &&& kernel.stats.n_objs == kernel.objs@.len()
            &&& kernel.stats.n_solve_calls == 0
            &&& kernel.stats.n_solutions == 0
            &&& kernel.stats.n_pareto_points == 0
            &&& kernel.stats.n_candidates == 0
            &&& kernel.stats.n_oracle_calls == 0
            &&& kernel.stats.n_orig_clauses == setup.cnf.len()
            &&& kernel.pareto_front@.len() == 0
            &&& kernel.lims.pps is None
            &&& kernel.lims.sols is None
            &&& kernel.lims.candidates is None
            &&& kernel.lims.oracle_calls is None
            &&& kernel.logger is None
            &&& kernel.term_cb is None
            &&& setup.reserve == kernel.max_orig_var
            &&& kernel.max_orig_var.idx + 1 == kernel.var_manager.next
            &&& instance_clauses(inst).is_prefix_of(clause_views(setup.cnf@))
        },
{
    lemma_unsupported(inst);
    let first = choose|first: nat| #[trigger]
        is_first_free(inst, first) && if !instance_supported(inst) {
            r matches Err(t) && t is UnsupportedConstraint
        } else if runs_out(instance_needs(inst), first as int) {
            r matches Err(t) && t is VarLimit
        } else {
            exists|parts: InstanceParts| #[trigger]
                parts_of(parts, inst, first) && if absorb_all(
                    absorb_start(parts.next as int),
                    parts.objs@,
                ).1.next <= MAX_VAR_IDX + 1 {
                    r is Ok
                } else {
                    r matches Err(t) && t is VarLimit
                }
        };
    lemma_contents_not_negative(instance_objectives(inst));
    if instance_supported(inst) && !runs_out(instance_needs(inst), first as int) {
        let parts = choose|parts: InstanceParts| #[trigger]
            parts_of(parts, inst, first) && if absorb_all(
                absorb_start(parts.next as int),
                parts.objs@,
            ).1.next <= MAX_VAR_IDX + 1 {
                r is Ok
            } else {
                r matches Err(t) && t is VarLimit
            };
        let start = absorb_start(parts.next as int);
        lemma_read_sizes(parts.objs@, instance_objectives(inst));
        lemma_all_absorbed_size(start, start, parts.objs@);
    }
}

proof fn lemma_contents_not_negative(contents: Seq<ObjectiveContent>)
    ensures
        n_contents(contents) >= 0,
    decreases contents.len(),
{
    if contents.len() > 0 {
        lemma_contents_not_negative(contents.drop_last());
    }
}

/// Whether soft objectives are what objectives of an instance are read as.
pub open spec fn all_read(softs: Seq<SoftObjective>, contents: Seq<ObjectiveContent>) -> bool {
    &&& softs.len() == contents.len()
    &&& forall|i: int| 0 <= i < contents.len() ==> reads(#[trigger] softs[i], contents[i])
}

/// A kernel is about the instance that it was set up from. Whatever satisfies all
/// that the oracle is given is a solution, and costs no less in any objective
/// than the soft clauses that are not satisfied. A solution can be extended to
/// satisfy all that the oracle is given, such that each objective costs what its
/// soft clauses do. No variable that the constraints use may count as free.
pub proof fn law_kernels_keep_instances<L, T>(
    inst: Instance,
    opts: Options,
    r: Result<(SolverKernel<L, T>, OracleSetup), Termination>,
    a: Valuation,
)
    requires
        call_ensures(SolverKernel::<L, T>::new, (inst, opts), r),
        forall|first: nat| #[trigger]
            is_first_free(inst, first) ==> constraints_below(inst, first as int),
        r is Ok,
    ensures
        ({
            let (kernel, setup) = r->Ok_0;
            exists|softs: Seq<SoftObjective>| #[trigger]
                all_read(softs, instance_objectives(inst)) && {
                    &&& cnf_holds(a, clause_views(setup.cnf@)) && cnf_holds(
                        a,
                        clause_views(setup.obj_cnf@),
                    ) ==> solves(a, inst) && forall|i: int|
                        0 <= i < softs.len() ==> cost_under(#[trigger] kernel.objs@[i], a)
                            >= soft_cost(softs[i], a)
                    &&& solves(a, inst) ==> exists|b: Valuation|
                        {
                            &&& #[trigger] cnf_holds(b, clause_views(setup.cnf@))
                            &&& cnf_holds(b, clause_views(setup.obj_cnf@))
                            &&& forall|i: int|
                                0 <= i < softs.len() ==> cost_under(#[trigger] kernel.objs@[i], b)
                                    == soft_cost(softs[i], a)
                            &&& forall|v: int|
                                0 <= v < instance_next(inst) ==> (#[trigger] a.contains(v)
                                    <==> b.contains(v))
                        }
                }
        }),
{
    let (kernel, setup) = r->Ok_0;
    let first = choose|first: nat| #[trigger]
        is_first_free(inst, first) && instance_supported(inst) && exists|parts: InstanceParts|
            #[trigger] parts_of(parts, inst, first) && absorb_all(
                absorb_start(parts.next as int),
                parts.objs@,
            ).1.next <= MAX_VAR_IDX + 1 && set_up(
                kernel,
                setup,
                parts.cnf,
                parts.next as int,
                parts.objs@,
                opts,
            );
    let parts = choose|parts: InstanceParts| #[trigger]
        parts_of(parts, inst, first) && absorb_all(
            absorb_start(parts.next as int),
            parts.objs@,
        ).1.next <= MAX_VAR_IDX + 1 && set_up(
            kernel,
            setup,
            parts.cnf,
            parts.next as int,
            parts.objs@,
            opts,
        );
    let softs = parts.objs@;
    assert(all_read(softs, instance_objectives(inst)));
    lemma_solves(a, inst);
    let lits = absorb_all(absorb_start(parts.next as int), softs).0;
    assert forall|i: int, v: Valuation| 0 <= i < softs.len() implies #[trigger] cost_under(
        kernel.objs@[i],
        v,
    ) == kernel.objs@[i].external(weight_under(kernel.objs@[i].entries(), v)) && soft_cost(
        softs[i],
        v,
    ) == softs[i].constant_part() + violated_weight(softs[i].softs(), v) by {
        assert(stands_for(kernel.objs@[i], softs[i], lits[i]));
    }
    if cnf_holds(a, clause_views(setup.cnf@)) && cnf_holds(a, clause_views(setup.obj_cnf@)) {
        law_setup_adds_no_solutions(inst, parts, first, kernel, setup, opts, a);
    }
    if solves(a, inst) {
        law_setup_keeps_solutions(inst, parts, first, kernel, setup, opts, a);
        let b = choose|b: Valuation| #[trigger]
            agree_below(a, b, first as int) && {
                &&& cnf_holds(b, clause_views(setup.cnf@))
                &&& cnf_holds(b, clause_views(setup.obj_cnf@))
                &&& forall|i: int|
                    0 <= i < parts.objs@.len() ==> (#[trigger] kernel.objs@[i]).external(
                        weight_under(kernel.objs@[i].entries(), b),
                    ) == parts.objs@[i].constant_part() + violated_weight(
                        parts.objs@[i].softs(),
                        a,
                    )
            };
        assert forall|i: int| 0 <= i < softs.len() implies cost_under(#[trigger] kernel.objs@[i], b)
            == soft_cost(softs[i], a) by {
            assert(cost_under(kernel.objs@[i], a) == cost_under(kernel.objs@[i], a));
        }
        assert(cnf_holds(b, clause_views(setup.cnf@)));
    }
}

} // verus!
