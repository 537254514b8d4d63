//! What blocking a cost point does, said of the arguments and results of the
//! call.
use vstd::prelude::*;

use crate::config::Termination;
use crate::dominance::{
    fresh, is_taken, law_block_keeps_improvements, law_block_needs_rule_nothing_out,
};
use crate::domination::{
    block_clauses, block_lits, blocked_by, counts, encodings_hold, implications, improves, in_order,
    law_block_excludes_dominated, lemma_next_ascends, lit_impl_cube, literal_for_cube, next_before,
    runs_out, takes_part, BlockPart, DominatedBlock,
};
use crate::encoding::{agree_off, ObjEncoding};
use crate::kernel::SolverKernel;
use crate::semantics::{
    clause_holds, cnf_below, cnf_holds, lemma_weight_bounds, lit_holds, Valuation,
};
use crate::types::{clause_views, lemma_flipped, Clause, Lit, MAX_VAR_IDX};
use crate::vars::VarManager;
use crate::weights::{bag_weight, listing};

verus! {

/// Blocking a cost point only fails for want of variables, whatever the costs
/// are: the next free variable is then beyond the last index, and if it is just
/// beyond it, some bound takes a literal of its own. If variables were left at
/// the start, the last one that was taken belongs to an encoding. A point that no
/// objective can improve on is blocked without any variable.
pub proof fn law_blocking_fails_without_variables_only<L, T>(costs: &Vec<usize>)
    ensures
        forall|
            m: &mut SolverKernel<L, T>,
            encs: &mut Vec<ObjEncoding>,
            r: Result<DominatedBlock, Termination>,
        | #[trigger]
            call_ensures(SolverKernel::<L, T>::dominated_block_clause, (m, costs, encs), r)
                && costs@.len() == encs@.len() ==> {
                let next = final(m).var_manager.next;
                &&& r is Err ==> r->Err_0 is VarLimit
                &&& r is Err ==> next > MAX_VAR_IDX
                &&& r is Err && next == MAX_VAR_IDX + 1 ==> exists|i: int, cube|
                    {
                        &&& 0 <= i < costs@.len()
                        &&& costs@[i] > 0
                        &&& #[trigger] final(encs)@[i].state().enforces(costs@[i] - 1, cube)
                        &&& cube.len() != 1
                    }
                &&& r is Err && next > MAX_VAR_IDX + 1 && m.var_manager.next <= MAX_VAR_IDX + 1
                    ==> exists|i: int|
                    {
                        &&& 0 <= i < costs@.len()
                        &&& costs@[i] > 0
                        &&& #[trigger] final(encs)@[i].state().vars.contains(next - 1)
                    }
                &&& (forall|i: int|
                    0 <= i < costs@.len() ==> costs@[i] == 0 || (#[trigger] encs@[i]) is Constant)
                    ==> r is Ok && next == m.var_manager.next
            },
{
    assert forall|
        m: &mut SolverKernel<L, T>,
        encs: &mut Vec<ObjEncoding>,
        r: Result<DominatedBlock, Termination>,
    | #[trigger]
        call_ensures(SolverKernel::<L, T>::dominated_block_clause, (m, costs, encs), r)
            && costs@.len() == encs@.len() && r is Err implies {
        let next = final(m).var_manager.next;
        &&& next > MAX_VAR_IDX
        &&& next == MAX_VAR_IDX + 1 ==> exists|i: int, cube|
            {
                &&& 0 <= i < costs@.len()
                &&& costs@[i] > 0
                &&& #[trigger] final(encs)@[i].state().enforces(costs@[i] - 1, cube)
                &&& cube.len() != 1
            }
        &&& next > MAX_VAR_IDX + 1 && m.var_manager.next <= MAX_VAR_IDX + 1 ==> exists|i: int|
            {
                &&& 0 <= i < costs@.len()
                &&& costs@[i] > 0
                &&& #[trigger] final(encs)@[i].state().vars.contains(next - 1)
            }
    } by {
        let start = m.var_manager.next as int;
        let end = final(m).var_manager.next as int;
        let parts = choose|parts: Seq<BlockPart>| #[trigger]
            runs_out(encs@, final(encs)@, costs@, parts, start, end);
        let k = parts.len() as int;
        assert(counts(encs@[k], costs@[k] as int));
        if start <= MAX_VAR_IDX + 1 {
            lemma_parts_in_range(encs@, final(encs)@, costs@, parts, start, k);
        }
        let n = next_before(parts, start, k);
        if !(n > MAX_VAR_IDX + 1 && final(encs)@[k] == encs@[k] && end == n) {
            let cls = choose|cls: Seq<Seq<Lit>>|
                {
                    &&& #[trigger] encs@[k].state().encoded_to(
                        final(encs)@[k].state(),
                        costs@[k] - 1,
                        costs@[k] as int,
                        n,
                        cls,
                        end,
                    )
                    &&& end > MAX_VAR_IDX + 1 || end == MAX_VAR_IDX + 1 && exists|cube: Seq<Lit>|
                        #[trigger] final(encs)@[k].state().enforces(costs@[k] - 1, cube)
                            && cube.len() != 1
                };
            if n < end {
                assert(final(encs)@[k].state().vars.contains(end - 1));
            }
        }
    }
    assert forall|
        m: &mut SolverKernel<L, T>,
        encs: &mut Vec<ObjEncoding>,
        r: Result<DominatedBlock, Termination>,
    | #[trigger]
        call_ensures(SolverKernel::<L, T>::dominated_block_clause, (m, costs, encs), r)
            && costs@.len() == encs@.len() && (forall|i: int|
            0 <= i < costs@.len() ==> costs@[i] == 0 || (
            #[trigger] encs@[i]) is Constant) implies r is Ok && final(m).var_manager.next
        == m.var_manager.next by {
        assert forall|i: int| 0 <= i < costs@.len() implies !counts(
            #[trigger] encs@[i],
            costs@[i] as int,
        ) by {}
    }
}

/// As long as objectives take part, the next free variable is in range.
proof fn lemma_parts_in_range(
    before: Seq<ObjEncoding>,
    after: Seq<ObjEncoding>,
    costs: Seq<usize>,
    parts: Seq<BlockPart>,
    next: int,
    k: int,
)
    requires
        0 <= k <= parts.len(),
        next <= MAX_VAR_IDX + 1,
        forall|i: int|
            0 <= i < parts.len() ==> takes_part(
                #[trigger] before[i],
                after[i],
                costs[i] as int,
                parts[i],
                next_before(parts, next, i),
            ),
    ensures
        next_before(parts, next, k) <= MAX_VAR_IDX + 1,
    decreases k,
{
    if k > 0 {
        lemma_parts_in_range(before, after, costs, parts, next, k - 1);
        let i = k - 1;
        assert(takes_part(
            before[i],
            after[i],
            costs[i] as int,
            parts[i],
            next_before(parts, next, i),
        ));
    }
}

/// Whether some objective that is not constant weighs less than its cost.
pub open spec fn better_somewhere(
    a: Valuation,
    encs: Seq<ObjEncoding>,
    costs: Seq<usize>,
) -> bool {
    exists|i: int|
        {
            &&& 0 <= i < costs.len()
            &&& !((#[trigger] encs[i]) is Constant)
            &&& bag_weight(encs[i].state().inputs, a) < costs[i]
        }
}

/// A block does what it says, for any costs: whatever satisfies the clause, what
/// it needs and what was handed out before weighs less than the cost in some
/// objective. Conversely, an assignment that does can be made to satisfy all of
/// that by a choice of values for variables that encodings have taken or that
/// were free before. The rest of the kernel is left alone.
pub proof fn law_blocks_rule_out_dominated<L, T>(costs: &Vec<usize>, a: Valuation)
    ensures
        forall|
            m: &mut SolverKernel<L, T>,
            encs: &mut Vec<ObjEncoding>,
            r: Result<DominatedBlock, Termination>,
        | #[trigger]
            call_ensures(SolverKernel::<L, T>::dominated_block_clause, (m, costs, encs), r)
                && in_order(encs@, m.var_manager.next as int) && r is Ok ==> {
                let block = r->Ok_0;
                &&& (forall|i: int|
                    0 <= i < encs@.len() ==> cnf_holds(a, (#[trigger] encs@[i]).state().clauses))
                    && cnf_holds(a, clause_views(block.cnf@)) && clause_holds(a, block.clause@)
                    ==> better_somewhere(a, encs@, costs@)
                &&& better_somewhere(a, encs@, costs@) ==> exists|b: Valuation|
                    {
                        &&& #[trigger] cnf_holds(b, clause_views(block.cnf@))
                        &&& clause_holds(b, block.clause@)
                        &&& forall|i: int|
                            0 <= i < encs@.len() ==> cnf_holds(
                                b,
                                (#[trigger] final(encs)@[i]).state().clauses,
                            )
                        &&& forall|v: int| #[trigger]
                            a.contains(v) != b.contains(v) ==> m.var_manager.next <= v
                                < final(m).var_manager.next || is_taken(final(encs)@, v)
                    }
                &&& m.var_manager.next <= final(m).var_manager.next
                &&& final(m).objs == m.objs
                &&& final(m).stats == m.stats
                &&& final(m).lims == m.lims
                &&& final(m).pareto_front == m.pareto_front
                &&& final(m).logger == m.logger
                &&& final(m).opts == m.opts
                &&& final(m).max_orig_var == m.max_orig_var
            },
{
    assert forall|
        m: &mut SolverKernel<L, T>,
        encs: &mut Vec<ObjEncoding>,
        r: Result<DominatedBlock, Termination>,
    | #[trigger]
        call_ensures(SolverKernel::<L, T>::dominated_block_clause, (m, costs, encs), r)
            && in_order(encs@, m.var_manager.next as int) && r is Ok implies {
        let block = r->Ok_0;
        &&& (forall|i: int|
            0 <= i < encs@.len() ==> cnf_holds(a, (#[trigger] encs@[i]).state().clauses))
            && cnf_holds(a, clause_views(block.cnf@)) && clause_holds(a, block.clause@)
            ==> better_somewhere(a, encs@, costs@)
        &&& better_somewhere(a, encs@, costs@) ==> exists|b: Valuation|
            {
                &&& #[trigger] cnf_holds(b, clause_views(block.cnf@))
                &&& clause_holds(b, block.clause@)
                &&& forall|i: int|
                    0 <= i < encs@.len() ==> cnf_holds(
                        b,
                        (#[trigger] final(encs)@[i]).state().clauses,
                    )
                &&& forall|v: int| #[trigger]
                    a.contains(v) != b.contains(v) ==> m.var_manager.next <= v
                        < final(m).var_manager.next || is_taken(final(encs)@, v)
            }
        &&& m.var_manager.next <= final(m).var_manager.next
    } by {
        let block = r->Ok_0;
        let next = m.var_manager.next as int;
        let end = final(m).var_manager.next as int;
        let parts = choose|parts: Seq<BlockPart>| #[trigger]
            blocked_by(encs@, final(encs)@, costs@, parts, next) && {
                &&& block.clause@ == block_lits(encs@, costs@, parts)
                &&& clause_views(block.cnf@) == block_clauses(encs@, costs@, parts)
                &&& final(m).var_manager.next == next_before(parts, next, costs@.len() as int)
            };
        if encodings_hold(a, encs@) && cnf_holds(a, clause_views(block.cnf@)) && clause_holds(
            a,
            block.clause@,
        ) {
            law_block_excludes_dominated(encs@, final(encs)@, costs@, parts, next, a);
            let i = choose|i: int|
                0 <= i < costs@.len() && counts(#[trigger] encs@[i], costs@[i] as int)
                    && bag_weight(encs@[i].state().inputs, a) < costs@[i];
            assert(!(encs@[i] is Constant));
        }
        lemma_next_ascends(encs@, final(encs)@, costs@, parts, next, 0, costs@.len() as int);
        if better_somewhere(a, encs@, costs@) {
            let i = choose|i: int|
                {
                    &&& 0 <= i < costs@.len()
                    &&& !((#[trigger] encs@[i]) is Constant)
                    &&& bag_weight(encs@[i].state().inputs, a) < costs@[i]
                };
            lemma_weight_bounds(listing(encs@[i].state().inputs), a, Seq::empty());
            assert(counts(encs@[i], costs@[i] as int));
            assert(improves(a, encs@, costs@));
            law_block_keeps_improvements(encs@, final(encs)@, costs@, parts, next, a);
        }
    }
}

/// What a block needs rules nothing out on its own: whatever satisfies a formula
/// over the variables in use, and the clauses of the encodings, satisfies what
/// the block needs and all clauses of the encodings too, once the variables that
/// the call has taken have suitable values.
pub proof fn law_block_needs_are_harmless<L, T>(
    costs: &Vec<usize>,
    base: Seq<Seq<Lit>>,
    a: Valuation,
)
    ensures
        forall|
            m: &mut SolverKernel<L, T>,
            encs: &mut Vec<ObjEncoding>,
            r: Result<DominatedBlock, Termination>,
        | #[trigger]
            call_ensures(SolverKernel::<L, T>::dominated_block_clause, (m, costs, encs), r)
                && in_order(encs@, m.var_manager.next as int) && r is Ok && cnf_below(
                base,
                m.var_manager.next as int,
            ) && cnf_holds(a, base) && (forall|i: int|
                0 <= i < encs@.len() ==> cnf_holds(a, (#[trigger] encs@[i]).state().clauses))
                ==> exists|b: Valuation|
                {
                    &&& #[trigger] cnf_holds(b, clause_views(r->Ok_0.cnf@))
                    &&& cnf_holds(b, base)
                    &&& forall|i: int|
                        0 <= i < encs@.len() ==> cnf_holds(
                            b,
                            (#[trigger] final(encs)@[i]).state().clauses,
                        )
                    &&& forall|v: int| #[trigger]
                        a.contains(v) != b.contains(v) ==> m.var_manager.next <= v
                            < final(m).var_manager.next
                },
{
    assert forall|
        m: &mut SolverKernel<L, T>,
        encs: &mut Vec<ObjEncoding>,
        r: Result<DominatedBlock, Termination>,
    | #[trigger]
        call_ensures(SolverKernel::<L, T>::dominated_block_clause, (m, costs, encs), r)
            && in_order(encs@, m.var_manager.next as int) && r is Ok && cnf_below(
            base,
            m.var_manager.next as int,
        ) && cnf_holds(a, base) && (forall|i: int|
            0 <= i < encs@.len() ==> cnf_holds(
                a,
                (#[trigger] encs@[i]).state().clauses,
            )) implies exists|b: Valuation|
        {
            &&& #[trigger] cnf_holds(b, clause_views(r->Ok_0.cnf@))
            &&& cnf_holds(b, base)
            &&& forall|i: int|
                0 <= i < encs@.len() ==> cnf_holds(
                    b,
                    (#[trigger] final(encs)@[i]).state().clauses,
                )
            &&& forall|v: int| #[trigger]
                a.contains(v) != b.contains(v) ==> m.var_manager.next <= v
                    < final(m).var_manager.next
        } by {
        let block = r->Ok_0;
        let next = m.var_manager.next as int;
        let parts = choose|parts: Seq<BlockPart>| #[trigger]
            blocked_by(encs@, final(encs)@, costs@, parts, next) && {
                &&& block.clause@ == block_lits(encs@, costs@, parts)
                &&& clause_views(block.cnf@) == block_clauses(encs@, costs@, parts)
                &&& final(m).var_manager.next == next_before(parts, next, costs@.len() as int)
            };
        assert(encodings_hold(a, encs@));
        law_block_needs_rule_nothing_out(encs@, final(encs)@, costs@, parts, next, base, a);
        let end = next_before(parts, next, costs@.len() as int);
        let b = choose|b: Valuation| #[trigger]
            agree_off(a, b, fresh(next, end)) && {
                &&& cnf_holds(b, base)
                &&& encodings_hold(b, final(encs)@)
                &&& cnf_holds(b, block_clauses(encs@, costs@, parts))
            };
        assert forall|v: int| #[trigger] a.contains(v) != b.contains(v) implies next <= v
            < end by {
            assert(fresh(next, end).contains(v));
        }
    }
}

/// A literal implies each literal of a cube: the clauses hold exactly if the
/// literal is false or the whole cube is true.
pub proof fn law_implications_hold(l: Lit, cube: &Vec<Lit>, cnf: Vec<Clause>, a: Valuation)
    requires
        call_ensures(lit_impl_cube, (l, cube), cnf),
    ensures
        cnf@.len() == cube@.len(),
        cnf_holds(a, clause_views(cnf@)) <==> (lit_holds(a, l) ==> forall|i: int|
            0 <= i < cube@.len() ==> lit_holds(a, #[trigger] cube@[i])),
{
    assert(clause_views(cnf@).len() == cnf@.len());
    lemma_implied(a, l, cube@);
}

/// One literal stands for a cube: a single literal for itself, and a new one for
/// any other cube, which then implies it and changes nothing else. This fails
/// exactly if a new literal is needed and there is none.
pub proof fn law_cubes_get_literals(cube: &Vec<Lit>, a: Valuation)
    ensures
        forall|m: &mut VarManager, r: Option<(Lit, Vec<Clause>)>| #[trigger]
            call_ensures(literal_for_cube, (cube, m), r) ==> {
                &&& cube@.len() == 1 ==> r is Some && final(m).next == m.next && (r->0).0
                    == cube@[0] && (r->0).1@.len() == 0
                &&& cube@.len() != 1 && m.next <= MAX_VAR_IDX ==> {
                    &&& r is Some
                    &&& final(m).next == m.next + 1
                    &&& (r->0).0.lidx == 2 * m.next
                    &&& cnf_holds(a, clause_views((r->0).1@)) <==> (lit_holds(a, (r->0).0)
                        ==> forall|i: int|
                        0 <= i < cube@.len() ==> lit_holds(a, #[trigger] cube@[i]))
                }
                &&& cube@.len() != 1 && m.next > MAX_VAR_IDX ==> r is None && final(m).next
                    == m.next
            },
{
    assert forall|m: &mut VarManager, r: Option<(Lit, Vec<Clause>)>| #[trigger]
        call_ensures(literal_for_cube, (cube, m), r) && cube@.len() != 1 && m.next
            <= MAX_VAR_IDX implies (cnf_holds(a, clause_views((r->0).1@)) <==> (lit_holds(
        a,
        (r->0).0,
    ) ==> forall|i: int| 0 <= i < cube@.len() ==> lit_holds(a, #[trigger] cube@[i]))) by {
        let l = (r->0).0;
        lemma_implied(a, l, cube@);
    }
}

/// Implications hold if what they imply does, or the literal is false.
proof fn lemma_implied(a: Valuation, l: Lit, cube: Seq<Lit>)
    ensures
        cnf_holds(a, implications(l, cube)) <==> (lit_holds(a, l) ==> forall|i: int|
            0 <= i < cube.len() ==> lit_holds(a, #[trigger] cube[i])),
{
    let cls = implications(l, cube);
    lemma_flipped(l);
    assert forall|i: int| 0 <= i < cube.len() implies (clause_holds(a, #[trigger] cls[i]) <==> (
    lit_holds(a, l) ==> lit_holds(a, cube[i]))) by {
        assert(cls[i] == seq![l.flipped(), cube[i]]);
        assert(cls[i][0] == l.flipped() && cls[i][1] == cube[i]);
        if lit_holds(a, cube[i]) {
            assert(lit_holds(a, cls[i][1]));
        }
        if !lit_holds(a, l) {
            assert(lit_holds(a, cls[i][0]));
        }
    }
    if cnf_holds(a, cls) && lit_holds(a, l) {
        assert forall|i: int| 0 <= i < cube.len() implies lit_holds(a, #[trigger] cube[i]) by {
            assert(clause_holds(a, cls[i]));
        }
    }
}

/// The number of objectives that can be improved on: those with a cost that are
/// not constant.
pub open spec fn n_improvable(encs: Seq<ObjEncoding>, costs: Seq<usize>) -> int
    decreases costs.len(),
{
    if costs.len() == 0 {
        0
    } else {
        let i = costs.len() - 1;
        n_improvable(encs, costs.drop_last()) + if costs[i] > 0 && !(encs[i] is Constant) {
            1int
        } else {
            0
        }
    }
}

/// There is one literal for each objective that takes part.
proof fn lemma_block_len(encs: Seq<ObjEncoding>, costs: Seq<usize>, parts: Seq<BlockPart>)
    requires
        parts.len() == costs.len(),
    ensures
        block_lits(encs, costs, parts).len() == n_improvable(encs, costs),
    decreases parts.len(),
{
    if parts.len() > 0 {
        lemma_block_len(encs, costs.drop_last(), parts.drop_last());
        lemma_block_prefix(encs, costs, parts.drop_last());
    }
}

/// The literals of the first objectives do not depend on the cost of the last.
proof fn lemma_block_prefix(encs: Seq<ObjEncoding>, costs: Seq<usize>, parts: Seq<BlockPart>)
    requires
        parts.len() < costs.len(),
    ensures
        block_lits(encs, costs, parts) == block_lits(encs, costs.drop_last(), parts),
    decreases parts.len(),
{
    if parts.len() > 0 {
        lemma_block_prefix(encs, costs, parts.drop_last());
    }
}

/// A blocking clause has one literal for each objective that can be improved on,
/// and the encodings of all other objectives are left alone. Whenever there are
/// as many costs as encodings in order, a block can be asked for.
pub proof fn law_blocks_have_a_literal_for_each<L, T>(costs: &Vec<usize>)
    ensures
        forall|
            m: &mut SolverKernel<L, T>,
            encs: &mut Vec<ObjEncoding>,
            r: Result<DominatedBlock, Termination>,
        | #[trigger]
            call_ensures(SolverKernel::<L, T>::dominated_block_clause, (m, costs, encs), r)
                && costs@.len() == encs@.len() ==> {
                &&& r is Ok ==> r->Ok_0.clause.lits@.len() == n_improvable(encs@, costs@)
                &&& final(encs)@.len() == encs@.len()
                &&& forall|i: int|
                    0 <= i < costs@.len() && (costs@[i] == 0 || (#[trigger] encs@[i]) is Constant)
                        ==> final(encs)@[i] == encs@[i]
                &&& r is Ok ==> forall|i: int|
                    0 <= i < costs@.len() ==> (#[trigger] final(encs)@[i]).state().inputs
                        == encs@[i].state().inputs
            },
        forall|m: &mut SolverKernel<L, T>, encs: &mut Vec<ObjEncoding>|
            costs@.len() == encs@.len() && in_order(encs@, m.var_manager.next as int)
                ==> #[trigger] call_requires(
                SolverKernel::<L, T>::dominated_block_clause,
                (m, costs, encs),
            ),
{
    assert forall|
        m: &mut SolverKernel<L, T>,
        encs: &mut Vec<ObjEncoding>,
        r: Result<DominatedBlock, Termination>,
    | #[trigger]
        call_ensures(SolverKernel::<L, T>::dominated_block_clause, (m, costs, encs), r)
            && costs@.len() == encs@.len() && r is Ok implies {
        &&& r->Ok_0.clause.lits@.len() == n_improvable(encs@, costs@)
        &&& forall|i: int|
            0 <= i < costs@.len() ==> (#[trigger] final(encs)@[i]).state().inputs
                == encs@[i].state().inputs
    } by {
        let block = r->Ok_0;
        let next = m.var_manager.next as int;
        let parts = choose|parts: Seq<BlockPart>| #[trigger]
            blocked_by(encs@, final(encs)@, costs@, parts, next) && {
                &&& block.clause@ == block_lits(encs@, costs@, parts)
                &&& clause_views(block.cnf@) == block_clauses(encs@, costs@, parts)
                &&& final(m).var_manager.next == next_before(parts, next, costs@.len() as int)
            };
        lemma_block_len(encs@, costs@, parts);
        assert forall|i: int| 0 <= i < costs@.len() implies (
        #[trigger] final(encs)@[i]).state().inputs == encs@[i].state().inputs by {
            assert(takes_part(
                encs@[i],
                final(encs)@[i],
                costs@[i] as int,
                parts[i],
                next_before(parts, next, i),
            ));
        }
    }
    assert forall|
        m: &mut SolverKernel<L, T>,
        encs: &mut Vec<ObjEncoding>,
        r: Result<DominatedBlock, Termination>,
        i: int,
    |
        #[trigger] call_ensures(SolverKernel::<L, T>::dominated_block_clause, (m, costs, encs), r)
            && costs@.len() == encs@.len() && 0 <= i < costs@.len() && (costs@[i] == 0 || (
        #[trigger] encs@[i]) is Constant) implies final(encs)@[i] == encs@[i] by {
        assert(!counts(encs@[i], costs@[i] as int));
    }
}

} // verus!
