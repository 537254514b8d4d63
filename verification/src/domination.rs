//! Clauses that block what a cost point dominates.
use vstd::prelude::*;

use crate::config::Termination;
use crate::encoding::ObjEncoding;
use crate::kernel::SolverKernel;
use crate::objective::Objective;
use crate::semantics::{
    all_hold, clause_holds, cnf_holds, lemma_clause_push, lemma_cnf_append,
    lemma_weight_bounds, lit_holds, weight_under, Valuation,
};
use crate::types::{clause_views, lemma_flipped, lemma_over, Clause, Lit, MAX_VAR_IDX};
use crate::vars::VarManager;
use crate::weights::{bag_weight, lemma_bag};

verus! {

/// The clauses by which a literal implies each literal of a cube.
pub open spec fn implications(l: Lit, cube: Seq<Lit>) -> Seq<Seq<Lit>> {
    Seq::new(cube.len(), |i: int| seq![l.flipped(), cube[i]])
}

/// Builds the clauses by which a literal implies each literal of a cube.
pub fn lit_impl_cube(l: Lit, cube: &Vec<Lit>) -> (cnf: Vec<Clause>)
    ensures
        clause_views(cnf@) == implications(l, cube@),
{
    let mut cnf: Vec<Clause> = Vec::new();
    for i in 0..cube.len()
        invariant
            clause_views(cnf@) == implications(l, cube@.take(i as int)),
    {
        let mut cl = Clause::new();
        cl.add(l.negate());
        cl.add(cube[i]);
        assert(cl@ =~= seq![l.flipped(), cube@[i as int]]);
        let ghost earlier = cnf@;
        cnf.push(cl);
        assert(clause_views(cnf@) =~= clause_views(earlier).push(cl@));
        assert(clause_views(cnf@) =~= implications(l, cube@.take(i + 1)));
    }
    assert(cube@.take(cube@.len() as int) =~= cube@);
    cnf
}

/// Gets one literal for a cube: the only literal if there is exactly one, and
/// a new literal that implies the cube otherwise. Gives nothing if a new
/// variable is needed and there is none.
pub fn literal_for_cube(cube: &Vec<Lit>, var_manager: &mut VarManager) -> (r: Option<
    (Lit, Vec<Clause>),
>)
    ensures
        r is None <==> cube@.len() != 1 && !old(var_manager).has_free(),
        r is None || cube@.len() == 1 ==> *final(var_manager) == *old(var_manager),
        r matches Some((l, cnf)) ==> if cube@.len() == 1 {
            l == cube@[0] && cnf@.len() == 0
        } else {
            &&& l == Lit::over(old(var_manager).next as int, false)
            &&& final(var_manager).next == old(var_manager).next + 1
            &&& clause_views(cnf@) == implications(l, cube@)
        },
{
    if cube.len() == 1 {
        return Some((cube[0], Vec::new()));
    }
    if var_manager.next > MAX_VAR_IDX {
        return None;
    }
    let and_lit = Lit::new(var_manager.new_var().idx, false);
    let cnf = lit_impl_cube(and_lit, cube);
    Some((and_lit, cnf))
}

/// How one objective takes part in a blocking clause.
pub struct BlockPart {
    /// The clauses that encode the bound below the cost.
    pub cls: Seq<Seq<Lit>>,
    /// The next free variable after these.
    pub mid: int,
    /// The literals that enforce the bound.
    pub cube: Seq<Lit>,
    /// The literal that stands for them.
    pub lit: Lit,
    /// The next free variable in the end.
    pub next: int,
}

/// Whether an objective takes part in blocking a cost: a cost of zero cannot
/// be improved, and a constant never changes.
pub open spec fn counts(enc: ObjEncoding, cost: int) -> bool {
    cost != 0 && !(enc is Constant)
}

/// The clauses that one objective contributes.
pub open spec fn part_clauses(part: BlockPart) -> Seq<Seq<Lit>> {
    if part.cube.len() == 1 {
        part.cls
    } else {
        part.cls + implications(part.lit, part.cube)
    }
}

/// Whether `part` is how an objective takes part: a bound of one below the cost
/// is encoded and enforced, and one literal stands for the bound.
pub open spec fn takes_part(
    before: ObjEncoding,
    after: ObjEncoding,
    cost: int,
    part: BlockPart,
    next: int,
) -> bool {
    if counts(before, cost) {
        &&& after.fits()
        &&& before.state().encoded_to(after.state(), cost - 1, cost, next, part.cls, part.mid)
        &&& after.state().enforces(cost - 1, part.cube)
        &&& if part.cube.len() == 1 {
            part.lit == part.cube[0] && part.next == part.mid <= MAX_VAR_IDX + 1
        } else {
            part.lit == Lit::over(part.mid, false) && part.next == part.mid + 1 <= MAX_VAR_IDX + 1
        }
    } else {
        after == before && part.next == next
    }
}

/// The next free variable before the `i`-th objective takes part.
pub open spec fn next_before(parts: Seq<BlockPart>, start: int, i: int) -> int {
    if i == 0 {
        start
    } else {
        parts[i - 1].next
    }
}

/// The literals of the objectives that take part, in order.
pub open spec fn block_lits(
    encs: Seq<ObjEncoding>,
    costs: Seq<usize>,
    parts: Seq<BlockPart>,
) -> Seq<Lit>
    decreases parts.len(),
{
    if parts.len() == 0 {
        Seq::empty()
    } else {
        let rest = block_lits(encs, costs, parts.drop_last());
        let i = parts.len() - 1;
        if counts(encs[i], costs[i] as int) {
            rest.push(parts[i].lit)
        } else {
            rest
        }
    }
}

/// The clauses of the objectives that take part, in order.
pub open spec fn block_clauses(
    encs: Seq<ObjEncoding>,
    costs: Seq<usize>,
    parts: Seq<BlockPart>,
) -> Seq<Seq<Lit>>
    decreases parts.len(),
{
    if parts.len() == 0 {
        Seq::empty()
    } else {
        let rest = block_clauses(encs, costs, parts.drop_last());
        let i = parts.len() - 1;
        if counts(encs[i], costs[i] as int) {
            rest + part_clauses(parts[i])
        } else {
            rest
        }
    }
}

/// Whether `parts` is how the objectives make up a blocking clause.
pub open spec fn blocked_by(
    before: Seq<ObjEncoding>,
    after: Seq<ObjEncoding>,
    costs: Seq<usize>,
    parts: Seq<BlockPart>,
    next: int,
) -> bool {
    &&& before.len() == costs.len()
    &&& after.len() == costs.len()
    &&& parts.len() == costs.len()
    &&& forall|i: int|
        0 <= i < costs.len() ==> takes_part(
            #[trigger] before[i],
            after[i],
            costs[i] as int,
            parts[i],
            next_before(parts, next, i),
        )
}

/// The encodings are in order, use variables below `next` only, and no two of
/// them take the same variable or a variable of an input.
pub open spec fn in_order(encs: Seq<ObjEncoding>, next: int) -> bool {
    &&& forall|i: int|
        0 <= i < encs.len() ==> {
            &&& (#[trigger] encs[i]).fits()
            &&& encs[i].state().below(next)
            &&& encs[i].state().disjoint()
            &&& encs[i].state().closed_clauses()
            &&& encs[i].state().conservative()
        }
    &&& forall|i: int, j: int, v: int|
        0 <= i < encs.len() && 0 <= j < encs.len() && i != j && #[trigger] encs[i].state().vars.contains(
            v,
        ) ==> !#[trigger] encs[j].state().knows(v)
}

/// Encodings that have not handed out any clauses yet and that have taken no
/// variables are in order.
pub proof fn law_new_encodings_in_order(encs: Seq<ObjEncoding>, next: int)
    requires
        forall|i: int|
            0 <= i < encs.len() ==> {
                &&& (#[trigger] encs[i]).fits()
                &&& encs[i].state().below(next)
                &&& encs[i].state().clauses.len() == 0
                &&& encs[i].state().vars == Set::<int>::empty()
            },
    ensures
        in_order(encs, next),
{
}

/// Encodings stay in order when more variables are in use.
pub proof fn law_more_variables_keep_order(encs: Seq<ObjEncoding>, next: int, more: int)
    requires
        in_order(encs, next),
        next <= more,
    ensures
        in_order(encs, more),
{
    assert forall|i: int| 0 <= i < encs.len() implies (#[trigger] encs[i]).state().below(more) by {
        let st = encs[i].state();
        assert(st.below(next));
        assert forall|v: int| #[trigger] st.vars.contains(v) implies 0 <= v < more by {}
        assert forall|x: (Lit, usize)| #[trigger] st.inputs.count(x) > 0 implies x.0.var()
            < more by {}
    }
}

/// Encodings stay in order when bounds are encoded with one of them.
pub proof fn law_encoding_keeps_order(
    encs: Seq<ObjEncoding>,
    k: int,
    after: ObjEncoding,
    lo: int,
    hi: int,
    next: int,
    cls: Seq<Seq<Lit>>,
    new_next: int,
)
    requires
        0 <= next,
        in_order(encs, next),
        0 <= k < encs.len(),
        encs[k].state().encoded_to(after.state(), lo, hi, next, cls, new_next),
        after.fits(),
        new_next <= MAX_VAR_IDX + 1,
    ensures
        in_order(encs.update(k, after), new_next),
{
    let all = encs.update(k, after);
    let was = encs[k].state();
    let now = after.state();
    law_more_variables_keep_order(encs, next, new_next);
    assert(was.below(next) && was.disjoint());
    assert forall|x: (Lit, usize)| #[trigger] now.inputs.count(x) > 0 implies x.0.var() < next
        && !now.vars.contains(x.0.var()) by {
        assert(was.inputs.count(x) > 0);
    }
    assert forall|v: int| #[trigger] now.knows(v) implies was.knows(v) || next <= v < new_next by {
        if !now.vars.contains(v) {
            let x = choose|x: (Lit, usize)| #[trigger] now.inputs.count(x) > 0 && x.0.var() == v;
            assert(was.inputs.count(x) > 0);
        }
    }
    assert forall|i: int, j: int, v: int|
        0 <= i < all.len() && 0 <= j < all.len() && i != j
            && #[trigger] all[i].state().vars.contains(v) implies !#[trigger] all[j].state().knows(
        v,
    ) by {
        if i == k {
            assert(encs[j].state().below(next));
            if was.vars.contains(v) {
                assert(!encs[j].state().knows(v));
            } else if all[j].state().knows(v) && !all[j].state().vars.contains(v) {
                let x = choose|x: (Lit, usize)| #[trigger]
                    encs[j].state().inputs.count(x) > 0 && x.0.var() == v;
                assert(x.0.var() < next);
            }
        } else {
            assert(encs[i].state().below(next));
            assert(encs[i].state().vars.contains(v));
            assert(!encs[j].state().knows(v));
        }
    }
}

/// Whether the variables run out when the objectives make up a blocking clause:
/// the first ones take part as `parts` says, and the next one needs a variable
/// that there is not, either for encoding the bound or for a literal that stands
/// for it. `end` is the next free variable then.
pub open spec fn runs_out(
    before: Seq<ObjEncoding>,
    after: Seq<ObjEncoding>,
    costs: Seq<usize>,
    parts: Seq<BlockPart>,
    next: int,
    end: int,
) -> bool {
    let m = parts.len() as int;
    let n = next_before(parts, next, m);
    &&& m < costs.len()
    &&& forall|i: int|
        0 <= i < m ==> takes_part(
            #[trigger] before[i],
            after[i],
            costs[i] as int,
            parts[i],
            next_before(parts, next, i),
        )
    &&& forall|i: int| m < i < costs.len() ==> after[i] == #[trigger] before[i]
    &&& counts(before[m], costs[m] as int)
    &&& {
        ||| n > MAX_VAR_IDX + 1 && after[m] == before[m] && end == n
        ||| exists|cls: Seq<Seq<Lit>>| {
            &&& #[trigger] before[m].state().encoded_to(
                after[m].state(),
                costs[m] - 1,
                costs[m] as int,
                n,
                cls,
                end,
            )
            &&& end > MAX_VAR_IDX + 1 || end == MAX_VAR_IDX + 1 && exists|cube: Seq<Lit>|
                #[trigger] after[m].state().enforces(costs[m] - 1, cube) && cube.len() != 1
        }
    }
}

/// A clause that blocks what a cost point dominates, and what it needs.
pub struct DominatedBlock {
    /// The blocking clause.
    pub clause: Clause,
    /// Clauses that have to hold for the blocking clause to work.
    pub cnf: Vec<Clause>,
}

impl<L, T> SolverKernel<L, T> {
    /// Gets a clause blocking solutions (weakly) dominated by the given cost
    /// point, given objective encodings. Errors if there are no variables left.
    pub fn dominated_block_clause(
        &mut self,
        costs: &Vec<usize>,
        obj_encs: &mut Vec<ObjEncoding>,
    ) -> (r: Result<DominatedBlock, Termination>)
        requires
            costs@.len() == old(obj_encs)@.len(),
            in_order(old(obj_encs)@, old(self).var_manager.next as int),
        ensures
            *final(self) == (SolverKernel {
                var_manager: final(self).var_manager,
                ..*old(self)
            }),
            old(self).wf() ==> final(self).wf(),
            final(obj_encs)@.len() == old(obj_encs)@.len(),
            forall|i: int|
                0 <= i < costs@.len() && !counts(#[trigger] old(obj_encs)@[i], costs@[i] as int)
                    ==> final(obj_encs)@[i] == old(obj_encs)@[i],
            (forall|i: int|
                0 <= i < costs@.len() ==> !counts(#[trigger] old(obj_encs)@[i], costs@[i] as int))
                ==> {
                &&& r matches Ok(block) && block.clause@.len() == 0 && block.cnf@.len() == 0
                &&& *final(self) == *old(self)
                &&& final(obj_encs)@ == old(obj_encs)@
            },
            r matches Err(t) ==> t is VarLimit,
            r is Err ==> exists|parts: Seq<BlockPart>| #[trigger]
                runs_out(
                    old(obj_encs)@,
                    final(obj_encs)@,
                    costs@,
                    parts,
                    old(self).var_manager.next as int,
                    final(self).var_manager.next as int,
                ),
            r is Ok ==> in_order(final(obj_encs)@, final(self).var_manager.next as int),
            r matches Ok(block) ==> exists|parts: Seq<BlockPart>| #[trigger]
                blocked_by(
                    old(obj_encs)@,
                    final(obj_encs)@,
                    costs@,
                    parts,
                    old(self).var_manager.next as int,
                ) && {
                    &&& block.clause@ == block_lits(old(obj_encs)@, costs@, parts)
                    &&& clause_views(block.cnf@) == block_clauses(old(obj_encs)@, costs@, parts)
                    &&& final(self).var_manager.next == next_before(
                        parts,
                        old(self).var_manager.next as int,
                        costs@.len() as int,
                    )
                },
    {
        let mut clause = Clause::new();
        let mut cnf: Vec<Clause> = Vec::new();
        let ghost start = self.var_manager.next as int;
        let ghost before = obj_encs@;
        let ghost mut parts: Seq<BlockPart> = Seq::empty();
        assert(clause_views(cnf@) =~= Seq::empty());
        for idx in 0..costs.len()
            invariant
                before == old(obj_encs)@,
                costs@.len() == before.len(),
                obj_encs@.len() == before.len(),
                in_order(before, start),
                start == old(self).var_manager.next,
                (forall|i: int| 0 <= i < idx ==> !counts(#[trigger] before[i], costs@[i] as int))
                    ==> {
                    &&& clause@.len() == 0
                    &&& cnf@.len() == 0
                    &&& self.var_manager == old(self).var_manager
                    &&& obj_encs@ == before
                },
                *self == (SolverKernel { var_manager: self.var_manager, ..*old(self) }),
                start <= self.var_manager.next,
                parts.len() == idx,
                self.var_manager.next == next_before(parts, start, idx as int),
                clause@ == block_lits(before, costs@, parts),
                clause_views(cnf@) == block_clauses(before, costs@, parts),
                forall|i: int| idx <= i < before.len() ==> obj_encs@[i] == #[trigger] before[i],
                forall|i: int|
                    0 <= i < idx ==> takes_part(
                        #[trigger] before[i],
                        obj_encs@[i],
                        costs@[i] as int,
                        parts[i],
                        next_before(parts, start, i),
                    ),
        {
            let cst = costs[idx];
            let ghost i = idx as int;
            let ghost next = self.var_manager.next as int;
            let ghost earlier = obj_encs@;
            let ghost earlier_parts = parts;
            let is_constant = match &obj_encs[idx] {
                ObjEncoding::Constant => true,
                _ => false,
            };
            assert(before[i] == obj_encs@[i]);
            let ghost mut part = BlockPart {
                cls: Seq::empty(),
                mid: next,
                cube: Seq::empty(),
                lit: Lit { lidx: 0 },
                next,
            };
            // Don't block
            if cst != 0 && !is_constant {
                if self.var_manager.next > MAX_VAR_IDX + 1 {
                    assert(runs_out(before, obj_encs@, costs@, parts, start, next));
                    return Err(Termination::VarLimit);
                }
                let enc = &mut obj_encs[idx];
                // Encode the bound
                let mut enc_cnf = enc.encode_ub_change(cst - 1..cst, &mut self.var_manager);
                let ghost mid = self.var_manager.next as int;
                let ghost cls = clause_views(enc_cnf@);
                if self.var_manager.next > MAX_VAR_IDX + 1 {
                    proof {
                        assert(before[i].state().encoded_to(
                            obj_encs@[i].state(),
                            costs@[i] - 1,
                            costs@[i] as int,
                            next_before(parts, start, i),
                            cls,
                            mid,
                        ));
                        assert(runs_out(before, obj_encs@, costs@, parts, start, mid));
                    }
                    return Err(Termination::VarLimit);
                }
                proof {
                    assert(enc.state().enforceable(cst - 1));
                }
                let assumps = match enc.enforce_ub(cst - 1) {
                    Ok(assumps) => assumps,
                    Err(_) => {
                        assert(false);
                        Vec::new()
                    },
                };
                proof {
                    part = BlockPart {
                        cls: clause_views(enc_cnf@),
                        mid: self.var_manager.next as int,
                        cube: assumps@,
                        lit: part.lit,
                        next: part.next,
                    };
                }
                let (lit, mut and_impl) = match literal_for_cube(&assumps, &mut self.var_manager) {
                    Some(r) => r,
                    None => {
                        proof {
                            assert(before[i].state().encoded_to(
                                obj_encs@[i].state(),
                                costs@[i] - 1,
                                costs@[i] as int,
                                next_before(parts, start, i),
                                cls,
                                mid,
                            ));
                            assert(obj_encs@[i].state().enforces(costs@[i] - 1, assumps@));
                            assert(runs_out(before, obj_encs@, costs@, parts, start, mid));
                        }
                        return Err(Termination::VarLimit);
                    },
                };
                proof {
                    part = BlockPart { lit, next: self.var_manager.next as int, ..part };
                    assert(part_clauses(part) =~= clause_views(enc_cnf@) + clause_views(and_impl@));
                    assert(clause_views(cnf@ + enc_cnf@ + and_impl@) =~= clause_views(cnf@) + (
                    clause_views(enc_cnf@) + clause_views(and_impl@)));
                }
                clause.add(lit);
                cnf.append(&mut enc_cnf);
                cnf.append(&mut and_impl);
            }
            proof {
                parts = parts.push(part);
                assert(parts.drop_last() =~= earlier_parts);
                assert forall|k: int| 0 <= k < idx + 1 implies takes_part(
                    #[trigger] before[k],
                    obj_encs@[k],
                    costs@[k] as int,
                    parts[k],
                    next_before(parts, start, k),
                ) by {
                    if k < idx {
                        assert(obj_encs@[k] == earlier[k]);
                        assert(parts[k] == earlier_parts[k]);
                        assert(next_before(parts, start, k) == next_before(
                            earlier_parts,
                            start,
                            k,
                        ));
                    }
                }
            }
        }
        proof {
            assert(blocked_by(before, obj_encs@, costs@, parts, start));
            law_blocking_keeps_order(before, obj_encs@, costs@, parts, start);
        }
        Ok(DominatedBlock { clause, cnf })
    }
}

/// Variables are taken in ascending order.
pub proof fn lemma_next_ascends(
    before: Seq<ObjEncoding>,
    after: Seq<ObjEncoding>,
    costs: Seq<usize>,
    parts: Seq<BlockPart>,
    next: int,
    i: int,
    j: int,
)
    requires
        blocked_by(before, after, costs, parts, next),
        0 <= i <= j <= costs.len(),
    ensures
        next_before(parts, next, i) <= next_before(parts, next, j),
    decreases j - i,
{
    if i < j {
        lemma_next_ascends(before, after, costs, parts, next, i, j - 1);
        assert(takes_part(
            before[j - 1],
            after[j - 1],
            costs[j - 1] as int,
            parts[j - 1],
            next_before(parts, next, j - 1),
        ));
    }
}

/// What encodings are once a blocking clause was made of them: they are still
/// in order, and have kept their inputs.
pub proof fn law_blocking_keeps_order(
    before: Seq<ObjEncoding>,
    after: Seq<ObjEncoding>,
    costs: Seq<usize>,
    parts: Seq<BlockPart>,
    next: int,
)
    requires
        0 <= next,
        in_order(before, next),
        blocked_by(before, after, costs, parts, next),
    ensures
        in_order(after, next_before(parts, next, costs.len() as int)),
        forall|i: int|
            0 <= i < costs.len() ==> (#[trigger] after[i]).state().inputs
                == before[i].state().inputs,
{
    let end = next_before(parts, next, costs.len() as int);
    assert forall|i: int| 0 <= i < after.len() implies {
        &&& (#[trigger] after[i]).fits()
        &&& after[i].state().below(end)
        &&& after[i].state().disjoint()
        &&& after[i].state().closed_clauses()
        &&& after[i].state().conservative()
        &&& after[i].state().inputs == before[i].state().inputs
    } by {
        let n = next_before(parts, next, i);
        assert(takes_part(before[i], after[i], costs[i] as int, parts[i], n));
        lemma_next_ascends(before, after, costs, parts, next, 0, i);
        lemma_next_ascends(before, after, costs, parts, next, i, i + 1);
        lemma_next_ascends(before, after, costs, parts, next, i + 1, costs.len() as int);
        let was = before[i].state();
        let now = after[i].state();
        assert(was.below(next) && was.disjoint());
        assert(now.inputs == was.inputs);
        assert forall|x: (Lit, usize)| #[trigger] now.inputs.count(x) > 0 implies x.0.var() < next
            && !now.vars.contains(x.0.var()) by {
            assert(was.inputs.count(x) > 0);
        }
        assert forall|v: int| #[trigger] now.vars.contains(v) implies 0 <= v < end by {}
    }
    assert forall|i: int, j: int, v: int|
        0 <= i < after.len() && 0 <= j < after.len() && i != j
            && #[trigger] after[i].state().vars.contains(v) implies !#[trigger] after[j].state().knows(
        v,
    ) by {
        let ni = next_before(parts, next, i);
        let nj = next_before(parts, next, j);
        assert(takes_part(before[i], after[i], costs[i] as int, parts[i], ni));
        assert(takes_part(before[j], after[j], costs[j] as int, parts[j], nj));
        lemma_next_ascends(before, after, costs, parts, next, 0, i);
        lemma_next_ascends(before, after, costs, parts, next, 0, j);
        if i < j {
            lemma_next_ascends(before, after, costs, parts, next, i + 1, j);
        } else {
            lemma_next_ascends(before, after, costs, parts, next, j + 1, i);
        }
        if after[j].state().knows(v) {
            assert(before[i].state().below(next) && before[j].state().below(next));
            if before[i].state().vars.contains(v) {
                assert(!before[j].state().knows(v));
                if after[j].state().vars.contains(v) {
                    assert(before[j].state().vars.contains(v));
                } else {
                    let x = choose|x: (Lit, usize)| #[trigger]
                        after[j].state().inputs.count(x) > 0 && x.0.var() == v;
                    assert(before[j].state().inputs.count(x) > 0);
                }
            } else {
                assert(ni <= v);
                if !after[j].state().vars.contains(v) {
                    let x = choose|x: (Lit, usize)| #[trigger]
                        after[j].state().inputs.count(x) > 0 && x.0.var() == v;
                    assert(before[j].state().inputs.count(x) > 0);
                }
            }
        }
    }
}

/// The clauses of the objectives hold together exactly if they hold one by one.
pub proof fn lemma_block_clauses(
    encs: Seq<ObjEncoding>,
    costs: Seq<usize>,
    parts: Seq<BlockPart>,
    a: Valuation,
)
    ensures
        cnf_holds(a, block_clauses(encs, costs, parts)) <==> forall|i: int|
            0 <= i < parts.len() && counts(encs[i], costs[i] as int) ==> cnf_holds(
                a,
                part_clauses(#[trigger] parts[i]),
            ),
    decreases parts.len(),
{
    if parts.len() > 0 {
        let init = parts.drop_last();
        let k = parts.len() - 1;
        lemma_block_clauses(encs, costs, init, a);
        lemma_cnf_append(a, block_clauses(encs, costs, init), part_clauses(parts[k]));
        if forall|i: int|
            0 <= i < parts.len() && counts(encs[i], costs[i] as int) ==> cnf_holds(
                a,
                part_clauses(#[trigger] parts[i]),
            ) {
            assert forall|i: int|
                0 <= i < init.len() && counts(encs[i], costs[i] as int) implies cnf_holds(
                a,
                part_clauses(#[trigger] init[i]),
            ) by {
                assert(init[i] == parts[i]);
            }
        }
        if cnf_holds(a, block_clauses(encs, costs, parts)) {
            assert forall|i: int|
                0 <= i < parts.len() && counts(encs[i], costs[i] as int) implies cnf_holds(
                a,
                part_clauses(#[trigger] parts[i]),
            ) by {
                if i < k {
                    assert(init[i] == parts[i]);
                }
            }
        }
    }
}

/// The blocking clause holds exactly if the literal of some objective does.
pub proof fn lemma_block_lits(
    encs: Seq<ObjEncoding>,
    costs: Seq<usize>,
    parts: Seq<BlockPart>,
    a: Valuation,
)
    ensures
        clause_holds(a, block_lits(encs, costs, parts)) <==> exists|i: int|
            0 <= i < parts.len() && counts(encs[i], costs[i] as int) && lit_holds(
                a,
                (#[trigger] parts[i]).lit,
            ),
    decreases parts.len(),
{
    if parts.len() > 0 {
        let init = parts.drop_last();
        let k = parts.len() - 1;
        lemma_block_lits(encs, costs, init, a);
        lemma_clause_push(a, block_lits(encs, costs, init), parts[k].lit);
        if clause_holds(a, block_lits(encs, costs, init)) {
            let i = choose|i: int|
                0 <= i < init.len() && counts(encs[i], costs[i] as int) && lit_holds(
                    a,
                    (#[trigger] init[i]).lit,
                );
            assert(parts[i] == init[i]);
        }
        if exists|i: int|
            0 <= i < parts.len() && counts(encs[i], costs[i] as int) && lit_holds(
                a,
                (#[trigger] parts[i]).lit,
            ) {
            let i = choose|i: int|
                0 <= i < parts.len() && counts(encs[i], costs[i] as int) && lit_holds(
                    a,
                    (#[trigger] parts[i]).lit,
                );
            if i < k {
                assert(init[i] == parts[i]);
            }
        }
    }
}

/// What a literal implies is true if the literal is.
pub proof fn lemma_implications(a: Valuation, l: Lit, cube: Seq<Lit>)
    ensures
        cnf_holds(a, implications(l, cube)) <==> !lit_holds(a, l) || all_hold(a, cube),
{
    lemma_flipped(l);
    let imps = implications(l, cube);
    if cnf_holds(a, imps) && lit_holds(a, l) {
        assert forall|i: int| 0 <= i < cube.len() implies lit_holds(a, #[trigger] cube[i]) by {
            assert(clause_holds(a, imps[i]));
            let k = choose|k: int| 0 <= k < imps[i].len() && lit_holds(a, #[trigger] imps[i][k]);
            assert(imps[i][0] == l.flipped() && imps[i][1] == cube[i]);
        }
    }
    if !lit_holds(a, l) || all_hold(a, cube) {
        assert forall|i: int| 0 <= i < imps.len() implies clause_holds(a, #[trigger] imps[i]) by {
            assert(imps[i][0] == l.flipped() && imps[i][1] == cube[i]);
        }
    }
}

/// Whether the clauses of all encodings hold.
pub open spec fn encodings_hold(a: Valuation, encs: Seq<ObjEncoding>) -> bool {
    forall|i: int| 0 <= i < encs.len() ==> cnf_holds(a, (#[trigger] encs[i]).state().clauses)
}

/// Whether some objective has a lower value than a cost point.
pub open spec fn improves(a: Valuation, encs: Seq<ObjEncoding>, costs: Seq<usize>) -> bool {
    exists|i: int|
        0 <= i < encs.len() && counts(#[trigger] encs[i], costs[i] as int) && bag_weight(
            encs[i].state().inputs,
            a,
        ) < costs[i]
}

/// Whatever satisfies the blocking clause, what it needs and the clauses that
/// encodings have handed out before is not (weakly) dominated by the cost
/// point: some objective has a lower value.
pub proof fn law_block_excludes_dominated(
    before: Seq<ObjEncoding>,
    after: Seq<ObjEncoding>,
    costs: Seq<usize>,
    parts: Seq<BlockPart>,
    next: int,
    a: Valuation,
)
    requires
        blocked_by(before, after, costs, parts, next),
        encodings_hold(a, before),
        cnf_holds(a, block_clauses(before, costs, parts)),
        clause_holds(a, block_lits(before, costs, parts)),
    ensures
        improves(a, before, costs),
{
    lemma_block_clauses(before, costs, parts, a);
    lemma_block_lits(before, costs, parts, a);
    let i = choose|i: int|
        0 <= i < parts.len() && counts(before[i], costs[i] as int) && lit_holds(
            a,
            (#[trigger] parts[i]).lit,
        );
    let part = parts[i];
    assert(takes_part(before[i], after[i], costs[i] as int, part, next_before(parts, next, i)));
    assert(cnf_holds(a, part_clauses(parts[i])));
    lemma_cnf_append(a, part.cls, implications(part.lit, part.cube));
    lemma_cnf_append(a, before[i].state().clauses, part.cls);
    assert(cnf_holds(a, after[i].state().clauses));
    if part.cube.len() == 1 {
        assert(all_hold(a, part.cube));
    } else {
        lemma_implications(a, part.lit, part.cube);
    }
    assert(bag_weight(after[i].state().inputs, a) <= costs[i] - 1);
    assert(counts(before[i], costs[i] as int));
}

/// Encodings of objectives compare with a cost point as the objectives do, if
/// the point has no cost in objectives that are encoded as constants.
pub proof fn law_encodings_compare_as_objectives(
    a: Valuation,
    encs: Seq<ObjEncoding>,
    objs: Seq<Objective>,
    costs: Seq<usize>,
)
    requires
        encs.len() == objs.len(),
        costs.len() == objs.len(),
        forall|i: int|
            0 <= i < encs.len() ==> (#[trigger] encs[i]).state().inputs
                == objs[i].entries().to_multiset(),
        forall|i: int| 0 <= i < encs.len() && (#[trigger] encs[i]) is Constant ==> costs[i] == 0,
    ensures
        improves(a, encs, costs) <==> exists|i: int|
            0 <= i < objs.len() && weight_under((#[trigger] objs[i]).entries(), a) < costs[i],
{
    assert forall|i: int| 0 <= i < objs.len() implies bag_weight(
        (#[trigger] encs[i]).state().inputs,
        a,
    ) == weight_under(objs[i].entries(), a) && 0 <= weight_under(objs[i].entries(), a) by {
        lemma_bag(objs[i].entries(), a);
        lemma_weight_bounds(objs[i].entries(), a, Seq::empty());
    }
    if exists|i: int|
        0 <= i < objs.len() && weight_under((#[trigger] objs[i]).entries(), a) < costs[i] {
        let i = choose|i: int|
            0 <= i < objs.len() && weight_under((#[trigger] objs[i]).entries(), a) < costs[i];
        assert(counts(encs[i], costs[i] as int));
    }
    if improves(a, encs, costs) {
        let i = choose|i: int|
            0 <= i < encs.len() && counts(#[trigger] encs[i], costs[i] as int) && bag_weight(
                encs[i].state().inputs,
                a,
            ) < costs[i];
        assert(weight_under(objs[i].entries(), a) < costs[i]);
    }
}

} // verus!
