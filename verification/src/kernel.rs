//! The state that is shared by all search algorithms.
use std::collections::HashMap;

use vstd::prelude::*;

use crate::blits::BlitTable;
use crate::config::{
    settle, settled, ControlSignal, Limits, Options, Phase, SolverResult, Stats, Termination,
};
use crate::front::{NonDomPoint, ParetoFront, PointView};
use crate::instance::{
    enough_vars, instance_needs, instance_supported, is_first_free, parts_of, take_apart, Instance,
    InstanceParts,
};
use crate::linear::runs_out;
use crate::logging::{
    candidate_logged, improvement_logged, oracle_call_logged, point_logged, solution_logged,
    WriteSolverLog,
};
use crate::objective::{
    absorb_clauses, absorb_objective, absorbed, has_lit, lemma_absorb_next, stands_for,
    Absorbed, Objective, SoftObjective,
};
use crate::types::{
    clause_views, lemma_true_lits, true_lits, Assignment, Clause, Lit, TernaryVal, Var, MAX_VAR_IDX,
};
use crate::vars::VarManager;

verus! {

broadcast use vstd::std_specs::hash::group_hash_axioms;

/// Data regarding an objective literal.
pub struct ObjLitData {
    /// The objectives that the literal appears in, once for each occurrence.
    pub objs: Vec<usize>,
}

/// The occurrences of each literal, by the representation of the literal.
pub open spec fn lit_data(data: Map<u32, ObjLitData>) -> Map<u32, Seq<usize>> {
    data.map_values(|d: ObjLitData| d.objs@)
}

/// The occurrences after one more.
pub open spec fn record_one(data: Map<u32, Seq<usize>>, l: Lit, idx: usize) -> Map<u32, Seq<usize>> {
    if data.contains_key(l.lidx) {
        data.insert(l.lidx, data[l.lidx].push(idx))
    } else {
        data.insert(l.lidx, seq![idx])
    }
}

/// The occurrences after those of an objective.
pub open spec fn record_entries(
    data: Map<u32, Seq<usize>>,
    entries: Seq<(Lit, usize)>,
    idx: usize,
) -> Map<u32, Seq<usize>>
    decreases entries.len(),
{
    if entries.len() == 0 {
        data
    } else {
        record_one(record_entries(data, entries.drop_last(), idx), entries.last().0, idx)
    }
}

/// The occurrences of the literals of a list of objectives.
pub open spec fn occurrences(objs: Seq<Objective>) -> Map<u32, Seq<usize>>
    decreases objs.len(),
{
    if objs.len() == 0 {
        Map::empty()
    } else {
        record_entries(
            occurrences(objs.drop_last()),
            objs.last().entries(),
            (objs.len() - 1) as usize,
        )
    }
}

/// Whether a literal appears in one of the objectives.
pub open spec fn in_objectives(objs: Seq<Objective>, l: Lit) -> bool {
    exists|i: int| 0 <= i < objs.len() && has_lit((#[trigger] objs[i]).entries(), l)
}

proof fn lemma_record_entries(
    data: Map<u32, Seq<usize>>,
    entries: Seq<(Lit, usize)>,
    idx: usize,
    l: Lit,
)
    ensures
        record_entries(data, entries, idx).contains_key(l.lidx) <==> data.contains_key(l.lidx)
            || has_lit(entries, l),
    decreases entries.len(),
{
    if entries.len() > 0 {
        let init = entries.drop_last();
        lemma_record_entries(data, init, idx, l);
        if has_lit(init, l) {
            let i = choose|i: int| 0 <= i < init.len() && (#[trigger] init[i]).0 == l;
            assert(entries[i] == init[i]);
        }
        if has_lit(entries, l) {
            let i = choose|i: int| 0 <= i < entries.len() && (#[trigger] entries[i]).0 == l;
            if i < init.len() {
                assert(init[i] == entries[i]);
            }
        }
        assert(entries[entries.len() - 1] == entries.last());
        assert(l.lidx == entries.last().0.lidx ==> l == entries.last().0);
    }
}

/// Occurrences are known of exactly the literals that appear in an objective.
pub proof fn lemma_occurrences(objs: Seq<Objective>, l: Lit)
    ensures
        occurrences(objs).contains_key(l.lidx) <==> in_objectives(objs, l),
    decreases objs.len(),
{
    if objs.len() > 0 {
        let init = objs.drop_last();
        lemma_occurrences(init, l);
        lemma_record_entries(
            occurrences(init),
            objs.last().entries(),
            (objs.len() - 1) as usize,
            l,
        );
        if in_objectives(init, l) {
            let i = choose|i: int| 0 <= i < init.len() && has_lit((#[trigger] init[i]).entries(), l);
            assert(objs[i] == init[i]);
        }
        if in_objectives(objs, l) {
            let i = choose|i: int| 0 <= i < objs.len() && has_lit((#[trigger] objs[i]).entries(), l);
            if i < init.len() {
                assert(init[i] == objs[i]);
            }
        }
        assert(objs[objs.len() - 1] == objs.last());
    }
}

/// The objectives that a literal is known to appear in.
pub open spec fn occurs_in(data: Map<u32, Seq<usize>>, l: Lit) -> Seq<usize> {
    if data.contains_key(l.lidx) {
        data[l.lidx]
    } else {
        Seq::empty()
    }
}

/// How often a literal occurs in a list of weighted literals.
pub open spec fn count_lit(entries: Seq<(Lit, usize)>, l: Lit) -> nat
    decreases entries.len(),
{
    if entries.len() == 0 {
        0
    } else {
        count_lit(entries.drop_last(), l) + if entries.last().0 == l {
            1nat
        } else {
            0nat
        }
    }
}

/// An objective is recorded once for each occurrence of a literal.
proof fn lemma_record_count(
    data: Map<u32, Seq<usize>>,
    entries: Seq<(Lit, usize)>,
    idx: usize,
    l: Lit,
)
    ensures
        occurs_in(record_entries(data, entries, idx), l) == occurs_in(data, l) + Seq::new(
            count_lit(entries, l),
            |i: int| idx,
        ),
        count_lit(entries, l) > 0 <==> has_lit(entries, l),
    decreases entries.len(),
{
    if entries.len() > 0 {
        let init = entries.drop_last();
        lemma_record_count(data, init, idx, l);
        assert(entries[entries.len() - 1] == entries.last());
        if has_lit(init, l) {
            let i = choose|i: int| 0 <= i < init.len() && (#[trigger] init[i]).0 == l;
            assert(entries[i] == init[i]);
        }
        if has_lit(entries, l) {
            let i = choose|i: int| 0 <= i < entries.len() && (#[trigger] entries[i]).0 == l;
            if i < init.len() {
                assert(init[i] == entries[i]);
            }
        }
        let before = record_entries(data, init, idx);
        if entries.last().0 == l {
            assert(occurs_in(record_entries(data, entries, idx), l) =~= occurs_in(before, l).push(
                idx,
            ));
        } else {
            assert(entries.last().0.lidx != l.lidx);
        }
        assert(occurs_in(record_entries(data, entries, idx), l) =~= occurs_in(data, l) + Seq::new(
            count_lit(entries, l),
            |i: int| idx,
        ));
    } else {
        assert(occurs_in(data, l) =~= occurs_in(data, l) + Seq::new(0, |i: int| idx));
    }
}

/// The objectives that are recorded for a literal are exactly those that the
/// literal appears in, in ascending order, where an objective is repeated if the
/// literal is. None is recorded for a literal that appears in no objective.
pub proof fn law_occurrences_are_exact(objs: Seq<Objective>, l: Lit)
    requires
        objs.len() <= usize::MAX,
    ensures
        occurrences(objs).contains_key(l.lidx) ==> occurs_in(occurrences(objs), l).len() > 0,
        forall|i: int, j: int|
            0 <= i <= j < occurs_in(occurrences(objs), l).len() ==> #[trigger] occurs_in(
                occurrences(objs),
                l,
            )[i] <= #[trigger] occurs_in(occurrences(objs), l)[j],
        forall|i: int|
            0 <= i < occurs_in(occurrences(objs), l).len() ==> (#[trigger] occurs_in(
                occurrences(objs),
                l,
            )[i]) < objs.len(),
        forall|k: int|
            0 <= k < objs.len() ==> (has_lit((#[trigger] objs[k]).entries(), l) <==> occurs_in(
                occurrences(objs),
                l,
            ).contains(k as usize)),
    decreases objs.len(),
{
    let all = occurs_in(occurrences(objs), l);
    if objs.len() > 0 {
        let init = objs.drop_last();
        let idx = (objs.len() - 1) as usize;
        let entries = objs.last().entries();
        law_occurrences_are_exact(init, l);
        lemma_record_count(occurrences(init), entries, idx, l);
        lemma_occurrences(objs, l);
        let before = occurs_in(occurrences(init), l);
        assert(objs[idx as int] == objs.last());
        assert forall|i: int| 0 <= i < all.len() implies (#[trigger] all[i]) < objs.len() && (i
            < before.len() ==> all[i] == before[i]) && (i >= before.len() ==> all[i] == idx) by {}
        assert forall|i: int, j: int| 0 <= i <= j < all.len() implies #[trigger] all[i]
            <= #[trigger] all[j] by {
            if j < before.len() {
                assert(before[i] <= before[j]);
            } else if i < before.len() {
                assert(before[i] < init.len());
            }
        }
        assert forall|k: int| 0 <= k < objs.len() implies (has_lit(
            (#[trigger] objs[k]).entries(),
            l,
        ) <==> all.contains(k as usize)) by {
            if k < init.len() {
                assert(init[k] == objs[k]);
                if before.contains(k as usize) {
                    let i = choose|i: int| 0 <= i < before.len() && before[i] == k as usize;
                    assert(all[i] == k as usize);
                }
                if all.contains(k as usize) {
                    let i = choose|i: int| 0 <= i < all.len() && all[i] == k as usize;
                    assert(before[i] == k as usize);
                }
            } else if has_lit(entries, l) {
                assert(all[before.len() as int] == idx);
            } else if all.contains(idx) {
                let i = choose|i: int| 0 <= i < all.len() && all[i] == idx;
                assert(before[i] < init.len());
            }
        }
        if occurrences(objs).contains_key(l.lidx) {
            let k = choose|k: int|
                0 <= k < objs.len() && has_lit((#[trigger] objs[k]).entries(), l);
            assert(all.contains(k as usize));
        }
    }
}

/// Records that a literal appears in an objective.
fn record_lit(data: &mut HashMap<u32, ObjLitData>, l: Lit, idx: usize)
    ensures
        lit_data(final(data)@) == record_one(lit_data(old(data)@), l, idx),
{
    let mut entry: ObjLitData = match data.remove(&l.lidx) {
        Some(d) => d,
        None => ObjLitData { objs: Vec::new() },
    };
    entry.objs.push(idx);
    data.insert(l.lidx, entry);
    proof {
        let before = lit_data(old(data)@);
        if before.contains_key(l.lidx) {
            assert(lit_data(data@) =~= before.insert(l.lidx, before[l.lidx].push(idx)));
        } else {
            assert(entry.objs@ =~= seq![idx]);
            assert(lit_data(data@) =~= before.insert(l.lidx, seq![idx]));
        }
    }
}

/// Records the literals of an objective.
fn record_objective(data: &mut HashMap<u32, ObjLitData>, obj: &Objective, idx: usize)
    ensures
        lit_data(final(data)@) == record_entries(lit_data(old(data)@), obj.entries(), idx),
{
    let entries = obj.iter();
    assert(entries@.take(0) =~= Seq::empty());
    for k in 0..entries.len()
        invariant
            lit_data(data@) == record_entries(lit_data(old(data)@), entries@.take(k as int), idx),
    {
        assert(entries@.take(k + 1).drop_last() =~= entries@.take(k as int));
        record_lit(data, entries[k].0, idx);
    }
    assert(entries@.take(entries@.len() as int) =~= entries@);
}

/// The literals that stand for the soft clauses of several objectives, and the
/// state afterwards.
pub open spec fn absorb_all(st: Absorbed, objs: Seq<SoftObjective>) -> (Seq<Seq<Lit>>, Absorbed)
    decreases objs.len(),
{
    if objs.len() == 0 {
        (Seq::empty(), st)
    } else {
        let (done, mid) = absorb_all(st, objs.drop_last());
        let (lits, end) = absorb_clauses(mid, objs.last().clauses());
        (done.push(lits), end)
    }
}

/// Nothing has been absorbed yet.
pub open spec fn absorb_start(next: int) -> Absorbed {
    Absorbed { cnf: Seq::empty(), blits: Map::empty(), next }
}

/// Variables are only ever used up.
pub proof fn lemma_absorb_all_next(st: Absorbed, objs: Seq<SoftObjective>, k: int)
    requires
        0 <= k <= objs.len(),
    ensures
        st.next <= absorb_all(st, objs.take(k)).1.next <= absorb_all(st, objs).1.next,
        absorb_all(st, objs).0.len() == objs.len(),
    decreases objs.len(),
{
    if objs.len() > 0 {
        let init = objs.drop_last();
        let cls = objs.last().clauses();
        let mid = absorb_all(st, init).1;
        lemma_absorb_next(mid, cls, 0);
        if k == objs.len() {
            assert(objs.take(k) =~= objs);
            lemma_absorb_all_next(st, init, k - 1);
        } else {
            assert(init.take(k) =~= objs.take(k));
            lemma_absorb_all_next(st, init, k);
        }
    } else {
        assert(objs.take(k) =~= objs);
    }
}

/// What the oracle is given before the search starts.
pub struct OracleSetup {
    /// The highest variable, up to which variables are reserved.
    pub reserve: Var,
    /// The hard clauses.
    pub cnf: Vec<Clause>,
    /// The relaxed soft clauses.
    pub obj_cnf: Vec<Clause>,
}

/// Kernel shared between all solvers. The oracle is driven from outside: the
/// kernel says what it is given, and is told what it answered.
pub struct SolverKernel<L, T> {
    /// The variable manager keeping track of variables.
    pub var_manager: VarManager,
    /// Objective literal data, by the representation of the literal.
    pub obj_lit_data: HashMap<u32, ObjLitData>,
    /// The maximum variable of the original encoding after introducing blocking
    /// variables.
    pub max_orig_var: Var,
    /// The objectives.
    pub objs: Vec<Objective>,
    /// The Pareto front discovered so far.
    pub pareto_front: ParetoFront,
    /// Configuration options.
    pub opts: Options,
    /// Running statistics.
    pub stats: Stats,
    /// Limits for the current solving run.
    pub lims: Limits,
    /// Logger to log with.
    pub logger: Option<L>,
    /// Termination callback.
    pub term_cb: Option<T>,
}

/// Whether a kernel and what the oracle is given are those for clauses, the
/// next free variable and objectives. The literals that stand for the soft
/// clauses are made one objective after the other; nothing was found, logged
/// or attached yet.
pub open spec fn set_up<L, T>(
    kernel: SolverKernel<L, T>,
    setup: OracleSetup,
    cnf: Vec<Clause>,
    next: int,
    soft_objs: Seq<SoftObjective>,
    opts: Options,
) -> bool {
    let (lits, st) = absorb_all(absorb_start(next), soft_objs);
    &&& kernel.wf()
    &&& kernel.objs@.len() == soft_objs.len()
    &&& forall|i: int|
        0 <= i < soft_objs.len() ==> stands_for(#[trigger] kernel.objs@[i], soft_objs[i], lits[i])
    &&& kernel.var_manager.next == st.next
    &&& kernel.max_orig_var.idx == st.next - 1
    &&& kernel.pareto_front@ == Seq::<PointView>::empty()
    &&& kernel.opts == opts
    &&& kernel.stats == Stats::initial(soft_objs.len() as usize, cnf@.len() as usize)
    &&& kernel.lims == (Limits { pps: None, sols: None, candidates: None, oracle_calls: None })
    &&& kernel.logger is None
    &&& kernel.term_cb is None
    &&& setup.reserve == kernel.max_orig_var
    &&& setup.cnf == cnf
    &&& clause_views(setup.obj_cnf@) == st.cnf
}

/// Whether an internal cost of an objective can be written as an external one.
pub open spec fn representable(obj: Objective, internal: int) -> bool {
    obj is Constant || {
        &&& internal * obj.unit() <= isize::MAX
        &&& isize::MIN <= obj.external(internal) <= isize::MAX
    }
}

impl<L, T> SolverKernel<L, T> {
    /// The recorded occurrences are those of the objectives, and the original
    /// variables are among those in use.
    pub open spec fn wf(self) -> bool {
        &&& self.stats.n_objs == self.objs@.len()
        &&& lit_data(self.obj_lit_data@) == occurrences(self.objs@)
        &&& self.max_orig_var.idx < self.var_manager.next
        &&& self.max_orig_var.idx <= MAX_VAR_IDX
    }

    /// Sets up the kernel from an instance. Errors if a pseudo-boolean constraint
    /// is not supported, or if the variable indices do not suffice: for the
    /// encodings of constraints that are not clauses, or for the soft clauses.
    pub fn new(inst: Instance, opts: Options) -> (r: Result<
        (SolverKernel<L, T>, OracleSetup),
        Termination,
    >)
        ensures
            exists|first_free: nat| #[trigger]
                is_first_free(inst, first_free) && if !instance_supported(inst) {
                    r matches Err(t) && t is UnsupportedConstraint
                } else if runs_out(instance_needs(inst), first_free as int) {
                    r matches Err(t) && t is VarLimit
                } else {
                    exists|parts: InstanceParts| #[trigger]
                        parts_of(parts, inst, first_free) && if absorb_all(
                            absorb_start(parts.next as int),
                            parts.objs@,
                        ).1.next <= MAX_VAR_IDX + 1 {
                            r matches Ok((kernel, setup)) && set_up(
                                kernel,
                                setup,
                                parts.cnf,
                                parts.next as int,
                                parts.objs@,
                                opts,
                            )
                        } else {
                            r matches Err(t) && t is VarLimit
                        }
                },
    {
        let taken = take_apart(inst);
        let ghost first_free = choose|first_free: nat| #[trigger]
            is_first_free(inst, first_free) && if !instance_supported(inst) {
                taken matches Err(t) && t is UnsupportedConstraint
            } else if runs_out(instance_needs(inst), first_free as int) {
                taken matches Err(t) && t is VarLimit
            } else {
                taken matches Ok(parts) && parts_of(parts, inst, first_free)
            };
        assert(is_first_free(inst, first_free));
        let parts = match taken {
            Ok(parts) => parts,
            Err(t) => {
                return Err(t);
            },
        };
        assert(parts_of(parts, inst, first_free));
        if !enough_vars(parts.next, &parts.objs) {
            return Err(Termination::VarLimit);
        }
        proof {
            lemma_absorb_all_next(absorb_start(parts.next as int), parts.objs@, 0);
        }
        Self::from_parts(
            parts.cnf,
            VarManager::from_next_free(parts.next),
            parts.objs,
            opts,
        )
    }

    /// Sets up the kernel from clauses, the variables in use and objectives.
    /// Errors if there are no variables at all.
    pub fn from_parts(
        cnf: Vec<Clause>,
        var_manager: VarManager,
        soft_objs: Vec<SoftObjective>,
        opts: Options,
    ) -> (r: Result<(SolverKernel<L, T>, OracleSetup), Termination>)
        requires
            absorb_all(absorb_start(var_manager.next as int), soft_objs@).1.next <= MAX_VAR_IDX
                + 1,
        ensures
            ({
                let (_, st) = absorb_all(absorb_start(var_manager.next as int), soft_objs@);
                &&& r is Err <==> st.next == 0
                &&& r matches Err(t) ==> t is NoVars
                &&& r matches Ok((kernel, setup)) ==> set_up(
                    kernel,
                    setup,
                    cnf,
                    var_manager.next as int,
                    soft_objs@,
                    opts,
                )
            }),
    {
        let stats = Stats {
            n_solve_calls: 0,
            n_solutions: 0,
            n_pareto_points: 0,
            n_candidates: 0,
            n_oracle_calls: 0,
            n_objs: soft_objs.len(),
            n_orig_clauses: cnf.len(),
        };
        let ghost softs = soft_objs@;
        let ghost start = absorb_start(var_manager.next as int);
        let ghost (all_lits, end) = absorb_all(start, softs);
        // Turn soft clauses into literals
        let mut vm = var_manager;
        let mut obj_cnf: Vec<Clause> = Vec::new();
        let mut blits = BlitTable::new();
        let mut objs: Vec<Objective> = Vec::new();
        assert(softs.take(0) =~= Seq::empty());
        assert(clause_views(obj_cnf@) =~= Seq::empty());
        for obj in it: soft_objs
            invariant
                it.seq() == softs,
                blits.wf(),
                objs@.len() == it.index(),
                absorb_all(start, softs) == (all_lits, end),
                end.next <= MAX_VAR_IDX + 1,
                absorbed(obj_cnf@, blits, vm) == absorb_all(start, softs.take(it.index() as int)).1,
                absorb_all(start, softs.take(it.index() as int)).0 == all_lits.take(
                    it.index() as int,
                ),
                forall|i: int|
                    0 <= i < it.index() ==> stands_for(
                        #[trigger] objs@[i],
                        softs[i],
                        all_lits[i],
                    ),
        {
            let ghost k: int = it.index() as int;
            proof {
                lemma_absorb_all_next(start, softs, k + 1);
                assert(softs.take(k + 1).drop_last() =~= softs.take(k));
                lemma_absorb_prefix(start, softs, k + 1);
                lemma_absorb_prefix(start, softs, k);
                assert(all_lits.take(k + 1)[k] == all_lits[k]);
                assert(softs.take(k + 1).last() == softs[k]);
            }
            let ghost earlier = objs@;
            let absorbed_obj = absorb_objective(obj, &mut obj_cnf, &mut blits, &mut vm);
            objs.push(absorbed_obj);
            assert forall|i: int| 0 <= i < k + 1 implies stands_for(
                #[trigger] objs@[i],
                softs[i],
                all_lits[i],
            ) by {
                if i < k {
                    assert(objs@[i] == earlier[i]);
                }
            }
        }
        assert(softs.take(softs.len() as int) =~= softs);
        // Record objective literal occurrences
        let mut obj_lit_data: HashMap<u32, ObjLitData> = HashMap::new();
        assert(objs@.take(0) =~= Seq::empty());
        assert(lit_data(obj_lit_data@) =~= Map::empty());
        for idx in 0..objs.len()
            invariant
                lit_data(obj_lit_data@) == occurrences(objs@.take(idx as int)),
        {
            assert(objs@.take(idx + 1).drop_last() =~= objs@.take(idx as int));
            record_objective(&mut obj_lit_data, &objs[idx], idx);
        }
        assert(objs@.take(objs@.len() as int) =~= objs@);
        match vm.max_var() {
            None => Err(Termination::NoVars),
            Some(max_orig_var) => {
                let kernel = SolverKernel {
                    var_manager: vm,
                    obj_lit_data,
                    max_orig_var,
                    objs,
                    pareto_front: ParetoFront::new(),
                    opts,
                    stats,
                    lims: Limits::none(),
                    logger: None,
                    term_cb: None,
                };
                Ok((kernel, OracleSetup { reserve: max_orig_var, cnf, obj_cnf }))
            },
        }
    }

    /// Starts a solving run under the given limits.
    pub fn start_solving(&mut self, limits: Limits)
        requires
            old(self).stats.n_solve_calls < usize::MAX,
        ensures
            *final(self) == (SolverKernel {
                stats: Stats {
                    n_solve_calls: (old(self).stats.n_solve_calls + 1) as usize,
                    ..old(self).stats
                },
                lims: limits,
                ..*old(self)
            }),
            old(self).wf() ==> final(self).wf(),
    {
        self.stats.n_solve_calls = self.stats.n_solve_calls + 1;
        self.lims = limits;
    }

    /// Checks whether internal costs can be written as external ones.
    pub fn can_externalize(&self, costs: &Vec<usize>) -> (b: bool)
        requires
            costs@.len() <= self.objs@.len(),
        ensures
            b == forall|i: int|
                0 <= i < costs@.len() ==> representable(
                    self.objs@[i],
                    #[trigger] costs@[i] as int,
                ),
            forall|i: int|
                b && 0 <= i < costs@.len() ==> representable(
                    #[trigger] self.objs@[i],
                    costs@[i] as int,
                ),
    {
        for idx in 0..costs.len()
            invariant
                costs@.len() <= self.objs@.len(),
                forall|i: int|
                    0 <= i < idx ==> representable(self.objs@[i], #[trigger] costs@[i] as int),
        {
            let cst = costs[idx];
            let (offset, unit_weight): (isize, usize) = match &self.objs[idx] {
                Objective::Weighted { offset, .. } => (*offset, 1),
                Objective::Unweighted { offset, unit_weight, .. } => (*offset, *unit_weight),
                Objective::Constant { offset } => (*offset, 0),
            };
            let ghost obj = self.objs@[idx as int];
            assert(obj is Constant || obj.unit() == unit_weight);
            let fits = match cst.checked_mul(unit_weight) {
                Some(prod) => prod <= isize::MAX as usize && (prod as isize).checked_add(
                    offset,
                ).is_some(),
                None => false,
            };
            assert(obj is Constant ==> cst * unit_weight == 0) by (nonlinear_arith)
                requires
                    obj is Constant ==> unit_weight == 0,
            ;
            if !fits {
                assert(!representable(obj, costs@[idx as int] as int));
                return false;
            }
        }
        true
    }

    /// Converts an internal cost vector to an external one. Internal cost is
    /// purely the encoding output while external cost takes an offset and
    /// multiplier into account.
    pub fn externalize_internal_costs(&self, costs: &Vec<usize>) -> (ext: Vec<isize>)
        requires
            costs@.len() <= self.objs@.len(),
            forall|i: int|
                0 <= i < costs@.len() ==> representable(
                    self.objs@[i],
                    #[trigger] costs@[i] as int,
                ),
        ensures
            ext@.len() == costs@.len(),
            forall|i: int|
                0 <= i < costs@.len() ==> #[trigger] ext@[i] == self.objs@[i].external(
                    costs@[i] as int,
                ),
    {
        let mut ext: Vec<isize> = Vec::new();
        for idx in 0..costs.len()
            invariant
                costs@.len() <= self.objs@.len(),
                forall|i: int|
                    0 <= i < costs@.len() ==> representable(
                        self.objs@[i],
                        #[trigger] costs@[i] as int,
                    ),
                ext@.len() == idx,
                forall|i: int|
                    0 <= i < idx ==> #[trigger] ext@[i] == self.objs@[i].external(costs@[i] as int),
        {
            let cst = costs[idx];
            assert(representable(self.objs@[idx as int], costs@[idx as int] as int));
            match &self.objs[idx] {
                Objective::Weighted { offset, .. } => {
                    let signed_cst: isize = cst as isize;
                    ext.push(signed_cst + *offset);
                },
                Objective::Unweighted { offset, unit_weight, .. } => {
                    proof {
                        let u = *unit_weight as int;
                        assert(0 <= cst * u) by (nonlinear_arith)
                            requires
                                cst >= 0,
                                u >= 0,
                        ;
                    }
                    let signed_mult_cost: isize = (cst * *unit_weight) as isize;
                    ext.push(signed_mult_cost + *offset);
                },
                Objective::Constant { offset } => {
                    ext.push(*offset);
                },
            }
        }
        ext
    }

    /// The literals that the oracle is to prefer. If solution-guided search is
    /// turned on, these are those of the entire solution.
    pub fn phase_solution(&self, solution: &Assignment) -> (lits: Vec<Lit>)
        requires
            self.opts.solution_guided_search ==> solution@.len() <= MAX_VAR_IDX + 1,
        ensures
            lits@ == if self.opts.solution_guided_search {
                true_lits(solution@)
            } else {
                Seq::empty()
            },
    {
        if !self.opts.solution_guided_search {
            return Vec::new();
        }
        solution.lits()
    }

    /// The variables of which the oracle is to forget the preferred value. If
    /// solution-guided search is turned on, these are all variables.
    pub fn unphase_solution(&self) -> (vars: Vec<Var>)
        requires
            self.opts.solution_guided_search ==> self.var_manager.next > 0,
        ensures
            vars@ == if self.opts.solution_guided_search {
                Seq::new(self.var_manager.next as nat, |i: int| Var { idx: i as u32 })
            } else {
                Seq::empty()
            },
    {
        let mut vars: Vec<Var> = Vec::new();
        if !self.opts.solution_guided_search {
            return vars;
        }
        for idx in 0..self.var_manager.next
            invariant
                vars@ == Seq::new(idx as nat, |i: int| Var { idx: i as u32 }),
        {
            vars.push(Var { idx });
            assert(vars@ =~= Seq::new((idx + 1) as nat, |i: int| Var { idx: i as u32 }));
        }
        vars
    }
}

/// Forgetting the preferred values of all variables undoes the preference for
/// the literals of a solution.
pub proof fn law_unphasing_undoes_phasing(solution: Seq<TernaryVal>, next: nat, l: Lit)
    requires
        solution.len() <= next <= MAX_VAR_IDX + 1,
        true_lits(solution).contains(l),
    ensures
        Seq::new(next, |i: int| Var { idx: i as u32 }).contains(Var { idx: l.var() as u32 }),
{
    lemma_true_lits(solution, l);
    let vars = Seq::new(next, |i: int| Var { idx: i as u32 });
    assert(0 <= l.var() < solution.len());
    assert(vars[l.var()] == Var { idx: l.var() as u32 });
}

/// The first literals are those of the first objectives.
proof fn lemma_absorb_prefix(st: Absorbed, objs: Seq<SoftObjective>, k: int)
    requires
        0 <= k <= objs.len(),
    ensures
        absorb_all(st, objs.take(k)).0 == absorb_all(st, objs).0.take(k),
        absorb_all(st, objs).0.len() == objs.len(),
    decreases objs.len(),
{
    lemma_absorb_all_next(st, objs, k);
    if k == objs.len() {
        assert(objs.take(k) =~= objs);
        assert(absorb_all(st, objs).0.take(k) =~= absorb_all(st, objs).0);
    } else {
        let init = objs.drop_last();
        lemma_absorb_prefix(st, init, k);
        assert(init.take(k) =~= objs.take(k));
        assert(absorb_all(st, objs).0.take(k) =~= absorb_all(st, init).0.take(k));
    }
}

/// Whether a solution was counted, logged and checked against the limit, with
/// the result `r`.
pub open spec fn solution_noted<L: WriteSolverLog, T>(
    before: SolverKernel<L, T>,
    after: SolverKernel<L, T>,
    r: Result<(), Termination>,
) -> bool {
    &&& after == (SolverKernel {
        stats: Stats { n_solutions: (before.stats.n_solutions + 1) as usize, ..before.stats },
        lims: Limits { sols: after.lims.sols, ..before.lims },
        logger: after.logger,
        ..before
    })
    &&& after.logger is None <==> before.logger is None
    &&& exists|reply| #[trigger]
        solution_logged(before.logger, reply) && (after.lims.sols, r) == settled(
            before.lims.sols,
            reply,
            Termination::SolsLimit,
        )
}

/// Whether a Pareto point was counted, logged and checked against the limit,
/// with the result `r`.
pub open spec fn point_noted<L: WriteSolverLog, T>(
    before: SolverKernel<L, T>,
    after: SolverKernel<L, T>,
    pareto_point: &NonDomPoint,
    r: Result<(), Termination>,
) -> bool {
    &&& after == (SolverKernel {
        stats: Stats {
            n_pareto_points: (before.stats.n_pareto_points + 1) as usize,
            ..before.stats
        },
        lims: Limits { pps: after.lims.pps, ..before.lims },
        logger: after.logger,
        ..before
    })
    &&& after.logger is None <==> before.logger is None
    &&& exists|reply| #[trigger]
        point_logged(before.logger, pareto_point, reply) && (after.lims.pps, r) == settled(
            before.lims.pps,
            reply,
            Termination::PPLimit,
        )
}

/// Whether an answer of the oracle was counted, logged and checked against the
/// limit, with the result `r`. An interrupted call only ends solving.
pub open spec fn answer_noted<L: WriteSolverLog, T>(
    before: SolverKernel<L, T>,
    after: SolverKernel<L, T>,
    res: SolverResult,
    r: Result<SolverResult, Termination>,
) -> bool {
    if res is Interrupted {
        r == Err::<SolverResult, Termination>(Termination::Callback) && after == before
    } else {
        &&& after == (SolverKernel {
            stats: Stats {
                n_oracle_calls: (before.stats.n_oracle_calls + 1) as usize,
                ..before.stats
            },
            lims: Limits { oracle_calls: after.lims.oracle_calls, ..before.lims },
            logger: after.logger,
            ..before
        })
        &&& after.logger is None <==> before.logger is None
        &&& exists|reply| #[trigger]
            oracle_call_logged(before.logger, res, reply) && ({
                let (limit, ended) = settled(
                    before.lims.oracle_calls,
                    reply,
                    Termination::OracleCallsLimit,
                );
                &&& after.lims.oracle_calls == limit
                &&& r == match ended {
                    Ok(_) => Ok::<SolverResult, Termination>(res),
                    Err(t) => Err(t),
                }
            })
    }
}

/// Whether a candidate was counted, logged and checked against the limit, with
/// the result `r`.
pub open spec fn candidate_noted<L: WriteSolverLog, T>(
    before: SolverKernel<L, T>,
    after: SolverKernel<L, T>,
    costs: &Vec<usize>,
    phase: Phase,
    r: Result<(), Termination>,
) -> bool {
    &&& after == (SolverKernel {
        stats: Stats { n_candidates: (before.stats.n_candidates + 1) as usize, ..before.stats },
        lims: Limits { candidates: after.lims.candidates, ..before.lims },
        logger: after.logger,
        ..before
    })
    &&& after.logger is None <==> before.logger is None
    &&& exists|reply| #[trigger]
        candidate_logged(before.logger, costs, phase, reply) && (after.lims.candidates, r)
            == settled(before.lims.candidates, reply, Termination::CandidatesLimit)
}

/// Whether candidates were noted one after the other: `kernels` are the states
/// before, in between and afterwards, `results` the results.
pub open spec fn candidates_noted<L: WriteSolverLog, T>(
    kernels: Seq<SolverKernel<L, T>>,
    costs: Seq<Vec<usize>>,
    phases: Seq<Phase>,
    results: Seq<Result<(), Termination>>,
) -> bool {
    &&& kernels.len() == results.len() + 1
    &&& costs.len() == results.len()
    &&& phases.len() == results.len()
    &&& forall|k: int|
        0 <= k < results.len() ==> candidate_noted(
            kernels[k],
            kernels[k + 1],
            &costs[k],
            phases[k],
            #[trigger] results[k],
        )
}

/// Without a logger, a limit of `n` candidates lets the first `n - 1` candidates
/// pass and ends solving at the `n`-th one, and without a limit all candidates
/// pass. Besides the number of candidates and the limit nothing changes.
pub proof fn law_candidate_limit<L: WriteSolverLog, T>(
    kernels: Seq<SolverKernel<L, T>>,
    costs: Seq<Vec<usize>>,
    phases: Seq<Phase>,
    results: Seq<Result<(), Termination>>,
)
    requires
        candidates_noted(kernels, costs, phases, results),
        kernels[0].logger is None,
        kernels[0].stats.n_candidates + results.len() <= usize::MAX,
        kernels[0].lims.candidates matches Some(n) ==> results.len() <= n,
    ensures
        forall|k: int|
            0 <= k < results.len() ==> match kernels[0].lims.candidates {
                Some(n) => #[trigger] results[k] == if k + 1 == n {
                    Err::<(), Termination>(Termination::CandidatesLimit)
                } else {
                    Ok(())
                },
                None => results[k] is Ok,
            },
        kernels.last() == (SolverKernel {
            stats: Stats {
                n_candidates: (kernels[0].stats.n_candidates + results.len()) as usize,
                ..kernels[0].stats
            },
            lims: Limits {
                candidates: match kernels[0].lims.candidates {
                    Some(n) => Some((n - results.len()) as usize),
                    None => None,
                },
                ..kernels[0].lims
            },
            ..kernels[0]
        }),
    decreases results.len(),
{
    if results.len() > 0 {
        let m = results.len() - 1;
        let some = kernels.drop_last();
        let done = results.drop_last();
        assert forall|k: int| 0 <= k < done.len() implies candidate_noted(
            some[k],
            some[k + 1],
            &costs.drop_last()[k],
            phases.drop_last()[k],
            #[trigger] done[k],
        ) by {
            assert(done[k] == results[k]);
        }
        law_candidate_limit(some, costs.drop_last(), phases.drop_last(), done);
        assert(some.last() == kernels[m]);
        assert(candidate_noted(kernels[m], kernels[m + 1], &costs[m], phases[m], results[m]));
        assert forall|k: int| 0 <= k < results.len() implies match kernels[0].lims.candidates {
            Some(n) => #[trigger] results[k] == if k + 1 == n {
                Err::<(), Termination>(Termination::CandidatesLimit)
            } else {
                Ok(())
            },
            None => results[k] is Ok,
        } by {
            if k < m {
                assert(done[k] == results[k]);
            }
        }
    }
}

impl<L: WriteSolverLog, T> SolverKernel<L, T> {
    /// Logs a cost point candidate. Can error a termination if the candidates
    /// limit is reached.
    pub fn log_candidate(&mut self, costs: &Vec<usize>, phase: Phase) -> (r: Result<(), Termination>)
        requires
            old(self).stats.n_candidates < usize::MAX,
            old(self).lims.candidates != Some(0usize),
        ensures
            candidate_noted(*old(self), *final(self), costs, phase, r),
            old(self).logger matches Some(l) ==> exists|m: &mut L, reply|
                {
                    &&& *m == l
                    &&& final(self).logger == Some(*final(m))
                    &&& #[trigger] call_ensures(L::log_candidate, (m, costs, phase), reply)
                    &&& (final(self).lims.candidates, r) == settled(
                        old(self).lims.candidates,
                        reply,
                        Termination::CandidatesLimit,
                    )
                },
            old(self).wf() ==> final(self).wf(),
    {
        self.stats.n_candidates = self.stats.n_candidates + 1;
        // Dispatch to logger
        let reply = match &mut self.logger {
            Some(logger) => logger.log_candidate(costs, phase),
            None => Ok(()),
        };
        assert(candidate_logged(old(self).logger, costs, phase, reply));
        // Update limit and check termination
        settle(&mut self.lims.candidates, reply, Termination::CandidatesLimit)
    }

    /// Logs an oracle call. Can return a termination if the oracle call limit
    /// is reached.
    pub fn log_oracle_call(&mut self, result: SolverResult) -> (r: Result<(), Termination>)
        requires
            old(self).stats.n_oracle_calls < usize::MAX,
            old(self).lims.oracle_calls != Some(0usize),
        ensures
            *final(self) == (SolverKernel {
                stats: Stats {
                    n_oracle_calls: (old(self).stats.n_oracle_calls + 1) as usize,
                    ..old(self).stats
                },
                lims: Limits { oracle_calls: final(self).lims.oracle_calls, ..old(self).lims },
                logger: final(self).logger,
                ..*old(self)
            }),
            final(self).logger is None <==> old(self).logger is None,
            exists|reply| #[trigger]
                oracle_call_logged(old(self).logger, result, reply) && (
                    final(self).lims.oracle_calls,
                    r,
                ) == settled(old(self).lims.oracle_calls, reply, Termination::OracleCallsLimit),
            old(self).logger matches Some(l) ==> exists|m: &mut L, reply|
                {
                    &&& *m == l
                    &&& final(self).logger == Some(*final(m))
                    &&& #[trigger] call_ensures(L::log_oracle_call, (m, result), reply)
                    &&& (final(self).lims.oracle_calls, r) == settled(
                        old(self).lims.oracle_calls,
                        reply,
                        Termination::OracleCallsLimit,
                    )
                },
            old(self).wf() ==> final(self).wf(),
    {
        self.stats.n_oracle_calls = self.stats.n_oracle_calls + 1;
        // Dispatch to logger
        let reply = match &mut self.logger {
            Some(logger) => logger.log_oracle_call(result),
            None => Ok(()),
        };
        assert(oracle_call_logged(old(self).logger, result, reply));
        // Update limit and check termination
        settle(&mut self.lims.oracle_calls, reply, Termination::OracleCallsLimit)
    }

    /// Logs a solution. Can return a termination if the solution limit is
    /// reached.
    pub fn log_solution(&mut self) -> (r: Result<(), Termination>)
        requires
            old(self).stats.n_solutions < usize::MAX,
            old(self).lims.sols != Some(0usize),
        ensures
            solution_noted(*old(self), *final(self), r),
            old(self).logger matches Some(l) ==> exists|m: &mut L, reply|
                {
                    &&& *m == l
                    &&& final(self).logger == Some(*final(m))
                    &&& #[trigger] call_ensures(L::log_solution, (m,), reply)
                    &&& (final(self).lims.sols, r) == settled(
                        old(self).lims.sols,
                        reply,
                        Termination::SolsLimit,
                    )
                },
            old(self).wf() ==> final(self).wf(),
    {
        self.stats.n_solutions = self.stats.n_solutions + 1;
        // Dispatch to logger
        let reply = match &mut self.logger {
            Some(logger) => logger.log_solution(),
            None => Ok(()),
        };
        assert(solution_logged(old(self).logger, reply));
        // Update limit and check termination
        settle(&mut self.lims.sols, reply, Termination::SolsLimit)
    }

    /// Logs a Pareto point. Can return a termination if the Pareto point limit
    /// is reached.
    pub fn log_pareto_point(&mut self, pareto_point: &NonDomPoint) -> (r: Result<(), Termination>)
        requires
            old(self).stats.n_pareto_points < usize::MAX,
            old(self).lims.pps != Some(0usize),
        ensures
            point_noted(*old(self), *final(self), pareto_point, r),
            old(self).logger matches Some(l) ==> exists|m: &mut L, reply|
                {
                    &&& *m == l
                    &&& final(self).logger == Some(*final(m))
                    &&& #[trigger] call_ensures(L::log_pareto_point, (m, pareto_point), reply)
                    &&& (final(self).lims.pps, r) == settled(
                        old(self).lims.pps,
                        reply,
                        Termination::PPLimit,
                    )
                },
            old(self).wf() ==> final(self).wf(),
    {
        self.stats.n_pareto_points = self.stats.n_pareto_points + 1;
        // Dispatch to logger
        let reply = match &mut self.logger {
            Some(logger) => logger.log_pareto_point(pareto_point),
            None => Ok(()),
        };
        assert(point_logged(old(self).logger, pareto_point, reply));
        // Update limit and check termination
        settle(&mut self.lims.pps, reply, Termination::PPLimit)
    }

    /// Logs a heuristic objective improvement. Can return a logger error.
    pub fn log_heuristic_obj_improvement(
        &mut self,
        obj_idx: usize,
        apparent_cost: usize,
        improved_cost: usize,
    ) -> (r: Result<(), Termination>)
        ensures
            *final(self) == (SolverKernel { logger: final(self).logger, ..*old(self) }),
            final(self).logger is None <==> old(self).logger is None,
            exists|reply| #[trigger]
                improvement_logged(
                    old(self).logger,
                    obj_idx,
                    apparent_cost,
                    improved_cost,
                    reply,
                ) && r == match reply {
                    Ok(_) => Ok::<(), Termination>(()),
                    Err(e) => Err(Termination::LoggerError(e)),
                },
            old(self).logger matches Some(l) ==> exists|m: &mut L, reply|
                {
                    &&& *m == l
                    &&& final(self).logger == Some(*final(m))
                    &&& #[trigger] call_ensures(
                        L::log_heuristic_obj_improvement,
                        (m, obj_idx, apparent_cost, improved_cost),
                        reply,
                    )
                    &&& r == match reply {
                        Ok(_) => Ok::<(), Termination>(()),
                        Err(e) => Err(Termination::LoggerError(e)),
                    }
                },
            old(self).wf() ==> final(self).wf(),
    {
        // Dispatch to logger
        let reply = match &mut self.logger {
            Some(logger) => logger.log_heuristic_obj_improvement(
                obj_idx,
                apparent_cost,
                improved_cost,
            ),
            None => Ok(()),
        };
        assert(improvement_logged(
            old(self).logger,
            obj_idx,
            apparent_cost,
            improved_cost,
            reply,
        ));
        match reply {
            Ok(_) => Ok(()),
            Err(e) => Err(Termination::LoggerError(e)),
        }
    }

    /// Takes note of an answer of the oracle, with call logging and interrupt
    /// detection. Assumes that the oracle is unlimited.
    pub fn note_oracle_answer(&mut self, res: SolverResult) -> (r: Result<SolverResult, Termination>)
        requires
            old(self).stats.n_oracle_calls < usize::MAX,
            old(self).lims.oracle_calls != Some(0usize),
        ensures
            answer_noted(*old(self), *final(self), res, r),
            !(res is Interrupted) && old(self).logger is Some ==> exists|m: &mut L, reply|
                {
                    &&& old(self).logger == Some(*m)
                    &&& final(self).logger == Some(*final(m))
                    &&& #[trigger] call_ensures(L::log_oracle_call, (m, res), reply)
                    &&& (final(self).lims.oracle_calls, match r {
                        Ok(_) => Ok::<(), Termination>(()),
                        Err(t) => Err(t),
                    }) == settled(
                        old(self).lims.oracle_calls,
                        reply,
                        Termination::OracleCallsLimit,
                    )
                },
            old(self).wf() ==> final(self).wf(),
    {
        if let SolverResult::Interrupted = res {
            return Err(Termination::Callback);
        }
        match self.log_oracle_call(res) {
            Ok(_) => Ok(res),
            Err(t) => Err(t),
        }
    }
}

impl<L, T: Fn() -> ControlSignal> SolverKernel<L, T> {
    /// The termination callback, if there is one, can be called.
    pub open spec fn callable(self) -> bool {
        self.term_cb matches Some(cb) ==> cb.requires(())
    }

    /// Whether the termination callback, if there is one, may have given a
    /// signal.
    pub open spec fn signalled(self, signal: ControlSignal) -> bool {
        match self.term_cb {
            None => signal is Continue,
            Some(cb) => cb.ensures((), signal),
        }
    }

    /// Checks the termination callback and terminates if appropriate.
    pub fn check_terminator(&self) -> (r: Result<(), Termination>)
        requires
            self.callable(),
        ensures
            exists|signal: ControlSignal| #[trigger]
                self.signalled(signal) && r == (if signal is Terminate {
                    Err::<(), Termination>(Termination::Callback)
                } else {
                    Ok::<(), Termination>(())
                }),
    {
        if let Some(cb) = &self.term_cb {
            let signal = cb();
            assert(self.signalled(signal));
            if let ControlSignal::Terminate = signal {
                return Err(Termination::Callback);
            }
        } else {
            assert(self.signalled(ControlSignal::Continue));
        }
        Ok(())
    }
}

} // verus!
