//! Problem instances, and what is read from them.
use rustsat::instances::Objective as RsObjective;
use vstd::prelude::*;

use crate::blits::BlitTable;
use crate::config::Termination;
use crate::kernel::{absorb_all, absorb_start, lemma_absorb_all_next};
use crate::linear::{
    all_below, all_satisfied, card_views, encode_all, formula_of, keep_card, keep_pb, needs,
    pb_views, runs_out, sum_of, Cardinality, Formula, LinearView, PseudoBoolean,
};
use crate::objective::{absorb_clause, absorb_clauses, lemma_absorb_next, Absorbed, SoftObjective};
use crate::semantics::Valuation;
use crate::types::{clause_views, Clause, Lit, MAX_VAR_IDX};
use crate::vars::VarManager;

verus! {

/// A multi-objective instance.
#[verifier::external_body]
pub struct Instance {
    pub inner: rustsat::instances::MultiOptInstance,
}

/// The constraints of an instance.
#[verifier::external_body]
pub struct Constraints {
    inner: rustsat::instances::SatInstance,
}

#[verifier::external_type_specification]
#[verifier::external_body]
pub struct ExObjective(RsObjective);

/// What an objective of an instance holds. A soft literal counts as the unit
/// clause of its negation.
#[allow(inconsistent_fields)]
pub enum ObjectiveContent {
    /// Soft clauses with their weights, in no order.
    Weighted { offset: int, softs: Map<Seq<Lit>, usize> },
    /// Soft clauses that share one weight, in order.
    Unweighted { offset: int, unit_weight: usize, softs: Seq<Seq<Lit>> },
}

impl ObjectiveContent {
    /// The constant part of the objective.
    pub open spec fn constant_part(self) -> int {
        match self {
            ObjectiveContent::Weighted { offset, .. } => offset,
            ObjectiveContent::Unweighted { offset, .. } => offset,
        }
    }

    /// The number of soft clauses.
    pub open spec fn n_softs(self) -> nat {
        match self {
            ObjectiveContent::Weighted { softs, .. } => softs.len(),
            ObjectiveContent::Unweighted { softs, .. } => softs.len(),
        }
    }

    /// Whether a clause is a soft clause of the objective.
    pub open spec fn has_soft(self, cl: Seq<Lit>) -> bool {
        match self {
            ObjectiveContent::Weighted { softs, .. } => softs.contains_key(cl),
            ObjectiveContent::Unweighted { softs, .. } => softs.contains(cl),
        }
    }

    /// Whether the objective is always zero.
    pub open spec fn is_zero(self) -> bool {
        self.n_softs() == 0 && self.constant_part() == 0
    }
}

/// What an objective holds.
pub uninterp spec fn objective_content(obj: RsObjective) -> ObjectiveContent;

/// What the objectives of an instance hold, in order.
pub uninterp spec fn instance_objectives(inst: Instance) -> Seq<ObjectiveContent>;

/// The clauses of an instance, in order.
pub uninterp spec fn instance_clauses(inst: Instance) -> Seq<Seq<Lit>>;

/// The cardinality constraints of an instance, in order.
pub uninterp spec fn instance_cards(inst: Instance) -> Seq<LinearView>;

/// The pseudo-boolean constraints of an instance, in order.
pub uninterp spec fn instance_pbs(inst: Instance) -> Seq<LinearView>;

/// The next free variable of an instance.
pub uninterp spec fn instance_next(inst: Instance) -> nat;

/// The clauses among constraints, in order.
pub uninterp spec fn constraint_clauses(constrs: Constraints) -> Seq<Seq<Lit>>;

/// The cardinality constraints among constraints, in order.
pub uninterp spec fn constraint_cards(constrs: Constraints) -> Seq<LinearView>;

/// The pseudo-boolean constraints among constraints, in order.
pub uninterp spec fn constraint_pbs(constrs: Constraints) -> Seq<LinearView>;

/// The next free variable of constraints.
pub uninterp spec fn constraint_next(constrs: Constraints) -> nat;

/// The constraints of an instance that are not clauses.
pub open spec fn instance_linears(inst: Instance) -> Seq<LinearView> {
    instance_cards(inst) + instance_pbs(inst)
}

/// Whether a total assignment satisfies all constraints of an instance.
pub open spec fn instance_satisfied(inst: Instance, a: Valuation) -> bool {
    all_satisfied(instance_clauses(inst), instance_linears(inst), a)
}

/// Whether all variables of the constraints of an instance are below `bound`.
pub open spec fn constraints_below(inst: Instance, bound: int) -> bool {
    all_below(instance_clauses(inst), instance_linears(inst), bound)
}

/// Whether every pseudo-boolean constraint of an instance is supported.
pub open spec fn instance_supported(inst: Instance) -> bool {
    forall|i: int|
        0 <= i < instance_pbs(inst).len() ==> (#[trigger] instance_pbs(inst)[i]).supported()
}

/// The numbers of variables that encoding the constraints of an instance takes,
/// in order.
pub open spec fn instance_needs(inst: Instance) -> Seq<nat> {
    needs(instance_cards(inst), instance_pbs(inst))
}

/// Whether all variables of the soft clauses of some objectives are below
/// `bound`.
pub open spec fn contents_below(objs: Seq<ObjectiveContent>, bound: int) -> bool {
    forall|i: int, cl: Seq<Lit>, j: int|
        0 <= i < objs.len() && #[trigger] objs[i].has_soft(cl) && 0 <= j < cl.len() ==> (
        #[trigger] cl[j]).var() < bound
}

/// Whether `next` is the least variable that is positive, not below the next
/// free variable of an instance, and above all variables of its objectives.
pub open spec fn is_first_free(inst: Instance, next: nat) -> bool {
    &&& 1 <= next
    &&& instance_next(inst) <= next
    &&& contents_below(instance_objectives(inst), next as int)
    &&& forall|n: nat|
        1 <= n && instance_next(inst) <= n && #[trigger] contents_below(
            instance_objectives(inst),
            n as int,
        ) ==> next <= n
}

/// `MultiOptInstance::decompose`: splits an instance into its constraints and
/// its objectives, as they are. The next free variable of the constraints
/// becomes the least one that is positive, not below the one of the instance
/// and above all variables of the objectives.
#[verifier::external_body]
fn decompose(inst: Instance) -> (r: (Constraints, Vec<RsObjective>))
    ensures
        constraint_clauses(r.0) == instance_clauses(inst),
        constraint_cards(r.0) == instance_cards(inst),
        constraint_pbs(r.0) == instance_pbs(inst),
        r.1@.len() == instance_objectives(inst).len(),
        forall|i: int|
            0 <= i < r.1@.len() ==> objective_content(#[trigger] r.1@[i])
                == instance_objectives(inst)[i],
        instance_next(inst) <= constraint_next(r.0),
        is_first_free(inst, constraint_next(r.0)),
{
    let (constrs, objs) = inst.inner.decompose();
    (Constraints { inner: constrs }, objs)
}

/// `SatInstance::into_cnf_with_encoders`: hands out the clauses in order, every
/// cardinality constraint in order, every pseudo-boolean constraint in order,
/// and the next free variable. The encoders that it is given only keep what they
/// are called with.
#[verifier::external_body]
fn open_constraints(constrs: Constraints) -> (r: (
    Vec<Clause>,
    u32,
    Vec<Cardinality>,
    Vec<PseudoBoolean>,
))
    ensures
        clause_views(r.0@) == constraint_clauses(constrs),
        r.1 == constraint_next(constrs),
        card_views(r.2@) == constraint_cards(constrs),
        pb_views(r.3@) == constraint_pbs(constrs),
{
    let (mut cards, mut pbs) = (Vec::new(), Vec::new());
    let (cnf, vm) = constrs.inner.into_cnf_with_encoders(
        |card, _, _| keep_card(&mut cards, card),
        |pb, _, _| keep_pb(&mut pbs, pb),
    );
    let next = rustsat::instances::ManageVars::n_used(&vm);
    let cls = cnf.into_iter().map(
        |cl| Clause { lits: cl.into_iter().map(|l| Lit::new(l.vidx32(), l.is_neg())).collect() },
    ).collect();
    (cls, next, cards, pbs)
}

/// `Objective::is_empty`: true if there are no soft literals or clauses and the
/// offset is zero.
#[verifier::external_body]
fn is_empty(obj: &RsObjective) -> (b: bool)
    ensures
        b == objective_content(*obj).is_zero(),
{
    obj.is_empty()
}

/// `Objective::offset`: the constant part of the objective.
#[verifier::external_body]
fn offset(obj: &RsObjective) -> (offset: isize)
    ensures
        offset == objective_content(*obj).constant_part(),
{
    obj.offset()
}

/// `Objective::weighted`: tells apart the two kinds of objectives.
#[verifier::external_body]
fn weighted(obj: &RsObjective) -> (b: bool)
    ensures
        b == objective_content(*obj) is Weighted,
{
    obj.weighted()
}

/// Whether a list holds the entries of a map, each once.
pub open spec fn enumerates(softs: Seq<(Clause, usize)>, m: Map<Seq<Lit>, usize>) -> bool {
    &&& softs.len() == m.len()
    &&& forall|i: int, j: int|
        0 <= i < softs.len() && 0 <= j < softs.len() && i != j ==> (#[trigger] softs[i]).0@ != (
        #[trigger] softs[j]).0@
    &&& forall|i: int|
        0 <= i < softs.len() ==> m.contains_key((#[trigger] softs[i]).0@) && m[softs[i].0@]
            == softs[i].1
    &&& forall|cl: Seq<Lit>| #[trigger]
        m.contains_key(cl) ==> exists|i: int|
            0 <= i < softs.len() && (#[trigger] softs[i]).0@ == cl
}

/// `Objective::into_soft_cls` on a weighted objective: hands out every soft
/// clause once with its weight, in no particular order, and the offset.
#[verifier::external_body]
fn into_soft_cls(obj: RsObjective) -> (r: (Vec<(Clause, usize)>, isize))
    requires
        objective_content(obj) is Weighted,
    ensures
        enumerates(r.0@, objective_content(obj)->Weighted_softs),
        r.1 == objective_content(obj).constant_part(),
{
    let (softs, offset) = obj.into_soft_cls();
    let softs = softs.into_iter().map(
        |(cl, w)|
            (Clause { lits: cl.into_iter().map(|l| Lit::new(l.vidx32(), l.is_neg())).collect() }, w),
    ).collect();
    (softs, offset)
}

/// `Objective::into_unweighted_soft_cls` on an unweighted objective: hands out
/// the soft clauses in order, the weight that they share, and the offset.
#[verifier::external_body]
fn into_unweighted_soft_cls(obj: RsObjective) -> (r: (Vec<Clause>, usize, isize))
    requires
        objective_content(obj) is Unweighted,
    ensures
        r.0@.map_values(|c: Clause| c@) == objective_content(obj)->Unweighted_softs,
        r.1 == objective_content(obj)->unit_weight,
        r.2 == objective_content(obj).constant_part(),
{
    let (softs, unit_weight, offset) = obj.into_unweighted_soft_cls();
    let softs = softs.into_iter().map(
        |cl| Clause { lits: cl.into_iter().map(|l| Lit::new(l.vidx32(), l.is_neg())).collect() },
    ).collect();
    (softs, unit_weight, offset)
}

/// Whether `soft` is what an objective holds.
pub open spec fn reads(soft: SoftObjective, content: ObjectiveContent) -> bool {
    if content.is_zero() {
        soft matches SoftObjective::Constant { offset } && offset == 0
    } else {
        match content {
            ObjectiveContent::Weighted { offset, softs } => soft matches SoftObjective::Weighted {
                offset: o,
                softs: s,
            } && o == offset && enumerates(s@, softs),
            ObjectiveContent::Unweighted {
                offset,
                unit_weight,
                softs,
            } => soft matches SoftObjective::Unweighted { offset: o, unit_weight: u, softs: s } && o
                == offset && u == unit_weight && s@.map_values(|c: Clause| c@) == softs,
        }
    }
}

/// Reads an objective: one that is always zero is a constant, any other one is
/// given by its soft clauses.
pub fn soft_objective(obj: RsObjective) -> (soft: SoftObjective)
    ensures
        reads(soft, objective_content(obj)),
{
    if is_empty(&obj) {
        return SoftObjective::Constant { offset: offset(&obj) };
    }
    if weighted(&obj) {
        let (softs, offset) = into_soft_cls(obj);
        SoftObjective::Weighted { offset, softs }
    } else {
        let (softs, unit_weight, offset) = into_unweighted_soft_cls(obj);
        SoftObjective::Unweighted { offset, unit_weight, softs }
    }
}

/// The parts of an instance that a search works on.
pub struct InstanceParts {
    /// The hard clauses.
    pub cnf: Vec<Clause>,
    /// The next free variable.
    pub next: u32,
    /// The objectives.
    pub objs: Vec<SoftObjective>,
}

impl InstanceParts {
    /// The hard clauses with the next free variable.
    pub open spec fn formula(self) -> Formula {
        Formula { cnf: self.cnf, next: self.next }
    }
}

/// Whether `parts` is what an instance consists of. The clauses of the instance
/// come first and in order, the encoding of the other constraints follows, and
/// the objectives are in order. `first_free` is the next free variable before
/// other constraints are encoded.
pub open spec fn parts_of(parts: InstanceParts, inst: Instance, first_free: nat) -> bool {
    let contents = instance_objectives(inst);
    &&& is_first_free(inst, first_free)
    &&& formula_of(
        parts.formula(),
        instance_clauses(inst),
        instance_linears(inst),
        first_free as int,
    )
    &&& parts.next == first_free + sum_of(instance_needs(inst))
    &&& parts.objs@.len() == contents.len()
    &&& forall|i: int| 0 <= i < contents.len() ==> reads(#[trigger] parts.objs@[i], contents[i])
}

/// Takes an instance apart, turning all constraints into clauses. Errors if a
/// pseudo-boolean constraint is not supported, or if the encodings need more
/// variables than there are.
pub fn take_apart(inst: Instance) -> (r: Result<InstanceParts, Termination>)
    ensures
        exists|first_free: nat| #[trigger]
            is_first_free(inst, first_free) && if !instance_supported(inst) {
                r matches Err(t) && t is UnsupportedConstraint
            } else if runs_out(instance_needs(inst), first_free as int) {
                r matches Err(t) && t is VarLimit
            } else {
                r matches Ok(parts) && parts_of(parts, inst, first_free)
            },
{
    let (constrs, rs_objs) = decompose(inst);
    let ghost first_free = constraint_next(constrs);
    let (clauses, next, cards, pbs) = open_constraints(constrs);
    assert(card_views(cards@) + pb_views(pbs@) == instance_linears(inst));
    assert(is_first_free(inst, first_free));
    for i in 0..pbs.len()
        invariant
            is_first_free(inst, first_free),
            pb_views(pbs@) == instance_pbs(inst),
            forall|k: int| 0 <= k < i ==> (#[trigger] pbs@[k])@.supported(),
    {
        if !pbs[i].can_encode() {
            assert(!instance_pbs(inst)[i as int].supported());
            return Err(Termination::UnsupportedConstraint);
        }
    }
    assert forall|k: int| 0 <= k < instance_pbs(inst).len() implies (#[trigger] instance_pbs(
        inst,
    )[k]).supported() by {
        assert(pbs@[k]@.supported());
    }
    assert(instance_supported(inst));
    let Formula { cnf, next } = match encode_all(clauses, next, &cards, &pbs) {
        Some(f) => f,
        None => {
            return Err(Termination::VarLimit);
        },
    };
    let ghost given = rs_objs@;
    let mut objs: Vec<SoftObjective> = Vec::new();
    for obj in it: rs_objs
        invariant
            it.seq() == given,
            objs@.len() == it.index(),
            forall|i: int|
                0 <= i < it.index() ==> reads(
                    #[trigger] objs@[i],
                    objective_content(given[i]),
                ),
    {
        objs.push(soft_objective(obj));
    }
    let parts = InstanceParts { cnf, next, objs };
    let r: Result<InstanceParts, Termination> = Ok(parts);
    assert(parts_of(r->Ok_0, inst, first_free));
    r
}

/// Uses up the variables that the soft clauses of an objective need, unless
/// there are too few.
fn use_up(obj: &SoftObjective, blits: &mut BlitTable, vm: &mut VarManager, Ghost(st): Ghost<
    Absorbed,
>) -> (b: bool)
    requires
        old(blits).wf(),
        old(blits)@ == st.blits,
        old(vm).next == st.next,
        st.next <= MAX_VAR_IDX + 1,
    ensures
        b == (absorb_clauses(st, obj.clauses()).1.next <= MAX_VAR_IDX + 1),
        b ==> {
            &&& final(blits).wf()
            &&& final(blits)@ == absorb_clauses(st, obj.clauses()).1.blits
            &&& final(vm).next == absorb_clauses(st, obj.clauses()).1.next
        },
{
    let ghost cls = obj.clauses();
    let n_softs: usize = match obj {
        SoftObjective::Weighted { softs, .. } => softs.len(),
        SoftObjective::Unweighted { softs, .. } => softs.len(),
        SoftObjective::Constant { .. } => 0,
    };
    assert(cls.take(0) =~= Seq::empty());
    for k in 0..n_softs
        invariant
            cls == obj.clauses(),
            n_softs == cls.len(),
            blits.wf(),
            blits@ == absorb_clauses(st, cls.take(k as int)).1.blits,
            vm.next == absorb_clauses(st, cls.take(k as int)).1.next,
            vm.next <= MAX_VAR_IDX + 1,
    {
        let cl: Clause = match obj {
            SoftObjective::Weighted { softs, .. } => softs[k].0.clone(),
            SoftObjective::Unweighted { softs, .. } => softs[k].clone(),
            SoftObjective::Constant { .. } => Clause { lits: Vec::new() },
        };
        assert(cl@ == cls[k as int]);
        assert(cls.take(k + 1).drop_last() =~= cls.take(k as int));
        if cl.len() != 1 && blits.get(&cl).is_none() {
            if vm.next > MAX_VAR_IDX {
                proof {
                    lemma_absorb_next(st, cls, k + 1);
                }
                return false;
            }
            let var = vm.new_var();
            blits.insert(cl, Lit::new(var.idx, false));
        }
    }
    assert(cls.take(cls.len() as int) =~= cls);
    true
}

/// Checks whether there are enough variables for the soft clauses that need
/// one: those that are not unit clauses, each of them once.
pub fn enough_vars(next: u32, objs: &Vec<SoftObjective>) -> (b: bool)
    ensures
        b == (absorb_all(absorb_start(next as int), objs@).1.next <= MAX_VAR_IDX + 1),
{
    let ghost start = absorb_start(next as int);
    if next > MAX_VAR_IDX + 1 {
        proof {
            lemma_absorb_all_next(start, objs@, 0);
        }
        return false;
    }
    let mut blits = BlitTable::new();
    let mut vm = VarManager::from_next_free(next);
    assert(objs@.take(0) =~= Seq::empty());
    for i in 0..objs.len()
        invariant
            start == absorb_start(next as int),
            blits.wf(),
            blits@ == absorb_all(start, objs@.take(i as int)).1.blits,
            vm.next == absorb_all(start, objs@.take(i as int)).1.next,
            vm.next <= MAX_VAR_IDX + 1,
    {
        let ghost mid = absorb_all(start, objs@.take(i as int)).1;
        assert(objs@.take(i + 1).drop_last() =~= objs@.take(i as int));
        assert(objs@.take(i + 1).last() == objs@[i as int]);
        if !use_up(&objs[i], &mut blits, &mut vm, Ghost(mid)) {
            proof {
                lemma_absorb_all_next(start, objs@, i + 1);
            }
            return false;
        }
    }
    assert(objs@.take(objs@.len() as int) =~= objs@);
    true
}

} // verus!
