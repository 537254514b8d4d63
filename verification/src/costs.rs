//! Costs of solutions, and their heuristic improvement.
//!
//! Computing the costs of a solution goes step by step. At some steps the
//! oracle is asked to flip a literal in its solution; how it answers decides
//! how the step ends.
use vstd::prelude::*;

use crate::config::Termination;
use crate::kernel::{in_objectives, lemma_occurrences, lit_data, occurrences, SolverKernel};
use crate::logging::{improvement_logged, WriteSolverLog};
use crate::objective::{distinct_lits, has_lit, Objective};
use crate::semantics::{
    lemma_total_prefix, lemma_weight_bounds, weight_assigned, weight_total,
};
use crate::types::{assign, lemma_assign, lemma_flipped, lit_true, Assignment, Lit, TernaryVal};

verus! {

broadcast use vstd::std_specs::hash::group_hash_axioms;

/// How far the computation of costs has come.
pub struct CostView {
    /// The solution, with all flips so far.
    pub sol: Seq<TernaryVal>,
    /// Whether the solution is improved.
    pub tightening: bool,
    /// The objective at hand.
    pub obj: int,
    /// The literal of the objective at hand.
    pub pos: int,
    /// What the literals before weigh that could not be flipped.
    pub cost: int,
    /// What the literals before weigh that were flipped.
    pub reduction: int,
    /// The costs of the objectives before.
    pub costs: Seq<usize>,
    /// The literal that the oracle is asked to make false, and its weight.
    pub asked: Option<(Lit, usize)>,
    /// The solution when the objective at hand was started.
    pub before: Seq<TernaryVal>,
    /// The solution that the computation was started with.
    pub first: Seq<TernaryVal>,
}

/// The computation of the costs of a solution.
pub struct CostSearch {
    sol: Assignment,
    tightening: bool,
    obj: usize,
    pos: usize,
    cost: usize,
    reduction: usize,
    costs: Vec<usize>,
    asked: Option<(Lit, usize)>,
    before: Ghost<Seq<TernaryVal>>,
    first: Ghost<Seq<TernaryVal>>,
}

impl View for CostSearch {
    type V = CostView;

    closed spec fn view(&self) -> CostView {
        CostView {
            sol: self.sol@,
            tightening: self.tightening,
            obj: self.obj as int,
            pos: self.pos as int,
            cost: self.cost as int,
            reduction: self.reduction as int,
            costs: self.costs@,
            asked: self.asked,
            before: self.before@,
            first: self.first@,
        }
    }
}

/// What the computation of costs asks for next.
pub enum CostStep {
    /// The oracle is asked to make a literal true in its solution.
    Flip(Lit),
    /// A literal or an objective was dealt with.
    Moved,
    /// All costs are known.
    Finished,
}

/// No literal occurs twice, neither in one objective nor in two.
pub open spec fn no_repeats(objs: Seq<Objective>) -> bool {
    forall|i: int, p: int, j: int, q: int|
        0 <= i < objs.len() && 0 <= p < objs[i].entries().len() && 0 <= j < objs.len() && 0 <= q
            < objs[j].entries().len() && (i != j || p != q) ==> (
        #[trigger] objs[i].entries()[p]).0 != (#[trigger] objs[j].entries()[q]).0
}

impl CostView {
    /// All costs are known.
    pub open spec fn finished(self, objs: Seq<Objective>) -> bool {
        self.obj == objs.len()
    }

    /// The literal at hand, with its weight.
    pub open spec fn entry(self, objs: Seq<Objective>) -> (Lit, usize) {
        objs[self.obj].entries()[self.pos]
    }

    /// There is a literal at hand that is true.
    pub open spec fn at_true(self, objs: Seq<Objective>) -> bool {
        &&& self.obj < objs.len()
        &&& self.pos < objs[self.obj].entries().len()
        &&& lit_true(self.sol, self.entry(objs).0)
    }

    /// The oracle is to be asked: the literal at hand is true, the solution is
    /// to be improved, and no objective gets worse by making it false.
    pub open spec fn asks(self, objs: Seq<Objective>) -> bool {
        &&& self.at_true(objs)
        &&& self.tightening
        &&& !in_objectives(objs, self.entry(objs).0.flipped())
    }

    /// Sums stay in range at the next step.
    pub open spec fn in_range(self, objs: Seq<Objective>) -> bool {
        &&& self.at_true(objs) ==> self.cost + self.entry(objs).1 <= usize::MAX && self.reduction
            + self.entry(objs).1 <= usize::MAX
        &&& self.tightening ==> self.cost + self.reduction <= usize::MAX
    }

    /// The state after a step without a question.
    pub open spec fn stepped(self, objs: Seq<Objective>) -> CostView {
        if self.finished(objs) {
            self
        } else if self.pos < objs[self.obj].entries().len() {
            CostView {
                pos: self.pos + 1,
                cost: if self.at_true(objs) {
                    self.cost + self.entry(objs).1
                } else {
                    self.cost
                },
                ..self
            }
        } else {
            CostView {
                obj: self.obj + 1,
                pos: 0,
                cost: 0,
                reduction: 0,
                costs: self.costs.push(self.cost as usize),
                before: self.sol,
                ..self
            }
        }
    }

    /// The state after an answer: a literal that was flipped is no longer true
    /// and does not count.
    pub open spec fn answered(self, flipped: bool) -> CostView {
        let (l, w) = self.asked->0;
        if flipped {
            CostView {
                sol: assign(self.sol, l.flipped()),
                pos: self.pos + 1,
                reduction: self.reduction + w,
                asked: None,
                ..self
            }
        } else {
            CostView { pos: self.pos + 1, cost: self.cost + w, asked: None, ..self }
        }
    }

    /// What holds at every step. The cost that is reported for an objective is
    /// never below what its true literals weigh, nor above what they weighed at
    /// the start. It is exactly what they weigh if no literal repeats. No
    /// objective gets heavier. For the objective at hand, the
    /// cost is what the true literals before weigh, and together with the
    /// reduction and the literals that follow it makes up what the objective
    /// weighed before; with literals that occur more than once, this holds up to
    /// answers of the oracle that differ between occurrences.
    pub open spec fn on_course(self, objs: Seq<Objective>) -> bool {
        &&& 0 <= self.obj <= objs.len()
        &&& self.costs.len() == self.obj
        &&& self.cost >= 0
        &&& self.reduction >= 0
        &&& forall|i: int|
            0 <= i < self.obj ==> weight_assigned((#[trigger] objs[i]).entries(), self.sol)
                <= self.costs[i] <= weight_assigned(objs[i].entries(), self.first)
        &&& no_repeats(objs) ==> forall|i: int|
            0 <= i < self.obj ==> weight_assigned((#[trigger] objs[i]).entries(), self.sol)
                == self.costs[i]
        &&& forall|i: int|
            0 <= i < objs.len() ==> weight_assigned((#[trigger] objs[i]).entries(), self.sol)
                <= weight_assigned(objs[i].entries(), self.before) <= weight_assigned(
                objs[i].entries(),
                self.first,
            )
        &&& !self.tightening ==> {
            &&& self.sol == self.before
            &&& self.reduction == 0
            &&& self.asked is None
            &&& forall|i: int|
                0 <= i < self.obj ==> weight_assigned((#[trigger] objs[i]).entries(), self.sol)
                    == self.costs[i]
        }
        &&& self.obj == objs.len() ==> self.asked is None
        &&& self.obj < objs.len() ==> {
            let entries = objs[self.obj].entries();
            let done = weight_assigned(entries.take(self.pos), self.sol);
            let left = weight_assigned(entries.skip(self.pos), self.sol);
            let first = weight_assigned(entries, self.before);
            &&& 0 <= self.pos <= entries.len()
            &&& done <= self.cost
            &&& self.cost + self.reduction + left <= first
            &&& distinct_lits(entries) || !self.tightening ==> {
                &&& done == self.cost
                &&& self.cost + self.reduction + left == first
            }
            &&& self.asked matches Some(e) ==> self.asks(objs) && e == self.entry(objs)
        }
    }
}

/// A sum of weights is the weight of the last literal and of those before.
proof fn lemma_weight_push(entries: Seq<(Lit, usize)>, pos: int, sol: Seq<TernaryVal>)
    requires
        0 <= pos < entries.len(),
    ensures
        weight_assigned(entries.take(pos + 1), sol) == weight_assigned(entries.take(pos), sol)
            + if lit_true(sol, entries[pos].0) {
            entries[pos].1 as int
        } else {
            0
        },
{
    assert(entries.take(pos + 1).drop_last() =~= entries.take(pos));
}

/// A sum of weights is made up of two parts.
proof fn lemma_weight_split(entries: Seq<(Lit, usize)>, pos: int, sol: Seq<TernaryVal>)
    requires
        0 <= pos <= entries.len(),
    ensures
        weight_assigned(entries, sol) == weight_assigned(entries.take(pos), sol)
            + weight_assigned(entries.skip(pos), sol),
    decreases entries.len(),
{
    if pos == entries.len() {
        assert(entries.take(pos) =~= entries);
        assert(entries.skip(pos) =~= Seq::empty());
    } else {
        let init = entries.drop_last();
        lemma_weight_split(init, pos, sol);
        assert(init.take(pos) =~= entries.take(pos));
        assert(init.skip(pos) =~= entries.skip(pos).drop_last());
        assert(entries.skip(pos).last() == entries.last());
    }
}

/// Sums of weights are not negative.
proof fn lemma_weight_nonneg(entries: Seq<(Lit, usize)>, sol: Seq<TernaryVal>)
    ensures
        0 <= weight_assigned(entries, sol),
    decreases entries.len(),
{
    if entries.len() > 0 {
        lemma_weight_nonneg(entries.drop_last(), sol);
    }
}

/// Making a literal false whose negation does not occur makes no sum larger,
/// and changes none without the literal.
proof fn lemma_flip_weight(entries: Seq<(Lit, usize)>, sol: Seq<TernaryVal>, l: Lit)
    requires
        !has_lit(entries, l.flipped()),
    ensures
        weight_assigned(entries, assign(sol, l.flipped())) <= weight_assigned(entries, sol),
        !has_lit(entries, l) ==> weight_assigned(entries, assign(sol, l.flipped()))
            == weight_assigned(entries, sol),
    decreases entries.len(),
{
    if entries.len() > 0 {
        let init = entries.drop_last();
        let last = entries.last().0;
        let n = entries.len() - 1;
        assert(entries[n].0 == last);
        if has_lit(init, l.flipped()) {
            let i = choose|i: int| 0 <= i < init.len() && (#[trigger] init[i]).0 == l.flipped();
            assert(entries[i].0 == l.flipped());
        }
        if has_lit(init, l) {
            let i = choose|i: int| 0 <= i < init.len() && (#[trigger] init[i]).0 == l;
            assert(entries[i].0 == l);
        }
        lemma_flip_weight(init, sol, l);
        lemma_flipped(l);
        lemma_assign(sol, l.flipped(), last);
        if last.var() == l.var() && last != l {
            assert(last == l.flipped());
        }
    }
}

/// Without repeats, no objective has a literal twice.
proof fn lemma_no_repeats(objs: Seq<Objective>, i: int)
    requires
        no_repeats(objs),
        0 <= i < objs.len(),
    ensures
        distinct_lits(objs[i].entries()),
{
    let entries = objs[i].entries();
    assert forall|p: int, q: int|
        0 <= p < entries.len() && 0 <= q < entries.len() && p != q implies (
    #[trigger] entries[p]).0 != (#[trigger] entries[q]).0 by {
        assert(objs[i].entries()[p].0 != objs[i].entries()[q].0);
    }
}

/// A step without a question keeps on course.
proof fn lemma_stepped(v: CostView, objs: Seq<Objective>)
    requires
        v.on_course(objs),
        v.asked is None,
        v.in_range(objs),
        v.cost <= usize::MAX,
        !v.asks(objs),
    ensures
        v.stepped(objs).on_course(objs),
{
    let w = v.stepped(objs);
    if v.obj < objs.len() {
        let entries = objs[v.obj].entries();
        if v.pos < entries.len() {
            lemma_weight_push(entries, v.pos, v.sol);
            lemma_weight_split(entries, v.pos, v.sol);
            lemma_weight_split(entries, v.pos + 1, v.sol);
        } else {
            assert(entries.take(v.pos) =~= entries);
            lemma_weight_nonneg(entries.skip(v.pos), v.sol);
            assert forall|i: int| 0 <= i < w.obj implies weight_assigned(
                (#[trigger] objs[i]).entries(),
                w.sol,
            ) <= w.costs[i] <= weight_assigned(objs[i].entries(), w.first) by {
                if i < v.obj {
                    assert(w.costs[i] == v.costs[i]);
                }
            }
            if no_repeats(objs) {
                lemma_no_repeats(objs, v.obj);
            }
            if !v.tightening || no_repeats(objs) {
                assert forall|i: int| 0 <= i < w.obj implies weight_assigned(
                    (#[trigger] objs[i]).entries(),
                    w.sol,
                ) == w.costs[i] by {
                    if i < v.obj {
                        assert(w.costs[i] == v.costs[i]);
                    }
                }
            }
            if w.obj < objs.len() {
                let next = objs[w.obj].entries();
                assert(next.take(0) =~= Seq::empty());
                assert(next.skip(0) =~= next);
            }
        }
    }
}

/// An answer keeps on course.
proof fn lemma_answered(v: CostView, objs: Seq<Objective>, flipped: bool)
    requires
        v.on_course(objs),
        v.asked is Some,
    ensures
        v.answered(flipped).on_course(objs),
{
    let w = v.answered(flipped);
    let entries = objs[v.obj].entries();
    let l = v.entry(objs).0;
    assert(v.asks(objs));
    lemma_weight_push(entries, v.pos, v.sol);
    lemma_weight_split(entries, v.pos, v.sol);
    lemma_weight_split(entries, v.pos + 1, v.sol);
    if flipped {
        let before = entries.take(v.pos);
        let after = entries.skip(v.pos + 1);
        assert forall|i: int| 0 <= i < objs.len() implies !has_lit(
            (#[trigger] objs[i]).entries(),
            l.flipped(),
        ) && weight_assigned(objs[i].entries(), w.sol) <= weight_assigned(
            objs[i].entries(),
            v.sol,
        ) by {
            lemma_flip_weight(objs[i].entries(), v.sol, l);
        }
        if has_lit(before, l.flipped()) {
            let i = choose|i: int| 0 <= i < before.len() && (#[trigger] before[i]).0 == l.flipped();
            assert(entries[i].0 == l.flipped());
        }
        if has_lit(after, l.flipped()) {
            let i = choose|i: int| 0 <= i < after.len() && (#[trigger] after[i]).0 == l.flipped();
            assert(entries[i + v.pos + 1].0 == l.flipped());
        }
        lemma_flip_weight(before, v.sol, l);
        lemma_flip_weight(after, v.sol, l);
        lemma_weight_push(entries, v.pos, w.sol);
        lemma_flipped(l);
        lemma_assign(v.sol, l.flipped(), l);
        if no_repeats(objs) {
            assert forall|i: int| 0 <= i < v.obj implies weight_assigned(
                (#[trigger] objs[i]).entries(),
                w.sol,
            ) == w.costs[i] by {
                let others = objs[i].entries();
                if has_lit(others, l) {
                    let p = choose|p: int| 0 <= p < others.len() && (#[trigger] others[p]).0 == l;
                    assert(objs[i].entries()[p].0 != objs[v.obj].entries()[v.pos].0);
                }
                lemma_flip_weight(others, v.sol, l);
            }
        }
        if distinct_lits(entries) {
            if has_lit(before, l) {
                let i = choose|i: int| 0 <= i < before.len() && (#[trigger] before[i]).0 == l;
                assert(entries[i].0 == l && entries[v.pos].0 == l);
            }
            if has_lit(after, l) {
                let i = choose|i: int| 0 <= i < after.len() && (#[trigger] after[i]).0 == l;
                assert(entries[i + v.pos + 1].0 == l && entries[v.pos].0 == l);
            }
        }
    }
}

/// Sums stay in range as long as no objective weighed too much when it was
/// started.
pub proof fn law_costs_stay_in_range(v: CostView, objs: Seq<Objective>)
    requires
        v.on_course(objs),
        v.obj < objs.len() ==> weight_assigned(objs[v.obj].entries(), v.before) <= usize::MAX,
        v.finished(objs) ==> v.cost + v.reduction <= usize::MAX,
    ensures
        v.in_range(objs),
{
    if v.obj < objs.len() {
        let entries = objs[v.obj].entries();
        lemma_weight_nonneg(entries.skip(v.pos), v.sol);
        if v.pos < entries.len() {
            lemma_weight_push(entries, v.pos, v.sol);
            lemma_weight_split(entries, v.pos, v.sol);
            lemma_weight_split(entries, v.pos + 1, v.sol);
            lemma_weight_nonneg(entries.skip(v.pos + 1), v.sol);
        }
    }
}

/// Once all costs are known, no objective of the solution weighs more than its
/// cost, and it weighs exactly that if the solution was not improved.
pub proof fn law_costs_bound_solution(v: CostView, objs: Seq<Objective>, i: int)
    requires
        v.on_course(objs),
        v.finished(objs),
        0 <= i < objs.len(),
    ensures
        weight_assigned(objs[i].entries(), v.sol) <= v.costs[i],
        !v.tightening ==> weight_assigned(objs[i].entries(), v.sol) == v.costs[i],
{
    assert(weight_assigned(objs[i].entries(), v.sol) <= v.costs[i]);
}

/// Once all costs are known they are exactly what the objectives weigh in the
/// end, if no literal occurs twice over all objectives.
pub proof fn law_costs_are_exact_without_repeats(v: CostView, objs: Seq<Objective>, i: int)
    requires
        v.on_course(objs),
        v.finished(objs),
        no_repeats(objs),
        0 <= i < objs.len(),
    ensures
        v.costs[i] == weight_assigned(objs[i].entries(), v.sol),
{
    assert(weight_assigned(objs[i].entries(), v.sol) == v.costs[i]);
}

/// When an objective without repeated literals is done, its cost is what it
/// weighs now, the reduction makes up the difference to what it weighed before,
/// and no other objective has got heavier.
pub proof fn law_improvement_of_objective(v: CostView, objs: Seq<Objective>)
    requires
        v.on_course(objs),
        v.obj < objs.len(),
        v.pos == objs[v.obj].entries().len(),
        distinct_lits(objs[v.obj].entries()),
    ensures
        v.cost == weight_assigned(objs[v.obj].entries(), v.sol),
        v.cost + v.reduction == weight_assigned(objs[v.obj].entries(), v.before),
        forall|i: int|
            0 <= i < objs.len() ==> weight_assigned((#[trigger] objs[i]).entries(), v.sol)
                <= weight_assigned(objs[i].entries(), v.before),
{
    let entries = objs[v.obj].entries();
    assert(entries.take(v.pos) =~= entries);
    assert(entries.skip(v.pos) =~= Seq::empty());
}

/// Whether a step leads from one state of the computation to another: the oracle
/// is asked, it answers, a literal or an objective is dealt with, or nothing
/// happens because all costs are known or a logger has failed.
pub open spec fn cost_step(v: CostView, w: CostView, objs: Seq<Objective>) -> bool {
    ||| v.asked is Some && (w == v.answered(true) || w == v.answered(false))
    ||| v.asked is None && v.asks(objs) && w == (CostView { asked: Some(v.entry(objs)), ..v })
    ||| v.asked is None && !v.asks(objs) && w == v.stepped(objs)
    ||| w == v
}

/// Whether states of the computation follow one another.
pub open spec fn cost_run(run: Seq<CostView>, objs: Seq<Objective>) -> bool {
    &&& run.len() > 0
    &&& forall|k: int| 0 < k < run.len() ==> cost_step(run[k - 1], #[trigger] run[k], objs)
}

proof fn lemma_run_on_course(run: Seq<CostView>, objs: Seq<Objective>, k: int)
    requires
        cost_run(run, objs),
        run[0].on_course(objs),
        forall|i: int|
            0 <= i < objs.len() ==> weight_total((#[trigger] objs[i]).entries()) <= usize::MAX,
        0 <= k < run.len(),
    ensures
        run[k].on_course(objs),
        run[k].first == run[0].first,
    decreases k,
{
    if k > 0 {
        lemma_run_on_course(run, objs, k - 1);
        let v = run[k - 1];
        assert(cost_step(v, run[k], objs));
        lemma_answered_if_asked(v, objs);
        if v.asked is None && !v.asks(objs) && !v.finished(objs) {
            let entries = objs[v.obj].entries();
            lemma_weight_bounds(entries, Set::empty(), v.before);
            lemma_weight_nonneg(entries.skip(v.pos), v.sol);
            law_costs_stay_in_range(v, objs);
            lemma_stepped(v, objs);
        }
    }
}

proof fn lemma_answered_if_asked(v: CostView, objs: Seq<Objective>)
    requires
        v.on_course(objs),
    ensures
        v.asked is Some ==> v.answered(true).on_course(objs) && v.answered(false).on_course(objs),
{
    if v.asked is Some {
        lemma_answered(v, objs, true);
        lemma_answered(v, objs, false);
    }
}

/// Over a whole run of the computation no objective gets heavier, and the cost
/// that is reported for an objective lies between what it weighs in the end and
/// what it weighed at the start, whether or not a logger has failed. It is what
/// the objective weighs in the end if no literal occurs twice over all
/// objectives.
pub proof fn law_run_never_worsens(run: Seq<CostView>, objs: Seq<Objective>, i: int)
    requires
        cost_run(run, objs),
        run[0].on_course(objs),
        run[0].sol == run[0].first,
        forall|j: int|
            0 <= j < objs.len() ==> weight_total((#[trigger] objs[j]).entries()) <= usize::MAX,
        0 <= i < objs.len(),
    ensures
        weight_assigned(objs[i].entries(), run.last().sol) <= weight_assigned(
            objs[i].entries(),
            run[0].sol,
        ),
        i < run.last().obj ==> weight_assigned(objs[i].entries(), run.last().sol)
            <= run.last().costs[i] <= weight_assigned(objs[i].entries(), run[0].sol),
        i < run.last().obj && no_repeats(objs) ==> weight_assigned(
            objs[i].entries(),
            run.last().sol,
        ) == run.last().costs[i],
{
    lemma_run_on_course(run, objs, run.len() - 1);
}

impl CostSearch {
    /// Takes note of whether the oracle has flipped the literal that it was
    /// asked to.
    pub fn answer(&mut self, flipped: bool)
        requires
            old(self)@.asked matches Some((_, w)) && old(self)@.cost + w <= usize::MAX
                && old(self)@.reduction + w <= usize::MAX,
            old(self)@.pos < usize::MAX,
        ensures
            final(self)@ == old(self)@.answered(flipped),
            forall|objs: Seq<Objective>| #[trigger]
                old(self)@.on_course(objs) ==> final(self)@.on_course(objs),
    {
        if let Some((l, w)) = self.asked {
            if flipped {
                self.sol.assign_lit(l.negate());
                self.reduction = self.reduction + w;
            } else {
                self.cost = self.cost + w;
            }
            self.pos = self.pos + 1;
            self.asked = None;
        }
        proof {
            assert forall|objs: Seq<Objective>| #[trigger] old(self)@.on_course(objs) implies self@.on_course(
                objs,
            ) by {
                lemma_answered(old(self)@, objs, flipped);
            }
        }
    }

    /// The costs, and the solution that has at most these costs.
    pub fn into_result(self) -> (r: (Vec<usize>, Assignment))
        ensures
            r.0@ == self@.costs,
            r.1@ == self@.sol,
    {
        (self.costs, self.sol)
    }
}

impl<L, T> SolverKernel<L, T> {
    /// Checks whether no sum of weights of an objective is too large.
    pub fn weights_fit(&self) -> (b: bool)
        ensures
            b == forall|i: int|
                0 <= i < self.objs@.len() ==> weight_total((#[trigger] self.objs@[i]).entries())
                    <= usize::MAX,
    {
        for i in 0..self.objs.len()
            invariant
                forall|j: int|
                    0 <= j < i ==> weight_total((#[trigger] self.objs@[j]).entries())
                        <= usize::MAX,
        {
            let obj = &self.objs[i];
            let ghost entries = obj.entries();
            let mut total: usize = 0;
            assert(entries.take(0) =~= Seq::empty());
            let n = obj.len();
            for k in 0..n
                invariant
                    n == entries.len(),
                    i < self.objs@.len(),
                    *obj == self.objs@[i as int],
                    entries == obj.entries(),
                    total == weight_total(entries.take(k as int)),
            {
                assert(entries.take(k + 1).drop_last() =~= entries.take(k as int));
                let w = obj.entry(k).1;
                match total.checked_add(w) {
                    Some(sum) => {
                        total = sum;
                    },
                    None => {
                        proof {
                            lemma_total_prefix(entries, k + 1);
                        }
                        return false;
                    },
                }
            }
            assert(entries.take(entries.len() as int) =~= entries);
        }
        true
    }

    /// Starts computing the objective costs of a solution, without offset or
    /// multiplier. The solution is improved on the way if `tightening` is set.
    pub fn start_costs(&self, sol: Assignment, tightening: bool) -> (search: CostSearch)
        ensures
            search@ == (CostView {
                sol: sol@,
                tightening,
                obj: 0,
                pos: 0,
                cost: 0,
                reduction: 0,
                costs: Seq::empty(),
                asked: None,
                before: sol@,
                first: sol@,
            }),
            search@.on_course(self.objs@),
    {
        proof {
            if self.objs@.len() > 0 {
                let entries = self.objs@[0].entries();
                assert(entries.take(0) =~= Seq::empty());
                assert(entries.skip(0) =~= entries);
            }
        }
        let ghost before = sol@;
        CostSearch {
            sol,
            tightening,
            obj: 0,
            pos: 0,
            cost: 0,
            reduction: 0,
            costs: Vec::new(),
            asked: None,
            before: Ghost(before),
            first: Ghost(before),
        }
    }
}

impl<L: WriteSolverLog, T> SolverKernel<L, T> {
    /// Goes one step on with computing costs. Where an objective is done and
    /// the solution is improved, the improvement is logged, which can return a
    /// logger error.
    pub fn step_costs(&mut self, search: &mut CostSearch) -> (r: Result<CostStep, Termination>)
        requires
            old(self).wf(),
            old(search)@.on_course(old(self).objs@),
            old(search)@.in_range(old(self).objs@),
            old(search)@.asked is None,
        ensures
            final(self).wf(),
            final(search)@.on_course(final(self).objs@),
            *final(self) == (SolverKernel { logger: final(self).logger, ..*old(self) }),
            final(self).logger is None <==> old(self).logger is None,
            ({
                let objs = old(self).objs@;
                let v = old(search)@;
                if v.finished(objs) {
                    &&& r matches Ok(CostStep::Finished)
                    &&& final(search)@ == v
                    &&& final(self).logger == old(self).logger
                } else if v.asks(objs) {
                    &&& r matches Ok(CostStep::Flip(l)) && l == v.entry(objs).0.flipped()
                    &&& final(search)@ == (CostView { asked: Some(v.entry(objs)), ..v })
                    &&& final(self).logger == old(self).logger
                } else if v.pos < objs[v.obj].entries().len() || !v.tightening {
                    &&& r matches Ok(CostStep::Moved)
                    &&& final(search)@ == v.stepped(objs)
                    &&& final(self).logger == old(self).logger
                } else {
                    exists|reply| #[trigger]
                        improvement_logged(
                            old(self).logger,
                            v.obj as usize,
                            (v.cost + v.reduction) as usize,
                            v.cost as usize,
                            reply,
                        ) && match reply {
                            Ok(_) => r matches Ok(CostStep::Moved) && final(search)@ == v.stepped(
                                objs,
                            ),
                            Err(e) => r == Err::<CostStep, Termination>(
                                Termination::LoggerError(e),
                            ) && final(search)@ == v,
                        }
                }
            }),
            ({
                let objs = old(self).objs@;
                let v = old(search)@;
                let logs = !v.finished(objs) && v.tightening && v.pos
                    == objs[v.obj].entries().len();
                logs && old(self).logger is Some ==> exists|m: &mut L, reply|
                    {
                        &&& old(self).logger == Some(*m)
                        &&& final(self).logger == Some(*final(m))
                        &&& #[trigger] call_ensures(
                            L::log_heuristic_obj_improvement,
                            (m, v.obj as usize, (v.cost + v.reduction) as usize, v.cost as usize),
                            reply,
                        )
                        &&& r is Ok <==> reply is Ok
                    }
            }),
    {
        let ghost objs = self.objs@;
        let ghost v = search@;
        if search.obj == self.objs.len() {
            return Ok(CostStep::Finished);
        }
        let obj = &self.objs[search.obj];
        if search.pos < obj.len() {
            let (l, w) = obj.entry(search.pos);
            if search.sol.lit_value(l) == TernaryVal::True {
                proof {
                    lemma_occurrences(objs, l.flipped());
                    assert(lit_data(self.obj_lit_data@).contains_key(l.flipped().lidx)
                        == self.obj_lit_data@.contains_key(l.flipped().lidx));
                }
                // If tightening and the negated literal does not appear in any
                // objective
                if search.tightening && !self.obj_lit_data.contains_key(&l.negate().lidx) {
                    search.asked = Some((l, w));
                    return Ok(CostStep::Flip(l.negate()));
                }
                search.cost = search.cost + w;
            }
            search.pos = search.pos + 1;
            proof {
                lemma_stepped(v, objs);
            }
            return Ok(CostStep::Moved);
        }
        if search.tightening {
            assert(v.obj as usize == search.obj && v.cost as usize == search.cost);
            assert((v.cost + v.reduction) as usize == search.cost + search.reduction);
            match self.log_heuristic_obj_improvement(
                search.obj,
                search.cost + search.reduction,
                search.cost,
            ) {
                Ok(_) => {},
                Err(t) => {
                    return Err(t);
                },
            }
        }
        search.costs.push(search.cost);
        search.obj = search.obj + 1;
        search.pos = 0;
        search.cost = 0;
        search.reduction = 0;
        search.before = Ghost(search.sol@);
        proof {
            lemma_stepped(v, objs);
        }
        Ok(CostStep::Moved)
    }
}

} // verus!
