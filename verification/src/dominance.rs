//! What the clauses mean that block what cost points dominate.
use vstd::prelude::*;

use crate::domination::{
    block_clauses, block_lits, blocked_by, counts, encodings_hold, implications, improves, in_order,
    law_block_excludes_dominated, law_blocking_keeps_order, law_encoding_keeps_order,
    law_more_variables_keep_order, lemma_block_clauses, lemma_block_lits, lemma_implications,
    lemma_next_ascends, next_before, part_clauses, takes_part, BlockPart,
};
use crate::encoding::{agree_off, has_new, ObjEncoding};
use crate::linear::has_model_like;
use crate::semantics::{
    agree_below, all_hold, clause_holds, cnf_below, cnf_holds, lemma_cnf_agree, lemma_cnf_append,
    lit_holds, lits_below, Valuation,
};
use crate::types::{lemma_flipped, lemma_over, Lit, MAX_VAR_IDX};
use crate::weights::{bag_weight, lemma_bag_agree};

verus! {

/// The variables from `start` up to but not including `end`.
pub open spec fn fresh(start: int, end: int) -> Set<int> {
    Set::new(|v: int| start <= v < end)
}

/// Whether an assignment gives every taken variable of encodings the value that
/// it has if the inputs are assigned by `a`, and assigns the inputs by `a`.
pub open spec fn canonical(b: Valuation, a: Valuation, encs: Seq<ObjEncoding>) -> bool {
    forall|i: int, v: int|
        0 <= i < encs.len() && #[trigger] encs[i].state().knows(v) ==> b.contains(v)
            == encs[i].state().filled(a).contains(v)
}

/// Some encoding has taken the variable.
pub open spec fn is_taken(encs: Seq<ObjEncoding>, v: int) -> bool {
    exists|i: int| 0 <= i < encs.len() && #[trigger] encs[i].state().vars.contains(v)
}

/// The encoding that has taken the variable.
spec fn taker(encs: Seq<ObjEncoding>, v: int) -> int {
    choose|i: int| 0 <= i < encs.len() && #[trigger] encs[i].state().vars.contains(v)
}

/// Encodings that are in order have taken different variables.
proof fn lemma_taker(encs: Seq<ObjEncoding>, next: int, i: int, v: int)
    requires
        in_order(encs, next),
        0 <= i < encs.len(),
        encs[i].state().vars.contains(v),
    ensures
        is_taken(encs, v),
        taker(encs, v) == i,
{
    let k = taker(encs, v);
    assert(encs[k].state().vars.contains(v));
    if k != i {
        assert(!encs[i].state().knows(v));
    }
}

/// Clauses of an encoding hold where its inputs and variables have the values
/// that they ask for.
proof fn lemma_clauses_hold(b: Valuation, a: Valuation, encs: Seq<ObjEncoding>, next: int)
    requires
        in_order(encs, next),
        canonical(b, a, encs),
    ensures
        encodings_hold(b, encs),
{
    assert forall|i: int| 0 <= i < encs.len() implies cnf_holds(
        b,
        (#[trigger] encs[i]).state().clauses,
    ) by {
        let st = encs[i].state();
        let cls = st.clauses;
        assert(st.closed_clauses() && st.conservative());
        assert(cnf_holds(st.filled(a), cls));
        assert forall|j: int| 0 <= j < cls.len() implies clause_holds(b, #[trigger] cls[j]) by {
            assert(clause_holds(st.filled(a), cls[j]));
            let m = choose|m: int|
                0 <= m < cls[j].len() && lit_holds(st.filled(a), #[trigger] cls[j][m]);
            assert(st.knows(cls[j][m].var()));
            assert(lit_holds(b, cls[j][m]));
        }
    }
}

/// The variable of a literal that stands for a cube is new, and no encoding has
/// taken it.
proof fn lemma_cube_variable(
    before: Seq<ObjEncoding>,
    after: Seq<ObjEncoding>,
    costs: Seq<usize>,
    parts: Seq<BlockPart>,
    next: int,
    i: int,
)
    requires
        0 <= next,
        in_order(before, next),
        blocked_by(before, after, costs, parts, next),
        0 <= i < costs.len(),
        counts(before[i], costs[i] as int),
        parts[i].cube.len() != 1,
    ensures
        next <= parts[i].mid < next_before(parts, next, costs.len() as int),
        !is_taken(after, parts[i].mid),
        parts[i].lit.var() == parts[i].mid,
        !parts[i].lit.neg(),
{
    let n = costs.len() as int;
    let part = parts[i];
    assert(takes_part(before[i], after[i], costs[i] as int, part, next_before(parts, next, i)));
    lemma_next_ascends(before, after, costs, parts, next, 0, i);
    lemma_next_ascends(before, after, costs, parts, next, i + 1, n);
    lemma_over(part.mid, false);
    assert forall|j: int| 0 <= j < n implies !#[trigger] after[j].state().vars.contains(
        part.mid,
    ) by {
        let nj = next_before(parts, next, j);
        assert(takes_part(before[j], after[j], costs[j] as int, parts[j], nj));
        assert(before[j].state().below(next));
        if j < i {
            lemma_next_ascends(before, after, costs, parts, next, j + 1, i);
        } else if i < j {
            lemma_next_ascends(before, after, costs, parts, next, i + 1, j);
        }
    }
}

/// An assignment with values for new variables: those that encodings have taken
/// get the values that the inputs give them, and of the others one is true.
spec fn spread(
    b: Valuation,
    a: Valuation,
    encs: Seq<ObjEncoding>,
    start: int,
    end: int,
    chosen: int,
) -> Valuation {
    Set::new(
        |v: int|
            if start <= v < end {
                if is_taken(encs, v) {
                    encs[taker(encs, v)].state().filled(a).contains(v)
                } else {
                    v == chosen
                }
            } else {
                b.contains(v)
            },
    )
}

/// Values that variables have keep being those that the inputs give them.
proof fn lemma_spread(
    before: Seq<ObjEncoding>,
    after: Seq<ObjEncoding>,
    costs: Seq<usize>,
    parts: Seq<BlockPart>,
    next: int,
    b: Valuation,
    a: Valuation,
    chosen: int,
)
    requires
        0 <= next,
        in_order(before, next),
        blocked_by(before, after, costs, parts, next),
        canonical(b, a, before),
    ensures
        canonical(
            spread(b, a, after, next, next_before(parts, next, costs.len() as int), chosen),
            a,
            after,
        ),
{
    let n = costs.len() as int;
    let end = next_before(parts, next, n);
    let c = spread(b, a, after, next, end, chosen);
    law_blocking_keeps_order(before, after, costs, parts, next);
    assert forall|i: int, v: int|
        0 <= i < after.len() && #[trigger] after[i].state().knows(v) implies c.contains(v)
        == after[i].state().filled(a).contains(v) by {
        let was = before[i].state();
        let now = after[i].state();
        let ni = next_before(parts, next, i);
        assert(takes_part(before[i], after[i], costs[i] as int, parts[i], ni));
        lemma_next_ascends(before, after, costs, parts, next, 0, i);
        assert(was.below(next) && was.disjoint());
        if now.vars.contains(v) {
            lemma_taker(after, end, i, v);
            assert(now.below(end));
            if v < next {
                assert(was.vars.contains(v));
                assert(was.knows(v));
                assert(now.filled(a).contains(v) == was.filled(a).contains(v));
            }
        } else {
            let x = choose|x: (Lit, usize)| #[trigger] now.inputs.count(x) > 0 && x.0.var() == v;
            assert(was.inputs.count(x) > 0);
            assert(!was.vars.contains(v));
            assert(was.knows(v));
        }
    }
}

/// Making a blocking clause keeps assignments, and keeps what improves: an
/// assignment can be given values for the new variables such that all clauses
/// of the encodings and all that the blocking clause needs hold. The blocking
/// clause holds too if some objective has a lower value than the cost point.
/// Variables that were taken before have to have the values that the inputs
/// give them, and so do the new ones.
pub proof fn law_block_extends(
    before: Seq<ObjEncoding>,
    after: Seq<ObjEncoding>,
    costs: Seq<usize>,
    parts: Seq<BlockPart>,
    next: int,
    b: Valuation,
    a: Valuation,
)
    requires
        0 <= next,
        in_order(before, next),
        blocked_by(before, after, costs, parts, next),
        canonical(b, a, before),
    ensures
        exists|c: Valuation| #[trigger]
            agree_off(b, c, fresh(next, next_before(parts, next, costs.len() as int))) && {
                &&& canonical(c, a, after)
                &&& encodings_hold(c, after)
                &&& cnf_holds(c, block_clauses(before, costs, parts))
                &&& improves(a, before, costs) ==> clause_holds(
                    c,
                    block_lits(before, costs, parts),
                )
            },
{
    let n = costs.len() as int;
    let end = next_before(parts, next, n);
    law_blocking_keeps_order(before, after, costs, parts, next);
    let k = if improves(a, before, costs) {
        choose|k: int|
            0 <= k < before.len() && counts(#[trigger] before[k], costs[k] as int) && bag_weight(
                before[k].state().inputs,
                a,
            ) < costs[k]
    } else {
        -1
    };
    let chosen = if 0 <= k && parts[k].cube.len() != 1 {
        parts[k].mid
    } else {
        -1
    };
    let c = spread(b, a, after, next, end, chosen);
    lemma_spread(before, after, costs, parts, next, b, a, chosen);
    lemma_clauses_hold(c, a, after, end);
    if 0 <= k {
        let st = after[k].state();
        let nk = next_before(parts, next, k);
        assert(takes_part(before[k], after[k], costs[k] as int, parts[k], nk));
        assert(bag_weight(st.inputs, a) <= costs[k] - 1);
        assert(all_hold(st.filled(a), parts[k].cube));
        assert forall|j: int| 0 <= j < parts[k].cube.len() implies lit_holds(
            c,
            #[trigger] parts[k].cube[j],
        ) by {
            assert(st.knows(parts[k].cube[j].var()));
        }
    }
    assert forall|i: int| 0 <= i < n && counts(before[i], costs[i] as int) implies cnf_holds(
        c,
        part_clauses(#[trigger] parts[i]),
    ) && (i == k ==> lit_holds(c, parts[i].lit)) by {
        let part = parts[i];
        assert(takes_part(before[i], after[i], costs[i] as int, part, next_before(parts, next, i)));
        assert(cnf_holds(c, after[i].state().clauses));
        lemma_cnf_append(c, before[i].state().clauses, part.cls);
        if part.cube.len() != 1 {
            lemma_cube_variable(before, after, costs, parts, next, i);
            if i != k && 0 <= k {
                // Different objectives have different literals
                if i < k {
                    lemma_next_ascends(before, after, costs, parts, next, i + 1, k);
                } else {
                    lemma_next_ascends(before, after, costs, parts, next, k + 1, i);
                }
                let nk = next_before(parts, next, k);
                assert(takes_part(before[k], after[k], costs[k] as int, parts[k], nk));
            }
            lemma_implications(c, part.lit, part.cube);
            lemma_cnf_append(c, part.cls, implications(part.lit, part.cube));
        }
    }
    lemma_block_clauses(before, costs, parts, c);
    lemma_block_lits(before, costs, parts, c);
    if 0 <= k {
        assert(lit_holds(c, parts[k].lit));
    }
    assert(agree_off(b, c, fresh(next, end)));
}

/// The values that inputs give the variables that encodings have taken.
spec fn own_values(a: Valuation, encs: Seq<ObjEncoding>) -> Valuation {
    Set::new(
        |v: int|
            if is_taken(encs, v) {
                encs[taker(encs, v)].state().filled(a).contains(v)
            } else {
                a.contains(v)
            },
    )
}

proof fn lemma_own_values(a: Valuation, encs: Seq<ObjEncoding>, next: int)
    requires
        in_order(encs, next),
    ensures
        canonical(own_values(a, encs), a, encs),
{
    let b = own_values(a, encs);
    assert forall|i: int, v: int|
        0 <= i < encs.len() && #[trigger] encs[i].state().knows(v) implies b.contains(v)
        == encs[i].state().filled(a).contains(v) by {
        if encs[i].state().vars.contains(v) {
            lemma_taker(encs, next, i, v);
        } else if is_taken(encs, v) {
            let k = taker(encs, v);
            assert(encs[k].state().vars.contains(v));
            assert(!encs[i].state().knows(v));
        }
    }
}

/// The variables that encodings have taken, and those from `start` up to but
/// not including `end`.
pub open spec fn taken(encs: Seq<ObjEncoding>, start: int, end: int) -> Set<int> {
    Set::new(|v: int| start <= v < end || is_taken(encs, v))
}

/// Nothing but what the cost point (weakly) dominates is blocked: an assignment
/// with a lower value in some objective satisfies the blocking clause and all
/// that it needs, once the variables that were taken have suitable values.
pub proof fn law_block_keeps_improvements(
    before: Seq<ObjEncoding>,
    after: Seq<ObjEncoding>,
    costs: Seq<usize>,
    parts: Seq<BlockPart>,
    next: int,
    a: Valuation,
)
    requires
        0 <= next,
        in_order(before, next),
        blocked_by(before, after, costs, parts, next),
        improves(a, before, costs),
    ensures
        exists|b: Valuation| #[trigger]
            agree_off(
                a,
                b,
                taken(after, next, next_before(parts, next, costs.len() as int)),
            ) && {
                &&& encodings_hold(b, after)
                &&& cnf_holds(b, block_clauses(before, costs, parts))
                &&& clause_holds(b, block_lits(before, costs, parts))
            },
{
    let end = next_before(parts, next, costs.len() as int);
    let b = own_values(a, before);
    lemma_own_values(a, before, next);
    law_block_extends(before, after, costs, parts, next, b, a);
    let c = choose|c: Valuation| #[trigger]
        agree_off(b, c, fresh(next, end)) && {
            &&& canonical(c, a, after)
            &&& encodings_hold(c, after)
            &&& cnf_holds(c, block_clauses(before, costs, parts))
            &&& improves(a, before, costs) ==> clause_holds(c, block_lits(before, costs, parts))
        };
    assert forall|v: int| !taken(after, next, end).contains(v) implies a.contains(v)
        == c.contains(v) by {
        assert(!fresh(next, end).contains(v));
        if is_taken(before, v) {
            let i = taker(before, v);
            assert(before[i].state().vars.contains(v));
            let ni = next_before(parts, next, i);
            assert(takes_part(before[i], after[i], costs[i] as int, parts[i], ni));
            assert(after[i].state().vars.contains(v));
        }
    }
    assert(agree_off(a, c, taken(after, next, end)));
}

/// What a blocking clause needs rules nothing out on its own: whatever satisfies
/// a formula over the variables that were in use, and the clauses of the
/// encodings, can be given values for the new variables such that it satisfies
/// the formula still, all clauses of the encodings, and all that the blocking
/// clause needs.
pub proof fn law_block_needs_rule_nothing_out(
    before: Seq<ObjEncoding>,
    after: Seq<ObjEncoding>,
    costs: Seq<usize>,
    parts: Seq<BlockPart>,
    next: int,
    base: Seq<Seq<Lit>>,
    b: Valuation,
)
    requires
        0 <= next,
        in_order(before, next),
        blocked_by(before, after, costs, parts, next),
        cnf_below(base, next),
        cnf_holds(b, base),
        encodings_hold(b, before),
    ensures
        exists|c: Valuation| #[trigger]
            agree_off(b, c, fresh(next, next_before(parts, next, costs.len() as int))) && {
                &&& cnf_holds(c, base)
                &&& encodings_hold(c, after)
                &&& cnf_holds(c, block_clauses(before, costs, parts))
            },
{
    let n = costs.len() as int;
    let end = next_before(parts, next, n);
    let c = Set::new(
        |v: int|
            if next <= v < end {
                is_taken(after, v)
            } else {
                b.contains(v)
            },
    );
    assert(agree_off(b, c, fresh(next, end)));
    lemma_cnf_agree(b, c, next, base);
    assert forall|i: int| 0 <= i < n implies cnf_holds(c, (#[trigger] after[i]).state().clauses)
        && (counts(before[i], costs[i] as int) ==> cnf_holds(c, part_clauses(parts[i]))) by {
        let part = parts[i];
        let ni = next_before(parts, next, i);
        assert(takes_part(before[i], after[i], costs[i] as int, part, ni));
        lemma_next_ascends(before, after, costs, parts, next, 0, i);
        lemma_next_ascends(before, after, costs, parts, next, i + 1, n);
        let st = before[i].state();
        let cls = st.clauses;
        assert(st.below(next) && st.closed_clauses());
        assert(cnf_holds(b, cls));
        assert forall|j: int| 0 <= j < cls.len() implies clause_holds(c, #[trigger] cls[j]) by {
            assert(clause_holds(b, cls[j]));
            let m = choose|m: int| 0 <= m < cls[j].len() && lit_holds(b, #[trigger] cls[j][m]);
            let v = cls[j][m].var();
            assert(st.knows(v));
            assert(v < next);
            assert(lit_holds(c, cls[j][m]));
        }
        if counts(before[i], costs[i] as int) {
            assert forall|j: int| 0 <= j < part.cls.len() implies clause_holds(
                c,
                #[trigger] part.cls[j],
            ) by {
                assert(has_new(part.cls[j], ni, part.mid));
                let m = choose|m: int|
                    0 <= m < part.cls[j].len() && !(#[trigger] part.cls[j][m]).neg() && ni
                        <= part.cls[j][m].var() < part.mid;
                let v = part.cls[j][m].var();
                assert(after[i].state().vars.contains(v));
                assert(is_taken(after, v));
                assert(lit_holds(c, part.cls[j][m]));
            }
            lemma_cnf_append(c, cls, part.cls);
            if part.cube.len() != 1 {
                lemma_cube_variable(before, after, costs, parts, next, i);
                lemma_implications(c, part.lit, part.cube);
                lemma_cnf_append(c, part.cls, implications(part.lit, part.cube));
            }
        }
    }
    assert forall|i: int| 0 <= i < n && counts(before[i], costs[i] as int) implies cnf_holds(
        c,
        part_clauses(#[trigger] parts[i]),
    ) by {
        assert(cnf_holds(c, after[i].state().clauses));
    }
    lemma_block_clauses(before, costs, parts, c);
}

/// How a cost point was blocked.
pub struct BlockCall {
    /// The encodings before.
    pub before: Seq<ObjEncoding>,
    /// The encodings afterwards.
    pub after: Seq<ObjEncoding>,
    /// The cost point.
    pub costs: Seq<usize>,
    /// How the objectives take part.
    pub parts: Seq<BlockPart>,
    /// The next free variable before.
    pub next: int,
}

/// How bounds were encoded with one of several encodings.
pub struct EncodeCall {
    /// The encodings before.
    pub before: Seq<ObjEncoding>,
    /// The encoding that the bounds were encoded with.
    pub idx: int,
    /// What has become of it.
    pub enc: ObjEncoding,
    /// The lowest bound.
    pub lo: int,
    /// One above the highest bound.
    pub hi: int,
    /// The clauses that were handed out.
    pub cls: Seq<Seq<Lit>>,
    /// The next free variable before.
    pub next: int,
    /// The next free variable afterwards.
    pub end: int,
}

/// What happens to encodings during a search.
pub enum EncodingEvent {
    /// A cost point was blocked.
    Blocked(BlockCall),
    /// Bounds were encoded.
    Encoded(EncodeCall),
}

impl EncodingEvent {
    /// The encodings before.
    pub open spec fn before(self) -> Seq<ObjEncoding> {
        match self {
            EncodingEvent::Blocked(call) => call.before,
            EncodingEvent::Encoded(call) => call.before,
        }
    }

    /// The encodings afterwards.
    pub open spec fn after(self) -> Seq<ObjEncoding> {
        match self {
            EncodingEvent::Blocked(call) => call.after,
            EncodingEvent::Encoded(call) => call.before.update(call.idx, call.enc),
        }
    }

    /// The next free variable before.
    pub open spec fn next(self) -> int {
        match self {
            EncodingEvent::Blocked(call) => call.next,
            EncodingEvent::Encoded(call) => call.next,
        }
    }

    /// The next free variable afterwards.
    pub open spec fn end(self) -> int {
        match self {
            EncodingEvent::Blocked(call) => next_before(
                call.parts,
                call.next,
                call.costs.len() as int,
            ),
            EncodingEvent::Encoded(call) => call.end,
        }
    }

    /// The event has happened: the objectives make up the blocking clause as the
    /// parts say, or the bounds were encoded and there were enough variables.
    pub open spec fn done(self) -> bool {
        match self {
            EncodingEvent::Blocked(call) => blocked_by(
                call.before,
                call.after,
                call.costs,
                call.parts,
                call.next,
            ),
            EncodingEvent::Encoded(call) => {
                &&& 0 <= call.idx < call.before.len()
                &&& call.before[call.idx].state().encoded_to(
                    call.enc.state(),
                    call.lo,
                    call.hi,
                    call.next,
                    call.cls,
                    call.end,
                )
                &&& call.enc.fits()
                &&& call.end <= MAX_VAR_IDX + 1
            },
        }
    }

    /// The clauses that come with it: a blocking clause and all that it needs, or
    /// those of the bounds.
    pub open spec fn clauses(self) -> Seq<Seq<Lit>> {
        match self {
            EncodingEvent::Blocked(call) => block_clauses(call.before, call.costs, call.parts).push(
                block_lits(call.before, call.costs, call.parts),
            ),
            EncodingEvent::Encoded(call) => call.cls,
        }
    }

    /// If a cost point was blocked, some objective has a lower value.
    pub open spec fn improved_by(self, a: Valuation) -> bool {
        match self {
            EncodingEvent::Blocked(call) => improves(a, call.before, call.costs),
            EncodingEvent::Encoded(_) => true,
        }
    }
}

/// Encodings stay in order and keep their inputs, and new clauses are over
/// variables that are in use.
proof fn lemma_event_order(e: EncodingEvent)
    requires
        0 <= e.next(),
        in_order(e.before(), e.next()),
        e.done(),
    ensures
        e.next() <= e.end(),
        in_order(e.after(), e.end()),
        e.after().len() == e.before().len(),
        forall|i: int|
            0 <= i < e.before().len() ==> (#[trigger] e.after()[i]).state().inputs
                == e.before()[i].state().inputs,
        cnf_below(e.clauses(), e.end()),
{
    match e {
        EncodingEvent::Blocked(call) => {
            let n = call.costs.len() as int;
            law_blocking_keeps_order(call.before, call.after, call.costs, call.parts, call.next);
            lemma_next_ascends(call.before, call.after, call.costs, call.parts, call.next, 0, n);
            lemma_block_below(call.before, call.after, call.costs, call.parts, call.next);
            let needs = block_clauses(call.before, call.costs, call.parts);
            let all = e.clauses();
            assert forall|i: int| 0 <= i < all.len() implies lits_below(
                #[trigger] all[i],
                e.end(),
            ) by {
                if i < needs.len() {
                    assert(all[i] == needs[i]);
                }
            }
        },
        EncodingEvent::Encoded(call) => {
            law_encoding_keeps_order(
                call.before,
                call.idx,
                call.enc,
                call.lo,
                call.hi,
                call.next,
                call.cls,
                call.end,
            );
            let st = call.enc.state();
            let was = call.before[call.idx].state().clauses;
            assert(e.after()[call.idx] == call.enc);
            assert(st.below(call.end) && st.closed_clauses());
            assert forall|i: int| 0 <= i < call.cls.len() implies lits_below(
                #[trigger] call.cls[i],
                call.end,
            ) by {
                assert(st.clauses[was.len() + i] == call.cls[i]);
                assert forall|j: int| 0 <= j < call.cls[i].len() implies (
                #[trigger] call.cls[i][j]).var() < call.end by {
                    let v = st.clauses[was.len() + i][j].var();
                    assert(st.knows(v));
                    if !st.vars.contains(v) {
                        let x = choose|x: (Lit, usize)| #[trigger]
                            st.inputs.count(x) > 0 && x.0.var() == v;
                    }
                }
            }
        },
    }
}

/// What satisfies all clauses improves, and satisfies all clauses of the
/// encodings.
proof fn lemma_event_excludes(e: EncodingEvent, a: Valuation)
    requires
        e.done(),
        encodings_hold(a, e.before()),
        cnf_holds(a, e.clauses()),
    ensures
        e.improved_by(a),
        encodings_hold(a, e.after()),
{
    match e {
        EncodingEvent::Blocked(call) => {
            let needs = block_clauses(call.before, call.costs, call.parts);
            let lits = block_lits(call.before, call.costs, call.parts);
            assert(e.clauses()[needs.len() as int] == lits);
            assert forall|i: int| 0 <= i < needs.len() implies clause_holds(
                a,
                #[trigger] needs[i],
            ) by {
                assert(e.clauses()[i] == needs[i]);
            }
            law_block_excludes_dominated(
                call.before,
                call.after,
                call.costs,
                call.parts,
                call.next,
                a,
            );
            lemma_block_clauses(call.before, call.costs, call.parts, a);
            assert forall|i: int| 0 <= i < call.after.len() implies cnf_holds(
                a,
                (#[trigger] call.after[i]).state().clauses,
            ) by {
                let part = call.parts[i];
                assert(takes_part(
                    call.before[i],
                    call.after[i],
                    call.costs[i] as int,
                    part,
                    next_before(call.parts, call.next, i),
                ));
                assert(cnf_holds(a, call.before[i].state().clauses));
                if counts(call.before[i], call.costs[i] as int) {
                    assert(cnf_holds(a, part_clauses(part)));
                    lemma_cnf_append(a, part.cls, implications(part.lit, part.cube));
                    lemma_cnf_append(a, call.before[i].state().clauses, part.cls);
                }
            }
        },
        EncodingEvent::Encoded(call) => {
            lemma_cnf_append(a, call.before[call.idx].state().clauses, call.cls);
            assert forall|i: int| 0 <= i < e.after().len() implies cnf_holds(
                a,
                (#[trigger] e.after()[i]).state().clauses,
            ) by {
                assert(cnf_holds(a, call.before[i].state().clauses));
            }
        },
    }
}

/// What improves can be given values for the new variables such that all clauses
/// hold. Variables that were taken before have to have the values that the
/// inputs give them, and so do the new ones.
pub proof fn law_event_extends(e: EncodingEvent, b: Valuation, a: Valuation)
    requires
        0 <= e.next(),
        in_order(e.before(), e.next()),
        e.done(),
        canonical(b, a, e.before()),
        e.improved_by(a),
    ensures
        exists|c: Valuation| #[trigger]
            agree_off(b, c, fresh(e.next(), e.end())) && {
                &&& canonical(c, a, e.after())
                &&& cnf_holds(c, e.clauses())
            },
{
    lemma_event_order(e);
    match e {
        EncodingEvent::Blocked(call) => {
            law_block_extends(
                call.before,
                call.after,
                call.costs,
                call.parts,
                call.next,
                b,
                a,
            );
            let needs = block_clauses(call.before, call.costs, call.parts);
            let lits = block_lits(call.before, call.costs, call.parts);
            let c = choose|c: Valuation| #[trigger]
                agree_off(b, c, fresh(call.next, e.end())) && {
                    &&& canonical(c, a, call.after)
                    &&& encodings_hold(c, call.after)
                    &&& cnf_holds(c, needs)
                    &&& improves(a, call.before, call.costs) ==> clause_holds(c, lits)
                };
            let all = e.clauses();
            assert forall|i: int| 0 <= i < all.len() implies clause_holds(c, #[trigger] all[i]) by {
                if i < needs.len() {
                    assert(all[i] == needs[i]);
                }
            }
            assert(agree_off(b, c, fresh(e.next(), e.end())) && cnf_holds(c, all));
        },
        EncodingEvent::Encoded(call) => {
            let after = e.after();
            let c = spread(b, a, after, call.next, call.end, -1);
            assert forall|i: int, v: int|
                0 <= i < after.len() && #[trigger] after[i].state().knows(v) implies c.contains(v)
                == after[i].state().filled(a).contains(v) by {
                let was = call.before[i].state();
                let now = after[i].state();
                assert(was.below(call.next) && was.disjoint());
                assert(now.below(call.end));
                if now.vars.contains(v) {
                    lemma_taker(after, call.end, i, v);
                    if v < call.next {
                        assert(was.vars.contains(v));
                        assert(was.knows(v));
                        assert(now.filled(a).contains(v) == was.filled(a).contains(v));
                    }
                } else {
                    let x = choose|x: (Lit, usize)| #[trigger]
                        now.inputs.count(x) > 0 && x.0.var() == v;
                    assert(was.inputs.count(x) > 0);
                    assert(!was.vars.contains(v));
                    assert(was.knows(v));
                }
            }
            lemma_clauses_hold(c, a, after, call.end);
            assert(cnf_holds(c, after[call.idx].state().clauses));
            lemma_cnf_append(c, call.before[call.idx].state().clauses, call.cls);
            assert(agree_off(b, c, fresh(e.next(), e.end())));
        },
    }
}

/// The encodings once all events have happened.
pub open spec fn encs_after(events: Seq<EncodingEvent>, encs: Seq<ObjEncoding>) -> Seq<ObjEncoding> {
    if events.len() == 0 {
        encs
    } else {
        events.last().after()
    }
}

/// The next free variable once all events have happened.
pub open spec fn next_after(events: Seq<EncodingEvent>, next: int) -> int {
    if events.len() == 0 {
        next
    } else {
        events.last().end()
    }
}

/// Whether events have happened one after the other, starting with the given
/// encodings and the given next free variable. More variables may have been
/// taken for other purposes in between.
pub open spec fn events_follow(
    events: Seq<EncodingEvent>,
    encs: Seq<ObjEncoding>,
    next: int,
) -> bool
    decreases events.len(),
{
    if events.len() == 0 {
        0 <= next && in_order(encs, next)
    } else {
        let init = events.drop_last();
        let last = events.last();
        &&& events_follow(init, encs, next)
        &&& last.done()
        &&& last.before() == encs_after(init, encs)
        &&& next_after(init, next) <= last.next()
    }
}

/// All clauses that come with events.
pub open spec fn added(events: Seq<EncodingEvent>) -> Seq<Seq<Lit>>
    decreases events.len(),
{
    if events.len() == 0 {
        Seq::empty()
    } else {
        added(events.drop_last()) + events.last().clauses()
    }
}

/// Encodings stay in order and keep their inputs.
proof fn lemma_events(events: Seq<EncodingEvent>, encs: Seq<ObjEncoding>, next: int)
    requires
        events_follow(events, encs, next),
    ensures
        0 <= next <= next_after(events, next),
        in_order(encs, next),
        in_order(encs_after(events, encs), next_after(events, next)),
        encs_after(events, encs).len() == encs.len(),
        forall|i: int|
            0 <= i < encs.len() ==> (#[trigger] encs_after(events, encs)[i]).state().inputs
                == encs[i].state().inputs,
        cnf_below(added(events), next_after(events, next)),
    decreases events.len(),
{
    if events.len() > 0 {
        let init = events.drop_last();
        let last = events.last();
        lemma_events(init, encs, next);
        law_more_variables_keep_order(last.before(), next_after(init, next), last.next());
        lemma_event_order(last);
        assert forall|i: int| 0 <= i < encs.len() implies (
        #[trigger] last.after()[i]).state().inputs == encs[i].state().inputs by {
            assert(last.before()[i].state().inputs == encs[i].state().inputs);
        }
        let all = added(events);
        assert forall|i: int| 0 <= i < all.len() implies lits_below(
            #[trigger] all[i],
            last.end(),
        ) by {
            let k = added(init).len() as int;
            if i < k {
                assert(all[i] == added(init)[i]);
                assert(lits_below(added(init)[i], next_after(init, next)));
            } else {
                assert(all[i] == last.clauses()[i - k]);
            }
        }
    }
}

/// Assignments that agree on the inputs of encodings improve on the same.
proof fn lemma_improves_agree(
    events: Seq<EncodingEvent>,
    encs: Seq<ObjEncoding>,
    next: int,
    a: Valuation,
    b: Valuation,
)
    requires
        events_follow(events, encs, next),
        agree_below(a, b, next),
    ensures
        forall|k: int|
            0 <= k < events.len() && (#[trigger] events[k]).improved_by(a)
                ==> events[k].improved_by(b),
    decreases events.len(),
{
    if events.len() > 0 {
        let init = events.drop_last();
        let last = events.last();
        lemma_events(init, encs, next);
        lemma_improves_agree(init, encs, next, a, b);
        assert forall|k: int|
            0 <= k < events.len() && (#[trigger] events[k]).improved_by(a) implies events[k].improved_by(
            b,
        ) by {
            if k < init.len() {
                assert(init[k] == events[k]);
            } else if let EncodingEvent::Blocked(call) = last {
                let i = choose|i: int|
                    0 <= i < call.before.len() && counts(
                        #[trigger] call.before[i],
                        call.costs[i] as int,
                    ) && bag_weight(call.before[i].state().inputs, a) < call.costs[i];
                let inputs = call.before[i].state().inputs;
                assert(inputs == encs[i].state().inputs);
                assert(encs[i].state().below(next));
                assert forall|x: (Lit, usize)| #[trigger] inputs.count(x) > 0 implies a.contains(
                    x.0.var(),
                ) == b.contains(x.0.var()) by {
                    assert(encs[i].state().inputs.count(x) > 0);
                }
                lemma_bag_agree(inputs, a, b);
                assert(counts(call.before[i], call.costs[i] as int));
            }
        }
    }
}

/// Whatever satisfies all clauses that come with events, and the clauses that
/// the encodings have handed out before, is dominated by no cost point that was
/// blocked.
pub proof fn law_blocks_exclude_dominated(
    events: Seq<EncodingEvent>,
    encs: Seq<ObjEncoding>,
    next: int,
    a: Valuation,
)
    requires
        events_follow(events, encs, next),
        encodings_hold(a, encs),
        cnf_holds(a, added(events)),
    ensures
        encodings_hold(a, encs_after(events, encs)),
        forall|k: int| 0 <= k < events.len() ==> (#[trigger] events[k]).improved_by(a),
    decreases events.len(),
{
    if events.len() > 0 {
        let init = events.drop_last();
        let last = events.last();
        lemma_cnf_append(a, added(init), last.clauses());
        law_blocks_exclude_dominated(init, encs, next, a);
        lemma_event_excludes(last, a);
        assert forall|k: int| 0 <= k < events.len() implies (#[trigger] events[k]).improved_by(
            a,
        ) by {
            if k < init.len() {
                assert(init[k] == events[k]);
            }
        }
    }
}

/// What improves on all cost points that were blocked can be given values for
/// the new variables such that all clauses hold that come with events.
/// Variables that were taken before have to have the values that the inputs
/// give them.
pub proof fn law_events_extend(
    events: Seq<EncodingEvent>,
    encs: Seq<ObjEncoding>,
    next: int,
    b: Valuation,
    a: Valuation,
)
    requires
        events_follow(events, encs, next),
        canonical(b, a, encs),
        forall|k: int| 0 <= k < events.len() ==> (#[trigger] events[k]).improved_by(a),
    ensures
        exists|c: Valuation| #[trigger]
            agree_below(b, c, next) && {
                &&& canonical(c, a, encs_after(events, encs))
                &&& cnf_holds(c, added(events))
            },
    decreases events.len(),
{
    if events.len() == 0 {
        assert(agree_below(b, b, next));
    } else {
        let init = events.drop_last();
        let last = events.last();
        lemma_events(init, encs, next);
        assert forall|k: int| 0 <= k < init.len() implies (#[trigger] init[k]).improved_by(a) by {
            assert(init[k] == events[k]);
        }
        law_events_extend(init, encs, next, b, a);
        let mid = choose|c: Valuation| #[trigger]
            agree_below(b, c, next) && {
                &&& canonical(c, a, encs_after(init, encs))
                &&& cnf_holds(c, added(init))
            };
        law_more_variables_keep_order(last.before(), next_after(init, next), last.next());
        assert(events[events.len() - 1].improved_by(a));
        law_event_extends(last, mid, a);
        let c = choose|c: Valuation| #[trigger]
            agree_off(mid, c, fresh(last.next(), last.end())) && {
                &&& canonical(c, a, last.after())
                &&& cnf_holds(c, last.clauses())
            };
        assert forall|v: int| 0 <= v < last.next() implies mid.contains(v) == c.contains(v) by {
            assert(!fresh(last.next(), last.end()).contains(v));
        }
        lemma_cnf_agree(mid, c, next_after(init, next), added(init));
        lemma_cnf_append(c, added(init), last.clauses());
        assert(agree_below(b, c, next));
    }
}

/// A blocking clause and what it needs use no variables beyond those in use.
proof fn lemma_block_below(
    before: Seq<ObjEncoding>,
    after: Seq<ObjEncoding>,
    costs: Seq<usize>,
    parts: Seq<BlockPart>,
    next: int,
)
    requires
        0 <= next,
        in_order(before, next),
        blocked_by(before, after, costs, parts, next),
    ensures
        cnf_below(
            block_clauses(before, costs, parts),
            next_before(parts, next, costs.len() as int),
        ),
        lits_below(
            block_lits(before, costs, parts),
            next_before(parts, next, costs.len() as int),
        ),
{
    lemma_block_below_upto(before, after, costs, parts, next, costs.len() as int);
    assert(parts.take(costs.len() as int) =~= parts);
}

proof fn lemma_block_below_upto(
    before: Seq<ObjEncoding>,
    after: Seq<ObjEncoding>,
    costs: Seq<usize>,
    parts: Seq<BlockPart>,
    next: int,
    n: int,
)
    requires
        0 <= next,
        in_order(before, next),
        blocked_by(before, after, costs, parts, next),
        0 <= n <= costs.len(),
    ensures
        cnf_below(
            block_clauses(before, costs, parts.take(n)),
            next_before(parts, next, costs.len() as int),
        ),
        lits_below(
            block_lits(before, costs, parts.take(n)),
            next_before(parts, next, costs.len() as int),
        ),
    decreases n,
{
    if n > 0 {
        let i = n - 1;
        let end = next_before(parts, next, costs.len() as int);
        lemma_block_below_upto(before, after, costs, parts, next, i);
        assert(parts.take(n).drop_last() =~= parts.take(i));
        law_blocking_keeps_order(before, after, costs, parts, next);
        let part = parts[i];
        let ni = next_before(parts, next, i);
        assert(takes_part(before[i], after[i], costs[i] as int, part, ni));
        let st = after[i].state();
        assert(st.below(end) && st.closed_clauses());
        if counts(before[i], costs[i] as int) {
            assert forall|v: int| #[trigger] st.knows(v) implies v < end by {
                if !st.vars.contains(v) {
                    let x = choose|x: (Lit, usize)| #[trigger]
                        st.inputs.count(x) > 0 && x.0.var() == v;
                }
            }
            if part.cube.len() != 1 {
                lemma_cube_variable(before, after, costs, parts, next, i);
            } else {
                assert(st.knows(part.cube[0].var()));
            }
            assert(part.lit.var() < end);
            lemma_flipped(part.lit);
            let cls = part_clauses(part);
            let was = before[i].state().clauses;
            assert forall|j: int| 0 <= j < cls.len() implies lits_below(
                #[trigger] cls[j],
                end,
            ) by {
                assert forall|m: int| 0 <= m < cls[j].len() implies (#[trigger] cls[j][m]).var()
                    < end by {
                    if j < part.cls.len() {
                        assert(cls[j] == part.cls[j]);
                        assert(st.clauses[was.len() + j] == part.cls[j]);
                        assert(st.knows(st.clauses[was.len() + j][m].var()));
                    } else {
                        let q = j - part.cls.len();
                        assert(cls[j] == implications(part.lit, part.cube)[q]);
                        assert(st.knows(part.cube[q].var()));
                    }
                }
            }
        }
    }
}

/// Whether encodings are as they are made: nothing is taken or handed out yet.
pub open spec fn untouched(encs: Seq<ObjEncoding>) -> bool {
    forall|i: int|
        0 <= i < encs.len() ==> {
            &&& (#[trigger] encs[i]).state().vars == Set::<int>::empty()
            &&& encs[i].state().clauses.len() == 0
        }
}

/// What a search leaves of a formula when it blocks cost points and encodes
/// bounds are exactly the solutions that have, for every cost point that was
/// blocked, some objective with a lower value. The formula may be any over the
/// variables that were in use before.
pub proof fn law_blocks_leave_improvements(
    events: Seq<EncodingEvent>,
    encs: Seq<ObjEncoding>,
    next: int,
    base: Seq<Seq<Lit>>,
    a: Valuation,
)
    requires
        events_follow(events, encs, next),
        untouched(encs),
        cnf_below(base, next),
    ensures
        has_model_like(base + added(events), a, next) <==> {
            &&& has_model_like(base, a, next)
            &&& forall|k: int| 0 <= k < events.len() ==> (#[trigger] events[k]).improved_by(a)
        },
{
    if has_model_like(base + added(events), a, next) {
        let b = choose|b: Valuation| #[trigger]
            agree_below(a, b, next) && cnf_holds(b, base + added(events));
        lemma_cnf_append(b, base, added(events));
        assert(encodings_hold(b, encs));
        law_blocks_exclude_dominated(events, encs, next, b);
        lemma_improves_agree(events, encs, next, b, a);
        assert(has_model_like(base, a, next));
    }
    if has_model_like(base, a, next) && forall|k: int|
        0 <= k < events.len() ==> (#[trigger] events[k]).improved_by(a) {
        let m = choose|m: Valuation| #[trigger] agree_below(a, m, next) && cnf_holds(m, base);
        lemma_improves_agree(events, encs, next, a, m);
        assert(canonical(m, m, encs));
        law_events_extend(events, encs, next, m, m);
        let c = choose|c: Valuation| #[trigger]
            agree_below(m, c, next) && {
                &&& canonical(c, m, encs_after(events, encs))
                &&& cnf_holds(c, added(events))
            };
        lemma_cnf_agree(m, c, next, base);
        lemma_cnf_append(c, base, added(events));
        assert(agree_below(a, c, next));
    }
}

/// Blocking one more cost point keeps what is left of a formula, except for what
/// has no lower value in any objective. Encoding bounds keeps all that is left.
pub proof fn law_next_event_keeps_improvements(
    events: Seq<EncodingEvent>,
    encs: Seq<ObjEncoding>,
    next: int,
    base: Seq<Seq<Lit>>,
    a: Valuation,
)
    requires
        events.len() > 0,
        events_follow(events, encs, next),
        untouched(encs),
        cnf_below(base, next),
        has_model_like(base + added(events.drop_last()), a, next),
    ensures
        has_model_like(base + added(events), a, next) <==> events.last().improved_by(a),
{
    let init = events.drop_last();
    law_blocks_leave_improvements(init, encs, next, base, a);
    law_blocks_leave_improvements(events, encs, next, base, a);
    assert(events[events.len() - 1] == events.last());
    if events.last().improved_by(a) {
        assert forall|k: int| 0 <= k < events.len() implies (#[trigger] events[k]).improved_by(
            a,
        ) by {
            if k < init.len() {
                assert(init[k] == events[k]);
            }
        }
    }
}

} // verus!
