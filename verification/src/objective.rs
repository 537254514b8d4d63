//! Objectives: soft clauses, and the weighted literals that stand for them.
use std::collections::HashMap;

use vstd::prelude::*;

use crate::blits::BlitTable;
use crate::merging::add_weight;
use crate::types::{clause_views, Clause, Lit, MAX_VAR_IDX};
use crate::vars::VarManager;

verus! {

broadcast use vstd::std_specs::hash::group_hash_axioms;

/// Whether a literal occurs in a list of weighted literals.
pub open spec fn has_lit(entries: Seq<(Lit, usize)>, l: Lit) -> bool {
    exists|i: int| 0 <= i < entries.len() && (#[trigger] entries[i]).0 == l
}

/// The place of a literal in a list of weighted literals.
pub open spec fn place_of(entries: Seq<(Lit, usize)>, l: Lit) -> int {
    choose|i: int| 0 <= i < entries.len() && (#[trigger] entries[i]).0 == l
}

/// No literal occurs twice.
pub open spec fn distinct_lits(entries: Seq<(Lit, usize)>) -> bool {
    forall|i: int, j: int|
        0 <= i < entries.len() && 0 <= j < entries.len() && i != j ==> (#[trigger] entries[i]).0 != (
        #[trigger] entries[j]).0
}

/// A new literal comes last, a known one takes the new weight.
pub open spec fn insert_weight(entries: Seq<(Lit, usize)>, l: Lit, w: usize) -> Seq<(Lit, usize)> {
    if has_lit(entries, l) {
        entries.update(place_of(entries, l), (l, w))
    } else {
        entries.push((l, w))
    }
}

/// The weighted literals that are left when pairs are put into a map one after
/// the other.
pub open spec fn collect_weights(pairs: Seq<(Lit, usize)>) -> Seq<(Lit, usize)>
    decreases pairs.len(),
{
    if pairs.len() == 0 {
        Seq::empty()
    } else {
        insert_weight(collect_weights(pairs.drop_last()), pairs.last().0, pairs.last().1)
    }
}

/// Inserting keeps literals apart.
pub proof fn lemma_insert_distinct(entries: Seq<(Lit, usize)>, l: Lit, w: usize)
    requires
        distinct_lits(entries),
    ensures
        distinct_lits(insert_weight(entries, l, w)),
{
    if has_lit(entries, l) {
        let p = place_of(entries, l);
        assert(entries[p].0 == l);
        let e = entries.update(p, (l, w));
        assert forall|i: int| 0 <= i < e.len() implies (#[trigger] e[i]).0 == entries[i].0 by {}
    } else {
        let e = entries.push((l, w));
        assert forall|i: int| 0 <= i < entries.len() implies (#[trigger] e[i]) == entries[i]
            && entries[i].0 != l by {}
    }
}

/// Collected literals are distinct, and are the pairs themselves if these had
/// distinct literals already.
pub proof fn lemma_collect(pairs: Seq<(Lit, usize)>)
    ensures
        distinct_lits(collect_weights(pairs)),
        distinct_lits(pairs) ==> collect_weights(pairs) == pairs,
    decreases pairs.len(),
{
    if pairs.len() > 0 {
        let init = pairs.drop_last();
        lemma_collect(init);
        lemma_insert_distinct(collect_weights(init), pairs.last().0, pairs.last().1);
        if distinct_lits(pairs) {
            assert forall|i: int, j: int|
                0 <= i < init.len() && 0 <= j < init.len() && i != j implies (
            #[trigger] init[i]).0 != (#[trigger] init[j]).0 by {
                assert(pairs[i] == init[i] && pairs[j] == init[j]);
            }
            if has_lit(init, pairs.last().0) {
                let p = place_of(init, pairs.last().0);
                assert(init[p] == pairs[p]);
                assert(pairs[pairs.len() - 1].0 == pairs[p].0);
            }
            assert(collect_weights(pairs) =~= pairs);
        }
    } else {
        assert(collect_weights(pairs) =~= pairs);
    }
}

/// Collects weighted literals, each once, in the order of their first
/// occurrence.
pub struct LitWeights {
    entries: Vec<(Lit, usize)>,
    index: HashMap<u32, usize>,
}

impl View for LitWeights {
    type V = Seq<(Lit, usize)>;

    closed spec fn view(&self) -> Seq<(Lit, usize)> {
        self.entries@
    }
}

impl LitWeights {
    /// The index knows the place of every literal, and no others.
    pub closed spec fn wf(&self) -> bool {
        &&& forall|i: int|
            0 <= i < self.entries@.len() ==> {
                let k = (#[trigger] self.entries@[i]).0.lidx;
                self.index@.contains_key(k) && self.index@[k] == i
            }
        &&& forall|k: u32| #[trigger]
            self.index@.contains_key(k) ==> self.index@[k] < self.entries@.len()
                && self.entries@[self.index@[k] as int].0.lidx == k
    }

    /// Creates an empty collection.
    pub fn new() -> (t: LitWeights)
        ensures
            t.wf(),
            t@ == Seq::<(Lit, usize)>::empty(),
    {
        LitWeights { entries: Vec::new(), index: HashMap::new() }
    }

    /// Adds a literal with its weight, or changes the weight of a literal.
    pub fn insert(&mut self, l: Lit, w: usize)
        requires
            old(self).wf(),
        ensures
            final(self).wf(),
            final(self)@ == insert_weight(old(self)@, l, w),
    {
        let known: Option<usize> = match self.index.get(&l.lidx) {
            Some(i) => Some(*i),
            None => None,
        };
        match known {
            Some(i) => {
                proof {
                    assert(self.entries@[i as int].0 == l);
                    assert(has_lit(self@, l));
                    let p = place_of(self@, l);
                    assert(self.entries@[p].0 == l);
                    assert(p == i);
                }
                self.entries.set(i, (l, w));
                assert forall|j: int| 0 <= j < self.entries@.len() implies (
                #[trigger] self.entries@[j]).0 == old(self).entries@[j].0 by {}
            },
            None => {
                proof {
                    if has_lit(self@, l) {
                        let p = place_of(self@, l);
                        assert(self.entries@[p].0.lidx == l.lidx);
                    }
                }
                let i = self.entries.len();
                self.entries.push((l, w));
                self.index.insert(l.lidx, i);
                proof {
                    assert forall|j: int| 0 <= j < self.entries@.len() implies ({
                        let k = (#[trigger] self.entries@[j]).0.lidx;
                        self.index@.contains_key(k) && self.index@[k] == j
                    }) by {
                        if j < i {
                            assert(self.entries@[j] == old(self).entries@[j]);
                        }
                    }
                    assert forall|k: u32| #[trigger] self.index@.contains_key(k) implies self.index@[k]
                        < self.entries@.len() && self.entries@[self.index@[k] as int].0.lidx == k by {
                        if k != l.lidx {
                            assert(old(self).index@.contains_key(k));
                        }
                    }
                }
            },
        }
    }

    /// Adds a literal with its weight, or adds to the weight of a literal. A
    /// weight of zero changes nothing.
    pub fn add(&mut self, l: Lit, w: usize)
        requires
            old(self).wf(),
            has_lit(old(self)@, l) ==> old(self)@[place_of(old(self)@, l)].1 + w <= usize::MAX,
        ensures
            final(self).wf(),
            final(self)@ == add_weight(old(self)@, l, w),
    {
        if w == 0 {
            return;
        }
        let known: Option<usize> = match self.index.get(&l.lidx) {
            Some(i) => Some(*i),
            None => None,
        };
        match known {
            Some(i) => {
                proof {
                    assert(self.entries@[i as int].0 == l);
                    assert(has_lit(self@, l));
                    let p = place_of(self@, l);
                    assert(self.entries@[p].0 == l);
                    assert(p == i);
                }
                let sum = self.entries[i].1 + w;
                self.insert(l, sum);
            },
            None => {
                proof {
                    if has_lit(self@, l) {
                        let p = place_of(self@, l);
                        assert(self.entries@[p].0.lidx == l.lidx);
                    }
                }
                self.insert(l, w);
            },
        }
    }

    /// The collected literals with their weights.
    pub fn into_entries(self) -> (entries: Vec<(Lit, usize)>)
        ensures
            entries@ == self@,
    {
        self.entries
    }
}

/// An objective as the sum of the weights of the literals that are true, up to
/// a factor and an offset.
#[allow(inconsistent_fields)]
pub enum Objective {
    Weighted { offset: isize, lits: Vec<(Lit, usize)> },
    Unweighted { offset: isize, unit_weight: usize, lits: Vec<Lit> },
    Constant { offset: isize },
}

impl Objective {
    /// The literals of the objective with their internal weights.
    pub open spec fn entries(self) -> Seq<(Lit, usize)> {
        match self {
            Objective::Weighted { lits, .. } => lits@,
            Objective::Unweighted { lits, .. } => lits@.map_values(|l: Lit| (l, 1usize)),
            Objective::Constant { .. } => Seq::empty(),
        }
    }

    /// The constant part of the objective.
    pub open spec fn constant_part(self) -> int {
        match self {
            Objective::Weighted { offset, .. } => offset as int,
            Objective::Unweighted { offset, .. } => offset as int,
            Objective::Constant { offset } => offset as int,
        }
    }

    /// What one unit of internal cost stands for.
    pub open spec fn unit(self) -> int {
        match self {
            Objective::Unweighted { unit_weight, .. } => unit_weight as int,
            _ => 1,
        }
    }

    /// The external cost that an internal cost stands for. A constant
    /// objective has no internal cost.
    pub open spec fn external(self, internal: int) -> int {
        if self is Constant {
            self.constant_part()
        } else {
            internal * self.unit() + self.constant_part()
        }
    }

    /// Gets the offset of the objective.
    pub fn offset(&self) -> (offset: isize)
        ensures
            offset == self.constant_part(),
    {
        match self {
            Objective::Weighted { offset, .. } => *offset,
            Objective::Unweighted { offset, .. } => *offset,
            Objective::Constant { offset } => *offset,
        }
    }

    /// The number of literals of the objective.
    pub fn len(&self) -> (n: usize)
        ensures
            n == self.entries().len(),
    {
        match self {
            Objective::Weighted { lits, .. } => lits.len(),
            Objective::Unweighted { lits, .. } => lits.len(),
            Objective::Constant { .. } => 0,
        }
    }

    /// One literal of the objective with its internal weight.
    pub fn entry(&self, i: usize) -> (entry: (Lit, usize))
        requires
            i < self.entries().len(),
        ensures
            entry == self.entries()[i as int],
    {
        match self {
            Objective::Weighted { lits, .. } => lits[i],
            Objective::Unweighted { lits, .. } => (lits[i], 1),
            Objective::Constant { .. } => (Lit { lidx: 0 }, 0),
        }
    }

    /// The literals of the objective with their internal weights, whatever
    /// kind of objective it is.
    pub fn iter(&self) -> (entries: Vec<(Lit, usize)>)
        ensures
            entries@ == self.entries(),
    {
        let mut entries: Vec<(Lit, usize)> = Vec::new();
        match self {
            Objective::Weighted { lits, .. } => {
                for i in 0..lits.len()
                    invariant
                        entries@ == lits@.take(i as int),
                {
                    entries.push((lits[i].0, lits[i].1));
                    assert(lits@.take(i + 1) =~= lits@.take(i as int).push(lits@[i as int]));
                }
                assert(lits@.take(lits@.len() as int) =~= lits@);
            },
            Objective::Unweighted { lits, .. } => {
                for i in 0..lits.len()
                    invariant
                        entries@ == self.entries().take(i as int),
                        self.entries() == lits@.map_values(|l: Lit| (l, 1usize)),
                {
                    entries.push((lits[i], 1));
                    assert(self.entries().take(i + 1) =~= self.entries().take(i as int).push(
                        (lits@[i as int], 1),
                    ));
                }
                assert(self.entries().take(lits@.len() as int) =~= self.entries());
            },
            Objective::Constant { .. } => {},
        }
        entries
    }
}

/// An objective as it is given: clauses that cost something if they are not
/// satisfied.
#[allow(inconsistent_fields)]
pub enum SoftObjective {
    Weighted { offset: isize, softs: Vec<(Clause, usize)> },
    Unweighted { offset: isize, unit_weight: usize, softs: Vec<Clause> },
    Constant { offset: isize },
}

impl SoftObjective {
    /// The soft clauses with their weights.
    pub open spec fn softs(self) -> Seq<(Seq<Lit>, usize)> {
        match self {
            SoftObjective::Weighted { softs, .. } => softs@.map_values(
                |s: (Clause, usize)| (s.0@, s.1),
            ),
            SoftObjective::Unweighted { unit_weight, softs, .. } => softs@.map_values(
                |c: Clause| (c@, unit_weight),
            ),
            SoftObjective::Constant { .. } => Seq::empty(),
        }
    }

    /// The soft clauses.
    pub open spec fn clauses(self) -> Seq<Seq<Lit>> {
        self.softs().map_values(|s: (Seq<Lit>, usize)| s.0)
    }

    /// The constant part of the objective.
    pub open spec fn constant_part(self) -> int {
        match self {
            SoftObjective::Weighted { offset, .. } => offset as int,
            SoftObjective::Unweighted { offset, .. } => offset as int,
            SoftObjective::Constant { offset } => offset as int,
        }
    }
}

/// What has been built while soft clauses were turned into literals: the
/// relaxed clauses, the blocking literal of each of them, and the next free
/// variable.
pub struct Absorbed {
    pub cnf: Seq<Seq<Lit>>,
    pub blits: Map<Seq<Lit>, Lit>,
    pub next: int,
}

/// The state that a formula, a table of blocking literals and a variable
/// manager are in.
pub open spec fn absorbed(cnf: Seq<Clause>, blits: BlitTable, vm: VarManager) -> Absorbed {
    Absorbed { cnf: clause_views(cnf), blits: blits@, next: vm.next as int }
}

/// The literal that stands for a soft clause, and the state afterwards. A unit
/// clause needs no new literal, a known clause keeps its literal, any other
/// clause is relaxed by a new one.
pub open spec fn absorb_clause(st: Absorbed, cl: Seq<Lit>) -> (Lit, Absorbed) {
    if cl.len() == 1 {
        (cl[0].flipped(), st)
    } else if st.blits.contains_key(cl) {
        (st.blits[cl], st)
    } else {
        let blit = Lit::over(st.next, false);
        (
            blit,
            Absorbed {
                cnf: st.cnf.push(cl.push(blit)),
                blits: st.blits.insert(cl, blit),
                next: st.next + 1,
            },
        )
    }
}

/// The literals that stand for soft clauses, and the state afterwards.
pub open spec fn absorb_clauses(st: Absorbed, cls: Seq<Seq<Lit>>) -> (Seq<Lit>, Absorbed)
    decreases cls.len(),
{
    if cls.len() == 0 {
        (Seq::empty(), st)
    } else {
        let (lits, mid) = absorb_clauses(st, cls.drop_last());
        let (lit, end) = absorb_clause(mid, cls.last());
        (lits.push(lit), end)
    }
}

/// One literal for each clause.
pub proof fn lemma_absorb_len(st: Absorbed, cls: Seq<Seq<Lit>>)
    ensures
        absorb_clauses(st, cls).0.len() == cls.len(),
    decreases cls.len(),
{
    if cls.len() > 0 {
        lemma_absorb_len(st, cls.drop_last());
    }
}

/// Variables are only ever used up.
pub proof fn lemma_absorb_next(st: Absorbed, cls: Seq<Seq<Lit>>, k: int)
    requires
        0 <= k <= cls.len(),
    ensures
        st.next <= absorb_clauses(st, cls.take(k)).1.next <= absorb_clauses(st, cls).1.next,
    decreases cls.len(),
{
    if k == cls.len() {
        assert(cls.take(k) =~= cls);
        if k > 0 {
            lemma_absorb_next(st, cls.drop_last(), k - 1);
        }
    } else {
        lemma_absorb_next(st, cls.drop_last(), k);
        assert(cls.drop_last().take(k) =~= cls.take(k));
    }
}

/// Turns a soft clause into a literal that is true if the clause is not
/// satisfied. A clause that needs a blocking literal is relaxed by it and added
/// to `cnf`.
pub fn absorb_soft_clause(
    cl: Clause,
    cnf: &mut Vec<Clause>,
    blits: &mut BlitTable,
    vm: &mut VarManager,
) -> (lit: Lit)
    requires
        old(blits).wf(),
        absorb_clause(absorbed(old(cnf)@, *old(blits), *old(vm)), cl@).1.next <= MAX_VAR_IDX + 1,
    ensures
        final(blits).wf(),
        (lit, absorbed(final(cnf)@, *final(blits), *final(vm))) == absorb_clause(
            absorbed(old(cnf)@, *old(blits), *old(vm)),
            cl@,
        ),
{
    if cl.len() == 1 {
        // No blocking literal needed
        return cl.lits[0].negate();
    }
    if let Some(blit) = blits.get(&cl) {
        // Reuse the literal that the clause was relaxed with before
        return blit;
    }
    let var = vm.new_var();
    let blit = Lit::new(var.idx, false);
    // Save blit in case the same soft clause reappears
    blits.insert(cl.clone(), blit);
    // Relax clause and add it to the formula
    let mut relaxed = cl;
    relaxed.add(blit);
    cnf.push(relaxed);
    assert(clause_views(cnf@) =~= clause_views(old(cnf)@).push(cl@.push(blit)));
    blit
}

/// Whether an objective is the one that results when `lits` stand for the soft
/// clauses of `soft`.
pub open spec fn stands_for(obj: Objective, soft: SoftObjective, lits: Seq<Lit>) -> bool {
    match (obj, soft) {
        (
            Objective::Weighted { offset, lits: entries },
            SoftObjective::Weighted { offset: o, softs },
        ) => {
            &&& offset == o
            &&& entries@ == collect_weights(
                Seq::new(lits.len(), |i: int| (lits[i], softs@[i].1)),
            )
        },
        (
            Objective::Unweighted { offset, unit_weight, lits: entries },
            SoftObjective::Unweighted { offset: o, unit_weight: u, .. },
        ) => {
            &&& offset == o
            &&& unit_weight == u
            &&& entries@ == lits
        },
        (Objective::Constant { offset }, SoftObjective::Constant { offset: o }) => offset == o,
        _ => false,
    }
}

/// Turns the soft clauses of an objective into literals.
pub fn absorb_objective(
    obj: SoftObjective,
    cnf: &mut Vec<Clause>,
    blits: &mut BlitTable,
    vm: &mut VarManager,
) -> (res: Objective)
    requires
        old(blits).wf(),
        absorb_clauses(absorbed(old(cnf)@, *old(blits), *old(vm)), obj.clauses()).1.next
            <= MAX_VAR_IDX + 1,
    ensures
        final(blits).wf(),
        ({
            let (lits, st) = absorb_clauses(
                absorbed(old(cnf)@, *old(blits), *old(vm)),
                obj.clauses(),
            );
            absorbed(final(cnf)@, *final(blits), *final(vm)) == st && stands_for(res, obj, lits)
        }),
{
    let ghost st = absorbed(cnf@, *blits, *vm);
    let ghost cls = obj.clauses();
    match obj {
        SoftObjective::Constant { offset } => {
            assert(cls =~= Seq::empty());
            Objective::Constant { offset }
        },
        SoftObjective::Weighted { offset, softs } => {
            let mut entries = LitWeights::new();
            assert(cls.take(0) =~= Seq::empty());
            proof {
                lemma_absorb_next(st, cls, 0);
            }
            let ghost pairs = |k: int|
                Seq::new(
                    k as nat,
                    |i: int| (absorb_clauses(st, cls.take(k)).0[i], softs@[i].1),
                );
            assert(pairs(0) =~= Seq::empty());
            for k in 0..softs.len()
                invariant
                    blits.wf(),
                    entries.wf(),
                    cls == obj.clauses(),
                    obj == (SoftObjective::Weighted { offset, softs }),
                    cls.len() == softs@.len(),
                    absorb_clauses(st, cls).1.next <= MAX_VAR_IDX + 1,
                    absorbed(cnf@, *blits, *vm) == absorb_clauses(st, cls.take(k as int)).1,
                    pairs == (|k: int|
                        Seq::new(
                            k as nat,
                            |i: int| (absorb_clauses(st, cls.take(k)).0[i], softs@[i].1),
                        )),
                    entries@ == collect_weights(pairs(k as int)),
            {
                proof {
                    lemma_absorb_next(st, cls, k + 1);
                    lemma_absorb_len(st, cls.take(k as int));
                    assert(cls.take(k + 1).drop_last() =~= cls.take(k as int));
                    assert(cls[k as int] == softs@[k as int].0@);
                }
                let lit = absorb_soft_clause(softs[k].0.clone(), cnf, blits, vm);
                entries.insert(lit, softs[k].1);
                assert(pairs(k + 1).drop_last() =~= pairs(k as int));
            }
            assert(cls.take(cls.len() as int) =~= cls);
            proof {
                lemma_absorb_len(st, cls);
                let lits = absorb_clauses(st, cls).0;
                assert(pairs(cls.len() as int) =~= Seq::new(
                    lits.len(),
                    |i: int| (lits[i], softs@[i].1),
                ));
            }
            Objective::Weighted { offset, lits: entries.into_entries() }
        },
        SoftObjective::Unweighted { offset, unit_weight, softs } => {
            let mut lits: Vec<Lit> = Vec::new();
            assert(cls.take(0) =~= Seq::empty());
            proof {
                lemma_absorb_next(st, cls, 0);
            }
            for k in 0..softs.len()
                invariant
                    blits.wf(),
                    cls == obj.clauses(),
                    obj == (SoftObjective::Unweighted { offset, unit_weight, softs }),
                    cls.len() == softs@.len(),
                    absorb_clauses(st, cls).1.next <= MAX_VAR_IDX + 1,
                    (lits@, absorbed(cnf@, *blits, *vm)) == absorb_clauses(st, cls.take(k as int)),
            {
                proof {
                    lemma_absorb_next(st, cls, k + 1);
                    assert(cls.take(k + 1).drop_last() =~= cls.take(k as int));
                    assert(cls[k as int] == softs@[k as int]@);
                }
                let lit = absorb_soft_clause(softs[k].clone(), cnf, blits, vm);
                lits.push(lit);
            }
            assert(cls.take(cls.len() as int) =~= cls);
            Objective::Unweighted { offset, unit_weight, lits }
        },
    }
}

/// Whether a literal stands for a clause already: absorbing the clause gives the
/// literal and changes nothing.
pub open spec fn settled_on(st: Absorbed, cl: Seq<Lit>, l: Lit) -> bool {
    absorb_clause(st, cl) == (l, st)
}

/// What stands for a clause keeps standing for it.
proof fn lemma_settled_stays(st: Absorbed, cls: Seq<Seq<Lit>>, cl: Seq<Lit>, l: Lit)
    requires
        settled_on(st, cl, l),
    ensures
        settled_on(absorb_clauses(st, cls).1, cl, l),
    decreases cls.len(),
{
    if cls.len() > 0 {
        lemma_settled_stays(st, cls.drop_last(), cl, l);
    }
}

/// Absorbing a soft clause again gives the same literal and changes nothing,
/// whatever other clauses were absorbed in between. The literal of a unit clause
/// is the negation of its only literal, and needs nothing new. Another clause
/// takes one new variable at its first time, and is relaxed by it.
pub proof fn law_absorbing_clause_again(st: Absorbed, cl: Seq<Lit>, between: Seq<Seq<Lit>>)
    ensures
        settled_on(
            absorb_clauses(absorb_clause(st, cl).1, between).1,
            cl,
            absorb_clause(st, cl).0,
        ),
        cl.len() == 1 ==> absorb_clause(st, cl) == (cl[0].flipped(), st),
        cl.len() != 1 && !st.blits.contains_key(cl) ==> {
            let (l, end) = absorb_clause(st, cl);
            &&& l == Lit::over(st.next, false)
            &&& end.next == st.next + 1
            &&& end.cnf == st.cnf.push(cl.push(l))
        },
{
    let (l, mid) = absorb_clause(st, cl);
    lemma_settled_stays(mid, between, cl, l);
}

/// All clauses that were absorbed have their literals.
proof fn lemma_absorbed_settled(st: Absorbed, cls: Seq<Seq<Lit>>, k: int)
    requires
        0 <= k < cls.len(),
    ensures
        settled_on(absorb_clauses(st, cls).1, cls[k], absorb_clauses(st, cls).0[k]),
    decreases cls.len(),
{
    let init = cls.drop_last();
    let (lits, mid) = absorb_clauses(st, init);
    lemma_absorb_len(st, init);
    if k < init.len() {
        lemma_absorbed_settled(st, init, k);
        assert(init[k] == cls[k]);
        lemma_settled_stays(mid, seq![cls.last()], cls[k], lits[k]);
        assert(seq![cls.last()].drop_last() =~= Seq::empty());
        assert(absorb_clauses(mid, seq![cls.last()]).1 == absorb_clause(mid, cls.last()).1) by {
            reveal_with_fuel(absorb_clauses, 2);
        }
    }
}

/// Absorbing the soft clauses of an objective again gives the same literals and
/// changes nothing.
pub proof fn law_absorbing_objective_again(st: Absorbed, cls: Seq<Seq<Lit>>)
    ensures
        absorb_clauses(absorb_clauses(st, cls).1, cls) == absorb_clauses(st, cls),
{
    let (lits, end) = absorb_clauses(st, cls);
    lemma_absorb_len(st, cls);
    lemma_again_upto(st, cls, cls.len() as int);
    assert(cls.take(cls.len() as int) =~= cls);
    assert(lits.take(cls.len() as int) =~= lits);
}

proof fn lemma_again_upto(st: Absorbed, cls: Seq<Seq<Lit>>, k: int)
    requires
        0 <= k <= cls.len(),
    ensures
        absorb_clauses(absorb_clauses(st, cls).1, cls.take(k)) == (
            absorb_clauses(st, cls).0.take(k),
            absorb_clauses(st, cls).1,
        ),
    decreases k,
{
    let (lits, end) = absorb_clauses(st, cls);
    lemma_absorb_len(st, cls);
    if k > 0 {
        lemma_again_upto(st, cls, k - 1);
        lemma_absorbed_settled(st, cls, k - 1);
        assert(cls.take(k).drop_last() =~= cls.take(k - 1));
        assert(cls.take(k).last() == cls[k - 1]);
        assert(lits.take(k - 1).push(lits[k - 1]) =~= lits.take(k));
    } else {
        assert(cls.take(0) =~= Seq::empty());
        assert(lits.take(0) =~= Seq::empty());
    }
}

/// An objective is determined by the soft clauses and the literals that stand
/// for them.
pub proof fn law_same_literals_same_objective(
    one: Objective,
    other: Objective,
    soft: SoftObjective,
    lits: Seq<Lit>,
)
    requires
        stands_for(one, soft, lits),
        stands_for(other, soft, lits),
    ensures
        one.entries() == other.entries(),
        one.unit() == other.unit(),
        one.constant_part() == other.constant_part(),
        one is Constant <==> other is Constant,
{
}

} // verus!
