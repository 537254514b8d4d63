//! Variables, literals, clauses and (partial) assignments.
use vstd::prelude::*;

verus! {

/// The highest variable index that a literal can hold.
pub const MAX_VAR_IDX: u32 = 0x7fff_ffff;

/// A boolean variable.
#[derive(Clone, Copy, Debug, PartialEq, Eq, Structural, Hash)]
pub struct Var {
    pub idx: u32,
}

/// A possibly negated variable, represented as twice the index of the variable
/// plus one if it is negated.
#[derive(Clone, Copy, Debug, PartialEq, Eq, Structural, Hash)]
pub struct Lit {
    pub lidx: u32,
}

impl Lit {
    /// The index of the variable of the literal.
    pub open spec fn var(self) -> int {
        self.lidx as int / 2
    }

    /// Whether the literal is negated.
    pub open spec fn neg(self) -> bool {
        self.lidx % 2 == 1
    }

    /// The opposite literal.
    pub open spec fn flipped(self) -> Lit {
        if self.neg() {
            Lit { lidx: (self.lidx - 1) as u32 }
        } else {
            Lit { lidx: (self.lidx + 1) as u32 }
        }
    }

    /// The literal over the variable `idx`, negated or not.
    pub open spec fn over(idx: int, negated: bool) -> Lit {
        Lit { lidx: (2 * idx + if negated { 1int } else { 0int }) as u32 }
    }

    /// Creates a literal over a variable.
    pub fn new(idx: u32, negated: bool) -> (lit: Lit)
        requires
            idx <= MAX_VAR_IDX,
        ensures
            lit == Lit::over(idx as int, negated),
            lit.var() == idx,
            lit.neg() == negated,
    {
        if negated {
            Lit { lidx: 2 * idx + 1 }
        } else {
            Lit { lidx: 2 * idx }
        }
    }

    /// The index of the variable of the literal.
    pub fn vidx(&self) -> (idx: u32)
        ensures
            idx == self.var(),
            idx <= MAX_VAR_IDX,
    {
        self.lidx / 2
    }

    /// True if the literal is negated.
    pub fn is_neg(&self) -> (b: bool)
        ensures
            b == self.neg(),
    {
        self.lidx % 2 == 1
    }

    /// The opposite literal.
    pub fn negate(self) -> (lit: Lit)
        ensures
            lit == self.flipped(),
    {
        if self.lidx % 2 == 1 {
            Lit { lidx: self.lidx - 1 }
        } else {
            Lit { lidx: self.lidx + 1 }
        }
    }
}

/// Negating a literal twice gives it back, keeps the variable and changes the
/// sign.
pub proof fn lemma_flipped(l: Lit)
    ensures
        l.flipped().flipped() == l,
        l.flipped().var() == l.var(),
        l.flipped().neg() == !l.neg(),
        l.flipped() != l,
{
}

/// A literal is determined by its variable and its sign.
pub proof fn lemma_lit_of_parts(l: Lit)
    ensures
        l == Lit::over(l.var(), l.neg()),
        0 <= l.var() <= MAX_VAR_IDX,
{
}

/// The literal over a variable has that variable and that sign.
pub proof fn lemma_over(idx: int, negated: bool)
    requires
        0 <= idx <= MAX_VAR_IDX,
    ensures
        Lit::over(idx, negated).var() == idx,
        Lit::over(idx, negated).neg() == negated,
{
}

/// The value of a literal or variable under a partial assignment.
#[derive(Clone, Copy, Debug, PartialEq, Eq, Structural)]
pub enum TernaryVal {
    True,
    False,
    DontCare,
}

/// A disjunction of literals.
#[derive(Debug)]
pub struct Clause {
    pub lits: Vec<Lit>,
}

impl View for Clause {
    type V = Seq<Lit>;

    open spec fn view(&self) -> Seq<Lit> {
        self.lits@
    }
}

impl Clone for Clause {
    fn clone(&self) -> (res: Clause)
        ensures
            res@ == self@,
    {
        let lits = copy_lits(&self.lits);
        Clause { lits }
    }
}

impl Clause {
    /// Creates an empty clause.
    pub fn new() -> (cl: Clause)
        ensures
            cl@ == Seq::<Lit>::empty(),
    {
        Clause { lits: Vec::new() }
    }

    /// Creates a clause from its literals.
    pub fn from_lits(lits: Vec<Lit>) -> (cl: Clause)
        ensures
            cl@ == lits@,
    {
        Clause { lits }
    }

    /// The number of literals in the clause.
    pub fn len(&self) -> (n: usize)
        ensures
            n == self@.len(),
    {
        self.lits.len()
    }

    /// Adds a literal at the end of the clause.
    pub fn add(&mut self, lit: Lit)
        ensures
            final(self)@ == old(self)@.push(lit),
    {
        self.lits.push(lit);
    }

    /// Whether two clauses hold the same literals in the same order.
    pub fn same(&self, other: &Clause) -> (b: bool)
        ensures
            b == (self@ == other@),
    {
        if self.lits.len() != other.lits.len() {
            return false;
        }
        for i in 0..self.lits.len()
            invariant
                self@.len() == other@.len(),
                forall|j: int| 0 <= j < i ==> self@[j] == other@[j],
        {
            if self.lits[i] != other.lits[i] {
                assert(self@[i as int] != other@[i as int]);
                return false;
            }
        }
        assert(self@ =~= other@);
        true
    }
}

/// Copies a list of literals.
pub fn copy_lits(lits: &Vec<Lit>) -> (res: Vec<Lit>)
    ensures
        res@ == lits@,
{
    let mut res: Vec<Lit> = Vec::new();
    for i in 0..lits.len()
        invariant
            res@ == lits@.take(i as int),
    {
        res.push(lits[i]);
        assert(lits@.take(i + 1) =~= lits@.take(i as int).push(lits@[i as int]));
    }
    assert(lits@.take(lits@.len() as int) =~= lits@);
    res
}

/// The literals of each clause of a list.
pub open spec fn clause_views(cls: Seq<Clause>) -> Seq<Seq<Lit>> {
    cls.map_values(|c: Clause| c@)
}

/// A partial assignment of truth values to the first variables.
#[derive(Debug)]
pub struct Assignment {
    pub values: Vec<TernaryVal>,
}

impl View for Assignment {
    type V = Seq<TernaryVal>;

    open spec fn view(&self) -> Seq<TernaryVal> {
        self.values@
    }
}

impl Clone for Assignment {
    fn clone(&self) -> (res: Assignment)
        ensures
            res@ == self@,
    {
        let mut values: Vec<TernaryVal> = Vec::new();
        for i in 0..self.values.len()
            invariant
                values@ == self@.take(i as int),
        {
            values.push(self.values[i]);
            assert(self@.take(i + 1) =~= self@.take(i as int).push(self@[i as int]));
        }
        assert(self@.take(self@.len() as int) =~= self@);
        Assignment { values }
    }
}

/// The value of a variable: what lies beyond the assignment is open.
pub open spec fn var_val(sol: Seq<TernaryVal>, var: int) -> TernaryVal {
    if 0 <= var < sol.len() {
        sol[var]
    } else {
        TernaryVal::DontCare
    }
}

/// The value of a literal under a partial assignment.
pub open spec fn lit_val(sol: Seq<TernaryVal>, l: Lit) -> TernaryVal {
    let v = var_val(sol, l.var());
    if l.neg() {
        match v {
            TernaryVal::True => TernaryVal::False,
            TernaryVal::False => TernaryVal::True,
            TernaryVal::DontCare => TernaryVal::DontCare,
        }
    } else {
        v
    }
}

/// Whether a literal is assigned to true.
pub open spec fn lit_true(sol: Seq<TernaryVal>, l: Lit) -> bool {
    lit_val(sol, l) == TernaryVal::True
}

/// The assignment after a literal has been set to true.
pub open spec fn assign(sol: Seq<TernaryVal>, l: Lit) -> Seq<TernaryVal> {
    let val = if l.neg() {
        TernaryVal::False
    } else {
        TernaryVal::True
    };
    let len = if sol.len() > l.var() {
        sol.len()
    } else {
        (l.var() + 1) as nat
    };
    Seq::new(
        len,
        |i: int|
            if i == l.var() {
                val
            } else {
                var_val(sol, i)
            },
    )
}

/// The literals that an assignment sets to true, by ascending variable.
pub open spec fn true_lits(sol: Seq<TernaryVal>) -> Seq<Lit>
    decreases sol.len(),
{
    if sol.len() == 0 {
        Seq::empty()
    } else {
        let rest = true_lits(sol.drop_last());
        match sol.last() {
            TernaryVal::True => rest.push(Lit::over(sol.len() - 1, false)),
            TernaryVal::False => rest.push(Lit::over(sol.len() - 1, true)),
            TernaryVal::DontCare => rest,
        }
    }
}

/// Only literals that hold under an assignment are listed as its true
/// literals, and all of them are.
pub proof fn lemma_true_lits(sol: Seq<TernaryVal>, l: Lit)
    requires
        sol.len() <= MAX_VAR_IDX + 1,
    ensures
        true_lits(sol).contains(l) <==> lit_true(sol, l),
    decreases sol.len(),
{
    if sol.len() == 0 {
        assert(!true_lits(sol).contains(l));
    } else {
        let init = sol.drop_last();
        let last = (sol.len() - 1) as int;
        lemma_true_lits(init, l);
        lemma_lit_of_parts(l);
        lemma_over(last, true);
        lemma_over(last, false);
        let rest = true_lits(init);
        match sol.last() {
            TernaryVal::DontCare => {},
            _ => {
                let new = Lit::over(last, sol.last() == TernaryVal::False);
                assert(true_lits(sol) == rest.push(new));
                assert(rest.push(new)[rest.len() as int] == new);
                if rest.contains(l) {
                    let k = choose|k: int| 0 <= k < rest.len() && rest[k] == l;
                    assert(rest.push(new)[k] == l);
                }
            },
        }
    }
}

/// Setting a literal leaves the literals of the other variables alone.
pub proof fn lemma_assign(sol: Seq<TernaryVal>, l: Lit, other: Lit)
    ensures
        other.var() != l.var() ==> lit_val(assign(sol, l), other) == lit_val(sol, other),
        lit_true(assign(sol, l), l),
        !lit_true(assign(sol, l), l.flipped()),
{
}

impl Assignment {
    /// The value that the assignment gives to a variable.
    pub fn var_value(&self, var: u32) -> (val: TernaryVal)
        ensures
            val == var_val(self@, var as int),
    {
        if var as usize >= self.values.len() {
            TernaryVal::DontCare
        } else {
            self.values[var as usize]
        }
    }

    /// The value that the assignment gives to a literal.
    pub fn lit_value(&self, lit: Lit) -> (val: TernaryVal)
        ensures
            val == lit_val(self@, lit),
    {
        let val = self.var_value(lit.vidx());
        if lit.is_neg() {
            match val {
                TernaryVal::True => TernaryVal::False,
                TernaryVal::False => TernaryVal::True,
                TernaryVal::DontCare => TernaryVal::DontCare,
            }
        } else {
            val
        }
    }

    /// Sets a literal to true.
    pub fn assign_lit(&mut self, lit: Lit)
        ensures
            final(self)@ == assign(old(self)@, lit),
    {
        let var: usize = lit.vidx() as usize;
        while self.values.len() <= var
            invariant
                old(self)@.len() <= self@.len(),
                self@.len() <= old(self)@.len() || self@.len() <= var + 1,
                forall|i: int| 0 <= i < self@.len() ==> self@[i] == var_val(old(self)@, i),
            decreases var + 1 - self.values.len(),
        {
            self.values.push(TernaryVal::DontCare);
        }
        if lit.is_neg() {
            self.values.set(var, TernaryVal::False);
        } else {
            self.values.set(var, TernaryVal::True);
        }
        assert(self@ =~= assign(old(self)@, lit));
    }

    /// Keeps only the values of the variables up to `max_var`.
    pub fn truncate(self, max_var: Var) -> (res: Assignment)
        ensures
            res@ == truncated(self@, max_var.idx as int),
    {
        let mut values = self.values;
        if (max_var.idx as usize) < values.len() {
            let len: usize = max_var.idx as usize + 1;
            values.truncate(len);
        }
        assert(values@ =~= truncated(self@, max_var.idx as int));
        Assignment { values }
    }

    /// The literals that the assignment sets to true.
    pub fn lits(&self) -> (lits: Vec<Lit>)
        requires
            self@.len() <= MAX_VAR_IDX + 1,
        ensures
            lits@ == true_lits(self@),
    {
        let mut lits: Vec<Lit> = Vec::new();
        for i in 0..self.values.len()
            invariant
                self@.len() <= MAX_VAR_IDX + 1,
                lits@ == true_lits(self@.take(i as int)),
        {
            assert(self@.take(i + 1).drop_last() =~= self@.take(i as int));
            match self.values[i] {
                TernaryVal::True => lits.push(Lit::new(i as u32, false)),
                TernaryVal::False => lits.push(Lit::new(i as u32, true)),
                TernaryVal::DontCare => (),
            }
        }
        assert(self@.take(self@.len() as int) =~= self@);
        lits
    }
}

/// The values of the variables up to `max_var`.
pub open spec fn truncated(sol: Seq<TernaryVal>, max_var: int) -> Seq<TernaryVal> {
    if max_var + 1 < sol.len() {
        sol.take(max_var + 1)
    } else {
        sol
    }
}

} // verus!
