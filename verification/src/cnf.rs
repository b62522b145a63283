//! Variables, literals, clauses and formulas in conjunctive normal form,
//! with the meaning of a formula under a total truth assignment.

use vstd::prelude::*;

verus! {

/// A propositional variable, numbered from 1 as in DIMACS.
#[derive(Clone, Copy, Debug, PartialEq, Eq, Hash, Structural)]
pub struct Var(pub u32);

impl Var {
    /// Position of this variable in a zero-based table of variables.
    pub open spec fn slot(self) -> int {
        self.0 - 1
    }

    pub fn new(index: u32) -> (v: Var)
        requires
            index > 0,
        ensures
            v.0 == index,
    {
        Var(index)
    }

    pub fn index(self) -> (i: usize)
        requires
            self.0 > 0,
        ensures
            i == self.slot(),
    {
        (self.0 - 1) as usize
    }
}

/// A variable or its negation (`neg == true`).
#[derive(Clone, Copy, Debug, PartialEq, Eq, Hash, Structural)]
pub struct Lit {
    pub var: Var,
    pub neg: bool,
}

/// The DIMACS integer of a literal: the variable number, negated for a
/// negative literal (the variable number taken as a 32-bit signed value).
pub open spec fn spec_dimacs(l: Lit) -> i32 {
    let v = #[verifier::truncate] (l.var.0 as i32);
    if l.neg {
        (-v) as i32
    } else {
        v
    }
}

/// The absolute value of a DIMACS integer that is neither 0 nor `i32::MIN`.
pub open spec fn abs_i32(value: i32) -> u32 {
    if value < 0 {
        (-value) as u32
    } else {
        value as u32
    }
}

impl Lit {
    pub fn new(var: Var, neg: bool) -> (l: Lit)
        ensures
            l.var == var,
            l.neg == neg,
    {
        Lit { var, neg }
    }

    /// The literal that the non-zero DIMACS integer `value` denotes.
    pub fn from_dimacs(value: i32) -> (l: Lit)
        requires
            value != 0,
            value != i32::MIN,
        ensures
            l.neg == (value < 0),
            l.var.0 == abs_i32(value),
            l.var.0 > 0,
    {
        let neg = value < 0;
        let magnitude: u32 = if neg {
            (-value) as u32
        } else {
            value as u32
        };
        let var = Var::new(magnitude);
        Lit { var, neg }
    }

    /// The DIMACS integer of this literal.
    pub fn dimacs(self) -> (d: i32)
        requires
            !(self.neg && self.var.0 == 0x8000_0000u32),
        ensures
            d == spec_dimacs(self),
    {
        let raw = self.var.0;
        let v = #[verifier::truncate] (raw as i32);
        if self.neg {
            assert(raw != 0x8000_0000u32 ==> (raw as i32) != i32::MIN) by (bit_vector);
            -v
        } else {
            v
        }
    }
}

/// The two conversions between DIMACS integers and literals undo each other:
/// reading back the integer of the literal of `value` gives `value`, and the
/// literal of the integer of a literal whose variable fits in `i32` is that
/// literal.
pub proof fn lemma_dimacs_roundtrip(value: i32, l: Lit)
    requires
        value != 0,
        value != i32::MIN,
        1 <= l.var.0 <= i32::MAX,
    ensures
        ({
            let back = Lit { var: Var(abs_i32(value)), neg: value < 0 };
            spec_dimacs(back) == value
        }),
        spec_dimacs(l) != 0,
        spec_dimacs(l) != i32::MIN,
        abs_i32(spec_dimacs(l)) == l.var.0,
        (spec_dimacs(l) < 0) == l.neg,
{
}

/// A clause is a disjunction of literals.
pub type Clause = Vec<Lit>;

/// A formula over the variables `1..=num_vars`, a conjunction of clauses.
#[derive(Clone, Debug)]
pub struct Cnf {
    pub num_vars: u32,
    pub clauses: Vec<Clause>,
}

/// Every literal of `c` names a variable in `1..=num_vars`.
pub open spec fn clause_in_range(c: Seq<Lit>, num_vars: u32) -> bool {
    forall|j: int| 0 <= j < c.len() ==> 1 <= #[trigger] c[j].var.0 <= num_vars
}

/// The literal `l` is true under the total assignment `m` (`m[i]` is the
/// value of variable `i + 1`).
pub open spec fn lit_holds(m: Seq<bool>, l: Lit) -> bool {
    m[l.var.slot()] != l.neg
}

/// Some literal of `c` is true under `m`.
pub open spec fn clause_holds(m: Seq<bool>, c: Seq<Lit>) -> bool {
    exists|j: int| 0 <= j < c.len() && lit_holds(m, #[trigger] c[j])
}

impl Cnf {
    pub fn new(num_vars: u32, clauses: Vec<Clause>) -> (f: Cnf)
        ensures
            f.num_vars == num_vars,
            f.clauses@ == clauses@,
    {
        Cnf { num_vars, clauses }
    }

    /// The clause at position `i`, as a sequence of literals.
    pub open spec fn clause(&self, i: int) -> Seq<Lit> {
        self.clauses@[i]@
    }

    /// Every literal names a declared variable.
    pub open spec fn wf(&self) -> bool {
        forall|i: int| 0 <= i < self.clauses@.len() ==> clause_in_range(#[trigger] self.clause(i), self.num_vars)
    }

    /// Every clause has fewer than `u32::MAX` literals.
    pub open spec fn clauses_fit_u32(&self) -> bool {
        forall|i: int| 0 <= i < self.clauses@.len() ==> (#[trigger] self.clause(i)).len() < u32::MAX
    }

    /// The size limits under which the search's 32-bit counters cannot
    /// overflow: fewer than `u32::MAX` literals per clause, and at most
    /// `u32::MAX / 100` clauses.
    pub open spec fn fits_counters(&self) -> bool {
        &&& self.clauses_fit_u32()
        &&& self.clauses@.len() * 100 <= u32::MAX
    }

    /// Whether every literal names a declared variable.
    pub fn well_formed(&self) -> (b: bool)
        ensures
            b == self.wf(),
    {
        let mut i: usize = 0;
        while i < self.clauses.len()
            invariant
                i <= self.clauses@.len(),
                forall|k: int| 0 <= k < i ==> clause_in_range(#[trigger] self.clause(k), self.num_vars),
            decreases self.clauses@.len() - i,
        {
            let c = &self.clauses[i];
            assert(c@ == self.clause(i as int));
            let mut j: usize = 0;
            while j < c.len()
                invariant
                    j <= c@.len(),
                    i < self.clauses@.len(),
                    c@ == self.clause(i as int),
                    forall|t: int| 0 <= t < j ==> 1 <= #[trigger] c@[t].var.0 <= self.num_vars,
                decreases c@.len() - j,
            {
                let v = c[j].var.0;
                if v < 1 || v > self.num_vars {
                    assert(!clause_in_range(self.clause(i as int), self.num_vars)) by {
                        assert(self.clause(i as int)[j as int].var.0 == v);
                    }
                    return false;
                }
                j = j + 1;
            }
            i = i + 1;
        }
        true
    }

    /// Whether the size limits of `fits_counters` hold.
    pub fn fits_limits(&self) -> (b: bool)
        ensures
            b == self.fits_counters(),
    {
        if self.clauses.len() > 42_949_672 {
            return false;
        }
        let mut i: usize = 0;
        while i < self.clauses.len()
            invariant
                i <= self.clauses@.len(),
                forall|k: int| 0 <= k < i ==> (#[trigger] self.clause(k)).len() < u32::MAX,
            decreases self.clauses@.len() - i,
        {
            assert(self.clauses@[i as int]@ == self.clause(i as int));
            if self.clauses[i].len() >= 4_294_967_295 {
                return false;
            }
            i = i + 1;
        }
        true
    }

    /// Whether every literal names a declared variable and the size limits
    /// of `fits_counters` hold.
    pub fn searchable(&self) -> (b: bool)
        ensures
            b == (self.wf() && self.fits_counters()),
    {
        self.well_formed() && self.fits_limits()
    }

    /// `m` gives a value to each declared variable and makes every clause true.
    pub open spec fn is_model(&self, m: Seq<bool>) -> bool {
        &&& m.len() == self.num_vars
        &&& forall|i: int| 0 <= i < self.clauses@.len() ==> clause_holds(m, #[trigger] self.clause(i))
    }

    /// Some total assignment makes the formula true.
    pub open spec fn satisfiable(&self) -> bool {
        exists|m: Seq<bool>| self.is_model(m)
    }
}

} // verus!
