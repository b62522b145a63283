//! Partial truth assignments.

use vstd::prelude::*;

use crate::cnf::{Lit, Var};

verus! {

/// A partial assignment: `values[i]` is the value of variable `i + 1`, or
/// `None` while it is unassigned.
#[derive(Clone, Debug)]
pub struct Assignment {
    values: Vec<Option<bool>>,
}

/// What a satisfying assignment returned by the solver is.
pub type Model = Assignment;

/// The value of literal `l` under the partial assignment `a`.
pub open spec fn lit_value(a: Seq<Option<bool>>, l: Lit) -> Option<bool> {
    match a[l.var.slot()] {
        None => None,
        Some(v) => Some(v != l.neg),
    }
}

/// The total assignment `m` keeps every value that `a` fixes.
pub open spec fn extends(m: Seq<bool>, a: Seq<Option<bool>>) -> bool {
    &&& m.len() == a.len()
    &&& forall|i: int| 0 <= i < a.len() && (#[trigger] a[i]) is Some ==> m[i] == a[i]->0
}

/// `b` keeps every value that `a` fixes (and may fix more).
pub open spec fn refines(b: Seq<Option<bool>>, a: Seq<Option<bool>>) -> bool {
    &&& b.len() == a.len()
    &&& forall|i: int| 0 <= i < a.len() && (#[trigger] a[i]) is Some ==> b[i] == a[i]
}

/// Number of unassigned variables among the first `n` slots.
pub open spec fn unassigned_below(a: Seq<Option<bool>>, n: int) -> nat
    decreases n,
{
    if n <= 0 {
        0
    } else {
        unassigned_below(a, n - 1) + if a[n - 1] is None {
            1nat
        } else {
            0nat
        }
    }
}

/// Number of unassigned variables.
pub open spec fn unassigned_count(a: Seq<Option<bool>>) -> nat {
    unassigned_below(a, a.len() as int)
}

impl View for Assignment {
    type V = Seq<Option<bool>>;

    closed spec fn view(&self) -> Seq<Option<bool>> {
        self.values@
    }
}

impl Assignment {
    /// An assignment of `num_vars` variables, all unassigned.
    pub fn new(num_vars: u32) -> (a: Assignment)
        ensures
            a@.len() == num_vars,
            forall|i: int| 0 <= i < num_vars ==> (#[trigger] a@[i]) is None,
    {
        let mut values: Vec<Option<bool>> = Vec::new();
        let mut i: u32 = 0;
        while i < num_vars
            invariant
                i <= num_vars,
                values@.len() == i,
                forall|k: int| 0 <= k < i ==> (#[trigger] values@[k]) is None,
            decreases num_vars - i,
        {
            values.push(None);
            i = i + 1;
        }
        Assignment { values }
    }

    /// A separate copy of this assignment.
    pub fn duplicate(&self) -> (c: Assignment)
        ensures
            c@ == self@,
    {
        let mut values: Vec<Option<bool>> = Vec::new();
        let mut i: usize = 0;
        while i < self.values.len()
            invariant
                i <= self.values@.len(),
                values@ == self.values@.take(i as int),
            decreases self.values@.len() - i,
        {
            values.push(self.values[i]);
            i = i + 1;
            assert(values@ =~= self.values@.take(i as int));
        }
        assert(values@ =~= self.values@);
        Assignment { values }
    }

    pub fn get(&self, var: Var) -> (r: Option<bool>)
        requires
            1 <= var.0 <= self@.len(),
        ensures
            r == self@[var.slot()],
    {
        self.values[var.index()]
    }

    /// Gives `var` the value `value` if it is unassigned and answers `true`;
    /// otherwise leaves the assignment alone and answers whether its value is
    /// already `value`.
    pub fn assign(&mut self, var: Var, value: bool) -> (ok: bool)
        requires
            1 <= var.0 <= old(self)@.len(),
        ensures
            old(self)@[var.slot()] is None ==> ok && final(self)@ == old(self)@.update(
                var.slot(),
                Some(value),
            ),
            old(self)@[var.slot()] is Some ==> ok == (old(self)@[var.slot()]->0 == value)
                && final(self)@ == old(self)@,
    {
        let idx = var.index();
        match self.values[idx] {
            None => {
                self.values.set(idx, Some(value));
                true
            },
            Some(existing) => existing == value,
        }
    }

    pub fn is_assigned(&self, var: Var) -> (r: bool)
        requires
            1 <= var.0 <= self@.len(),
        ensures
            r == self@[var.slot()] is Some,
    {
        self.get(var).is_some()
    }

    pub fn len(&self) -> (n: usize)
        ensures
            n == self@.len(),
    {
        self.values.len()
    }

    pub fn eval_lit(&self, lit: Lit) -> (r: Option<bool>)
        requires
            1 <= lit.var.0 <= self@.len(),
        ensures
            r == lit_value(self@, lit),
    {
        match self.get(lit.var) {
            None => None,
            Some(val) => Some(if lit.neg {
                !val
            } else {
                val
            }),
        }
    }
}

/// What a write gives back: after `assign` succeeds, reading the variable
/// gives the value written, both literals of the variable evaluate to
/// opposite truth values, and no other variable changes.
pub proof fn lemma_assign_then_read(a: Seq<Option<bool>>, var: Var, value: bool, other: Var)
    requires
        1 <= var.0 <= a.len(),
        1 <= other.0 <= a.len(),
        a[var.slot()] is None,
        other != var,
    ensures
        ({
            let b = a.update(var.slot(), Some(value));
            &&& b[var.slot()] == Some(value)
            &&& lit_value(b, Lit { var, neg: false }) == Some(value)
            &&& lit_value(b, Lit { var, neg: true }) == Some(!value)
            &&& b[other.slot()] == a[other.slot()]
            &&& refines(b, a)
        }),
{
}

} // verus!
