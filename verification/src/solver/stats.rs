//! Per-variable conflict statistics kept during the search.

use vstd::prelude::*;

use crate::cnf::{Lit, Var};

verus! {

/// `x + 1` on 32 bits, wrapping from `u32::MAX` to 0.
pub open spec fn bump32(x: u32) -> u32 {
    if x == u32::MAX {
        0
    } else {
        (x + 1) as u32
    }
}

/// The heat table after every literal of `c`, in order, has raised the heat
/// of its variable by one.
pub open spec fn heat_after_clause(h: Seq<u32>, c: Seq<Lit>) -> Seq<u32>
    decreases c.len(),
{
    if c.len() == 0 {
        h
    } else {
        let before = heat_after_clause(h, c.drop_last());
        let slot = c.last().var.slot();
        before.update(slot, bump32(before[slot]))
    }
}

/// Every entry halved, rounding down.
pub open spec fn halved(h: Seq<u32>) -> Seq<u32> {
    Seq::new(h.len(), |i: int| (h[i] / 2) as u32)
}

/// How often each variable took part in a conflict (decaying), how often
/// the search flipped it, and how many conflicts there were.
#[derive(Clone, Debug)]
pub struct Stats {
    conflict_heat: Vec<u32>,
    recent_flips: Vec<u32>,
    conflict_count: u32,
}

impl Stats {
    /// Conflict heat of each variable (slot `i` is variable `i + 1`).
    pub closed spec fn heat(&self) -> Seq<u32> {
        self.conflict_heat@
    }

    /// Number of times each variable was flipped on backtracking.
    pub closed spec fn flips(&self) -> Seq<u32> {
        self.recent_flips@
    }

    /// Number of conflicts recorded (modulo 2^32).
    pub closed spec fn conflicts(&self) -> u32 {
        self.conflict_count
    }

    /// Both tables cover `n` variables.
    pub open spec fn covers(&self, n: nat) -> bool {
        self.heat().len() == n && self.flips().len() == n
    }

    /// Every heat and flip count of the first `n` variables is zero.
    pub open spec fn all_zero(&self, n: nat) -> bool {
        forall|i: int| 0 <= i < n ==> #[trigger] self.heat()[i] == 0 && self.flips()[i] == 0
    }

    pub fn new(num_vars: u32) -> (s: Stats)
        ensures
            s.covers(num_vars as nat),
            s.conflicts() == 0,
            forall|i: int| 0 <= i < num_vars ==> #[trigger] s.heat()[i] == 0 && s.flips()[i] == 0,
            s.all_zero(num_vars as nat),
    {
        let mut conflict_heat: Vec<u32> = Vec::new();
        let mut recent_flips: Vec<u32> = Vec::new();
        let mut i: u32 = 0;
        while i < num_vars
            invariant
                i <= num_vars,
                conflict_heat@.len() == i,
                recent_flips@.len() == i,
                forall|k: int| 0 <= k < i ==> #[trigger] conflict_heat@[k] == 0 && recent_flips@[k] == 0,
            decreases num_vars - i,
        {
            conflict_heat.push(0);
            recent_flips.push(0);
            i = i + 1;
        }
        Stats { conflict_heat, recent_flips, conflict_count: 0 }
    }

    pub fn conflict_heat(&self, var: Var) -> (h: u32)
        requires
            1 <= var.0 <= self.heat().len(),
        ensures
            h == self.heat()[var.slot()],
    {
        self.conflict_heat[var.index()]
    }

    pub fn recent_flips(&self, var: Var) -> (f: u32)
        requires
            1 <= var.0 <= self.flips().len(),
        ensures
            f == self.flips()[var.slot()],
    {
        self.recent_flips[var.index()]
    }

    pub fn conflict_count(&self) -> (c: u32)
        ensures
            c == self.conflicts(),
    {
        self.conflict_count
    }

    /// Counts one more flip of `var` (wrapping at 2^32).
    pub fn inc_flip(&mut self, var: Var)
        requires
            1 <= var.0 <= old(self).flips().len(),
        ensures
            final(self).flips() == old(self).flips().update(
                var.slot(),
                bump32(old(self).flips()[var.slot()]),
            ),
            final(self).heat() == old(self).heat(),
            final(self).conflicts() == old(self).conflicts(),
    {
        let idx = var.index();
        let f = self.recent_flips[idx];
        self.recent_flips.set(idx, f.wrapping_add(1));
    }

    /// Records a conflict on `clause`: each of its literals heats its
    /// variable by one, and every 256th conflict halves all heats.
    pub fn record_conflict_clause(&mut self, clause: &[Lit])
        requires
            forall|j: int| 0 <= j < clause@.len() ==> 1 <= #[trigger] clause@[j].var.0 <= old(self).heat().len(),
        ensures
            final(self).conflicts() == bump32(old(self).conflicts()),
            final(self).heat() == if final(self).conflicts() % 256 == 0 {
                halved(heat_after_clause(old(self).heat(), clause@))
            } else {
                heat_after_clause(old(self).heat(), clause@)
            },
            final(self).flips() == old(self).flips(),
    {
        let mut j: usize = 0;
        while j < clause.len()
            invariant
                j <= clause@.len(),
                forall|k: int| 0 <= k < clause@.len() ==> 1 <= #[trigger] clause@[k].var.0 <= old(self).heat().len(),
                self.conflict_heat@ == heat_after_clause(old(self).heat(), clause@.take(j as int)),
                self.recent_flips@ == old(self).flips(),
                self.conflict_count == old(self).conflicts(),
            decreases clause@.len() - j,
        {
            let lit = clause[j];
            proof {
                assert(clause@.take(j + 1).drop_last() =~= clause@.take(j as int));
                lemma_heat_after_clause_len(old(self).heat(), clause@.take(j as int));
            }
            let idx = lit.var.index();
            let h = self.conflict_heat[idx];
            self.conflict_heat.set(idx, h.wrapping_add(1));
            j = j + 1;
        }
        assert(clause@.take(clause@.len() as int) =~= clause@);
        self.conflict_count = self.conflict_count.wrapping_add(1);
        if self.conflict_count % 256 == 0 {
            let ghost before = self.conflict_heat@;
            let mut i: usize = 0;
            while i < self.conflict_heat.len()
                invariant
                    i <= self.conflict_heat@.len(),
                    self.conflict_heat@.len() == before.len(),
                    before == heat_after_clause(old(self).heat(), clause@),
                    self.conflict_count == bump32(old(self).conflicts()),
                    self.recent_flips@ == old(self).flips(),
                    forall|k: int| 0 <= k < i ==> #[trigger] self.conflict_heat@[k] == before[k] / 2,
                    forall|k: int| i <= k < before.len() ==> #[trigger] self.conflict_heat@[k] == before[k],
                decreases before.len() - i,
            {
                let h = self.conflict_heat[i];
                self.conflict_heat.set(i, h / 2);
                i = i + 1;
            }
            assert(self.conflict_heat@ =~= halved(before));
        }
    }
}

/// Number of literals of `c` on the variable `v`.
pub open spec fn mentions_of(c: Seq<Lit>, v: Var) -> nat
    decreases c.len(),
{
    if c.len() == 0 {
        0
    } else {
        mentions_of(c.drop_last(), v) + if c.last().var == v {
            1nat
        } else {
            0nat
        }
    }
}

/// A conflict on `c` leaves the heat of a variable that `c` does not
/// mention, and raises by one (on 32 bits) the heat of a variable that `c`
/// mentions once.
pub proof fn lemma_heat_after_clause_entry(h: Seq<u32>, c: Seq<Lit>, v: Var)
    requires
        1 <= v.0 <= h.len(),
        forall|j: int| 0 <= j < c.len() ==> 1 <= #[trigger] c[j].var.0 <= h.len(),
    ensures
        mentions_of(c, v) == 0 ==> heat_after_clause(h, c)[v.slot()] == h[v.slot()],
        mentions_of(c, v) == 1 ==> heat_after_clause(h, c)[v.slot()] == bump32(h[v.slot()]),
    decreases c.len(),
{
    if c.len() > 0 {
        let c0 = c.drop_last();
        assert forall|j: int| 0 <= j < c0.len() implies 1 <= #[trigger] c0[j].var.0 <= h.len() by {
            assert(c0[j] == c[j]);
        }
        lemma_heat_after_clause_entry(h, c0, v);
        lemma_heat_after_clause_len(h, c0);
        assert(1 <= c[c.len() - 1].var.0 <= h.len());
    }
}

/// Raising heats never changes the size of the table.
pub proof fn lemma_heat_after_clause_len(h: Seq<u32>, c: Seq<Lit>)
    requires
        forall|j: int| 0 <= j < c.len() ==> 1 <= #[trigger] c[j].var.0 <= h.len(),
    ensures
        heat_after_clause(h, c).len() == h.len(),
    decreases c.len(),
{
    if c.len() > 0 {
        lemma_heat_after_clause_len(h, c.drop_last());
    }
}

} // verus!
