//! The Jeroslow-Wang branching heuristic, computed exactly.
//!
//! A clause that is not yet satisfied and has `w >= 1` unassigned literal
//! occurrences gives each of them the weight `2^-w`; the score of a literal
//! is the sum of the weights of its occurrences. Scores are kept exactly,
//! scaled by `2^K` where `K` is the largest number of unassigned literal
//! occurrences in any clause, as per-width occurrence counts.

use vstd::prelude::*;

use crate::cnf::{Cnf, Lit, Var};
use crate::solver::assignment::{lit_value, Assignment};
use crate::solver::propagation::{free_lits, satisfied_under};
use crate::solver::random::{draw_below, draw_u64};
use rand::rngs::StdRng;

verus! {

/// `2^e`.
pub open spec fn pow2(e: nat) -> nat
    decreases e,
{
    if e == 0 {
        1
    } else {
        2 * pow2((e - 1) as nat)
    }
}

/// The value of a per-width count table: `sum of h[k] * 2^(n - 1 - k)` for
/// `k < n`, computed by Horner's rule.
pub open spec fn table_value(h: Seq<u64>, n: int) -> int
    decreases n,
{
    if n <= 0 {
        0
    } else {
        2 * table_value(h, n - 1) + h[n - 1]
    }
}

/// `w` times the number of occurrences of `l` in `s`.
pub open spec fn weighted_occurrences(s: Seq<Lit>, l: Lit, w: int) -> int
    decreases s.len(),
{
    if s.len() == 0 {
        0
    } else {
        weighted_occurrences(s.drop_last(), l, w) + if s.last() == l {
            w
        } else {
            0
        }
    }
}

/// The largest number of unassigned literal occurrences in one of the first
/// `n` clauses.
pub open spec fn max_width_upto(cnf: &Cnf, a: Seq<Option<bool>>, n: int) -> nat
    decreases n,
{
    if n <= 0 {
        0
    } else {
        let rest = max_width_upto(cnf, a, n - 1);
        let w = free_lits(a, cnf.clause(n - 1)).len();
        if w > rest {
            w
        } else {
            rest
        }
    }
}

/// The scale `K` of the scores: the largest width of a clause.
pub open spec fn score_scale(cnf: &Cnf, a: Seq<Option<bool>>) -> nat {
    max_width_upto(cnf, a, cnf.clauses@.len() as int)
}

/// The weight, scaled by `2^k`, that clause `i` gives to each of its
/// unassigned literal occurrences: `2^(k - w)` for a clause not yet
/// satisfied with width `w >= 1`, else 0.
pub open spec fn clause_weight(cnf: &Cnf, a: Seq<Option<bool>>, i: int, k: nat) -> int {
    let w = free_lits(a, cnf.clause(i)).len();
    if !satisfied_under(a, cnf.clause(i)) && w >= 1 {
        pow2((k - w) as nat) as int
    } else {
        0
    }
}

/// Score of literal `l` over the first `n` clauses, scaled by `2^k`.
pub open spec fn score_upto(cnf: &Cnf, a: Seq<Option<bool>>, l: Lit, k: nat, n: int) -> int
    decreases n,
{
    if n <= 0 {
        0
    } else {
        score_upto(cnf, a, l, k, n - 1) + weighted_occurrences(
            free_lits(a, cnf.clause(n - 1)),
            l,
            clause_weight(cnf, a, n - 1, k),
        )
    }
}

/// The Jeroslow-Wang score of literal `l` under `a`, scaled by `2^K`.
pub open spec fn jw_score(cnf: &Cnf, a: Seq<Option<bool>>, l: Lit) -> int {
    score_upto(cnf, a, l, score_scale(cnf, a), cnf.clauses@.len() as int)
}

/// The combined score of both literals of `v`.
pub open spec fn jw_total(cnf: &Cnf, a: Seq<Option<bool>>, v: Var) -> int {
    jw_score(cnf, a, Lit { var: v, neg: false }) + jw_score(cnf, a, Lit { var: v, neg: true })
}

/// The number of occurrences of `l` in `s`.
pub open spec fn occurrences_of(s: Seq<Lit>, l: Lit) -> nat
    decreases s.len(),
{
    if s.len() == 0 {
        0
    } else {
        occurrences_of(s.drop_last(), l) + if s.last() == l {
            1nat
        } else {
            0nat
        }
    }
}

/// Each occurrence of `l` counts `w`.
proof fn lemma_weighted_is_count(s: Seq<Lit>, l: Lit, w: int)
    ensures
        weighted_occurrences(s, l, w) == occurrences_of(s, l) * w,
    decreases s.len(),
{
    if s.len() > 0 {
        lemma_weighted_is_count(s.drop_last(), l, w);
        let c = occurrences_of(s.drop_last(), l);
        assert(weighted_occurrences(s.drop_last(), l, w) == c * w);
        if s.last() == l {
            assert(occurrences_of(s, l) == c + 1);
            assert(weighted_occurrences(s, l, w) == c * w + w);
            assert((c + 1) * w == c * w + w) by (nonlinear_arith);
        } else {
            assert(occurrences_of(s, l) == c);
            assert(weighted_occurrences(s, l, w) == c * w);
        }
    } else {
        assert(occurrences_of(s, l) == 0);
        assert(0 * w == 0);
    }
}

/// What one clause adds to the score of a literal: nothing when the
/// assignment already satisfies it; otherwise `2^(k - w)` for each
/// unassigned occurrence of the literal in it, `w` being its number of
/// unassigned literal occurrences.
pub proof fn lemma_clause_score_step(cnf: &Cnf, a: Seq<Option<bool>>, l: Lit, k: nat, n: int)
    requires
        0 < n <= cnf.clauses@.len(),
    ensures
        satisfied_under(a, cnf.clause(n - 1)) ==> score_upto(cnf, a, l, k, n) == score_upto(cnf, a, l, k, n - 1),
        !satisfied_under(a, cnf.clause(n - 1)) ==> score_upto(cnf, a, l, k, n) == score_upto(cnf, a, l, k, n - 1)
            + occurrences_of(free_lits(a, cnf.clause(n - 1)), l) * pow2(
            (k - free_lits(a, cnf.clause(n - 1)).len()) as nat,
        ),
{
    let fl = free_lits(a, cnf.clause(n - 1));
    lemma_weighted_is_count(fl, l, clause_weight(cnf, a, n - 1, k));
    if fl.len() == 0 {
        assert(occurrences_of(fl, l) == 0);
    }
}

/// A literal that occurs unassigned only in clauses the assignment already
/// satisfies scores nothing: satisfied clauses add nothing to any score.
pub proof fn lemma_score_ignores_satisfied(cnf: &Cnf, a: Seq<Option<bool>>, l: Lit, k: nat, n: int)
    requires
        0 <= n <= cnf.clauses@.len(),
        forall|i: int|
            0 <= i < n && #[trigger] free_lits(a, cnf.clause(i)).contains(l) ==> satisfied_under(a, cnf.clause(i)),
    ensures
        score_upto(cnf, a, l, k, n) == 0,
    decreases n,
{
    if n > 0 {
        lemma_score_ignores_satisfied(cnf, a, l, k, n - 1);
        lemma_clause_score_step(cnf, a, l, k, n);
        let fl = free_lits(a, cnf.clause(n - 1));
        if !satisfied_under(a, cnf.clause(n - 1)) {
            assert(!fl.contains(l));
            lemma_no_occurrence(fl, l);
        }
    }
}

/// A sequence without `l` has no occurrence of it.
proof fn lemma_no_occurrence(s: Seq<Lit>, l: Lit)
    requires
        !s.contains(l),
    ensures
        occurrences_of(s, l) == 0,
    decreases s.len(),
{
    if s.len() > 0 {
        assert(!s.drop_last().contains(l)) by {
            if s.drop_last().contains(l) {
                let j = choose|j: int| 0 <= j < s.drop_last().len() && s.drop_last()[j] == l;
                assert(s[j] == l);
            }
        }
        lemma_no_occurrence(s.drop_last(), l);
        assert(s[s.len() - 1] != l);
    }
}

/// The Jeroslow-Wang score of a literal that occurs unassigned only in
/// clauses the assignment satisfies is 0.
pub proof fn lemma_jw_score_ignores_satisfied(cnf: &Cnf, a: Seq<Option<bool>>, l: Lit)
    requires
        forall|i: int|
            0 <= i < cnf.clauses@.len() && #[trigger] free_lits(a, cnf.clause(i)).contains(l) ==> satisfied_under(
                a,
                cnf.clause(i),
            ),
    ensures
        jw_score(cnf, a, l) == 0,
{
    lemma_score_ignores_satisfied(cnf, a, l, score_scale(cnf, a), cnf.clauses@.len() as int);
}

/// Adding one to entry `k` of a table of `n` entries adds `2^(n - 1 - k)`
/// to its value.
proof fn lemma_table_value_bump(h: Seq<u64>, n: int, k: int, x: u64)
    requires
        0 <= k < n <= h.len(),
        x == h[k] + 1,
    ensures
        table_value(h.update(k, x), n) == table_value(h, n) + pow2((n - 1 - k) as nat),
    decreases n,
{
    let h2 = h.update(k, x);
    if n - 1 == k {
        assert(table_value(h2, n - 1) == table_value(h, n - 1)) by {
            lemma_table_value_same(h, h2, n - 1);
        }
    } else {
        lemma_table_value_bump(h, n - 1, k, x);
        assert(pow2((n - 1 - k) as nat) == 2 * pow2((n - 2 - k) as nat));
    }
}

proof fn lemma_table_value_same(h: Seq<u64>, g: Seq<u64>, n: int)
    requires
        0 <= n <= h.len(),
        n <= g.len(),
        forall|k: int| 0 <= k < n ==> h[k] == g[k],
    ensures
        table_value(h, n) == table_value(g, n),
    decreases n,
{
    if n > 0 {
        lemma_table_value_same(h, g, n - 1);
    }
}

proof fn lemma_zero_table(h: Seq<u64>, n: int)
    requires
        0 <= n <= h.len(),
        forall|k: int| 0 <= k < n ==> h[k] == 0,
    ensures
        table_value(h, n) == 0,
    decreases n,
{
    if n > 0 {
        lemma_zero_table(h, n - 1);
    }
}

/// Per-variable, per-width occurrence counts of positive and negative
/// literals: `pos[i][w]` counts occurrences of variable `i + 1` in clauses of
/// width `w`; the table of a literal has `scale + 1` entries.
pub struct JwScores {
    pub pos: Vec<Vec<u64>>,
    pub neg: Vec<Vec<u64>>,
    pub scale: usize,
}

impl JwScores {
    /// The scaled score that the tables give literal `l`.
    pub open spec fn score(&self, l: Lit) -> int {
        let row = if l.neg {
            self.neg@[l.var.slot()]@
        } else {
            self.pos@[l.var.slot()]@
        };
        table_value(row, self.scale + 1)
    }

    /// Tables for `n` variables, each with `scale + 1` entries.
    pub open spec fn shaped(&self, n: nat) -> bool {
        &&& self.pos@.len() == n
        &&& self.neg@.len() == n
        &&& forall|i: int| 0 <= i < n ==> (#[trigger] self.pos@[i])@.len() == self.scale + 1
        &&& forall|i: int| 0 <= i < n ==> (#[trigger] self.neg@[i])@.len() == self.scale + 1
    }

    /// The tables hold the Jeroslow-Wang scores of `cnf` under `a`.
    pub open spec fn holds_scores_of(&self, cnf: &Cnf, a: Seq<Option<bool>>) -> bool {
        &&& self.shaped(cnf.num_vars as nat)
        &&& self.scale == score_scale(cnf, a)
        &&& self.scale < u32::MAX
        &&& forall|l: Lit| 1 <= l.var.0 <= cnf.num_vars ==> #[trigger] self.score(l) == jw_score(cnf, a, l)
    }
}

/// Number of unassigned literal occurrences of `c`.
pub(crate) fn free_count(c: &[Lit], assignment: &Assignment) -> (r: u32)
    requires
        c@.len() < u32::MAX,
        forall|j: int| 0 <= j < c@.len() ==> 1 <= #[trigger] c@[j].var.0 <= assignment@.len(),
    ensures
        r == free_lits(assignment@, c@).len(),
{
    let ghost a = assignment@;
    let mut count: u32 = 0;
    let mut j: usize = 0;
    while j < c.len()
        invariant
            j <= c@.len(),
            c@.len() < u32::MAX,
            a == assignment@,
            forall|k: int| 0 <= k < c@.len() ==> 1 <= #[trigger] c@[k].var.0 <= a.len(),
            count == free_lits(a, c@.take(j as int)).len(),
            count <= j,
        decreases c@.len() - j,
    {
        proof {
            assert(c@.take(j + 1).drop_last() =~= c@.take(j as int));
            assert(c@.take(j + 1).last() == c@[j as int]);
        }
        if assignment.eval_lit(c[j]).is_none() {
            count = count + 1;
        }
        j = j + 1;
    }
    assert(c@.take(c@.len() as int) =~= c@);
    count
}

/// A row of `n` zero counts.
fn zero_row(n: usize) -> (r: Vec<u64>)
    ensures
        r@.len() == n,
        forall|k: int| 0 <= k < n ==> r@[k] == 0,
{
    let mut r: Vec<u64> = Vec::new();
    let mut k: usize = 0;
    while k < n
        invariant
            k <= n,
            r@.len() == k,
            forall|t: int| 0 <= t < k ==> r@[t] == 0,
        decreases n - k,
    {
        r.push(0);
        k = k + 1;
    }
    r
}

/// Every count in the tables is at most `cap`.
pub open spec fn counts_at_most(s: &JwScores, cap: int) -> bool {
    &&& forall|i: int, k: int| 0 <= i < s.pos@.len() && 0 <= k < s.pos@[i]@.len() ==> s.pos@[i]@[k] <= cap
    &&& forall|i: int, k: int| 0 <= i < s.neg@.len() && 0 <= k < s.neg@[i]@.len() ==> s.neg@[i]@[k] <= cap
}

/// Counts each unassigned literal occurrence of `c` at width `w`.
fn add_clause(scores: &mut JwScores, c: &[Lit], assignment: &Assignment, w: u32, Ghost(n): Ghost<nat>, Ghost(cap): Ghost<int>)
    requires
        old(scores).shaped(n),
        n == assignment@.len(),
        1 <= w <= old(scores).scale,
        forall|j: int| 0 <= j < c@.len() ==> 1 <= #[trigger] c@[j].var.0 <= n,
        counts_at_most(old(scores), cap),
        cap + c@.len() <= u64::MAX,
    ensures
        final(scores).shaped(n),
        final(scores).scale == old(scores).scale,
        counts_at_most(final(scores), cap + c@.len()),
        forall|l: Lit| 1 <= l.var.0 <= n ==> #[trigger] final(scores).score(l) == old(scores).score(l)
            + weighted_occurrences(free_lits(assignment@, c@), l, pow2((old(scores).scale - w) as nat) as int),
{
    let ghost a = assignment@;
    let ghost wt = pow2((old(scores).scale - w) as nat) as int;
    let wu = w as usize;
    let mut j: usize = 0;
    while j < c.len()
        invariant
            j <= c@.len(),
            a == assignment@,
            n == a.len(),
            scores.shaped(n),
            scores.scale == old(scores).scale,
            1 <= w <= scores.scale,
            wu == w,
            wt == pow2((scores.scale - w) as nat) as int,
            forall|k: int| 0 <= k < c@.len() ==> 1 <= #[trigger] c@[k].var.0 <= n,
            counts_at_most(scores, cap + j),
            cap + c@.len() <= u64::MAX,
            forall|l: Lit| 1 <= l.var.0 <= n ==> #[trigger] scores.score(l) == old(scores).score(l)
                + weighted_occurrences(free_lits(a, c@.take(j as int)), l, wt),
        decreases c@.len() - j,
    {
        let lit = c[j];
        let ghost before = *scores;
        proof {
            assert(c@.take(j + 1).drop_last() =~= c@.take(j as int));
            assert(c@.take(j + 1).last() == lit);
            assert(c@[j as int] == lit);
        }
        if assignment.eval_lit(lit).is_none() {
            let s = lit.var.index();
            if lit.neg {
                let x = scores.neg[s][wu];
                scores.neg[s].set(wu, x + 1);
            } else {
                let x = scores.pos[s][wu];
                scores.pos[s].set(wu, x + 1);
            }
            proof {
                let sc = scores.scale as int;
                assert forall|l: Lit| 1 <= l.var.0 <= n implies #[trigger] scores.score(l) == before.score(l)
                    + if l == lit { wt } else { 0 } by {
                    let brow = if l.neg { before.neg@[l.var.slot()]@ } else { before.pos@[l.var.slot()]@ };
                    let row = if l.neg { scores.neg@[l.var.slot()]@ } else { scores.pos@[l.var.slot()]@ };
                    if l == lit {
                        assert(row == brow.update(w as int, (brow[w as int] + 1) as u64));
                        lemma_table_value_bump(brow, sc + 1, w as int, (brow[w as int] + 1) as u64);
                    } else {
                        assert(row == brow);
                    }
                }
                assert forall|i: int, k: int| 0 <= i < scores.pos@.len() && 0 <= k < scores.pos@[i]@.len()
                    implies scores.pos@[i]@[k] <= cap + j + 1 by {
                    assert(before.pos@[i]@[k] <= cap + j);
                }
                assert forall|i: int, k: int| 0 <= i < scores.neg@.len() && 0 <= k < scores.neg@[i]@.len()
                    implies scores.neg@[i]@[k] <= cap + j + 1 by {
                    assert(before.neg@[i]@[k] <= cap + j);
                }
            }
        }
        proof {
            let f = free_lits(a, c@.take(j as int));
            if lit_value(a, lit) is None {
                assert(free_lits(a, c@.take(j + 1)) == f.push(lit));
                assert(f.push(lit).drop_last() =~= f);
                assert forall|l: Lit| 1 <= l.var.0 <= n implies #[trigger] weighted_occurrences(f.push(lit), l, wt)
                    == weighted_occurrences(f, l, wt) + if l == lit { wt } else { 0 } by {}
            } else {
                assert(free_lits(a, c@.take(j + 1)) == f);
            }
        }
        j = j + 1;
    }
    assert(c@.take(c@.len() as int) =~= c@);
}

proof fn lemma_weighted_zero(s: Seq<Lit>, l: Lit)
    ensures
        weighted_occurrences(s, l, 0) == 0,
    decreases s.len(),
{
    if s.len() > 0 {
        lemma_weighted_zero(s.drop_last(), l);
    }
}

/// The exact Jeroslow-Wang scores of every literal of `cnf` under
/// `assignment`.
pub fn jw_scores(cnf: &Cnf, assignment: &Assignment) -> (s: JwScores)
    requires
        cnf.wf(),
        cnf.fits_counters(),
        assignment@.len() == cnf.num_vars,
    ensures
        s.holds_scores_of(cnf, assignment@),
{
    let ghost a = assignment@;
    let ghost n = cnf.num_vars as nat;
    let mut scale: u32 = 0;
    let mut i: usize = 0;
    while i < cnf.clauses.len()
        invariant
            i <= cnf.clauses@.len(),
            cnf.wf(),
            cnf.fits_counters(),
            a == assignment@,
            a.len() == cnf.num_vars,
            scale == max_width_upto(cnf, a, i as int),
            scale < u32::MAX,
        decreases cnf.clauses@.len() - i,
    {
        proof {
            assert(crate::cnf::clause_in_range(cnf.clause(i as int), cnf.num_vars));
            assert(cnf.clause(i as int).len() < u32::MAX);
            crate::solver::propagation::lemma_free_lits_len(a, cnf.clause(i as int));
        }
        let w = free_count(cnf.clauses[i].as_slice(), assignment);
        if w > scale {
            scale = w;
        }
        i = i + 1;
    }
    let k = scale as usize;
    let mut scores = JwScores { pos: Vec::new(), neg: Vec::new(), scale: k };
    let mut v: u32 = 0;
    while v < cnf.num_vars
        invariant
            v <= cnf.num_vars,
            scores.scale == k,
            k < u32::MAX,
            scores.pos@.len() == v,
            scores.neg@.len() == v,
            forall|t: int| 0 <= t < v ==> (#[trigger] scores.pos@[t])@.len() == k + 1,
            forall|t: int| 0 <= t < v ==> (#[trigger] scores.neg@[t])@.len() == k + 1,
            forall|t: int, q: int| 0 <= t < v && 0 <= q <= k ==> scores.pos@[t]@[q] == 0,
            forall|t: int, q: int| 0 <= t < v && 0 <= q <= k ==> scores.neg@[t]@[q] == 0,
        decreases cnf.num_vars - v,
    {
        scores.pos.push(zero_row(k + 1));
        scores.neg.push(zero_row(k + 1));
        v = v + 1;
    }
    proof {
        assert forall|l: Lit| 1 <= l.var.0 <= n implies #[trigger] scores.score(l) == score_upto(cnf, a, l, k as nat, 0) by {
            let row = if l.neg { scores.neg@[l.var.slot()]@ } else { scores.pos@[l.var.slot()]@ };
            lemma_zero_table(row, k + 1);
        }
    }
    let ghost m = u32::MAX as int;
    let mut i: usize = 0;
    while i < cnf.clauses.len()
        invariant
            i <= cnf.clauses@.len(),
            cnf.wf(),
            cnf.fits_counters(),
            a == assignment@,
            a.len() == n,
            n == cnf.num_vars,
            m == u32::MAX,
            scores.shaped(n),
            scores.scale == k,
            k == score_scale(cnf, a),
            counts_at_most(&scores, i * m),
            forall|l: Lit| 1 <= l.var.0 <= n ==> #[trigger] scores.score(l) == score_upto(cnf, a, l, k as nat, i as int),
        decreases cnf.clauses@.len() - i,
    {
        let c = cnf.clauses[i].as_slice();
        proof {
            assert(c@ == cnf.clause(i as int));
            assert(crate::cnf::clause_in_range(c@, cnf.num_vars));
            assert(c@.len() < u32::MAX);
            lemma_width_le_scale(cnf, a, i as int, cnf.clauses@.len() as int);
            assert((i + 1) * m <= cnf.clauses@.len() * m) by (nonlinear_arith)
                requires i + 1 <= cnf.clauses@.len(), m >= 0;
            assert(cnf.clauses@.len() * m <= 42949672 * m) by (nonlinear_arith)
                requires cnf.clauses@.len() <= 42949672, m >= 0;
            assert(i * m + m == (i + 1) * m) by (nonlinear_arith);
        }
        let satisfied = crate::solver::propagation::clause_satisfied(c, assignment);
        let w = free_count(c, assignment);
        let ghost before = scores;
        if !satisfied && w >= 1 {
            add_clause(&mut scores, c, assignment, w, Ghost(n), Ghost(i * m));
        } else {
            proof {
                assert forall|l: Lit| 1 <= l.var.0 <= n implies weighted_occurrences(
                    free_lits(a, c@), l, clause_weight(cnf, a, i as int, k as nat)) == 0 by {
                    lemma_weighted_zero(free_lits(a, c@), l);
                }
            }
        }
        proof {
            assert forall|l: Lit| 1 <= l.var.0 <= n implies #[trigger] scores.score(l) == score_upto(cnf, a, l, k as nat, i + 1) by {
                assert(score_upto(cnf, a, l, k as nat, i + 1) == score_upto(cnf, a, l, k as nat, i as int)
                    + weighted_occurrences(free_lits(a, cnf.clause(i as int)), l, clause_weight(cnf, a, i as int, k as nat)));
            }
        }
        i = i + 1;
    }
    scores
}

/// Every clause's width is at most the scale.
proof fn lemma_width_le_scale(cnf: &Cnf, a: Seq<Option<bool>>, i: int, n: int)
    requires
        0 <= i < n,
    ensures
        free_lits(a, cnf.clause(i)).len() <= max_width_upto(cnf, a, n),
    decreases n,
{
    if i < n - 1 {
        lemma_width_le_scale(cnf, a, i, n - 1);
    }
}

/// Entry `k` of `(a1 + a2) - (b1 + b2)`.
pub open spec fn diff_at(a1: Seq<u64>, a2: Seq<u64>, b1: Seq<u64>, b2: Seq<u64>, k: int) -> int {
    a1[k] + a2[k] - b1[k] - b2[k]
}

/// Sum of the magnitudes of the first `n` entries of the difference.
pub open spec fn diff_abs_sum(a1: Seq<u64>, a2: Seq<u64>, b1: Seq<u64>, b2: Seq<u64>, n: int) -> int
    decreases n,
{
    if n <= 0 {
        0
    } else {
        let d = diff_at(a1, a2, b1, b2, n - 1);
        diff_abs_sum(a1, a2, b1, b2, n - 1) + if d < 0 {
            -d
        } else {
            d
        }
    }
}

/// Horner's rule on the difference of the tables.
pub open spec fn diff_horner(a1: Seq<u64>, a2: Seq<u64>, b1: Seq<u64>, b2: Seq<u64>, n: int) -> int
    decreases n,
{
    if n <= 0 {
        0
    } else {
        2 * diff_horner(a1, a2, b1, b2, n - 1) + diff_at(a1, a2, b1, b2, n - 1)
    }
}

/// The sign of an integer, as -1, 0 or 1.
pub open spec fn sign_of(x: int) -> i8 {
    if x > 0 {
        1
    } else if x < 0 {
        -1i8
    } else {
        0
    }
}

proof fn lemma_diff_horner(a1: Seq<u64>, a2: Seq<u64>, b1: Seq<u64>, b2: Seq<u64>, n: int)
    requires
        0 <= n,
    ensures
        diff_horner(a1, a2, b1, b2, n) == table_value(a1, n) + table_value(a2, n) - table_value(b1, n)
            - table_value(b2, n),
    decreases n,
{
    if n > 0 {
        lemma_diff_horner(a1, a2, b1, b2, n - 1);
    }
}

proof fn lemma_diff_abs_sum_bounds(a1: Seq<u64>, a2: Seq<u64>, b1: Seq<u64>, b2: Seq<u64>, k: int, n: int)
    requires
        0 <= k < n,
    ensures
        -diff_abs_sum(a1, a2, b1, b2, n) <= diff_at(a1, a2, b1, b2, k) <= diff_abs_sum(a1, a2, b1, b2, n),
        diff_abs_sum(a1, a2, b1, b2, n) >= 0,
    decreases n,
{
    lemma_diff_abs_sum_nonneg(a1, a2, b1, b2, n - 1);
    if k < n - 1 {
        lemma_diff_abs_sum_bounds(a1, a2, b1, b2, k, n - 1);
    }
}

proof fn lemma_diff_abs_sum_nonneg(a1: Seq<u64>, a2: Seq<u64>, b1: Seq<u64>, b2: Seq<u64>, n: int)
    ensures
        diff_abs_sum(a1, a2, b1, b2, n) >= 0,
    decreases n,
{
    if n > 0 {
        lemma_diff_abs_sum_nonneg(a1, a2, b1, b2, n - 1);
    }
}

/// The sign of `(value(a1) + value(a2)) - (value(b1) + value(b2))` for
/// count tables of `n` entries, computed exactly: Horner's rule on the
/// difference of the entries, held at one past the sum of the magnitudes of
/// the entries once the sign can no longer change.
pub fn compare_tables(a1: &Vec<u64>, a2: &Vec<u64>, b1: &Vec<u64>, b2: &Vec<u64>, n: usize) -> (r: i8)
    requires
        n <= u32::MAX,
        a1@.len() == n,
        a2@.len() == n,
        b1@.len() == n,
        b2@.len() == n,
    ensures
        r == sign_of(table_value(a1@, n as int) + table_value(a2@, n as int) - table_value(b1@, n as int)
            - table_value(b2@, n as int)),
{
    let ghost (x1, x2, y1, y2) = (a1@, a2@, b1@, b2@);
    let ghost unit: int = 0x4_0000_0000_0000_0000;
    let mut bound: i128 = 0;
    let mut k: usize = 0;
    while k < n
        invariant
            k <= n,
            n <= u32::MAX,
            x1 == a1@, x2 == a2@, y1 == b1@, y2 == b2@,
            a1@.len() == n, a2@.len() == n, b1@.len() == n, b2@.len() == n,
            unit == 0x4_0000_0000_0000_0000,
            bound == diff_abs_sum(x1, x2, y1, y2, k as int),
            0 <= bound <= k * unit,
        decreases n - k,
    {
        let d: i128 = a1[k] as i128 + a2[k] as i128 - b1[k] as i128 - b2[k] as i128;
        let m: i128 = if d < 0 { -d } else { d };
        proof {
            assert(k * unit + unit == (k + 1) * unit) by (nonlinear_arith);
            assert((k + 1) * unit <= 0x1_0000_0000 * unit) by (nonlinear_arith)
                requires k + 1 <= 0x1_0000_0000, unit >= 0;
        }
        bound = bound + m;
        k = k + 1;
    }
    proof {
        assert(n * unit <= 0x1_0000_0000 * unit) by (nonlinear_arith)
            requires n <= 0x1_0000_0000, unit >= 0;
    }
    let ghost b = bound as int;
    let mut h: i128 = 0;
    let mut k: usize = 0;
    while k < n
        invariant
            k <= n,
            x1 == a1@, x2 == a2@, y1 == b1@, y2 == b2@,
            a1@.len() == n, a2@.len() == n, b1@.len() == n, b2@.len() == n,
            b == bound,
            b == diff_abs_sum(x1, x2, y1, y2, n as int),
            0 <= b <= 0x1_0000_0000 * 0x4_0000_0000_0000_0000,
            ({
                let e = diff_horner(x1, x2, y1, y2, k as int);
                ||| (h == e && -b <= e <= b)
                ||| (h == b + 1 && e > b)
                ||| (h == -(b + 1) && e < -b)
            }),
        decreases n - k,
    {
        proof {
            lemma_diff_abs_sum_bounds(x1, x2, y1, y2, k as int, n as int);
        }
        let d: i128 = a1[k] as i128 + a2[k] as i128 - b1[k] as i128 - b2[k] as i128;
        let next = 2 * h + d;
        if next > bound {
            h = bound + 1;
        } else if next < -bound {
            h = -(bound + 1);
        } else {
            h = next;
        }
        k = k + 1;
    }
    proof {
        lemma_diff_horner(x1, x2, y1, y2, n as int);
    }
    if h > 0 {
        1
    } else if h < 0 {
        -1i8
    } else {
        0
    }
}

/// The unassigned variables among `1..=n`, in increasing order.
pub open spec fn unassigned_upto(a: Seq<Option<bool>>, n: int) -> Seq<Var>
    decreases n,
{
    if n <= 0 {
        Seq::empty()
    } else {
        let rest = unassigned_upto(a, n - 1);
        if a[n - 1] is None {
            rest.push(Var(n as u32))
        } else {
            rest
        }
    }
}

/// The unassigned variables of `a`, in increasing order.
pub open spec fn unassigned_list(a: Seq<Option<bool>>) -> Seq<Var> {
    unassigned_upto(a, a.len() as int)
}

/// `list` holds variables in `1..=n`, in strictly increasing order.
pub open spec fn increasing_in_range(list: Seq<Var>, n: nat) -> bool {
    &&& forall|t: int| 0 <= t < list.len() ==> 1 <= (#[trigger] list[t]).0 <= n
    &&& forall|t: int, u: int| 0 <= t < u < list.len() ==> (#[trigger] list[t]).0 < (#[trigger] list[u]).0
}

pub proof fn lemma_unassigned_upto(a: Seq<Option<bool>>, n: int)
    requires
        0 <= n <= a.len() <= u32::MAX,
    ensures
        increasing_in_range(unassigned_upto(a, n), n as nat),
        forall|t: int| 0 <= t < unassigned_upto(a, n).len() ==> a[(#[trigger] unassigned_upto(a, n)[t]).slot()] is None,
        forall|v: Var| 1 <= v.0 <= n && a[v.slot()] is None ==> #[trigger] unassigned_upto(a, n).contains(v),
        unassigned_upto(a, n).len() <= n,
    decreases n,
{
    if n > 0 {
        lemma_unassigned_upto(a, n - 1);
        let rest = unassigned_upto(a, n - 1);
        assert forall|v: Var| 1 <= v.0 <= n && a[v.slot()] is None implies #[trigger] unassigned_upto(a, n).contains(v) by {
            if v.0 < n {
                assert(rest.contains(v));
                let t = choose|t: int| 0 <= t < rest.len() && rest[t] == v;
                assert(unassigned_upto(a, n)[t] == v);
            } else {
                let l = unassigned_upto(a, n);
                assert(l[l.len() - 1] == v);
            }
        }
    }
}

/// The unassigned variables of `assignment`, in increasing order.
pub fn unassigned_vars(cnf: &Cnf, assignment: &Assignment) -> (vars: Vec<Var>)
    requires
        assignment@.len() == cnf.num_vars,
    ensures
        vars@ == unassigned_list(assignment@),
{
    let mut vars: Vec<Var> = Vec::new();
    let mut i: u32 = 0;
    while i < cnf.num_vars
        invariant
            i <= cnf.num_vars,
            assignment@.len() == cnf.num_vars,
            vars@ == unassigned_upto(assignment@, i as int),
        decreases cnf.num_vars - i,
    {
        let var = Var::new(i + 1);
        if !assignment.is_assigned(var) {
            vars.push(var);
        }
        i = i + 1;
    }
    vars
}

/// `x` comes before `y` in the ranking: higher combined score, or equal
/// score and lower number.
pub open spec fn ranks_before(cnf: &Cnf, a: Seq<Option<bool>>, x: Var, y: Var) -> bool {
    jw_total(cnf, a, x) > jw_total(cnf, a, y) || (jw_total(cnf, a, x) == jw_total(cnf, a, y) && x.0 < y.0)
}

/// Position `i` of `list` holds the first variable of highest combined
/// score.
pub open spec fn is_first_best(cnf: &Cnf, a: Seq<Option<bool>>, list: Seq<Var>, i: int) -> bool {
    &&& 0 <= i < list.len()
    &&& forall|j: int| 0 <= j < list.len() ==> jw_total(cnf, a, #[trigger] list[j]) <= jw_total(cnf, a, list[i])
    &&& forall|j: int| 0 <= j < i ==> jw_total(cnf, a, #[trigger] list[j]) < jw_total(cnf, a, list[i])
}

/// `r` is the start, of length at most 3, of the ranking of the variables
/// of `list` other than `chosen`.
pub open spec fn runner_ups_fit(cnf: &Cnf, a: Seq<Option<bool>>, list: Seq<Var>, chosen: Var, r: Seq<Var>) -> bool {
    &&& r.len() <= 3
    &&& forall|t: int| 0 <= t < r.len() ==> list.contains(#[trigger] r[t]) && r[t] != chosen
    &&& forall|t: int, u: int| 0 <= t < u < r.len() ==> ranks_before(cnf, a, #[trigger] r[t], #[trigger] r[u])
    &&& forall|x: Var| #[trigger] list.contains(x) && x != chosen && !r.contains(x) ==> forall|t: int|
        0 <= t < r.len() ==> ranks_before(cnf, a, #[trigger] r[t], x)
    &&& r.len() < 3 ==> forall|x: Var| #[trigger] list.contains(x) && x != chosen ==> r.contains(x)
}

/// The positive literal of `v` scores at least as high as the negative one.
pub open spec fn prefers_true(cnf: &Cnf, a: Seq<Option<bool>>, v: Var) -> bool {
    jw_score(cnf, a, Lit { var: v, neg: false }) >= jw_score(cnf, a, Lit { var: v, neg: true })
}

/// A runner-up of a decision: a variable and the value it would get.
#[derive(Clone, Copy, Debug)]
pub struct RunnerUp {
    pub var: Var,
    pub value: bool,
}

/// A branching decision: the variable, its first value, and up to three
/// runner-ups.
#[derive(Clone, Debug)]
pub struct Decision {
    pub var: Var,
    pub value: bool,
    pub runner_ups: Vec<RunnerUp>,
}

/// The variables of the runner-ups of `d`.
pub open spec fn runner_vars(d: Decision) -> Seq<Var> {
    d.runner_ups@.map_values(|r: RunnerUp| r.var)
}

/// `d` is the Jeroslow-Wang decision on its variable: the variable is
/// unassigned, the value is true exactly when the positive literal scores at
/// least as high, and the runner-ups are the start of the ranking of the
/// other unassigned variables, each with its value chosen the same way.
pub open spec fn jw_decision_on(cnf: &Cnf, a: Seq<Option<bool>>, d: Decision) -> bool {
    &&& unassigned_list(a).contains(d.var)
    &&& d.value == prefers_true(cnf, a, d.var)
    &&& runner_ups_fit(cnf, a, unassigned_list(a), d.var, runner_vars(d))
    &&& forall|t: int| 0 <= t < d.runner_ups@.len() ==> (#[trigger] d.runner_ups@[t]).value == prefers_true(
        cnf,
        a,
        d.runner_ups@[t].var,
    )
}

/// A uniform draw `x / 2^53` (from the top 53 bits of `draw`) falls below
/// the probability `threshold / 2^53`.
pub open spec fn picks_random(draw: u64, threshold: u64) -> bool {
    draw / 2048 < threshold
}

/// Sign of `jw_total(x) - jw_total(y)`.
pub fn compare_totals(scores: &JwScores, x: Var, y: Var, Ghost(cnf): Ghost<&Cnf>, Ghost(a): Ghost<Seq<Option<bool>>>) -> (r: i8)
    requires
        scores.holds_scores_of(cnf, a),
        1 <= x.0 <= cnf.num_vars,
        1 <= y.0 <= cnf.num_vars,
    ensures
        r == sign_of(jw_total(cnf, a, x) - jw_total(cnf, a, y)),
{
    let n = scores.scale + 1;
    let r = compare_tables(&scores.pos[x.index()], &scores.neg[x.index()], &scores.pos[y.index()], &scores.neg[y.index()], n);
    proof {
        assert(scores.score(Lit { var: x, neg: false }) == jw_score(cnf, a, Lit { var: x, neg: false }));
        assert(scores.score(Lit { var: x, neg: true }) == jw_score(cnf, a, Lit { var: x, neg: true }));
        assert(scores.score(Lit { var: y, neg: false }) == jw_score(cnf, a, Lit { var: y, neg: false }));
        assert(scores.score(Lit { var: y, neg: true }) == jw_score(cnf, a, Lit { var: y, neg: true }));
    }
    r
}

/// Whether the positive literal of `v` scores at least as high as the
/// negative one.
pub fn value_for(scores: &JwScores, v: Var, Ghost(cnf): Ghost<&Cnf>, Ghost(a): Ghost<Seq<Option<bool>>>) -> (b: bool)
    requires
        scores.holds_scores_of(cnf, a),
        1 <= v.0 <= cnf.num_vars,
    ensures
        b == prefers_true(cnf, a, v),
{
    let n = scores.scale + 1;
    let zero = zero_row(n);
    proof {
        lemma_zero_table(zero@, n as int);
        assert(scores.score(Lit { var: v, neg: false }) == jw_score(cnf, a, Lit { var: v, neg: false }));
        assert(scores.score(Lit { var: v, neg: true }) == jw_score(cnf, a, Lit { var: v, neg: true }));
    }
    compare_tables(&scores.pos[v.index()], &zero, &scores.neg[v.index()], &zero, n) >= 0
}

/// The first variable of `unassigned` with the highest combined score.
pub fn best_var(unassigned: &Vec<Var>, scores: &JwScores, Ghost(cnf): Ghost<&Cnf>, Ghost(a): Ghost<Seq<Option<bool>>>) -> (v: Var)
    requires
        unassigned@.len() > 0,
        scores.holds_scores_of(cnf, a),
        increasing_in_range(unassigned@, cnf.num_vars as nat),
    ensures
        exists|i: int| is_first_best(cnf, a, unassigned@, i) && unassigned@[i] == v,
{
    let mut best: usize = 0;
    let mut i: usize = 1;
    while i < unassigned.len()
        invariant
            1 <= i <= unassigned@.len(),
            best < i,
            scores.holds_scores_of(cnf, a),
            increasing_in_range(unassigned@, cnf.num_vars as nat),
            forall|j: int| 0 <= j < i ==> jw_total(cnf, a, #[trigger] unassigned@[j]) <= jw_total(cnf, a, unassigned@[best as int]),
            forall|j: int| 0 <= j < best ==> jw_total(cnf, a, #[trigger] unassigned@[j]) < jw_total(cnf, a, unassigned@[best as int]),
        decreases unassigned@.len() - i,
    {
        let c = compare_totals(scores, unassigned[i], unassigned[best], Ghost(cnf), Ghost(a));
        if c > 0 {
            best = i;
        }
        i = i + 1;
    }
    proof {
        assert(is_first_best(cnf, a, unassigned@, best as int));
    }
    unassigned[best]
}

/// Whether `v` is among the runner-ups picked so far.
fn already_picked(picked: &Vec<RunnerUp>, v: Var) -> (r: bool)
    ensures
        r == picked@.map_values(|p: RunnerUp| p.var).contains(v),
{
    let ghost pv = picked@.map_values(|p: RunnerUp| p.var);
    let mut t: usize = 0;
    while t < picked.len()
        invariant
            t <= picked@.len(),
            pv == picked@.map_values(|p: RunnerUp| p.var),
            forall|u: int| 0 <= u < t ==> pv[u] != v,
        decreases picked@.len() - t,
    {
        if picked[t].var == v {
            assert(pv[t as int] == v);
            return true;
        }
        t = t + 1;
    }
    false
}

/// Up to three runner-ups of `chosen`: the best-ranked other variables of
/// `unassigned`, in ranking order, each with its preferred value.
pub fn runner_ups(unassigned: &Vec<Var>, scores: &JwScores, chosen: Var, Ghost(cnf): Ghost<&Cnf>, Ghost(a): Ghost<Seq<Option<bool>>>) -> (r: Vec<RunnerUp>)
    requires
        scores.holds_scores_of(cnf, a),
        increasing_in_range(unassigned@, cnf.num_vars as nat),
    ensures
        runner_ups_fit(cnf, a, unassigned@, chosen, r@.map_values(|p: RunnerUp| p.var)),
        forall|t: int| 0 <= t < r@.len() ==> (#[trigger] r@[t]).value == prefers_true(cnf, a, r@[t].var),
{
    let ghost list = unassigned@;
    let mut picked: Vec<RunnerUp> = Vec::new();
    let mut done = false;
    while picked.len() < 3 && !done
        invariant
            list == unassigned@,
            scores.holds_scores_of(cnf, a),
            increasing_in_range(list, cnf.num_vars as nat),
            picked@.len() <= 3,
            ({
                let pv = picked@.map_values(|p: RunnerUp| p.var);
                &&& forall|t: int| 0 <= t < pv.len() ==> list.contains(#[trigger] pv[t]) && pv[t] != chosen
                &&& forall|t: int, u: int| 0 <= t < u < pv.len() ==> ranks_before(cnf, a, #[trigger] pv[t], #[trigger] pv[u])
                &&& forall|x: Var| #[trigger] list.contains(x) && x != chosen && !pv.contains(x) ==> forall|t: int|
                    0 <= t < pv.len() ==> ranks_before(cnf, a, #[trigger] pv[t], x)
                &&& done ==> forall|x: Var| #[trigger] list.contains(x) && x != chosen ==> pv.contains(x)
            }),
            forall|t: int| 0 <= t < picked@.len() ==> (#[trigger] picked@[t]).value == prefers_true(cnf, a, picked@[t].var),
        decreases 3 - picked@.len() + if done { 0int } else { 1int },
    {
        let ghost pv = picked@.map_values(|p: RunnerUp| p.var);
        let mut best: Option<usize> = None;
        let mut i: usize = 0;
        while i < unassigned.len()
            invariant
                i <= list.len(),
                list == unassigned@,
                pv == picked@.map_values(|p: RunnerUp| p.var),
                scores.holds_scores_of(cnf, a),
                increasing_in_range(list, cnf.num_vars as nat),
                best matches Some(b) ==> b < i && list[b as int] != chosen && !pv.contains(list[b as int]),
                best matches Some(b) ==> forall|j: int| 0 <= j < i && list[j] != chosen && !pv.contains(list[j])
                    ==> jw_total(cnf, a, #[trigger] list[j]) <= jw_total(cnf, a, list[b as int]),
                best matches Some(b) ==> forall|j: int| 0 <= j < b && list[j] != chosen && !pv.contains(list[j])
                    ==> jw_total(cnf, a, #[trigger] list[j]) < jw_total(cnf, a, list[b as int]),
                best is None ==> forall|j: int| 0 <= j < i ==> (#[trigger] list[j]) == chosen || pv.contains(list[j]),
            decreases list.len() - i,
        {
            let x = unassigned[i];
            if x != chosen && !already_picked(&picked, x) {
                match best {
                    None => {
                        best = Some(i);
                    },
                    Some(b) => {
                        let c = compare_totals(scores, x, unassigned[b], Ghost(cnf), Ghost(a));
                        if c > 0 {
                            best = Some(i);
                        }
                    },
                }
            }
            i = i + 1;
        }
        match best {
            None => {
                proof {
                    assert forall|x: Var| #[trigger] list.contains(x) && x != chosen implies pv.contains(x) by {
                        let j = choose|j: int| 0 <= j < list.len() && list[j] == x;
                        assert(list[j] == chosen || pv.contains(list[j]));
                    }
                }
                done = true;
            },
            Some(b) => {
                let v = unassigned[b];
                let value = value_for(scores, v, Ghost(cnf), Ghost(a));
                picked.push(RunnerUp { var: v, value });
                proof {
                    let npv = picked@.map_values(|p: RunnerUp| p.var);
                    assert(npv =~= pv.push(v));
                    assert forall|x: Var| #[trigger] list.contains(x) && x != chosen && x != v && !pv.contains(x)
                        implies ranks_before(cnf, a, v, x) by {
                        let j = choose|j: int| 0 <= j < list.len() && list[j] == x;
                        if j < b {
                            assert(list[j].0 < list[b as int].0);
                        } else if j > b {
                            assert(list[b as int].0 < list[j].0);
                        }
                    }
                    assert forall|x: Var| #[trigger] list.contains(x) && x != chosen && !npv.contains(x) implies forall|t: int|
                        0 <= t < npv.len() ==> ranks_before(cnf, a, #[trigger] npv[t], x) by {
                        assert(!pv.contains(x)) by {
                            if pv.contains(x) {
                                let t = choose|t: int| 0 <= t < pv.len() && pv[t] == x;
                                assert(npv[t] == x);
                            }
                        }
                        assert(x != v) by {
                            assert(npv[npv.len() - 1] == v);
                        }
                    }
                    assert forall|t: int| 0 <= t < npv.len() implies list.contains(#[trigger] npv[t]) && npv[t] != chosen by {
                        if t < pv.len() {
                            assert(npv[t] == pv[t]);
                        }
                    }
                    assert forall|t: int, u: int| 0 <= t < u < npv.len() implies ranks_before(cnf, a, #[trigger] npv[t], #[trigger] npv[u]) by {
                        if u < pv.len() {
                            assert(npv[t] == pv[t] && npv[u] == pv[u]);
                        } else {
                            assert(npv[t] == pv[t]);
                            assert(list.contains(v));
                        }
                    }
                }
            },
        }
    }
    picked
}

/// The Jeroslow-Wang decision given the random draws: the variable at
/// `random_index` (taken modulo the number of unassigned variables) when
/// the draw `draw` picks at random under `threshold`, otherwise the first
/// unassigned variable of highest combined score; its value and runner-ups
/// as `jw_decision_on` says.
pub fn jw_decision(
    cnf: &Cnf,
    assignment: &Assignment,
    unassigned: &Vec<Var>,
    scores: &JwScores,
    draw: u64,
    threshold: u64,
    random_index: usize,
) -> (d: Decision)
    requires
        cnf.wf(),
        assignment@.len() == cnf.num_vars,
        unassigned@ == unassigned_list(assignment@),
        unassigned@.len() > 0,
        scores.holds_scores_of(cnf, assignment@),
    ensures
        jw_decision_on(cnf, assignment@, d),
        picks_random(draw, threshold) ==> d.var == unassigned@[(random_index as nat % unassigned@.len()) as int],
        !picks_random(draw, threshold) ==> exists|i: int| is_first_best(cnf, assignment@, unassigned@, i) && d.var == unassigned@[i],
{
    let ghost a = assignment@;
    proof {
        lemma_unassigned_upto(a, a.len() as int);
    }
    let pick_random = (draw >> 11) < threshold;
    proof {
        assert(draw >> 11 == draw / 2048) by (bit_vector);
    }
    let var = if pick_random {
        unassigned[random_index % unassigned.len()]
    } else {
        best_var(unassigned, scores, Ghost(cnf), Ghost(a))
    };
    proof {
        assert(unassigned@.contains(var)) by {
            if pick_random {
                assert(unassigned@[(random_index as nat % unassigned@.len()) as int] == var);
            }
        }
    }
    let value = value_for(scores, var, Ghost(cnf), Ghost(a));
    let runner_ups = runner_ups(unassigned, scores, var, Ghost(cnf), Ghost(a));
    let d = Decision { var, value, runner_ups };
    proof {
        assert(runner_vars(d) == d.runner_ups@.map_values(|p: RunnerUp| p.var));
    }
    d
}

/// Chooses a decision with the Jeroslow-Wang heuristic: `None` when no
/// variable is unassigned; otherwise one uniform draw from `rng` decides
/// (with probability `threshold / 2^53`) whether to pick an unassigned
/// variable uniformly at random, which takes a second draw, or the first of
/// highest combined score.
pub fn choose_jw_decision(cnf: &Cnf, assignment: &Assignment, rng: &mut StdRng, threshold: u64) -> (d: Option<Decision>)
    requires
        cnf.wf(),
        cnf.fits_counters(),
        assignment@.len() == cnf.num_vars,
    ensures
        d is None <==> unassigned_list(assignment@).len() == 0,
        d matches Some(dec) ==> jw_decision_on(cnf, assignment@, dec),
        threshold == 0 ==> (d matches Some(dec) ==> exists|i: int|
            is_first_best(cnf, assignment@, unassigned_list(assignment@), i) && dec.var == unassigned_list(
                assignment@,
            )[i]),
{
    let unassigned = unassigned_vars(cnf, assignment);
    if unassigned.len() == 0 {
        return None;
    }
    let scores = jw_scores(cnf, assignment);
    let draw = draw_u64(rng);
    let random_index = if (draw >> 11) < threshold {
        draw_below(rng, unassigned.len())
    } else {
        0
    };
    Some(jw_decision(cnf, assignment, &unassigned, &scores, draw, threshold, random_index))
}

} // verus!
