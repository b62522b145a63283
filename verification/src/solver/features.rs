//! The features of a candidate decision variable that the search logs.

use vstd::prelude::*;

use crate::cnf::{Cnf, Lit, Var};
use crate::solver::assignment::{lit_value, Assignment};
use crate::solver::propagation::{free_lits, satisfied_under};
use crate::solver::stats::{bump32, heat_after_clause, lemma_heat_after_clause_entry, mentions_of, Stats};

verus! {

/// Counts describing a variable at a point of the search.
#[derive(Clone, Copy, Debug)]
pub struct FeatureVector {
    pub pos_len_2: u32,
    pub neg_len_2: u32,
    pub pos_len_3: u32,
    pub neg_len_3: u32,
    pub pos_len_4p: u32,
    pub neg_len_4p: u32,
    pub conflict_heat: u32,
    pub recent_flips: u32,
    pub trail_depth: u32,
    pub active_clause_ratio: u32,
}

/// Number of `i` in `0..n` for which `p(i)` holds.
pub open spec fn count_where(n: int, p: spec_fn(int) -> bool) -> nat
    decreases n,
{
    if n <= 0 {
        0
    } else {
        count_where(n - 1, p) + if p(n - 1) {
            1nat
        } else {
            0nat
        }
    }
}

/// `c` contains the literal of `v` with sign `neg`.
pub open spec fn mentions(c: Seq<Lit>, v: Var, neg: bool) -> bool {
    exists|j: int| 0 <= j < c.len() && (#[trigger] c[j]).var == v && c[j].neg == neg
}

/// Clause `i` of `cnf` is not yet satisfied under `a`.
pub open spec fn active(cnf: &Cnf, a: Seq<Option<bool>>, i: int) -> bool {
    !satisfied_under(a, cnf.clause(i))
}

/// Number of unassigned literal occurrences of clause `i`.
pub open spec fn width(cnf: &Cnf, a: Seq<Option<bool>>, i: int) -> nat {
    free_lits(a, cnf.clause(i)).len()
}

/// Width `width` falls in band `band`: exactly `band` for bands 2 and 3,
/// at least 4 for band 4.
pub open spec fn in_band(width: nat, band: nat) -> bool {
    if band >= 4 {
        width >= 4
    } else {
        width == band
    }
}

/// Clause `i` is active, its width falls in `band`, and it mentions the
/// literal of `v` with sign `neg`.
pub open spec fn band_pred(cnf: &Cnf, a: Seq<Option<bool>>, v: Var, neg: bool, band: nat) -> spec_fn(int) -> bool {
    |i: int| active(cnf, a, i) && in_band(width(cnf, a, i), band) && mentions(cnf.clause(i), v, neg)
}

/// Number of active clauses whose width falls in `band` and that mention
/// the literal of `v` with sign `neg`.
pub open spec fn count_mentions(cnf: &Cnf, a: Seq<Option<bool>>, v: Var, neg: bool, band: nat) -> nat {
    count_where(cnf.clauses@.len() as int, band_pred(cnf, a, v, neg, band))
}

/// Clause `i` is active.
pub open spec fn active_pred(cnf: &Cnf, a: Seq<Option<bool>>) -> spec_fn(int) -> bool {
    |i: int| active(cnf, a, i)
}

/// Number of active clauses.
pub open spec fn active_count(cnf: &Cnf, a: Seq<Option<bool>>) -> nat {
    count_where(cnf.clauses@.len() as int, active_pred(cnf, a))
}

/// The feature vector of `var`: active clauses with exactly 2, exactly 3
/// and at least 4 unassigned literal occurrences that mention each literal
/// of `var`, its conflict heat and flip count, the trail depth, and the
/// percentage (rounded down) of clauses still active, the clause total taken
/// modulo 2^32 and the ratio 0 when that total is 0.
pub open spec fn features_of(cnf: &Cnf, a: Seq<Option<bool>>, stats: &Stats, var: Var, trail_depth: u32) -> FeatureVector {
    let total = cnf.clauses@.len() as u32;
    FeatureVector {
        pos_len_2: count_mentions(cnf, a, var, false, 2) as u32,
        neg_len_2: count_mentions(cnf, a, var, true, 2) as u32,
        pos_len_3: count_mentions(cnf, a, var, false, 3) as u32,
        neg_len_3: count_mentions(cnf, a, var, true, 3) as u32,
        pos_len_4p: count_mentions(cnf, a, var, false, 4) as u32,
        neg_len_4p: count_mentions(cnf, a, var, true, 4) as u32,
        conflict_heat: stats.heat()[var.slot()],
        recent_flips: stats.flips()[var.slot()],
        trail_depth,
        active_clause_ratio: if total == 0 {
            0
        } else {
            ((active_count(cnf, a) * 100) / (total as nat)) as u32
        },
    }
}

/// The statistics of a variable's feature vector are its own: its conflict
/// heat is the variable's entry in the heat table, its flip count the
/// variable's entry in the flip table, and its trail depth the depth given.
pub proof fn lemma_features_read_stats(cnf: &Cnf, a: Seq<Option<bool>>, stats: &Stats, var: Var, trail_depth: u32)
    ensures
        features_of(cnf, a, stats, var, trail_depth).conflict_heat == stats.heat()[var.slot()],
        features_of(cnf, a, stats, var, trail_depth).recent_flips == stats.flips()[var.slot()],
        features_of(cnf, a, stats, var, trail_depth).trail_depth == trail_depth,
{
}

/// Recording a conflict on `c` (when the heats are not halved) raises the
/// conflict-heat feature of a variable that `c` mentions once by one,
/// leaves that of a variable `c` does not mention, and leaves the flip
/// feature unchanged.
pub proof fn lemma_conflict_raises_heat_feature(
    cnf: &Cnf,
    a: Seq<Option<bool>>,
    before: &Stats,
    after: &Stats,
    c: Seq<Lit>,
    var: Var,
    trail_depth: u32,
)
    requires
        1 <= var.0 <= before.heat().len(),
        forall|j: int| 0 <= j < c.len() ==> 1 <= #[trigger] c[j].var.0 <= before.heat().len(),
        after.heat() == heat_after_clause(before.heat(), c),
        after.flips() == before.flips(),
    ensures
        mentions_of(c, var) == 1 ==> features_of(cnf, a, after, var, trail_depth).conflict_heat == bump32(
            features_of(cnf, a, before, var, trail_depth).conflict_heat,
        ),
        mentions_of(c, var) == 0 ==> features_of(cnf, a, after, var, trail_depth).conflict_heat == features_of(
            cnf,
            a,
            before,
            var,
            trail_depth,
        ).conflict_heat,
        features_of(cnf, a, after, var, trail_depth).recent_flips == features_of(cnf, a, before, var, trail_depth).recent_flips,
{
    lemma_heat_after_clause_entry(before.heat(), c, var);
    lemma_features_read_stats(cnf, a, before, var, trail_depth);
    lemma_features_read_stats(cnf, a, after, var, trail_depth);
}

/// Flipping `var` raises its flip feature by one and leaves its
/// conflict-heat feature unchanged.
pub proof fn lemma_flip_raises_flip_feature(
    cnf: &Cnf,
    a: Seq<Option<bool>>,
    before: &Stats,
    after: &Stats,
    var: Var,
    trail_depth: u32,
)
    requires
        1 <= var.0 <= before.flips().len(),
        after.flips() == before.flips().update(var.slot(), bump32(before.flips()[var.slot()])),
        after.heat() == before.heat(),
    ensures
        features_of(cnf, a, after, var, trail_depth).recent_flips == bump32(
            features_of(cnf, a, before, var, trail_depth).recent_flips,
        ),
        features_of(cnf, a, after, var, trail_depth).conflict_heat == features_of(cnf, a, before, var, trail_depth).conflict_heat,
{
    lemma_features_read_stats(cnf, a, before, var, trail_depth);
    lemma_features_read_stats(cnf, a, after, var, trail_depth);
}

/// Counting where nothing holds gives 0; counting where everything holds
/// gives the whole range.
proof fn lemma_count_where_extremes(n: int, p: spec_fn(int) -> bool)
    requires
        n >= 0,
    ensures
        (forall|i: int| 0 <= i < n ==> !#[trigger] p(i)) ==> count_where(n, p) == 0,
        (forall|i: int| 0 <= i < n ==> #[trigger] p(i)) ==> count_where(n, p) == n,
    decreases n,
{
    if n > 0 {
        lemma_count_where_extremes(n - 1, p);
    }
}

/// Counting two predicates that never hold together is counting their
/// disjunction.
proof fn lemma_count_where_disjoint(n: int, p: spec_fn(int) -> bool, q: spec_fn(int) -> bool, r: spec_fn(int) -> bool)
    requires
        forall|i: int| 0 <= i < n ==> #[trigger] r(i) == (p(i) || q(i)) && !(p(i) && q(i)),
    ensures
        count_where(n, p) + count_where(n, q) == count_where(n, r),
    decreases n,
{
    if n > 0 {
        lemma_count_where_disjoint(n - 1, p, q, r);
        assert(r(n - 1) == (p(n - 1) || q(n - 1)));
    }
}

/// Active clauses with at least two unassigned literal occurrences that
/// mention the literal of `v` with sign `neg`.
pub open spec fn wide_mentions(cnf: &Cnf, a: Seq<Option<bool>>, v: Var, neg: bool) -> nat {
    count_where(
        cnf.clauses@.len() as int,
        |i: int| active(cnf, a, i) && width(cnf, a, i) >= 2 && mentions(cnf.clause(i), v, neg),
    )
}

/// The three length features of a literal split the active clauses of
/// width at least two that mention it: each such clause counts in exactly
/// one of the bands 2, 3 and 4-or-more.
pub proof fn lemma_length_bands_partition(cnf: &Cnf, a: Seq<Option<bool>>, v: Var, neg: bool)
    ensures
        count_mentions(cnf, a, v, neg, 2) + count_mentions(cnf, a, v, neg, 3) + count_mentions(cnf, a, v, neg, 4)
            == wide_mentions(cnf, a, v, neg),
{
    let n = cnf.clauses@.len() as int;
    let p2 = band_pred(cnf, a, v, neg, 2);
    let p3 = band_pred(cnf, a, v, neg, 3);
    let p4 = band_pred(cnf, a, v, neg, 4);
    let p23 = |i: int| active(cnf, a, i) && (width(cnf, a, i) == 2 || width(cnf, a, i) == 3) && mentions(cnf.clause(i), v, neg);
    let all = |i: int| active(cnf, a, i) && width(cnf, a, i) >= 2 && mentions(cnf.clause(i), v, neg);
    lemma_count_where_disjoint(n, p2, p3, p23);
    lemma_count_where_disjoint(n, p23, p4, all);
}

/// A variable whose literal of sign `neg` appears in no clause, or only in
/// clauses the assignment satisfies, counts 0 in the three length features
/// of that sign.
pub proof fn lemma_length_features_need_active_mentions(
    cnf: &Cnf,
    a: Seq<Option<bool>>,
    stats: &Stats,
    var: Var,
    trail_depth: u32,
)
    ensures
        (forall|i: int|
            0 <= i < cnf.clauses@.len() && #[trigger] mentions(cnf.clause(i), var, false) ==> satisfied_under(
                a,
                cnf.clause(i),
            )) ==> {
            let f = features_of(cnf, a, stats, var, trail_depth);
            f.pos_len_2 == 0 && f.pos_len_3 == 0 && f.pos_len_4p == 0
        },
        (forall|i: int|
            0 <= i < cnf.clauses@.len() && #[trigger] mentions(cnf.clause(i), var, true) ==> satisfied_under(
                a,
                cnf.clause(i),
            )) ==> {
            let f = features_of(cnf, a, stats, var, trail_depth);
            f.neg_len_2 == 0 && f.neg_len_3 == 0 && f.neg_len_4p == 0
        },
{
    let n = cnf.clauses@.len() as int;
    lemma_count_where_extremes(n, band_pred(cnf, a, var, false, 2));
    lemma_count_where_extremes(n, band_pred(cnf, a, var, false, 3));
    lemma_count_where_extremes(n, band_pred(cnf, a, var, false, 4));
    lemma_count_where_extremes(n, band_pred(cnf, a, var, true, 2));
    lemma_count_where_extremes(n, band_pred(cnf, a, var, true, 3));
    lemma_count_where_extremes(n, band_pred(cnf, a, var, true, 4));
}

/// The share of active clauses is 100 percent when the assignment
/// satisfies no clause and 0 when it satisfies them all (for a formula
/// with clauses and fewer than `2^32` of them).
pub proof fn lemma_active_ratio_extremes(cnf: &Cnf, a: Seq<Option<bool>>, stats: &Stats, var: Var, trail_depth: u32)
    requires
        0 < cnf.clauses@.len() <= u32::MAX,
    ensures
        (forall|i: int| 0 <= i < cnf.clauses@.len() ==> !satisfied_under(a, #[trigger] cnf.clause(i)))
            ==> features_of(cnf, a, stats, var, trail_depth).active_clause_ratio == 100,
        (forall|i: int| 0 <= i < cnf.clauses@.len() ==> satisfied_under(a, #[trigger] cnf.clause(i)))
            ==> features_of(cnf, a, stats, var, trail_depth).active_clause_ratio == 0,
{
    let n = cnf.clauses@.len() as int;
    lemma_count_where_extremes(n, active_pred(cnf, a));
    let t = n as nat;
    assert((t * 100) / t == 100) by (nonlinear_arith)
        requires
            t > 0,
    ;
    assert((0 * 100) / t == 0) by (nonlinear_arith)
        requires
            t > 0,
    ;
    assert(((n as u32) as nat) == t);
}

pub proof fn lemma_count_where_le(n: int, p: spec_fn(int) -> bool, q: spec_fn(int) -> bool)
    requires
        forall|i: int| 0 <= i < n && #[trigger] p(i) ==> q(i),
    ensures
        count_where(n, p) <= count_where(n, q),
        count_where(n, q) <= if n < 0 { 0 } else { n },
    decreases n,
{
    if n > 0 {
        lemma_count_where_le(n - 1, p, q);
    }
}

/// Scans clause `c` up to its first true literal; reports whether it is
/// satisfied, how many literal occurrences are unassigned, and whether it
/// mentions each literal of `var`.
fn scan_clause(c: &[Lit], assignment: &Assignment, var: Var) -> (r: (bool, u32, bool, bool))
    requires
        c@.len() <= u32::MAX,
        forall|j: int| 0 <= j < c@.len() ==> 1 <= #[trigger] c@[j].var.0 <= assignment@.len(),
    ensures
        r.0 == satisfied_under(assignment@, c@),
        !r.0 ==> r.1 == free_lits(assignment@, c@).len(),
        !r.0 ==> r.2 == mentions(c@, var, false),
        !r.0 ==> r.3 == mentions(c@, var, true),
{
    let ghost a = assignment@;
    let mut satisfied = false;
    let mut unassigned: u32 = 0;
    let mut pos_present = false;
    let mut neg_present = false;
    let mut j: usize = 0;
    while j < c.len() && !satisfied
        invariant
            j <= c@.len(),
            a == assignment@,
            forall|k: int| 0 <= k < c@.len() ==> 1 <= #[trigger] c@[k].var.0 <= a.len(),
            satisfied ==> satisfied_under(a, c@),
            !satisfied ==> !satisfied_under(a, c@.take(j as int)),
            !satisfied ==> unassigned == free_lits(a, c@.take(j as int)).len(),
            !satisfied ==> pos_present == mentions(c@.take(j as int), var, false),
            !satisfied ==> neg_present == mentions(c@.take(j as int), var, true),
            unassigned <= j,
            c@.len() <= u32::MAX,
        decreases c@.len() - j,
    {
        let lit = c[j];
        let ghost t = c@.take(j + 1);
        proof {
            assert(t.drop_last() =~= c@.take(j as int));
            assert(t.last() == lit);
            assert(c@[j as int] == lit);
        }
        match assignment.eval_lit(lit) {
            Some(true) => {
                satisfied = true;
            },
            Some(false) => {},
            None => {
                unassigned = unassigned + 1;
            },
        }
        if !satisfied {
            if lit.var == var {
                if lit.neg {
                    neg_present = true;
                } else {
                    pos_present = true;
                }
            }
            proof {
                let p = c@.take(j as int);
                assert forall|k: int| 0 <= k < t.len() implies lit_value(a, #[trigger] t[k]) != Some(true) by {
                    if k < j {
                        assert(t[k] == p[k]);
                    }
                }
                assert(pos_present == mentions(t, var, false)) by {
                    if mentions(p, var, false) {
                        let k = choose|k: int| 0 <= k < p.len() && (#[trigger] p[k]).var == var && p[k].neg == false;
                        assert(t[k] == p[k]);
                    }
                    if mentions(t, var, false) {
                        let k = choose|k: int| 0 <= k < t.len() && (#[trigger] t[k]).var == var && t[k].neg == false;
                        if k < j {
                            assert(t[k] == p[k]);
                        }
                    }
                }
                assert(neg_present == mentions(t, var, true)) by {
                    if mentions(p, var, true) {
                        let k = choose|k: int| 0 <= k < p.len() && (#[trigger] p[k]).var == var && p[k].neg == true;
                        assert(t[k] == p[k]);
                    }
                    if mentions(t, var, true) {
                        let k = choose|k: int| 0 <= k < t.len() && (#[trigger] t[k]).var == var && t[k].neg == true;
                        if k < j {
                            assert(t[k] == p[k]);
                        }
                    }
                }
            }
        }
        j = j + 1;
    }
    proof {
        if !satisfied {
            assert(c@.take(c@.len() as int) =~= c@);
        }
    }
    (satisfied, unassigned, pos_present, neg_present)
}

/// The feature vector of `var` under `assignment` (see `features_of`).
pub fn compute_features(cnf: &Cnf, assignment: &Assignment, stats: &Stats, var: Var, trail_depth: u32) -> (f: FeatureVector)
    requires
        cnf.wf(),
        assignment@.len() == cnf.num_vars,
        stats.covers(cnf.num_vars as nat),
        1 <= var.0 <= cnf.num_vars,
        cnf.clauses_fit_u32(),
        active_count(cnf, assignment@) * 100 <= u32::MAX,
    ensures
        f == features_of(cnf, assignment@, stats, var, trail_depth),
        f.conflict_heat == stats.heat()[var.slot()],
        f.recent_flips == stats.flips()[var.slot()],
        f.trail_depth == trail_depth,
{
    proof {
        lemma_features_read_stats(cnf, assignment@, stats, var, trail_depth);
    }
    let ghost a = assignment@;
    let mut pos_len_2: u32 = 0;
    let mut neg_len_2: u32 = 0;
    let mut pos_len_3: u32 = 0;
    let mut neg_len_3: u32 = 0;
    let mut pos_len_4p: u32 = 0;
    let mut neg_len_4p: u32 = 0;
    let mut active_clauses: u32 = 0;
    let ghost act = active_pred(cnf, a);
    let ghost p2 = band_pred(cnf, a, var, false, 2);
    let ghost n2 = band_pred(cnf, a, var, true, 2);
    let ghost p3 = band_pred(cnf, a, var, false, 3);
    let ghost n3 = band_pred(cnf, a, var, true, 3);
    let ghost p4 = band_pred(cnf, a, var, false, 4);
    let ghost n4 = band_pred(cnf, a, var, true, 4);
    proof {
        let len = cnf.clauses@.len() as int;
        lemma_count_where_le(len, p2, act);
        lemma_count_where_le(len, n2, act);
        lemma_count_where_le(len, p3, act);
        lemma_count_where_le(len, n3, act);
        lemma_count_where_le(len, p4, act);
        lemma_count_where_le(len, n4, act);
    }
    let mut i: usize = 0;
    while i < cnf.clauses.len()
        invariant
            i <= cnf.clauses@.len(),
            cnf.wf(),
            a == assignment@,
            a.len() == cnf.num_vars,
            active_count(cnf, a) * 100 <= u32::MAX,
            cnf.clauses_fit_u32(),
            act == active_pred(cnf, a),
            p2 == band_pred(cnf, a, var, false, 2),
            n2 == band_pred(cnf, a, var, true, 2),
            p3 == band_pred(cnf, a, var, false, 3),
            n3 == band_pred(cnf, a, var, true, 3),
            p4 == band_pred(cnf, a, var, false, 4),
            n4 == band_pred(cnf, a, var, true, 4),
            active_clauses == count_where(i as int, act),
            pos_len_2 == count_where(i as int, p2),
            neg_len_2 == count_where(i as int, n2),
            pos_len_3 == count_where(i as int, p3),
            neg_len_3 == count_where(i as int, n3),
            pos_len_4p == count_where(i as int, p4),
            neg_len_4p == count_where(i as int, n4),
            count_where(cnf.clauses@.len() as int, p2) <= count_where(cnf.clauses@.len() as int, act),
            count_where(cnf.clauses@.len() as int, n2) <= count_where(cnf.clauses@.len() as int, act),
            count_where(cnf.clauses@.len() as int, p3) <= count_where(cnf.clauses@.len() as int, act),
            count_where(cnf.clauses@.len() as int, n3) <= count_where(cnf.clauses@.len() as int, act),
            count_where(cnf.clauses@.len() as int, p4) <= count_where(cnf.clauses@.len() as int, act),
            count_where(cnf.clauses@.len() as int, n4) <= count_where(cnf.clauses@.len() as int, act),
        decreases cnf.clauses@.len() - i,
    {
        proof {
            assert(crate::cnf::clause_in_range(cnf.clause(i as int), cnf.num_vars));
            lemma_count_where_prefix(i as int + 1, cnf.clauses@.len() as int, act);
            lemma_count_where_prefix(i as int + 1, cnf.clauses@.len() as int, p2);
            lemma_count_where_prefix(i as int + 1, cnf.clauses@.len() as int, n2);
            lemma_count_where_prefix(i as int + 1, cnf.clauses@.len() as int, p3);
            lemma_count_where_prefix(i as int + 1, cnf.clauses@.len() as int, n3);
            lemma_count_where_prefix(i as int + 1, cnf.clauses@.len() as int, p4);
            lemma_count_where_prefix(i as int + 1, cnf.clauses@.len() as int, n4);
        }
        let (satisfied, unassigned, pos_present, neg_present) = scan_clause(cnf.clauses[i].as_slice(), assignment, var);
        if !satisfied {
            active_clauses = active_clauses + 1;
            if unassigned != 0 {
                if unassigned == 2 {
                    if pos_present {
                        pos_len_2 = pos_len_2 + 1;
                    }
                    if neg_present {
                        neg_len_2 = neg_len_2 + 1;
                    }
                } else if unassigned == 3 {
                    if pos_present {
                        pos_len_3 = pos_len_3 + 1;
                    }
                    if neg_present {
                        neg_len_3 = neg_len_3 + 1;
                    }
                } else if unassigned >= 4 {
                    if pos_present {
                        pos_len_4p = pos_len_4p + 1;
                    }
                    if neg_present {
                        neg_len_4p = neg_len_4p + 1;
                    }
                }
            }
        }
        i = i + 1;
    }
    let total_clauses = #[verifier::truncate] (cnf.clauses.len() as u32);
    let active_clause_ratio = if total_clauses == 0 {
        0
    } else {
        (active_clauses * 100) / total_clauses
    };
    FeatureVector {
        pos_len_2,
        neg_len_2,
        pos_len_3,
        neg_len_3,
        pos_len_4p,
        neg_len_4p,
        conflict_heat: stats.conflict_heat(var),
        recent_flips: stats.recent_flips(var),
        trail_depth,
        active_clause_ratio,
    }
}

/// Counting over a longer range never counts fewer.
proof fn lemma_count_where_prefix(i: int, n: int, p: spec_fn(int) -> bool)
    requires
        0 <= i <= n,
    ensures
        count_where(i, p) <= count_where(n, p),
    decreases n - i,
{
    if i < n {
        lemma_count_where_prefix(i, n - 1, p);
    }
}

} // verus!
