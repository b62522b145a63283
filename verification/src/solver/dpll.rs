//! The DPLL search: unit propagation, branching, backtracking, and the
//! decision log kept along the way.

use vstd::prelude::*;

use crate::cnf::{Cnf, Var};
use crate::solver::assignment::{extends, refines, unassigned_count, Assignment};
use crate::solver::branching::{lemma_unassigned_upto, unassigned_list, Decision, RunnerUp};
use crate::solver::features::{active_count, active_pred, compute_features, count_where, features_of};
use crate::solver::logging::{
    decisions_agree, duplicate_groups, group_view, groups_view, has_sample_on, leads_with_choice, log_leads_with_choices, DecisionGroup,
    DecisionSample,
};
use crate::solver::propagation::{
    all_clauses_satisfied, all_satisfied_under, lemma_unassigned_below_refines, lemma_unassigned_below_update,
    decision_needed, propagated, status_of, unit_propagate, ClauseStatus,
};
use crate::solver::stats::Stats;
use crate::solver::SolveStats;

verus! {

/// Where the search gets its branching decisions from. The search checks
/// what comes back: a decision on a variable that is out of range or
/// already assigned, or no decision at all while some variable is
/// unassigned, is replaced by the first unassigned variable set to true, and
/// runner-ups out of range, on a variable already in the group, or beyond
/// the third are left out of the log.
pub trait Brancher {
    /// Whether `d` is what this brancher may give at the assignment `a` of
    /// `cnf`.
    spec fn gives(&self, cnf: &Cnf, a: Seq<Option<bool>>, d: Option<Decision>) -> bool;

    /// The next decision at `assignment`: one that the brancher gives there.
    /// What it may give stays the same from call to call.
    fn next_decision(&mut self, cnf: &Cnf, assignment: &Assignment, stats: &Stats, trail_depth: u32) -> (d: Option<
        Decision,
    >)
        requires
            cnf.wf(),
            cnf.fits_counters(),
            assignment@.len() == cnf.num_vars,
            stats.covers(cnf.num_vars as nat),
        ensures
            old(self).gives(cnf, assignment@, d),
            forall|c: &Cnf, x: Seq<Option<bool>>, e: Option<Decision>| #[trigger] final(self).gives(c, x, e) == old(
                self,
            ).gives(c, x, e),
    ;
}

/// The state of one search.
pub struct SolveState<B: Brancher> {
    pub stats: Stats,
    /// One group per open decision, outermost first.
    pub log_stack: Vec<DecisionGroup>,
    /// The shortest decision log at which propagation met a conflict.
    pub best_unsat: Option<Vec<DecisionGroup>>,
    pub brancher: B,
    pub decision_id: u32,
    pub decisions: u64,
    pub backtracks: u64,
}

/// `x` capped at `u64::MAX`.
pub open spec fn sat64(x: int) -> u64 {
    if x > u64::MAX {
        u64::MAX
    } else {
        x as u64
    }
}

/// Two capped additions in a row give the one capped addition.
pub proof fn lemma_sat_add(x: int, y: int, z: int)
    requires
        x >= 0,
        y >= 0,
        z >= 0,
    ensures
        sat64(sat64(x + y) + z) == sat64(x + y + z),
{
}

/// `x` reduced to 32 bits.
pub open spec fn wrap32(x: int) -> u32 {
    (x % 0x1_0000_0000) as u32
}

/// From `before` to `after` the search made `k` decisions, each taking a
/// fresh decision id, and `j` backtracks; the decision and backtrack
/// counters are capped at `u64::MAX`, the decision ids wrap.
pub open spec fn counted<B: Brancher>(before: SolveState<B>, after: SolveState<B>, k: nat, j: nat) -> bool {
    &&& after.decisions == sat64(before.decisions + k)
    &&& after.decision_id == wrap32(before.decision_id + k)
    &&& after.backtracks == sat64(before.backtracks + j)
}

/// How the counters of a search call moved from `before` to `after`: `k`
/// decisions and `j` backtracks, no more backtracks than decisions, as many
/// when the call `failed`, and increasing decision ids kept while the ids
/// do not wrap.
pub open spec fn search_counts<B: Brancher>(before: SolveState<B>, after: SolveState<B>, k: nat, j: nat, failed: bool) -> bool {
    &&& counted(before, after, k, j)
    &&& j <= k
    &&& failed ==> j == k
    &&& before.ids_increasing() && before.decision_id + k <= u32::MAX ==> after.ids_increasing()
}

/// The counters of a search that started from zero: `k` decisions and `j`
/// backtracks, no more backtracks than decisions, as many when it
/// `failed`, and increasing decision ids while fewer than `2^32` decisions
/// were made.
pub open spec fn counts_from_start<B: Brancher>(s: SolveState<B>, k: nat, j: nat, failed: bool) -> bool {
    &&& s.decisions == sat64(k as int)
    &&& s.decision_id == wrap32(k as int)
    &&& s.backtracks == sat64(j as int)
    &&& j <= k
    &&& failed ==> j == k
    &&& k <= u32::MAX ==> s.ids_increasing()
}

/// Adding in two steps and capping (or reducing) after each gives the one
/// capped (or reduced) sum.
proof fn lemma_wrap_add(a: int, b: int)
    requires
        a >= 0,
        b >= 0,
    ensures
        sat64(sat64(a) + b) == sat64(a + b),
        wrap32(wrap32(a) + b) == wrap32(a + b),
{
    vstd::arithmetic::div_mod::lemma_add_mod_noop_right(b, a, 0x1_0000_0000);
    assert(wrap32(a) as int == a % 0x1_0000_0000);
}

/// A value in range is its own reduction.
proof fn lemma_wrap_small(a: int)
    requires
        0 <= a,
    ensures
        a <= u64::MAX ==> sat64(a) == a,
        a <= u32::MAX ==> wrap32(a) == a,
{
}

/// Adding one and capping is what `saturating_add(1)` computes; adding one
/// and reducing is what `wrapping_add(1)` computes.
proof fn lemma_wrap_step(x: u64, y: u32)
    ensures
        sat64(x + 1) == (if x == u64::MAX { u64::MAX } else { (x + 1) as u64 }),
        wrap32(y + 1) == (if y == u32::MAX { 0 } else { (y + 1) as u32 }),
{
    lemma_wrap_small(x + 1);
    lemma_wrap_small(y + 1);
}

/// The decision ids of `gv` strictly increase and stay below `bound`.
pub open spec fn ids_below(gv: Seq<(u32, Seq<DecisionSample>)>, bound: u32) -> bool {
    &&& forall|t: int, u: int| 0 <= t < u < gv.len() ==> (#[trigger] gv[t]).0 < (#[trigger] gv[u]).0
    &&& forall|t: int| 0 <= t < gv.len() ==> (#[trigger] gv[t]).0 < bound
}

/// Pushing a group with the next id keeps the ids increasing.
proof fn lemma_push_ids(log0: Seq<(u32, Seq<DecisionSample>)>, pushed: Seq<(u32, Seq<DecisionSample>)>, id0: u32)
    requires
        ids_below(log0, id0),
        id0 < u32::MAX,
        pushed.len() == log0.len() + 1,
        pushed.take(log0.len() as int) == log0,
        pushed[log0.len() as int].0 == id0,
    ensures
        ids_below(pushed, (id0 + 1) as u32),
{
    assert forall|t: int| 0 <= t < log0.len() implies pushed[t] == log0[t] by {
        assert(pushed.take(log0.len() as int)[t] == pushed[t]);
    }
}

/// Logs with the same ids at each position agree on `ids_below`.
proof fn lemma_same_ids(g1: Seq<(u32, Seq<DecisionSample>)>, g2: Seq<(u32, Seq<DecisionSample>)>, b1: u32, b2: u32)
    requires
        ids_below(g1, b1),
        b1 <= b2,
        g1.len() == g2.len(),
        forall|t: int| 0 <= t < g1.len() ==> (#[trigger] g1[t]).0 == g2[t].0,
    ensures
        ids_below(g2, b2),
{
    assert forall|t: int, u: int| 0 <= t < u < g2.len() implies (#[trigger] g2[t]).0 < (#[trigger] g2[u]).0 by {
        assert(g1[t].0 == g2[t].0 && g1[u].0 == g2[u].0);
    }
    assert forall|t: int| 0 <= t < g2.len() implies (#[trigger] g2[t]).0 < b2 by {
        assert(g1[t].0 == g2[t].0);
    }
}

/// The counters over a call that made a decision, tried its first value
/// (`s1` to `s_mid`, a failure), counted a backtrack (`s2`), and tried the
/// second value (`s2` to `s3`).
proof fn lemma_counts_chain<B: Brancher>(
    s0: SolveState<B>,
    s1: SolveState<B>,
    s_mid: SolveState<B>,
    s2: SolveState<B>,
    s3: SolveState<B>,
    k1: nat,
    k2: nat,
    j2: nat,
)
    requires
        s1.decisions == sat64(s0.decisions + 1),
        s1.decision_id == wrap32(s0.decision_id + 1),
        s1.backtracks == s0.backtracks,
        s0.ids_increasing() && s0.decision_id < u32::MAX ==> s1.ids_increasing(),
        search_counts(s1, s_mid, k1, k1, true),
        s2.decisions == s_mid.decisions,
        s2.decision_id == s_mid.decision_id,
        s2.backtracks == sat64(s_mid.backtracks + 1),
        s_mid.ids_increasing() ==> s2.ids_increasing(),
        search_counts(s2, s3, k2, j2, false) || search_counts(s2, s3, k2, j2, true),
    ensures
        counted(s0, s3, 1 + k1 + k2, k1 + 1 + j2),
        j2 <= k2,
        s0.ids_increasing() && s0.decision_id + (1 + k1 + k2) <= u32::MAX ==> s3.ids_increasing(),
        search_counts(s0, s3, 1 + k1 + k2, k1 + 1 + j2, false),
{
    lemma_wrap_add(s0.decisions + 1, k1 as int);
    lemma_wrap_add(s0.decision_id + 1, k1 as int);
    lemma_wrap_add(s0.backtracks + k1, 1);
    lemma_wrap_add(s0.decisions + 1 + k1, k2 as int);
    lemma_wrap_add(s0.decision_id + 1 + k1, k2 as int);
    lemma_wrap_add(s0.backtracks + k1 + 1, j2 as int);
    lemma_wrap_small(s0.decision_id + 1);
    lemma_wrap_small(s0.decision_id + 1 + k1);
}

/// The node at depth `target` that the search reaches when it replays
/// `choices` from depth `i` on, starting at `a`: the assignment that
/// propagation gives there, with a decision to make. Along the way each
/// propagation leaves a decision to make and each replayed value can be
/// assigned on the first branch; there is no such node otherwise.
pub open spec fn replay_node(
    cnf: &Cnf,
    a: Seq<Option<bool>>,
    choices: Seq<(Var, bool)>,
    i: int,
    target: int,
) -> Option<Seq<Option<bool>>>
    decreases target - i,
{
    match propagated(cnf, a) {
        None => None,
        Some(p) => if all_satisfied_under(cnf, p) {
            None
        } else if i >= target {
            Some(p)
        } else if 0 <= i < choices.len() && p[choices[i].0.slot()] != Some(!choices[i].1) {
            replay_node(cnf, p.update(choices[i].0.slot(), Some(choices[i].1)), choices, i + 1, target)
        } else {
            None
        },
    }
}

/// The decisions a log records, outermost first: the variable and value of
/// each group's first sample.
pub open spec fn log_choices(gv: Seq<(u32, Seq<DecisionSample>)>) -> Seq<(Var, bool)> {
    Seq::new(gv.len(), |k: int| (gv[k].1[0].var, gv[k].1[0].value))
}

/// Replaying the decisions of the log `gv` from `a`, starting at position
/// `from`, reaches a node at each depth of the log from `from` on.
pub open spec fn reaches_from(cnf: &Cnf, a: Seq<Option<bool>>, gv: Seq<(u32, Seq<DecisionSample>)>, from: int) -> bool {
    forall|i: int| from <= i < gv.len() ==> (#[trigger] replay_node(cnf, a, log_choices(gv), from, i)) is Some
}

/// A log whose group at `from` holds the decision made at the node that
/// propagating `a0` gives, and whose later groups replay from the child
/// of that decision, replays from `a0`.
proof fn lemma_reaches_extend(
    cnf: &Cnf,
    a0: Seq<Option<bool>>,
    a1: Seq<Option<bool>>,
    var: Var,
    val: bool,
    gv: Seq<(u32, Seq<DecisionSample>)>,
    from: int,
)
    requires
        propagated(cnf, a0) == Some(a1),
        !all_satisfied_under(cnf, a1),
        a1[var.slot()] is None,
        0 <= from < gv.len(),
        log_choices(gv)[from] == (var, val),
        reaches_from(cnf, a1.update(var.slot(), Some(val)), gv, from + 1),
    ensures
        reaches_from(cnf, a0, gv, from),
{
    let c = log_choices(gv);
    assert forall|i: int| from <= i < gv.len() implies (#[trigger] replay_node(cnf, a0, c, from, i)) is Some by {
        if i > from {
            assert(replay_node(cnf, a1.update(var.slot(), Some(val)), c, from + 1, i) is Some);
        }
    }
}

/// When the kept failing path changed from `old_best` to `new_best`, the
/// new one continues the log `log` and replays from `a` past it.
pub open spec fn kept_path_from(
    cnf: &Cnf,
    a: Seq<Option<bool>>,
    old_best: Option<Vec<DecisionGroup>>,
    new_best: Option<Vec<DecisionGroup>>,
    log: Seq<(u32, Seq<DecisionSample>)>,
) -> bool {
    new_best != old_best ==> (new_best matches Some(b) && b@.len() >= log.len() && groups_view(b@).take(log.len() as int)
        == log && reaches_from(cnf, a, groups_view(b@), log.len() as int))
}

/// A failing path kept below a decision continues the log before it and
/// replays from the node of that decision.
proof fn lemma_kept_path_step(
    cnf: &Cnf,
    a0: Seq<Option<bool>>,
    a1: Seq<Option<bool>>,
    var: Var,
    val: bool,
    log0: Seq<(u32, Seq<DecisionSample>)>,
    child_log: Seq<(u32, Seq<DecisionSample>)>,
    b_before: Option<Vec<DecisionGroup>>,
    b_after: Option<Vec<DecisionGroup>>,
)
    requires
        propagated(cnf, a0) == Some(a1),
        !all_satisfied_under(cnf, a1),
        a1[var.slot()] is None,
        child_log.len() == log0.len() + 1,
        child_log.take(log0.len() as int) == log0,
        child_log[log0.len() as int].1.len() >= 1,
        child_log[log0.len() as int].1[0].var == var,
        child_log[log0.len() as int].1[0].value == val,
        kept_path_from(cnf, a1.update(var.slot(), Some(val)), b_before, b_after, child_log),
    ensures
        kept_path_from(cnf, a0, b_before, b_after, log0),
{
    if b_after != b_before {
        let b = b_after->0;
        let gb = groups_view(b@);
        let l0 = log0.len() as int;
        assert(gb.take(l0 + 1)[l0] == gb[l0]);
        assert(gb[l0] == child_log[l0]);
        assert(log_choices(gb)[l0] == (var, val));
        lemma_reaches_extend(cnf, a0, a1, var, val, gb, l0);
        assert(gb.take(l0) =~= child_log.take(l0)) by {
            assert forall|k: int| 0 <= k < l0 implies gb.take(l0)[k] == child_log.take(l0)[k] by {
                assert(gb.take(l0 + 1)[k] == gb[k]);
            }
        }
    }
}

/// `b` branches by the rule `pick`: at an assignment of `cnf` with an
/// unassigned variable, all that `b` gives is a decision on the variable
/// that `pick` names there, unassigned and in range, with `pick`'s value.
pub open spec fn decides_by<B: Brancher>(b: B, cnf: &Cnf, pick: spec_fn(Seq<Option<bool>>) -> (Var, bool)) -> bool {
    forall|a: Seq<Option<bool>>, d: Option<Decision>|
        #![trigger b.gives(cnf, a, d)]
        a.len() == cnf.num_vars && unassigned_list(a).len() > 0 && b.gives(cnf, a, d) ==> (d matches Some(x) && (x.var,
        x.value) == pick(a) && 1 <= x.var.0 <= cnf.num_vars && a[x.var.slot()] is None)
}

/// What the search of `cnf` from `a` does when it branches by `pick`:
/// whether it finds a model, how many decisions it makes and how many
/// backtracks. Propagation comes first; a conflict fails and a formula
/// with every clause satisfied succeeds, without a decision; else the
/// search decides on `pick`'s variable, tries `pick`'s value and, when that
/// fails, backtracks once and tries the other value.
pub open spec fn search_tree(cnf: &Cnf, a: Seq<Option<bool>>, pick: spec_fn(Seq<Option<bool>>) -> (Var, bool)) -> (
    bool,
    nat,
    nat,
)
    decreases unassigned_count(a),
{
    match propagated(cnf, a) {
        None => (false, 0, 0),
        Some(p) => {
            let v = pick(p).0;
            let val = pick(p).1;
            if all_satisfied_under(cnf, p) {
                (true, 0, 0)
            } else if p.len() == a.len() && unassigned_count(p) <= unassigned_count(a) && 1 <= v.0 <= p.len() && p[v.slot()] is None {
                proof {
                    lemma_unassigned_below_update(p, v.slot(), Some(val), p.len() as int);
                    lemma_unassigned_below_update(p, v.slot(), Some(!val), p.len() as int);
                }
                let t1 = search_tree(cnf, p.update(v.slot(), Some(val)), pick);
                if t1.0 {
                    (true, 1 + t1.1, t1.2)
                } else {
                    let t2 = search_tree(cnf, p.update(v.slot(), Some(!val)), pick);
                    (t2.0, 1 + t1.1 + t2.1, t1.1 + 1 + t2.2)
                }
            } else {
                (false, 0, 0)
            }
        },
    }
}

/// A search that fails backtracks once per decision.
pub proof fn lemma_search_tree_failed(cnf: &Cnf, a: Seq<Option<bool>>, pick: spec_fn(Seq<Option<bool>>) -> (Var, bool))
    ensures
        search_tree(cnf, a, pick).2 <= search_tree(cnf, a, pick).1,
        !search_tree(cnf, a, pick).0 ==> search_tree(cnf, a, pick).2 == search_tree(cnf, a, pick).1,
    decreases unassigned_count(a),
{
    if let Some(p) = propagated(cnf, a) {
        let v = pick(p).0;
        let val = pick(p).1;
        if !all_satisfied_under(cnf, p) && p.len() == a.len() && unassigned_count(p) <= unassigned_count(a) && 1 <= v.0
            <= p.len() && p[v.slot()] is None {
            lemma_unassigned_below_update(p, v.slot(), Some(val), p.len() as int);
            lemma_unassigned_below_update(p, v.slot(), Some(!val), p.len() as int);
            lemma_search_tree_failed(cnf, p.update(v.slot(), Some(val)), pick);
            lemma_search_tree_failed(cnf, p.update(v.slot(), Some(!val)), pick);
        }
    }
}

/// A brancher that gives what `b` gives branches by the same rules.
proof fn lemma_decides_by_same_gives<B: Brancher>(b1: B, b2: B, cnf: &Cnf, pick: spec_fn(Seq<Option<bool>>) -> (Var, bool))
    requires
        decides_by(b1, cnf, pick),
        forall|c: &Cnf, x: Seq<Option<bool>>, e: Option<Decision>| #[trigger] b2.gives(c, x, e) == b1.gives(c, x, e),
    ensures
        decides_by(b2, cnf, pick),
{
    assert forall|a: Seq<Option<bool>>, d: Option<Decision>|
        a.len() == cnf.num_vars && unassigned_list(a).len() > 0 && #[trigger] b2.gives(cnf, a, d) implies (d matches Some(
        x) && (x.var, x.value) == pick(a) && 1 <= x.var.0 <= cnf.num_vars && a[x.var.slot()] is None) by {
        assert(b1.gives(cnf, a, d));
    }
}

/// The counters over a call that made a decision (`s0` to `s1`), tried its
/// first value (`s1` to `s_mid`), counted a backtrack (`s2`) and tried the
/// second value (`s2` to `s3`).
proof fn lemma_counted_chain<B: Brancher>(
    s0: SolveState<B>,
    s1: SolveState<B>,
    s_mid: SolveState<B>,
    s2: SolveState<B>,
    s3: SolveState<B>,
    k1: nat,
    k2: nat,
    j2: nat,
)
    requires
        s1.decisions == sat64(s0.decisions + 1),
        s1.decision_id == wrap32(s0.decision_id + 1),
        s1.backtracks == s0.backtracks,
        counted(s1, s_mid, k1, k1),
        s2.decisions == s_mid.decisions,
        s2.decision_id == s_mid.decision_id,
        s2.backtracks == sat64(s_mid.backtracks + 1),
        counted(s2, s3, k2, j2),
    ensures
        counted(s0, s3, 1 + k1 + k2, k1 + 1 + j2),
{
    lemma_wrap_add(s0.decisions + 1, k1 as int);
    lemma_wrap_add(s0.decision_id + 1, k1 as int);
    lemma_wrap_add(s0.backtracks + k1, 1);
    lemma_wrap_add(s0.decisions + 1 + k1, k2 as int);
    lemma_wrap_add(s0.decision_id + 1 + k1, k2 as int);
    lemma_wrap_add(s0.backtracks + k1 + 1, j2 as int);
}

/// Some pair of `p` is on the variable `v`.
pub open spec fn pairs_on(p: Seq<(Var, bool)>, v: Var) -> bool {
    exists|k: int| 0 <= k < p.len() && #[trigger] p[k].0 == v
}

/// The runner-up `r` joins the runner-ups `prev` kept so far when its
/// variable is in `1..=n`, is not the chosen one and is not already kept.
pub open spec fn keep_runner(prev: Seq<(Var, bool)>, r: RunnerUp, chosen: Var, n: u32) -> Seq<(Var, bool)> {
    if 1 <= r.var.0 <= n && r.var != chosen && !pairs_on(prev, r.var) {
        prev.push((r.var, r.value))
    } else {
        prev
    }
}

/// The runner-ups of `rs` that a decision group can hold, in order: each
/// on a variable in `1..=n` other than the chosen one and than every
/// runner-up kept before it.
pub open spec fn kept_runners(rs: Seq<RunnerUp>, chosen: Var, n: u32) -> Seq<(Var, bool)>
    decreases rs.len(),
{
    if rs.len() == 0 {
        Seq::empty()
    } else {
        keep_runner(kept_runners(rs.drop_last(), chosen, n), rs.last(), chosen, n)
    }
}

/// The first three entries of `s` (all of them when there are fewer).
pub open spec fn first_three<T>(s: Seq<T>) -> Seq<T> {
    if s.len() <= 3 {
        s
    } else {
        s.take(3)
    }
}

/// The variable and value of each sample.
pub open spec fn sample_pairs(g: Seq<DecisionSample>) -> Seq<(Var, bool)> {
    Seq::new(g.len(), |k: int| (g[k].var, g[k].value))
}

/// Keeping runner-ups over one more of them.
proof fn lemma_kept_runners_take(rs: Seq<RunnerUp>, t: int, chosen: Var, n: u32)
    requires
        0 <= t < rs.len(),
    ensures
        kept_runners(rs.take(t + 1), chosen, n) == keep_runner(kept_runners(rs.take(t), chosen, n), rs[t], chosen, n),
{
    assert(rs.take(t + 1).drop_last() =~= rs.take(t));
}

/// Sample `s` is one of the runner-ups of `x`, with its value.
pub open spec fn runner_of(x: Decision, s: DecisionSample) -> bool {
    exists|q: int| 0 <= q < x.runner_ups@.len() && x.runner_ups@[q].var == s.var && x.runner_ups@[q].value == s.value
}

/// The samples `g`, logged at position `depth` of a log, were taken at the
/// assignment `a` of `cnf` with statistics `st` from `d`, what the brancher
/// `b` gave there: when `d` is a decision on an unassigned variable in
/// range, the group leads with its variable and the other samples are its
/// runner-ups; every sample has the features of its variable there at trail
/// depth `depth`.
pub open spec fn logged_from<B: Brancher>(
    cnf: &Cnf,
    b: B,
    g: Seq<DecisionSample>,
    depth: int,
    a: Seq<Option<bool>>,
    st: Stats,
    d: Option<Decision>,
) -> bool {
    &&& a.len() == cnf.num_vars
    &&& b.gives(cnf, a, d)
    &&& match d {
        Some(x) => if 1 <= x.var.0 <= cnf.num_vars && a[x.var.slot()] is None {
            &&& g.len() >= 1
            &&& g[0].var == x.var
            &&& forall|t: int| 1 <= t < g.len() ==> runner_of(x, #[trigger] g[t])
            &&& sample_pairs(g).drop_first() == first_three(kept_runners(x.runner_ups@, x.var, cnf.num_vars))
        } else {
            g.len() == 1
        },
        None => g.len() == 1,
    }
    &&& forall|t: int| 0 <= t < g.len() ==> (#[trigger] g[t]).features == features_of(cnf, a, &st, g[t].var, depth as u32)
}

/// The samples `g` at position `depth` of a log were taken at some point of
/// the search from what the brancher `b` gave there (`logged_from`).
pub open spec fn logged_at<B: Brancher>(cnf: &Cnf, b: B, g: Seq<DecisionSample>, depth: int) -> bool {
    exists|a: Seq<Option<bool>>, st: Stats, d: Option<Decision>| #[trigger] logged_from(cnf, b, g, depth, a, st, d)
}

/// Every group of the log `gv` was logged from what `b` gave, at its
/// position in the log.
pub open spec fn log_logged<B: Brancher>(cnf: &Cnf, b: B, gv: Seq<(u32, Seq<DecisionSample>)>) -> bool {
    forall|k: int| 0 <= k < gv.len() ==> #[trigger] logged_at(cnf, b, gv[k].1, k)
}

/// Two branchers that give the same decisions log the same groups.
proof fn lemma_log_logged_same_gives<B: Brancher>(cnf: &Cnf, b1: B, b2: B, gv: Seq<(u32, Seq<DecisionSample>)>)
    requires
        log_logged(cnf, b1, gv),
        forall|c: &Cnf, x: Seq<Option<bool>>, e: Option<Decision>| #[trigger] b2.gives(c, x, e) == b1.gives(c, x, e),
    ensures
        log_logged(cnf, b2, gv),
{
    assert forall|k: int| 0 <= k < gv.len() implies #[trigger] logged_at(cnf, b2, gv[k].1, k) by {
        assert(logged_at(cnf, b1, gv[k].1, k));
        let (a, st, d) = choose|a: Seq<Option<bool>>, st: Stats, d: Option<Decision>|
            #[trigger] logged_from(cnf, b1, gv[k].1, k, a, st, d);
        assert(b2.gives(cnf, a, d) == b1.gives(cnf, a, d));
        assert(logged_from(cnf, b2, gv[k].1, k, a, st, d));
    }
}

/// The groups of a log up to some length keep their positions.
proof fn lemma_log_logged_prefix<B: Brancher>(cnf: &Cnf, b: B, gv: Seq<(u32, Seq<DecisionSample>)>, len: int)
    requires
        log_logged(cnf, b, gv),
        0 <= len <= gv.len(),
    ensures
        log_logged(cnf, b, gv.take(len)),
{
    assert forall|k: int| 0 <= k < gv.take(len).len() implies #[trigger] logged_at(cnf, b, gv.take(len)[k].1, k) by {
        assert(gv.take(len)[k] == gv[k]);
        assert(logged_at(cnf, b, gv[k].1, k));
    }
}

/// Pushing a group logged at the next position keeps a log logged.
proof fn lemma_log_logged_push<B: Brancher>(
    cnf: &Cnf,
    b: B,
    log0: Seq<(u32, Seq<DecisionSample>)>,
    pushed: Seq<(u32, Seq<DecisionSample>)>,
)
    requires
        log_logged(cnf, b, log0),
        pushed.len() == log0.len() + 1,
        pushed.take(log0.len() as int) == log0,
        logged_at(cnf, b, pushed[log0.len() as int].1, log0.len() as int),
    ensures
        log_logged(cnf, b, pushed),
{
    assert forall|k: int| 0 <= k < pushed.len() implies #[trigger] logged_at(cnf, b, pushed[k].1, k) by {
        if k < log0.len() {
            assert(pushed.take(log0.len() as int)[k] == pushed[k]);
            assert(logged_at(cnf, b, log0[k].1, k));
        }
    }
}

/// Changing the first sample of the top group to one on the same variable
/// with the same features keeps a log logged.
proof fn lemma_log_logged_flip_top<B: Brancher>(
    cnf: &Cnf,
    b: B,
    before: Seq<(u32, Seq<DecisionSample>)>,
    after: Seq<(u32, Seq<DecisionSample>)>,
    s: DecisionSample,
)
    requires
        log_logged(cnf, b, before),
        before.len() >= 1,
        after.len() == before.len(),
        forall|k: int| 0 <= k < before.len() - 1 ==> #[trigger] after[k] == before[k],
        before[before.len() - 1].1.len() >= 1,
        after[before.len() - 1].1 == before[before.len() - 1].1.update(0, s),
        s.var == before[before.len() - 1].1[0].var,
        s.features == before[before.len() - 1].1[0].features,
    ensures
        log_logged(cnf, b, after),
{
    let top = before.len() - 1;
    assert forall|k: int| 0 <= k < after.len() implies #[trigger] logged_at(cnf, b, after[k].1, k) by {
        assert(logged_at(cnf, b, before[k].1, k));
        if k == top {
            lemma_logged_flip(cnf, b, before[k].1, k, s);
        } else {
            assert(after[k] == before[k]);
        }
    }
}

/// Giving the first sample of a group the opposite value keeps it logged.
proof fn lemma_logged_flip<B: Brancher>(cnf: &Cnf, b: B, g: Seq<DecisionSample>, depth: int, s: DecisionSample)
    requires
        logged_at(cnf, b, g, depth),
        g.len() >= 1,
        s.var == g[0].var,
        s.features == g[0].features,
    ensures
        logged_at(cnf, b, g.update(0, s), depth),
{
    let (a, st, d) = choose|a: Seq<Option<bool>>, st: Stats, d: Option<Decision>|
        #[trigger] logged_from(cnf, b, g, depth, a, st, d);
    let g2 = g.update(0, s);
    assert forall|t: int| 0 <= t < g2.len() implies (#[trigger] g2[t]).features == features_of(cnf, a, &st, g2[t].var, depth as u32) by {
        assert(g[t].features == features_of(cnf, a, &st, g[t].var, depth as u32));
    }
    assert(sample_pairs(g2).drop_first() =~= sample_pairs(g).drop_first());
    if let Some(x) = d {
        if 1 <= x.var.0 <= cnf.num_vars && a[x.var.slot()] is None {
            assert forall|t: int| 1 <= t < g2.len() implies runner_of(x, #[trigger] g2[t]) by {
                assert(g2[t] == g[t]);
                assert(runner_of(x, g[t]));
            }
        }
    }
    assert(logged_from(cnf, b, g2, depth, a, st, d));
}

/// `d` is a decision on a variable in range that `a` leaves unassigned.
pub open spec fn valid_choice(cnf: &Cnf, a: Seq<Option<bool>>, d: Option<Decision>) -> bool {
    d matches Some(x) && 1 <= x.var.0 <= cnf.num_vars && a[x.var.slot()] is None
}

/// The shape of a logged group: when the brancher gave a decision on an
/// unassigned variable in range, the group holds that decision's variable
/// first and then, in the brancher's order, each runner-up it gave on a
/// variable in range, other than the chosen one and than the runner-ups
/// before it, up to three of them: `1 + min(3, that number)` samples in all.
/// Otherwise the group holds the chosen decision alone.
pub proof fn lemma_logged_group_shape<B: Brancher>(
    cnf: &Cnf,
    b: B,
    g: Seq<DecisionSample>,
    depth: int,
    a: Seq<Option<bool>>,
    st: Stats,
    d: Option<Decision>,
)
    requires
        logged_from(cnf, b, g, depth, a, st, d),
    ensures
        valid_choice(cnf, a, d) ==> {
            let x = d->0;
            let k = kept_runners(x.runner_ups@, x.var, cnf.num_vars);
            &&& g.len() == 1 + (if k.len() < 3 { k.len() } else { 3 })
            &&& g[0].var == x.var
            &&& forall|t: int| 1 <= t < g.len() ==> (#[trigger] g[t]).var == k[t - 1].0 && g[t].value == k[t - 1].1
        },
        !valid_choice(cnf, a, d) ==> g.len() == 1,
{
    if let Some(x) = d {
        if 1 <= x.var.0 <= cnf.num_vars && a[x.var.slot()] is None {
            let k = kept_runners(x.runner_ups@, x.var, cnf.num_vars);
            assert(sample_pairs(g).drop_first().len() == g.len() - 1);
            assert forall|t: int| 1 <= t < g.len() implies (#[trigger] g[t]).var == k[t - 1].0 && g[t].value == k[t
                - 1].1 by {
                assert(sample_pairs(g).drop_first()[t - 1] == sample_pairs(g)[t]);
                assert(first_three(k)[t - 1] == k[t - 1]);
            }
        }
    }
}

impl<B: Brancher> SolveState<B> {
    /// Decision ids strictly increase along the log and stay below the next
    /// id to hand out.
    pub open spec fn ids_increasing(&self) -> bool {
        ids_below(groups_view(self.log_stack@), self.decision_id)
    }

    /// Every group of the current log and of the kept failing path was
    /// logged from what the brancher gave (`log_logged`).
    pub open spec fn logs_logged(&self, cnf: &Cnf) -> bool {
        &&& log_logged(cnf, self.brancher, groups_view(self.log_stack@))
        &&& (self.best_unsat matches Some(b) ==> log_logged(cnf, self.brancher, groups_view(b@)))
    }

    /// Every group of the current log and of the kept failing path leads
    /// with its chosen decision, on a variable in `1..=n`.
    pub open spec fn logs_lead(&self, n: u32) -> bool {
        &&& log_leads_with_choices(groups_view(self.log_stack@), n)
        &&& (self.best_unsat matches Some(b) ==> log_leads_with_choices(groups_view(b@), n))
    }

    pub fn new(num_vars: u32, brancher: B) -> (s: Self)
        ensures
            s.stats.covers(num_vars as nat),
            s.stats.conflicts() == 0,
            s.stats.all_zero(num_vars as nat),
            s.log_stack@.len() == 0,
            s.best_unsat is None,
            s.brancher == brancher,
            s.decision_id == 0,
            s.decisions == 0,
            s.backtracks == 0,
            s.logs_lead(num_vars),
    {
        let stats = Stats::new(num_vars);
        let ghost st = stats;
        let s = SolveState {
            stats,
            log_stack: Vec::new(),
            best_unsat: None,
            brancher,
            decision_id: 0,
            decisions: 0,
            backtracks: 0,
        };
        assert(s.stats == st);
        s
    }

    /// Keeps a copy of the current decision log as the best failing path
    /// unless the one kept is no longer.
    pub fn record_unsat_path(&mut self)
        ensures
            match old(self).best_unsat {
                Some(best) if best@.len() <= old(self).log_stack@.len() => final(self).best_unsat == old(
                    self,
                ).best_unsat,
                _ => final(self).best_unsat matches Some(b) && groups_view(b@) == groups_view(
                    old(self).log_stack@,
                ),
            },
            final(self).log_stack == old(self).log_stack,
            final(self).stats == old(self).stats,
            final(self).brancher == old(self).brancher,
            final(self).decision_id == old(self).decision_id,
            final(self).decisions == old(self).decisions,
            final(self).backtracks == old(self).backtracks,
    {
        let current_len = self.log_stack.len();
        let keep = match &self.best_unsat {
            Some(best) => best.len() <= current_len,
            None => false,
        };
        if !keep {
            self.best_unsat = Some(duplicate_groups(&self.log_stack));
        }
    }

    /// The counters of the search so far.
    pub fn metrics(&self) -> (m: SolveStats)
        ensures
            m.decisions == self.decisions,
            m.backtracks == self.backtracks,
            m.conflicts == self.stats.conflicts() as u64,
    {
        SolveStats { decisions: self.decisions, backtracks: self.backtracks, conflicts: self.stats.conflict_count() as u64 }
    }

    /// The decision log to keep after a search: the final decision path
    /// when it found a model, else the best failing path (if any).
    pub fn logged_path(&self, solved: bool) -> (p: Option<&Vec<DecisionGroup>>)
        ensures
            solved ==> p == Some(&self.log_stack),
            !solved ==> p == match self.best_unsat {
                Some(ref b) => Some(b),
                None => None,
            },
    {
        if solved {
            Some(&self.log_stack)
        } else {
            match &self.best_unsat {
                Some(b) => Some(b),
                None => None,
            }
        }
    }
}

/// The smallest unassigned variable, if any.
fn first_unassigned(cnf: &Cnf, assignment: &Assignment) -> (v: Option<Var>)
    requires
        assignment@.len() == cnf.num_vars,
    ensures
        v matches Some(x) ==> 1 <= x.0 <= cnf.num_vars && assignment@[x.slot()] is None,
        v is None ==> forall|i: int| 0 <= i < cnf.num_vars ==> (#[trigger] assignment@[i]) is Some,
{
    let mut i: u32 = 0;
    while i < cnf.num_vars
        invariant
            i <= cnf.num_vars,
            assignment@.len() == cnf.num_vars,
            forall|k: int| 0 <= k < i ==> (#[trigger] assignment@[k]) is Some,
        decreases cnf.num_vars - i,
    {
        let var = Var::new(i + 1);
        if !assignment.is_assigned(var) {
            return Some(var);
        }
        i = i + 1;
    }
    None
}

/// Every clause of an assignment that leaves no variable unassigned and no
/// clause unresolved or falsified is satisfied.
proof fn lemma_all_assigned_all_satisfied(cnf: &Cnf, a: Seq<Option<bool>>)
    requires
        cnf.wf(),
        a.len() == cnf.num_vars,
        forall|i: int| 0 <= i < a.len() ==> (#[trigger] a[i]) is Some,
        forall|i: int| 0 <= i < cnf.clauses@.len() ==> {
            let st = status_of(a, #[trigger] cnf.clause(i));
            st is Satisfied || st is Unresolved
        },
    ensures
        all_satisfied_under(cnf, a),
{
    assert forall|i: int| 0 <= i < cnf.clauses@.len() implies crate::solver::propagation::satisfied_under(
        a,
        #[trigger] cnf.clause(i),
    ) by {
        let c = cnf.clause(i);
        assert(crate::cnf::clause_in_range(c, cnf.num_vars));
        if !crate::solver::propagation::satisfied_under(a, c) {
            assert(status_of(a, c) is Unresolved);
            assert(crate::solver::propagation::free_lits(a, c).len() >= 2);
            crate::solver::propagation::lemma_free_lits_facts(a, c);
            let l = crate::solver::propagation::free_lits(a, c)[0];
            let j = choose|j: int| 0 <= j < c.len() && c[j] == l;
            assert(1 <= c[j].var.0 <= cnf.num_vars);
            assert(a[l.var.slot()] is Some);
        }
    }
}

/// After a propagation that left no clause falsified or a unit, a formula
/// that is not yet satisfied still has an unassigned variable.
pub proof fn lemma_open_formula_has_unassigned(cnf: &Cnf, a: Seq<Option<bool>>)
    requires
        cnf.wf(),
        a.len() == cnf.num_vars,
        forall|i: int| 0 <= i < cnf.clauses@.len() ==> {
            let st = status_of(a, #[trigger] cnf.clause(i));
            st is Satisfied || st is Unresolved
        },
        !all_satisfied_under(cnf, a),
    ensures
        crate::solver::branching::unassigned_list(a).len() > 0,
{
    crate::solver::branching::lemma_unassigned_upto(a, a.len() as int);
    if crate::solver::branching::unassigned_list(a).len() == 0 {
        assert forall|i: int| 0 <= i < a.len() implies (#[trigger] a[i]) is Some by {
            if a[i] is None {
                let v = Var((i + 1) as u32);
                assert(crate::solver::branching::unassigned_list(a).contains(v));
            }
        }
        lemma_all_assigned_all_satisfied(cnf, a);
    }
}

/// The decision to branch on: the brancher's when its variable is
/// unassigned and in range, else the first unassigned variable set to true.
fn checked_decision(d: Option<Decision>, cnf: &Cnf, assignment: &Assignment, fallback: Var) -> (r: Decision)
    requires
        assignment@.len() == cnf.num_vars,
        1 <= fallback.0 <= cnf.num_vars,
        assignment@[fallback.slot()] is None,
    ensures
        1 <= r.var.0 <= cnf.num_vars,
        assignment@[r.var.slot()] is None,
        (d matches Some(x) && 1 <= x.var.0 <= cnf.num_vars && assignment@[x.var.slot()] is None) ==> Some(r) == d,
        !(d matches Some(x) && 1 <= x.var.0 <= cnf.num_vars && assignment@[x.var.slot()] is None) ==> r.runner_ups@.len()
            == 0,
{
    match d {
        Some(x) => {
            if 1 <= x.var.0 && x.var.0 <= cnf.num_vars && !assignment.is_assigned(x.var) {
                x
            } else {
                Decision { var: fallback, value: true, runner_ups: Vec::new() }
            }
        },
        None => Decision { var: fallback, value: true, runner_ups: Vec::new() },
    }
}

/// Searches for a model of `cnf` that extends `assignment`: propagates
/// units, returns the assignment once every clause is satisfied, else
/// branches on a decision, first with its value and then, after counting a
/// backtrack and a flip of its variable, with the opposite value.
///
/// Each decision counts one decision, takes the next decision id, and
/// pushes a group of samples on `state.log_stack` (the chosen variable with
/// label 1, then up to three runner-ups with label 0, on distinct
/// variables); the group is popped again when both branches fail. A
/// conflict in propagation records the current log as the best failing path
/// when it is shorter than the one kept; a failed call always leaves a
/// failing path kept.
///
/// Over a call the counters move as `search_counts` says: `k` decisions and
/// `j` backtracks with `j <= k`, and `j == k` when the call fails.
///
/// Each group pushed is logged from what the brancher gave at its node, with
/// the features of its samples there at its depth (`logs_logged`, kept when
/// it held before); what the brancher gives stays the same.
///
/// For a brancher that branches by a rule `pick` (`decides_by`), whether a
/// model comes back and how far the counters move are what `search_tree`
/// gives for that rule.
///
/// A model returned satisfies every clause and keeps every value of
/// `assignment`; `None` means that no model of `cnf` extends `assignment`.
#[verifier::spinoff_prover]
#[verifier::rlimit(60)]
pub fn solve<B: Brancher>(cnf: &Cnf, assignment: Assignment, state: &mut SolveState<B>) -> (r: Option<Assignment>)
    requires
        cnf.wf(),
        cnf.fits_counters() || !decision_needed(cnf, assignment@),
        assignment@.len() == cnf.num_vars,
        old(state).stats.covers(cnf.num_vars as nat),
    ensures
        r matches Some(m) ==> m@.len() == cnf.num_vars && all_satisfied_under(cnf, m@) && refines(m@, assignment@),
        r is None ==> forall|m: Seq<bool>| extends(m, assignment@) ==> !cnf.is_model(m),
        final(state).stats.covers(cnf.num_vars as nat),
        groups_view(final(state).log_stack@).len() >= groups_view(old(state).log_stack@).len(),
        groups_view(final(state).log_stack@).take(old(state).log_stack@.len() as int) == groups_view(
            old(state).log_stack@,
        ),
        r is None ==> groups_view(final(state).log_stack@) == groups_view(old(state).log_stack@),
        old(state).logs_lead(cnf.num_vars) ==> final(state).logs_lead(cnf.num_vars),
        old(state).best_unsat matches Some(b0) ==> final(state).best_unsat matches Some(b1) && b1@.len() <= b0@.len(),
        r matches Some(m) ==> decisions_agree(groups_view(final(state).log_stack@), old(state).log_stack@.len() as int, m@),
        r is None ==> final(state).best_unsat is Some,
        final(state).best_unsat matches Some(b1) ==> final(state).best_unsat == old(state).best_unsat || b1@.len()
            >= old(state).log_stack@.len(),
        exists|k: nat, j: nat|
            #![trigger counted(*old(state), *final(state), k, j)]
            search_counts(*old(state), *final(state), k, j, r is None) && (k >= 1 <==> decision_needed(cnf, assignment@)),
        r is Some && decision_needed(cnf, assignment@) ==> final(state).log_stack@.len() > old(state).log_stack@.len(),
        r is None && old(state).best_unsat is None ==> (final(state).best_unsat matches Some(b) && b@.len()
            >= old(state).log_stack@.len()),
        r is None && old(state).best_unsat is None && decision_needed(cnf, assignment@)
            ==> (final(state).best_unsat matches Some(b) && b@.len() > old(state).log_stack@.len()),
        !decision_needed(cnf, assignment@) ==> groups_view(final(state).log_stack@) == groups_view(
            old(state).log_stack@,
        ) && (final(state).best_unsat == old(state).best_unsat || (final(state).best_unsat matches Some(b)
            && groups_view(b@) == groups_view(old(state).log_stack@))),
        old(state).logs_logged(cnf) ==> final(state).logs_logged(cnf),
        forall|c: &Cnf, x: Seq<Option<bool>>, e: Option<Decision>| #[trigger] final(state).brancher.gives(c, x, e) == old(
            state,
        ).brancher.gives(c, x, e),
        r is Some ==> reaches_from(cnf, assignment@, groups_view(final(state).log_stack@), old(state).log_stack@.len() as int),
        kept_path_from(cnf, assignment@, old(state).best_unsat, final(state).best_unsat, groups_view(old(state).log_stack@)),
        forall|pick: spec_fn(Seq<Option<bool>>) -> (Var, bool)| #[trigger] decides_by(old(state).brancher, cnf, pick) ==> ((search_tree(
            cnf,
            assignment@,
            pick,
        ).0 <==> r is Some) && counted(
            *old(state),
            *final(state),
            search_tree(cnf, assignment@, pick).1,
            search_tree(cnf, assignment@, pick).2,
        )),
    decreases unassigned_count(assignment@),
{
    let ghost s0 = *state;
    let ghost a0 = assignment@;
    let ghost log0 = groups_view(state.log_stack@);
    let mut assignment = assignment;
    let n = cnf.num_vars;

    if !unit_propagate(cnf, &mut assignment, &mut state.stats) {
        state.record_unsat_path();
        proof {
            lemma_wrap_small(s0.decisions as int);
            lemma_wrap_small(s0.decision_id as int);
            lemma_wrap_small(s0.backtracks as int);
            assert(search_counts(s0, *state, 0, 0, true));
            assert forall|pick: spec_fn(Seq<Option<bool>>) -> (Var, bool)| #[trigger] decides_by(s0.brancher, cnf, pick) implies (!search_tree(
                cnf,
                a0,
                pick,
            ).0 && counted(s0, *state, search_tree(cnf, a0, pick).1, search_tree(cnf, a0, pick).2)) by {
                assert(propagated(cnf, a0) is None);
            }
        }
        return None;
    }
    if all_clauses_satisfied(cnf, &assignment) {
        proof {
            lemma_wrap_small(s0.decisions as int);
            lemma_wrap_small(s0.decision_id as int);
            lemma_wrap_small(s0.backtracks as int);
            assert(search_counts(s0, *state, 0, 0, false));
            assert(crate::solver::propagation::propagated(cnf, a0) == Some(assignment@));
            assert(all_satisfied_under(cnf, assignment@));
            assert(!decision_needed(cnf, a0));
            assert(search_counts(s0, *state, 0, 0, false) && (0nat >= 1 <==> decision_needed(cnf, a0)));
            assert forall|pick: spec_fn(Seq<Option<bool>>) -> (Var, bool)| #[trigger] decides_by(s0.brancher, cnf, pick) implies (search_tree(
                cnf,
                a0,
                pick,
            ).0 && counted(s0, *state, search_tree(cnf, a0, pick).1, search_tree(cnf, a0, pick).2)) by {
                assert(propagated(cnf, a0) == Some(assignment@));
            }
        }
        return Some(assignment);
    }
    let ghost a1 = assignment@;
    proof {
        lemma_unassigned_below_refines(a1, a0, a0.len() as int);
        assert(propagated(cnf, a0) == Some(a1));
        assert(decision_needed(cnf, a0));
        assert(cnf.fits_counters());
    }

    let fallback = match first_unassigned(cnf, &assignment) {
        Some(v) => v,
        None => {
            proof {
                lemma_all_assigned_all_satisfied(cnf, a1);
            }
            return None;
        },
    };

    let trail_depth = #[verifier::truncate] (state.log_stack.len() as u32);
    let ghost br0 = state.brancher;
    let chosen = state.brancher.next_decision(cnf, &assignment, &state.stats, trail_depth);
    let ghost given = chosen;
    let decision = checked_decision(chosen, cnf, &assignment, fallback);
    proof {
        lemma_unassigned_upto(a1, a1.len() as int);
        assert(unassigned_list(a1).contains(fallback));
        assert(unassigned_list(a1).len() > 0);
        assert(propagated(cnf, a0) == Some(a1));
        assert(!all_satisfied_under(cnf, a1));
        assert(unassigned_count(a1) <= unassigned_count(a0));
    }
    proof {
        if old(state).logs_logged(cnf) {
            lemma_log_logged_same_gives(cnf, br0, state.brancher, log0);
            if state.best_unsat is Some {
                lemma_log_logged_same_gives(cnf, br0, state.brancher, groups_view(state.best_unsat->0@));
            }
        }
    }

    state.decisions = state.decisions.saturating_add(1);
    let decision_id = state.decision_id;
    state.decision_id = state.decision_id.wrapping_add(1);
    proof {
        lemma_wrap_step(s0.decisions, s0.decision_id);
    }

    proof {
        crate::solver::features::lemma_count_where_le(cnf.clauses@.len() as int, active_pred(cnf, a1), active_pred(cnf, a1));
        assert(active_count(cnf, a1) <= cnf.clauses@.len());
    }
    let mut samples: Vec<DecisionSample> = Vec::new();
    let feats = compute_features(cnf, &assignment, &state.stats, decision.var, trail_depth);
    samples.push(DecisionSample { label: 1, var: decision.var, value: decision.value, features: feats });
    let mut t: usize = 0;
    while t < decision.runner_ups.len()
        invariant
            t <= decision.runner_ups@.len(),
            samples@.len() >= 1,
            cnf.wf(),
            cnf.fits_counters(),
            n == cnf.num_vars,
            assignment@ == a1,
            a1.len() == n,
            active_count(cnf, a1) <= cnf.clauses@.len(),
            state.stats.covers(n as nat),
            samples@[0].var == decision.var,
            samples@[0].value == decision.value,
            leads_with_choice(samples@, n),
            forall|u: int| 1 <= u < samples@.len() ==> runner_of(decision, #[trigger] samples@[u]),
            sample_pairs(samples@).drop_first() == first_three(
                kept_runners(decision.runner_ups@.take(t as int), decision.var, n),
            ),
            forall|u: int| 0 <= u < samples@.len() ==> (#[trigger] samples@[u]).features == features_of(
                cnf,
                a1,
                &state.stats,
                samples@[u].var,
                trail_depth,
            ),
        decreases decision.runner_ups@.len() - t,
    {
        let runner = decision.runner_ups[t];
        let ghost before = samples@;
        proof {
            lemma_kept_runners_take(decision.runner_ups@, t as int, decision.var, n);
        }
        if samples.len() < 4 && 1 <= runner.var.0 && runner.var.0 <= n && !has_sample_on(&samples, runner.var) {
            let runner_feats = compute_features(cnf, &assignment, &state.stats, runner.var, trail_depth);
            samples.push(DecisionSample { label: 0, var: runner.var, value: runner.value, features: runner_feats });
            proof {
                assert(runner_of(decision, samples@[samples@.len() - 1])) by {
                    assert(decision.runner_ups@[t as int] == runner);
                }
            }
        }
        proof {
            let rs = decision.runner_ups@;
            let prev = kept_runners(rs.take(t as int), decision.var, n);
            let next = kept_runners(rs.take(t + 1), decision.var, n);
            assert(rs[t as int] == runner);
            assert(next == keep_runner(prev, runner, decision.var, n));
            if prev.len() < 3 {
                assert(first_three(prev) == prev);
                assert(sample_pairs(before).drop_first() == prev);
                assert(before.len() == prev.len() + 1);
                assert(pairs_on(prev, runner.var) <==> exists|u: int| 1 <= u < before.len() && before[u].var == runner.var) by {
                    if pairs_on(prev, runner.var) {
                        let k = choose|k: int| 0 <= k < prev.len() && #[trigger] prev[k].0 == runner.var;
                        assert(sample_pairs(before).drop_first()[k] == sample_pairs(before)[k + 1]);
                    }
                    if exists|u: int| 1 <= u < before.len() && before[u].var == runner.var {
                        let u = choose|u: int| 1 <= u < before.len() && before[u].var == runner.var;
                        assert(sample_pairs(before).drop_first()[u - 1] == sample_pairs(before)[u]);
                        assert(prev[u - 1].0 == runner.var);
                    }
                }
                assert(first_three(next) == next);
                assert(sample_pairs(samples@).drop_first() =~= next);
            } else {
                assert(first_three(prev).len() == 3);
                assert(sample_pairs(before).drop_first().len() == before.len() - 1);
                assert(before.len() == 4);
                assert(samples@ == before);
                assert(first_three(next) =~= first_three(prev));
            }
        }
        t = t + 1;
    }
    proof {
        assert(decision.runner_ups@.take(decision.runner_ups@.len() as int) =~= decision.runner_ups@);
    }

    let ghost log1 = groups_view(state.log_stack@);
    let ghost group_samples = samples@;
    proof {
        assert(trail_depth == log0.len() as u32);
        if given is Some {
            let x = given->0;
            if 1 <= x.var.0 <= n && a1[x.var.slot()] is None {
                assert(Some(decision) == given);
                assert forall|u: int| 1 <= u < group_samples.len() implies runner_of(x, #[trigger] group_samples[u]) by {
                    assert(runner_of(decision, group_samples[u]));
                }
            }
        }
        assert(state.brancher.gives(cnf, a1, given) == br0.gives(cnf, a1, given));
        assert(logged_from(cnf, state.brancher, group_samples, log0.len() as int, a1, state.stats, given));
    }
    state.log_stack.push(DecisionGroup { decision_id, samples });
    let ghost pushed = groups_view(state.log_stack@);
    proof {
        assert(pushed[log0.len() as int].1 == group_samples);
        assert(log1 == log0);
        assert(pushed.take(log0.len() as int) =~= log0);
        if old(state).logs_logged(cnf) {
            lemma_log_logged_push(cnf, state.brancher, log0, pushed);
        }
    }
    proof {
        assert(log1 == log0);
        assert(pushed.take(log0.len() as int) =~= log0);
        assert(leads_with_choice(pushed[log0.len() as int].1, n));
        assert(pushed[log0.len() as int].1[0].var == decision.var);
        assert(pushed[log0.len() as int].1[0].value == decision.value);
        if old(state).logs_lead(n) {
            assert forall|k: int| 0 <= k < pushed.len() implies #[trigger] leads_with_choice(pushed[k].1, n) by {
                if k < log0.len() {
                    assert(pushed[k] == log0[k]);
                }
            }
        }
    }

    let ghost s1 = *state;
    proof {
        assert(s1.decisions == sat64(s0.decisions + 1));
        assert(s1.decision_id == wrap32(s0.decision_id + 1));
        assert(pushed[log0.len() as int].0 == s0.decision_id);
        if s0.ids_increasing() && s0.decision_id < u32::MAX {
            assert(log0 == groups_view(s0.log_stack@));
            lemma_push_ids(log0, pushed, s0.decision_id);
            lemma_wrap_small(s0.decision_id + 1);
            assert(s1.ids_increasing());
        }
    }
    let var = decision.var;
    let value = decision.value;
    let mut try_first = assignment.duplicate();
    let ok1 = try_first.assign(var, value);
    let ghost t1 = try_first@;
    proof {
        lemma_unassigned_below_update(a1, var.slot(), Some(value), a1.len() as int);
    }
    if let Some(model) = solve(cnf, try_first, state) {
        proof {
            assert(refines(model@, a0)) by {
                assert forall|i: int| 0 <= i < a0.len() && (#[trigger] a0[i]) is Some implies model@[i] == a0[i] by {
                    assert(a1[i] == a0[i]);
                    assert(t1[i] == a1[i]);
                }
            }
            assert(groups_view(state.log_stack@).take(log0.len() as int) =~= pushed.take(log0.len() as int).take(log0.len() as int));
            let gvf = groups_view(state.log_stack@);
            assert(gvf[log0.len() as int] == pushed[log0.len() as int]) by {
                assert(gvf.take(pushed.len() as int)[log0.len() as int] == gvf[log0.len() as int]);
            }
            assert(t1[var.slot()] == Some(value));
            assert(model@[var.slot()] == Some(value));
            assert(decisions_agree(gvf, log0.len() as int, model@)) by {
                assert forall|k: int| log0.len() <= k < gvf.len() implies {
                    let s = #[trigger] gvf[k].1;
                    s.len() >= 1 && model@[s[0].var.slot()] == Some(s[0].value)
                } by {
                    if k > log0.len() {
                        assert(decisions_agree(gvf, pushed.len() as int, model@));
                    }
                }
            }
            let (k1, j1) = choose|k1: nat, j1: nat| #[trigger] search_counts(s1, *state, k1, j1, false);
            lemma_wrap_add(s0.decisions + 1, k1 as int);
            lemma_wrap_add(s0.decision_id + 1, k1 as int);
            lemma_wrap_small(s0.decision_id + 1);
            assert(search_counts(s0, *state, 1 + k1, j1, false));
            assert forall|pick: spec_fn(Seq<Option<bool>>) -> (Var, bool)| #[trigger] decides_by(s0.brancher, cnf, pick) implies (search_tree(
                cnf,
                a0,
                pick,
            ).0 && counted(s0, *state, search_tree(cnf, a0, pick).1, search_tree(cnf, a0, pick).2)) by {
                lemma_decides_by_same_gives(s0.brancher, s1.brancher, cnf, pick);
                assert(br0.gives(cnf, a1, given));
                assert(t1 == a1.update(var.slot(), Some(value)));
                let tr1 = search_tree(cnf, t1, pick);
                assert(decides_by(s1.brancher, cnf, pick));
                assert(tr1.0 && counted(s1, *state, tr1.1, tr1.2));
                lemma_wrap_add(s0.decisions + 1, tr1.1 as int);
                lemma_wrap_add(s0.decision_id + 1, tr1.1 as int);
            }
        }
        proof {
            let gvf = groups_view(state.log_stack@);
            assert(gvf[log0.len() as int] == pushed[log0.len() as int]) by {
                assert(gvf.take(pushed.len() as int)[log0.len() as int] == gvf[log0.len() as int]);
            }
            assert(log_choices(gvf)[log0.len() as int] == (var, value));
            lemma_reaches_extend(cnf, a0, a1, var, value, gvf, log0.len() as int);
            lemma_kept_path_step(cnf, a0, a1, var, value, log0, pushed, s1.best_unsat, state.best_unsat);
        }
        return Some(model);
    }

    let ghost s_mid = *state;
    let ghost (k1, j1) = choose|k1: nat, j1: nat| #[trigger] search_counts(s1, s_mid, k1, j1, true);
    state.backtracks = state.backtracks.saturating_add(1);
    state.stats.inc_flip(var);
    let ghost before_flip = state.log_stack@;
    proof {
        assert(groups_view(state.log_stack@).len() == pushed.len());
        assert(group_view(state.log_stack@[log0.len() as int]) == groups_view(state.log_stack@)[log0.len() as int]);
    }
    let top = state.log_stack.len() - 1;
    assert(state.log_stack@[top as int].samples@.len() >= 1);
    let first = state.log_stack[top].samples[0];
    state.log_stack[top].samples.set(0, DecisionSample { label: first.label, var: first.var, value: !value, features: first.features });
    let ghost flipped = groups_view(state.log_stack@);
    proof {
        let fs = DecisionSample { label: first.label, var: first.var, value: !value, features: first.features };
        assert(groups_view(before_flip)[top as int].1 == before_flip[top as int].samples@);
        assert(flipped[top as int].1 == groups_view(before_flip)[top as int].1.update(0, fs));
        assert(groups_view(before_flip) == pushed);
        assert(flipped[log0.len() as int].1[0].var == var && flipped[log0.len() as int].1[0].value == !value);
    }
    proof {
        if s_mid.logs_logged(cnf) {
            let fs = DecisionSample { label: first.label, var: first.var, value: !value, features: first.features };
            assert(groups_view(before_flip)[top as int].1 == before_flip[top as int].samples@);
            assert(flipped[top as int].1 == groups_view(before_flip)[top as int].1.update(0, fs));
            assert forall|k: int| 0 <= k < flipped.len() - 1 implies #[trigger] flipped[k] == groups_view(before_flip)[k] by {
                assert(state.log_stack@[k] == before_flip[k]);
            }
            lemma_log_logged_flip_top(cnf, state.brancher, groups_view(before_flip), flipped, fs);
        }
    }
    proof {
        assert(flipped.len() == pushed.len());
        assert(flipped.take(log0.len() as int) =~= log0) by {
            assert forall|k: int| 0 <= k < log0.len() implies flipped[k] == log0[k] by {
                assert(state.log_stack@[k] == before_flip[k]);
                assert(pushed[k] == log0[k]);
            }
        }
    }

    let ghost s2 = *state;
    proof {
        lemma_wrap_step(s_mid.backtracks, 0);
        assert(state.log_stack@[top as int].decision_id == before_flip[top as int].decision_id);
        assert forall|t: int| 0 <= t < flipped.len() implies (#[trigger] groups_view(s_mid.log_stack@)[t]).0 == flipped[t].0 by {
            assert(groups_view(s_mid.log_stack@) == pushed);
            if t < log0.len() {
                assert(flipped.take(log0.len() as int)[t] == flipped[t]);
                assert(pushed.take(log0.len() as int)[t] == pushed[t]);
            }
        }
        if s_mid.ids_increasing() {
            lemma_same_ids(groups_view(s_mid.log_stack@), flipped, s_mid.decision_id, s2.decision_id);
        }
    }
    let mut try_second = assignment;
    let ok2 = try_second.assign(var, !value);
    let ghost t2 = try_second@;
    proof {
        lemma_unassigned_below_update(a1, var.slot(), Some(!value), a1.len() as int);
    }
    if let Some(model) = solve(cnf, try_second, state) {
        proof {
            assert(refines(model@, a0)) by {
                assert forall|i: int| 0 <= i < a0.len() && (#[trigger] a0[i]) is Some implies model@[i] == a0[i] by {
                    assert(a1[i] == a0[i]);
                    assert(t2[i] == a1[i]);
                }
            }
            assert(groups_view(state.log_stack@).take(log0.len() as int) =~= flipped.take(log0.len() as int).take(log0.len() as int));
            let gvf = groups_view(state.log_stack@);
            assert(gvf[log0.len() as int] == flipped[log0.len() as int]) by {
                assert(gvf.take(flipped.len() as int)[log0.len() as int] == gvf[log0.len() as int]);
            }
            assert(t2[var.slot()] == Some(!value));
            assert(model@[var.slot()] == Some(!value));
            assert(decisions_agree(gvf, log0.len() as int, model@)) by {
                assert forall|k: int| log0.len() <= k < gvf.len() implies {
                    let s = #[trigger] gvf[k].1;
                    s.len() >= 1 && model@[s[0].var.slot()] == Some(s[0].value)
                } by {
                    if k > log0.len() {
                        assert(decisions_agree(gvf, flipped.len() as int, model@));
                    }
                }
            }
            let (k2, j2) = choose|k2: nat, j2: nat| #[trigger] search_counts(s2, *state, k2, j2, false);
            lemma_counts_chain(s0, s1, s_mid, s2, *state, k1, k2, j2);
            assert forall|pick: spec_fn(Seq<Option<bool>>) -> (Var, bool)| #[trigger] decides_by(s0.brancher, cnf, pick) implies (search_tree(
                cnf,
                a0,
                pick,
            ).0 && counted(s0, *state, search_tree(cnf, a0, pick).1, search_tree(cnf, a0, pick).2)) by {
                lemma_decides_by_same_gives(s0.brancher, s1.brancher, cnf, pick);
                assert(br0.gives(cnf, a1, given));
                assert(t1 == a1.update(var.slot(), Some(value)));
                assert(t2 == a1.update(var.slot(), Some(!value)));
                let tr1 = search_tree(cnf, t1, pick);
                assert(decides_by(s1.brancher, cnf, pick));
                assert(!tr1.0 && counted(s1, s_mid, tr1.1, tr1.2));
                lemma_search_tree_failed(cnf, t1, pick);
                lemma_decides_by_same_gives(s1.brancher, s2.brancher, cnf, pick);
                let tr2 = search_tree(cnf, t2, pick);
                assert(tr2.0 && counted(s2, *state, tr2.1, tr2.2));
                lemma_counted_chain(s0, s1, s_mid, s2, *state, tr1.1, tr2.1, tr2.2);
            }
        }
        proof {
            let gvf = groups_view(state.log_stack@);
            assert(gvf[log0.len() as int] == flipped[log0.len() as int]) by {
                assert(gvf.take(flipped.len() as int)[log0.len() as int] == gvf[log0.len() as int]);
            }
            assert(log_choices(gvf)[log0.len() as int] == (var, !value));
            lemma_reaches_extend(cnf, a0, a1, var, !value, gvf, log0.len() as int);
            lemma_kept_path_step(cnf, a0, a1, var, value, log0, pushed, s1.best_unsat, s_mid.best_unsat);
            lemma_kept_path_step(cnf, a0, a1, var, !value, log0, flipped, s2.best_unsat, state.best_unsat);
        }
        return Some(model);
    }
    let ghost s3 = *state;

    let ghost before_pop = groups_view(state.log_stack@);
    state.log_stack.pop();
    proof {
        if s3.logs_logged(cnf) {
            lemma_log_logged_prefix(cnf, state.brancher, before_pop, log0.len() as int);
            assert(groups_view(state.log_stack@) =~= before_pop.take(log0.len() as int));
        }
        let (k2, j2) = choose|k2: nat, j2: nat| #[trigger] search_counts(s2, s3, k2, j2, true);
        lemma_counts_chain(s0, s1, s_mid, s2, s3, k1, k2, j2);
        assert(counted(s0, *state, 1 + k1 + k2, k1 + 1 + j2));
        if s0.ids_increasing() && s0.decision_id + 1 + k1 + k2 <= u32::MAX {
            assert(s3.ids_increasing());
            assert(groups_view(state.log_stack@) =~= before_pop.take(log0.len() as int));
            assert(ids_below(groups_view(state.log_stack@), state.decision_id)) by {
                let g = groups_view(state.log_stack@);
                assert forall|t: int| 0 <= t < g.len() implies (#[trigger] g[t]) == before_pop[t] by {}
            }
        }
        assert(search_counts(s0, *state, 1 + k1 + k2, k1 + 1 + j2, true));
        assert forall|pick: spec_fn(Seq<Option<bool>>) -> (Var, bool)| #[trigger] decides_by(s0.brancher, cnf, pick) implies (!search_tree(
            cnf,
            a0,
            pick,
        ).0 && counted(s0, *state, search_tree(cnf, a0, pick).1, search_tree(cnf, a0, pick).2)) by {
            lemma_decides_by_same_gives(s0.brancher, s1.brancher, cnf, pick);
            assert(br0.gives(cnf, a1, given));
            assert(t1 == a1.update(var.slot(), Some(value)));
            assert(t2 == a1.update(var.slot(), Some(!value)));
            let tr1 = search_tree(cnf, t1, pick);
            assert(decides_by(s1.brancher, cnf, pick));
            assert(!tr1.0 && counted(s1, s_mid, tr1.1, tr1.2));
            lemma_search_tree_failed(cnf, t1, pick);
            lemma_decides_by_same_gives(s1.brancher, s2.brancher, cnf, pick);
            let tr2 = search_tree(cnf, t2, pick);
            assert(!tr2.0 && counted(s2, s3, tr2.1, tr2.2));
            lemma_counted_chain(s0, s1, s_mid, s2, s3, tr1.1, tr2.1, tr2.2);
        }

        assert(groups_view(state.log_stack@) =~= log0) by {
            assert forall|k: int| 0 <= k < log0.len() implies groups_view(state.log_stack@)[k] == log0[k] by {
                assert(before_pop[k] == flipped[k]);
            }
        }
        lemma_kept_path_step(cnf, a0, a1, var, value, log0, pushed, s1.best_unsat, s_mid.best_unsat);
        lemma_kept_path_step(cnf, a0, a1, var, !value, log0, flipped, s2.best_unsat, s3.best_unsat);
        assert forall|m: Seq<bool>| extends(m, a0) implies !cnf.is_model(m) by {
            if cnf.is_model(m) {
                assert(extends(m, a1));
                if m[var.slot()] == value {
                    assert(extends(m, a1.update(var.slot(), Some(value))));
                } else {
                    assert(extends(m, a1.update(var.slot(), Some(!value))));
                }
            }
        }
    }
    None
}

} // verus!
