//! Perturbed searches: replay the decisions of a first search up to a
//! chosen depth, make a different decision there, and continue.

use rand::rngs::StdRng;
use vstd::prelude::*;

use crate::cnf::{Cnf, Var};
use crate::solver::assignment::{extends, refines, unassigned_count, unassigned_below, Assignment};
use crate::solver::branching::{
    best_var, is_first_best, jw_scores, prefers_true, unassigned_list, unassigned_vars, value_for, JwScores,
};
use crate::solver::dpll::{
    counts_from_start, decides_by, lemma_open_formula_has_unassigned, lemma_sat_add, log_choices, reaches_from, replay_node,
    sat64, search_tree, Brancher, SolveState,
};
use crate::solver::features::{active_count, active_pred, compute_features, features_of, FeatureVector};
use crate::solver::logging::{
    chosen_decisions, chosen_path, decisions_agree, groups_view, lemma_leading_log_has_path, DecisionGroup,
    DecisionSample,
};
use crate::solver::propagation::{
    all_clauses_satisfied, all_satisfied_under, lemma_unassigned_below_refines, lemma_unassigned_below_update,
    decision_needed, propagated, unit_propagate,
};
use crate::solver::random::draw_below;
use crate::solver::ranking::{usable_ranking, Ranker};
use crate::solver::stats::Stats;
use crate::solver::{jw_rule, lemma_search_from_empty_decides, nothing_assigned, search, JwBrancher, Model};

verus! {

/// What the perturbed search saw at the perturbed decision: the decision
/// the heuristic would have made and the random one made instead, with
/// their features.
#[derive(Clone, Copy, Debug)]
pub struct PerturbRecord {
    pub jw_var: Var,
    pub jw_value: bool,
    pub jw_features: FeatureVector,
    pub rand_var: Var,
    pub rand_value: bool,
    pub rand_features: FeatureVector,
}

/// `rec` was made at assignment `a` with statistics `stats` at trail depth
/// `depth`: its heuristic variable is the first unassigned variable of
/// highest combined score, its random variable is an unassigned variable,
/// other than that one when there is another, each value is the one the
/// scores prefer, and the features are those of the two variables there.
pub open spec fn record_made_at(cnf: &Cnf, rec: PerturbRecord, a: Seq<Option<bool>>, stats: Stats, depth: u32) -> bool {
    let list = unassigned_list(a);
    &&& a.len() == cnf.num_vars
    &&& exists|i: int| is_first_best(cnf, a, list, i) && list[i] == rec.jw_var
    &&& rec.jw_value == prefers_true(cnf, a, rec.jw_var)
    &&& list.contains(rec.rand_var)
    &&& (list.len() > 1 ==> rec.rand_var != rec.jw_var)
    &&& rec.rand_value == prefers_true(cnf, a, rec.rand_var)
    &&& rec.jw_features == features_of(cnf, a, &stats, rec.jw_var, depth)
    &&& rec.rand_features == features_of(cnf, a, &stats, rec.rand_var, depth)
}

/// `rec` was made at some point of the search at trail depth `depth`.
pub open spec fn record_fits(cnf: &Cnf, rec: PerturbRecord, depth: u32) -> bool {
    exists|a: Seq<Option<bool>>, stats: Stats| #[trigger] record_made_at(cnf, rec, a, stats, depth)
}

/// The outcome of a perturbation experiment.
#[derive(Clone, Debug)]
pub struct PerturbationOutcome {
    pub model: Option<Model>,
    pub base_decisions: u64,
    pub new_decisions: u64,
    pub logged: bool,
}

proof fn lemma_unassigned_below_le(a: Seq<Option<bool>>, n: int)
    requires
        0 <= n <= a.len(),
    ensures
        unassigned_below(a, n) <= n,
    decreases n,
{
    if n > 0 {
        lemma_unassigned_below_le(a, n - 1);
    }
}

/// A variable of `unassigned` other than `jw_var`, drawn uniformly by
/// repeated draws from `rng`; `jw_var` itself when it is the only one.
/// After `u64::MAX` draws that all hit `jw_var` it stops drawing and takes
/// the first other variable.
pub fn random_other(unassigned: &Vec<Var>, jw_var: Var, rng: &mut StdRng) -> (v: Var)
    requires
        unassigned@.len() > 0,
    ensures
        unassigned@.len() == 1 ==> v == jw_var,
        unassigned@.len() > 1 ==> unassigned@.contains(v) || v == jw_var,
        unassigned@.len() > 1 && (exists|k: int| 0 <= k < unassigned@.len() && unassigned@[k] != jw_var)
            ==> v != jw_var && unassigned@.contains(v),
{
    if unassigned.len() == 1 {
        return jw_var;
    }
    let mut budget: u64 = u64::MAX;
    while budget > 0
        invariant
            unassigned@.len() > 1,
        decreases budget,
    {
        let idx = draw_below(rng, unassigned.len());
        let candidate = unassigned[idx];
        if candidate != jw_var {
            assert(unassigned@[idx as int] == candidate);
            return candidate;
        }
        budget = budget - 1;
    }
    let mut k: usize = 0;
    while k < unassigned.len()
        invariant
            k <= unassigned@.len(),
            unassigned@.len() > 1,
            forall|t: int| 0 <= t < k ==> unassigned@[t] == jw_var,
        decreases unassigned@.len() - k,
    {
        if unassigned[k] != jw_var {
            assert(unassigned@[k as int] == unassigned[k as int]);
            return unassigned[k];
        }
        k = k + 1;
    }
    jw_var
}

/// From counters `(d0, b0)` to `(d1, b1)` a search made `k` decisions and
/// `j` backtracks, each counter capped at `u64::MAX`: no more backtracks
/// than decisions, and as many when the search `failed`.
pub open spec fn tallied(d0: u64, b0: u64, d1: u64, b1: u64, k: nat, j: nat, failed: bool) -> bool {
    &&& d1 == sat64(d0 + k)
    &&& b1 == sat64(b0 + j)
    &&& j <= k
    &&& failed ==> j == k
}

/// Some model of `cnf` keeps every value of `a`.
pub open spec fn model_within(cnf: &Cnf, a: Seq<Option<bool>>) -> bool {
    exists|m: Seq<bool>| extends(m, a) && cnf.is_model(m)
}

/// A rule for the perturbed decision that the search can meet: at each
/// assignment of `cnf` with an unassigned variable, an unassigned variable,
/// other than the one `jw_rule` names when there is another.
pub open spec fn fair_perturbation(cnf: &Cnf, prule: spec_fn(Seq<Option<bool>>) -> Var) -> bool {
    forall|a: Seq<Option<bool>>|
        #![trigger prule(a)]
        a.len() == cnf.num_vars && unassigned_list(a).len() > 0 ==> unassigned_list(a).contains(prule(a)) && (
        unassigned_list(a).len() > 1 ==> prule(a) != jw_rule(cnf)(a).0)
}

/// The first unassigned variable other than the one `jw_rule` names, or
/// the only unassigned one.
pub open spec fn first_other(cnf: &Cnf) -> spec_fn(Seq<Option<bool>>) -> Var {
    |a: Seq<Option<bool>>|
        {
            let list = unassigned_list(a);
            if list.len() > 1 && list[0] == jw_rule(cnf)(a).0 {
                list[1]
            } else {
                list[0]
            }
        }
}

/// `first_other` is a rule the search can meet.
proof fn lemma_first_other_fair(cnf: &Cnf)
    ensures
        fair_perturbation(cnf, first_other(cnf)),
{
    assert forall|a: Seq<Option<bool>>|
        a.len() == cnf.num_vars && unassigned_list(a).len() > 0 implies #[trigger] unassigned_list(a).contains(
        first_other(cnf)(a),
    ) && (unassigned_list(a).len() > 1 ==> first_other(cnf)(a) != jw_rule(cnf)(a).0) by {
        let list = unassigned_list(a);
        crate::solver::branching::lemma_unassigned_upto(a, a.len() as int);
        assert(list.contains(list[0]));
        if list.len() > 1 {
            assert(list.contains(list[1]));
            assert(list[0].0 < list[1].0);
        }
    }
}

/// The decision of the perturbed search at depth `depth` on the node `p`:
/// the replayed one below `perturb_idx`, `prule`'s variable at
/// `perturb_idx`, `jw_rule`'s below that; values other than replayed ones
/// follow the scores.
pub open spec fn perturbed_choice(
    cnf: &Cnf,
    p: Seq<Option<bool>>,
    choices: Seq<(Var, bool)>,
    pidx: int,
    depth: int,
    prule: spec_fn(Seq<Option<bool>>) -> Var,
) -> (Var, bool) {
    if depth < pidx {
        choices[depth]
    } else if depth == pidx {
        (prule(p), prefers_true(cnf, p, prule(p)))
    } else {
        jw_rule(cnf)(p)
    }
}

/// What the perturbed search of `cnf` from `a` at depth `depth` does when
/// its perturbed decisions follow `prule`: whether it finds a model, its
/// decisions and its backtracks.
pub open spec fn perturbed_tree(
    cnf: &Cnf,
    a: Seq<Option<bool>>,
    choices: Seq<(Var, bool)>,
    pidx: int,
    depth: int,
    prule: spec_fn(Seq<Option<bool>>) -> Var,
) -> (bool, nat, nat)
    decreases unassigned_count(a), if depth < pidx { pidx - depth } else { 0 }, 1nat,
{
    match propagated(cnf, a) {
        None => (false, 0, 0),
        Some(p) => if all_satisfied_under(cnf, p) {
            (true, 0, 0)
        } else if p.len() == a.len() && unassigned_count(p) <= unassigned_count(a) {
            perturbed_branch(cnf, p, choices, pidx, depth, prule)
        } else {
            (false, 0, 0)
        },
    }
}

/// The perturbed search branching at the node `p` on its decision there
/// (`perturbed_choice`): one decision, the first value when it can be
/// assigned, then a backtrack and the other value when it can be assigned.
pub open spec fn perturbed_branch(
    cnf: &Cnf,
    p: Seq<Option<bool>>,
    choices: Seq<(Var, bool)>,
    pidx: int,
    depth: int,
    prule: spec_fn(Seq<Option<bool>>) -> Var,
) -> (bool, nat, nat)
    decreases unassigned_count(p), if depth < pidx { pidx - depth } else { 0 }, 0nat,
{
    let c = perturbed_choice(cnf, p, choices, pidx, depth, prule);
    let v = c.0;
    let val = c.1;
    if 0 <= depth && 1 <= v.0 <= p.len() && (depth < pidx ==> depth < choices.len()) && (depth >= pidx ==> p[v.slot()]
        is None) {
        proof {
            if p[v.slot()] is None {
                lemma_unassigned_below_update(p, v.slot(), Some(val), p.len() as int);
                lemma_unassigned_below_update(p, v.slot(), Some(!val), p.len() as int);
            } else {
                assert(depth < pidx);
                if p[v.slot()] == Some(val) {
                    assert(p.update(v.slot(), Some(val)) =~= p);
                } else {
                    assert(p[v.slot()]->0 != val);
                    assert(p[v.slot()] == Some(!val));
                    assert(p.update(v.slot(), Some(!val)) =~= p);
                }
            }
        }
        let t1 = if p[v.slot()] != Some(!val) {
            perturbed_tree(cnf, p.update(v.slot(), Some(val)), choices, pidx, depth + 1, prule)
        } else {
            (false, 0, 0)
        };
        if t1.0 {
            (true, 1 + t1.1, t1.2)
        } else {
            let t2 = if p[v.slot()] != Some(val) {
                perturbed_tree(cnf, p.update(v.slot(), Some(!val)), choices, pidx, depth + 1, prule)
            } else {
                (false, 0, 0)
            };
            (t2.0, 1 + t1.1 + t2.1, t1.2 + 1 + t2.2)
        }
    } else {
        (false, 0, 0)
    }
}

/// What propagation gives keeps every value of what it started from.
proof fn lemma_propagated_refines(cnf: &Cnf, a: Seq<Option<bool>>)
    ensures
        propagated(cnf, a) matches Some(p) ==> refines(p, a),
{
    reveal(propagated);
}

/// The perturbed search from `a` reads its rule only at assignments that
/// keep every value of `a`.
proof fn lemma_tree_agree(
    cnf: &Cnf,
    a: Seq<Option<bool>>,
    choices: Seq<(Var, bool)>,
    pidx: int,
    depth: int,
    r1: spec_fn(Seq<Option<bool>>) -> Var,
    r2: spec_fn(Seq<Option<bool>>) -> Var,
)
    requires
        forall|b: Seq<Option<bool>>| #[trigger] refines(b, a) ==> r1(b) == r2(b),
    ensures
        perturbed_tree(cnf, a, choices, pidx, depth, r1) == perturbed_tree(cnf, a, choices, pidx, depth, r2),
    decreases unassigned_count(a), if depth < pidx { pidx - depth } else { 0 }, 1nat,
{
    lemma_propagated_refines(cnf, a);
    if let Some(p) = propagated(cnf, a) {
        if !all_satisfied_under(cnf, p) && p.len() == a.len() && unassigned_count(p) <= unassigned_count(a) {
            assert forall|b: Seq<Option<bool>>| #[trigger] refines(b, p) implies r1(b) == r2(b) by {
                assert(refines(b, a));
            }
            lemma_branch_agree(cnf, p, choices, pidx, depth, r1, r2);
        }
    }
}

/// The perturbed branching at `p` reads its rule only at assignments that
/// keep every value of `p`.
proof fn lemma_branch_agree(
    cnf: &Cnf,
    p: Seq<Option<bool>>,
    choices: Seq<(Var, bool)>,
    pidx: int,
    depth: int,
    r1: spec_fn(Seq<Option<bool>>) -> Var,
    r2: spec_fn(Seq<Option<bool>>) -> Var,
)
    requires
        forall|b: Seq<Option<bool>>| #[trigger] refines(b, p) ==> r1(b) == r2(b),
    ensures
        perturbed_branch(cnf, p, choices, pidx, depth, r1) == perturbed_branch(cnf, p, choices, pidx, depth, r2),
    decreases unassigned_count(p), if depth < pidx { pidx - depth } else { 0 }, 0nat,
{
    assert(refines(p, p));
    let c = perturbed_choice(cnf, p, choices, pidx, depth, r1);
    assert(c == perturbed_choice(cnf, p, choices, pidx, depth, r2));
    let v = c.0;
    let val = c.1;
    if 0 <= depth && 1 <= v.0 <= p.len() && (depth < pidx ==> depth < choices.len()) && (depth >= pidx ==> p[v.slot()]
        is None) {
        if p[v.slot()] is None {
            lemma_unassigned_below_update(p, v.slot(), Some(val), p.len() as int);
            lemma_unassigned_below_update(p, v.slot(), Some(!val), p.len() as int);
        } else {
            if p[v.slot()] == Some(val) {
                assert(p.update(v.slot(), Some(val)) =~= p);
            } else {
                assert(p[v.slot()]->0 != val);
                assert(p[v.slot()] == Some(!val));
                assert(p.update(v.slot(), Some(!val)) =~= p);
            }
        }
        if p[v.slot()] != Some(!val) {
            let u = p.update(v.slot(), Some(val));
            assert forall|b: Seq<Option<bool>>| #[trigger] refines(b, u) implies r1(b) == r2(b) by {
                assert forall|i: int| 0 <= i < p.len() && (#[trigger] p[i]) is Some implies b[i] == p[i] by {
                    assert(u[i] == p[i]);
                }
                assert(refines(b, p));
            }
            lemma_tree_agree(cnf, u, choices, pidx, depth + 1, r1, r2);
        }
        if p[v.slot()] != Some(val) {
            let u = p.update(v.slot(), Some(!val));
            assert forall|b: Seq<Option<bool>>| #[trigger] refines(b, u) implies r1(b) == r2(b) by {
                assert forall|i: int| 0 <= i < p.len() && (#[trigger] p[i]) is Some implies b[i] == p[i] by {
                    assert(u[i] == p[i]);
                }
                assert(refines(b, p));
            }
            lemma_tree_agree(cnf, u, choices, pidx, depth + 1, r1, r2);
        }
    }
}

/// The perturbed search's result `found` and counters moving from
/// `(d0, b0)` to `(d1, b1)` are those of the tree `t`, capped at `u64::MAX`.
pub open spec fn tree_counts(t: (bool, nat, nat), found: bool, d0: u64, b0: u64, d1: u64, b1: u64) -> bool {
    &&& t.0 <==> found
    &&& d1 == sat64(d0 + t.1)
    &&& b1 == sat64(b0 + t.2)
}

/// Branching at `p` on `var`, first with `value`, the first branch going as
/// `pr1` says and the second as `pr2` says.
pub open spec fn branch_from(
    cnf: &Cnf,
    p: Seq<Option<bool>>,
    choices: Seq<(Var, bool)>,
    pidx: int,
    depth: int,
    var: Var,
    value: bool,
    pr1: spec_fn(Seq<Option<bool>>) -> Var,
    pr2: spec_fn(Seq<Option<bool>>) -> Var,
) -> (bool, nat, nat) {
    let t1 = if p[var.slot()] != Some(!value) {
        perturbed_tree(cnf, p.update(var.slot(), Some(value)), choices, pidx, depth + 1, pr1)
    } else {
        (false, 0, 0)
    };
    if t1.0 {
        (true, 1 + t1.1, t1.2)
    } else {
        let t2 = if p[var.slot()] != Some(value) {
            perturbed_tree(cnf, p.update(var.slot(), Some(!value)), choices, pidx, depth + 1, pr2)
        } else {
            (false, 0, 0)
        };
        (t2.0, 1 + t1.1 + t2.1, t1.2 + 1 + t2.2)
    }
}

/// The rules of the two branches at `p` (and `var` at `p` itself at the
/// perturbed depth) make one rule the search can meet, under which the
/// branching at `p` is made of the two branches.
proof fn lemma_branch_rule(
    cnf: &Cnf,
    p: Seq<Option<bool>>,
    choices: Seq<(Var, bool)>,
    pidx: int,
    depth: int,
    var: Var,
    value: bool,
    pr1: spec_fn(Seq<Option<bool>>) -> Var,
    pr2: spec_fn(Seq<Option<bool>>) -> Var,
) -> (c: spec_fn(Seq<Option<bool>>) -> Var)
    requires
        fair_perturbation(cnf, pr1),
        fair_perturbation(cnf, pr2),
        0 <= depth,
        p.len() == cnf.num_vars,
        1 <= var.0 <= p.len(),
        depth < pidx ==> depth < choices.len() && (var, value) == choices[depth],
        depth == pidx ==> value == prefers_true(cnf, p, var) && unassigned_list(p).contains(var) && (unassigned_list(
            p,
        ).len() > 1 ==> var != jw_rule(cnf)(p).0),
        depth > pidx ==> (var, value) == jw_rule(cnf)(p),
        depth >= pidx ==> p[var.slot()] is None,
    ensures
        fair_perturbation(cnf, c),
        perturbed_branch(cnf, p, choices, pidx, depth, c) == branch_from(cnf, p, choices, pidx, depth, var, value, pr1, pr2),
{
    let c = |b: Seq<Option<bool>>|
        if depth == pidx && b == p {
            var
        } else if b[var.slot()] == Some(value) {
            pr1(b)
        } else {
            pr2(b)
        };
    assert forall|b: Seq<Option<bool>>|
        b.len() == cnf.num_vars && unassigned_list(b).len() > 0 implies #[trigger] unassigned_list(b).contains(c(b)) && (
        unassigned_list(b).len() > 1 ==> c(b) != jw_rule(cnf)(b).0) by {
        if depth == pidx && b == p {
        } else if b[var.slot()] == Some(value) {
            assert(unassigned_list(b).contains(pr1(b)));
        } else {
            assert(unassigned_list(b).contains(pr2(b)));
        }
    }
    assert(perturbed_choice(cnf, p, choices, pidx, depth, c) == (var, value));
    if p[var.slot()] != Some(!value) {
        let u = p.update(var.slot(), Some(value));
        assert forall|b: Seq<Option<bool>>| #[trigger] refines(b, u) implies c(b) == pr1(b) by {
            assert(b[var.slot()] == u[var.slot()]);
        }
        lemma_tree_agree(cnf, u, choices, pidx, depth + 1, c, pr1);
    }
    if p[var.slot()] != Some(value) {
        let u = p.update(var.slot(), Some(!value));
        assert forall|b: Seq<Option<bool>>| #[trigger] refines(b, u) implies c(b) == pr2(b) by {
            assert(b[var.slot()] == u[var.slot()]);
        }
        lemma_tree_agree(cnf, u, choices, pidx, depth + 1, c, pr2);
    }
    c
}

/// The branching at `p` when its first branch finds a model: some rule the
/// search can meet gives its result and counters.
proof fn lemma_first_branch_wins(
    cnf: &Cnf,
    p: Seq<Option<bool>>,
    choices: Seq<(Var, bool)>,
    pidx: int,
    depth: int,
    var: Var,
    value: bool,
    pr1: spec_fn(Seq<Option<bool>>) -> Var,
    d0: u64,
    b0: u64,
    d1: u64,
    b1: u64,
)
    requires
        fair_perturbation(cnf, pr1),
        0 <= depth,
        p.len() == cnf.num_vars,
        1 <= var.0 <= p.len(),
        depth < pidx ==> depth < choices.len() && (var, value) == choices[depth],
        depth == pidx ==> value == prefers_true(cnf, p, var) && unassigned_list(p).contains(var) && (unassigned_list(
            p,
        ).len() > 1 ==> var != jw_rule(cnf)(p).0),
        depth > pidx ==> (var, value) == jw_rule(cnf)(p),
        depth >= pidx ==> p[var.slot()] is None,
        p[var.slot()] != Some(!value),
        tree_counts(
            perturbed_tree(cnf, p.update(var.slot(), Some(value)), choices, pidx, depth + 1, pr1),
            true,
            sat64(d0 + 1),
            b0,
            d1,
            b1,
        ),
    ensures
        exists|c: spec_fn(Seq<Option<bool>>) -> Var| #[trigger] fair_perturbation(cnf, c) && tree_counts(
            perturbed_branch(cnf, p, choices, pidx, depth, c),
            true,
            d0,
            b0,
            d1,
            b1,
        ),
{
    lemma_first_other_fair(cnf);
    let c = lemma_branch_rule(cnf, p, choices, pidx, depth, var, value, pr1, first_other(cnf));
    let t = perturbed_tree(cnf, p.update(var.slot(), Some(value)), choices, pidx, depth + 1, pr1);
    lemma_sat_add(d0 as int, 1, t.1 as int);
    assert(tree_counts(perturbed_branch(cnf, p, choices, pidx, depth, c), true, d0, b0, d1, b1));
}

/// The branching at `p` when its first branch finds no model (or cannot be
/// taken): some rule the search can meet gives its result and counters,
/// from those of the two branches.
proof fn lemma_second_branch(
    cnf: &Cnf,
    p: Seq<Option<bool>>,
    choices: Seq<(Var, bool)>,
    pidx: int,
    depth: int,
    var: Var,
    value: bool,
    pr1: spec_fn(Seq<Option<bool>>) -> Var,
    pr2: spec_fn(Seq<Option<bool>>) -> Var,
    tt1: (bool, nat, nat),
    tt2: (bool, nat, nat),
    found: bool,
    d0: u64,
    b0: u64,
    d1: u64,
    b1: u64,
)
    requires
        fair_perturbation(cnf, pr1),
        fair_perturbation(cnf, pr2),
        0 <= depth,
        p.len() == cnf.num_vars,
        1 <= var.0 <= p.len(),
        depth < pidx ==> depth < choices.len() && (var, value) == choices[depth],
        depth == pidx ==> value == prefers_true(cnf, p, var) && unassigned_list(p).contains(var) && (unassigned_list(
            p,
        ).len() > 1 ==> var != jw_rule(cnf)(p).0),
        depth > pidx ==> (var, value) == jw_rule(cnf)(p),
        depth >= pidx ==> p[var.slot()] is None,
        tt1 == (if p[var.slot()] != Some(!value) {
            perturbed_tree(cnf, p.update(var.slot(), Some(value)), choices, pidx, depth + 1, pr1)
        } else {
            (false, 0, 0)
        }),
        !tt1.0,
        tt2 == (if p[var.slot()] != Some(value) {
            perturbed_tree(cnf, p.update(var.slot(), Some(!value)), choices, pidx, depth + 1, pr2)
        } else {
            (false, 0, 0)
        }),
        tt2.0 == found,
        d1 == sat64(sat64(d0 + 1 + tt1.1) + tt2.1),
        b1 == sat64(sat64(sat64(b0 + tt1.2) + 1) + tt2.2),
    ensures
        exists|c: spec_fn(Seq<Option<bool>>) -> Var| #[trigger] fair_perturbation(cnf, c) && tree_counts(
            perturbed_branch(cnf, p, choices, pidx, depth, c),
            found,
            d0,
            b0,
            d1,
            b1,
        ),
{
    let c = lemma_branch_rule(cnf, p, choices, pidx, depth, var, value, pr1, pr2);
    lemma_sat_add(d0 as int + 1, tt1.1 as int, tt2.1 as int);
    lemma_sat_add(b0 as int, tt1.2 as int, 1);
    lemma_sat_add(b0 as int + tt1.2, 1, tt2.2 as int);
    assert(tree_counts(perturbed_branch(cnf, p, choices, pidx, depth, c), found, d0, b0, d1, b1));
}

/// The choices `(var, value)` to replay all name declared variables.
pub open spec fn choices_in_range(base_choices: Seq<(Var, bool)>, n: u32) -> bool {
    forall|k: int| 0 <= k < base_choices.len() ==> 1 <= (#[trigger] base_choices[k]).0.0 <= n
}

/// Searches for a model of `cnf` extending `assignment` like `dpll::solve`,
/// except for the decisions: at depths below `perturb_idx` it replays
/// `base_choices[depth]`, at depth `perturb_idx` it branches on a random
/// unassigned variable other than the heuristic's choice (recording both,
/// with their features, the first time), and deeper it takes the first
/// unassigned variable of highest Jeroslow-Wang score without random
/// picks. Values follow the scores. A replayed value that contradicts the
/// assignment makes its branch fail. No decision log is kept.
///
/// A model returned satisfies every clause and keeps every value of
/// `assignment`; `None` means that no model of `cnf` extends `assignment`.
/// The counters move as `tallied` says, with a decision made exactly when
/// one is needed after propagation; whether a model comes back and how far
/// the counters move are what `perturbed_tree` gives for a rule of
/// perturbed decisions that the random draws can make (`fair_perturbation`).
/// When the replay reaches a node at depth `perturb_idx` (`replay_node`),
/// the record is made at that node, with the statistics the call started
/// with, and the search branches there on the recorded perturbed decision
/// first: when some model keeps that node and the perturbed value, the model
/// returned is one of them.
pub fn solve_with_perturbation<B: Brancher>(
    cnf: &Cnf,
    assignment: Assignment,
    state: &mut SolveState<B>,
    base_choices: &Vec<(Var, bool)>,
    perturb_idx: usize,
    rng: &mut StdRng,
    record: &mut Option<PerturbRecord>,
    depth: usize,
) -> (r: Option<Assignment>)
    requires
        cnf.wf(),
        cnf.fits_counters(),
        assignment@.len() == cnf.num_vars,
        old(state).stats.covers(cnf.num_vars as nat),
        perturb_idx <= base_choices@.len(),
        choices_in_range(base_choices@, cnf.num_vars),
        perturb_idx + cnf.num_vars < usize::MAX,
        depth <= perturb_idx || depth - perturb_idx + unassigned_count(assignment@) <= cnf.num_vars,
    ensures
        r matches Some(m) ==> m@.len() == cnf.num_vars && all_satisfied_under(cnf, m@) && refines(m@, assignment@),
        r is None ==> forall|m: Seq<bool>| extends(m, assignment@) ==> !cnf.is_model(m),
        final(state).stats.covers(cnf.num_vars as nat),
        *old(record) is Some ==> *final(record) == *old(record),
        *old(record) is None ==> (*final(record) matches Some(rec) ==> record_fits(cnf, rec, perturb_idx as u32)),
        exists|k: nat, j: nat|
            #[trigger] tallied(old(state).decisions, old(state).backtracks, final(state).decisions, final(state).backtracks, k, j, r is None)
                && (k >= 1 <==> decision_needed(cnf, assignment@)),
        exists|prule: spec_fn(Seq<Option<bool>>) -> Var| #[trigger] fair_perturbation(cnf, prule) && tree_counts(
            perturbed_tree(cnf, assignment@, base_choices@, perturb_idx as int, depth as int, prule),
            r is Some,
            old(state).decisions,
            old(state).backtracks,
            final(state).decisions,
            final(state).backtracks,
        ),
        *old(record) is None && depth <= perturb_idx ==> (replay_node(
            cnf,
            assignment@,
            base_choices@,
            depth as int,
            perturb_idx as int,
        ) matches Some(p) ==> (*final(record) matches Some(rec) && record_made_at(
            cnf,
            rec,
            p,
            old(state).stats,
            perturb_idx as u32,
        ) && (model_within(cnf, p.update(rec.rand_var.slot(), Some(rec.rand_value))) ==> (r matches Some(x) && refines(
            x@,
            p.update(rec.rand_var.slot(), Some(rec.rand_value)),
        ))))),
    decreases unassigned_count(assignment@), if depth < perturb_idx { perturb_idx - depth } else { 0 }, 2nat,
{
    let ghost d0 = state.decisions;
    let ghost b0 = state.backtracks;
    let ghost a0 = assignment@;
    let mut assignment = assignment;
    let n = cnf.num_vars;

    if !unit_propagate(cnf, &mut assignment, &mut state.stats) {
        proof {
            assert(tallied(d0, b0, state.decisions, state.backtracks, 0, 0, true));
            lemma_first_other_fair(cnf);
            assert(propagated(cnf, a0) is None);
            assert(tree_counts(
                perturbed_tree(cnf, a0, base_choices@, perturb_idx as int, depth as int, first_other(cnf)),
                false,
                d0,
                b0,
                state.decisions,
                state.backtracks,
            ));
        }
        return None;
    }
    if all_clauses_satisfied(cnf, &assignment) {
        proof {
            assert(tallied(d0, b0, state.decisions, state.backtracks, 0, 0, false));
            assert(!decision_needed(cnf, a0));
            lemma_first_other_fair(cnf);
            assert(propagated(cnf, a0) == Some(assignment@));
            assert(tree_counts(
                perturbed_tree(cnf, a0, base_choices@, perturb_idx as int, depth as int, first_other(cnf)),
                true,
                d0,
                b0,
                state.decisions,
                state.backtracks,
            ));
        }
        return Some(assignment);
    }
    let ghost a1 = assignment@;
    proof {
        lemma_unassigned_below_refines(a1, a0, a0.len() as int);
        lemma_unassigned_below_le(a1, a1.len() as int);
        lemma_open_formula_has_unassigned(cnf, a1);
    }

    proof {
        assert(decision_needed(cnf, a0));
        assert(propagated(cnf, a0) == Some(a1));
        assert(state.stats == old(state).stats);
    }
    let var;
    let value;
    if depth < perturb_idx {
        let choice = base_choices[depth];
        proof {
            assert(1 <= base_choices@[depth as int].0.0 <= n);
        }
        var = choice.0;
        value = choice.1;
    } else {
        let unassigned = unassigned_vars(cnf, &assignment);
        let scores = jw_scores(cnf, &assignment);
        proof {
            crate::solver::branching::lemma_unassigned_upto(a1, a1.len() as int);
        }
        let jw_var = best_var(&unassigned, &scores, Ghost(cnf), Ghost(a1));
        proof {
            let i = choose|i: int| crate::solver::branching::is_first_best(cnf, a1, unassigned@, i) && unassigned@[i] == jw_var;
            assert(unassigned@.contains(jw_var));
            assert(unassigned@ == unassigned_list(a1));
            let i2 = choose|i: int| is_first_best(cnf, a1, unassigned_list(a1), i);
            crate::solver::lemma_first_best_unique(cnf, a1, unassigned_list(a1), i, i2);
            assert(jw_rule(cnf)(a1).0 == jw_var);
        }
        let jw_value = value_for(&scores, jw_var, Ghost(cnf), Ghost(a1));

        if depth == perturb_idx {
            proof {
                let list = unassigned_list(a1);
                if list.len() > 1 {
                    let other = if list[0] != jw_var { 0int } else { 1int };
                    assert(list[other] != jw_var) by {
                        if other == 1 {
                            assert(list[0].0 < list[1].0);
                        }
                    }
                    assert(unassigned@[other] != jw_var);
                }
            }
            let rand_var = random_other(&unassigned, jw_var, rng);
            let rand_value = value_for(&scores, rand_var, Ghost(cnf), Ghost(a1));
            if record.is_none() {
                let trail_depth = #[verifier::truncate] (depth as u32);
                proof {
                    crate::solver::features::lemma_count_where_le(cnf.clauses@.len() as int, active_pred(cnf, a1), active_pred(cnf, a1));
                }
                let jw_features = compute_features(cnf, &assignment, &state.stats, jw_var, trail_depth);
                let rand_features = compute_features(cnf, &assignment, &state.stats, rand_var, trail_depth);
                let rec = PerturbRecord { jw_var, jw_value, jw_features, rand_var, rand_value, rand_features };
                proof {
                    assert(trail_depth == perturb_idx as u32);
                    let list = unassigned_list(a1);
                    assert(unassigned@ == list);
                    if list.len() > 1 {
                        let other = if list[0] != jw_var { 0int } else { 1int };
                        assert(list[other] != jw_var) by {
                            if other == 1 {
                                assert(list[0].0 < list[1].0);
                            }
                        }
                    }
                    assert(record_made_at(cnf, rec, a1, state.stats, perturb_idx as u32));
                }
                *record = Some(rec);
            }
            var = rand_var;
            value = rand_value;
        } else {
            var = jw_var;
            value = jw_value;
        }
        proof {
            assert(unassigned@.contains(var));
            let k = choose|k: int| 0 <= k < unassigned@.len() && unassigned@[k] == var;
            assert(a1[var.slot()] is None);
        }
    }
    let ghost d_call = state.decisions;
    let ghost b_call = state.backtracks;
    let r = jw_branch(cnf, assignment, state, base_choices, perturb_idx, rng, record, depth, var, value);
    proof {
        assert(d_call == d0 && b_call == b0);
        let pr = choose|pr: spec_fn(Seq<Option<bool>>) -> Var| #[trigger] fair_perturbation(cnf, pr) && tree_counts(
            perturbed_branch(cnf, a1, base_choices@, perturb_idx as int, depth as int, pr),
            r is Some,
            d_call,
            b_call,
            state.decisions,
            state.backtracks,
        );
        assert(perturbed_tree(cnf, a0, base_choices@, perturb_idx as int, depth as int, pr) == perturbed_branch(
            cnf,
            a1,
            base_choices@,
            perturb_idx as int,
            depth as int,
            pr,
        ));
        if r is Some {
            assert(refines(r->0@, a0)) by {
                assert forall|i: int| 0 <= i < a0.len() && (#[trigger] a0[i]) is Some implies r->0@[i] == a0[i] by {
                    assert(a1[i] == a0[i]);
                }
            }
        }
    }
    r
}

/// Branches on `var` in the perturbed search: tries `value` (when it can
/// be assigned), then counts a backtrack and a flip and tries `!value` (when
/// it can be assigned, `jw_second`); one decision is counted.
#[verifier::spinoff_prover]
#[verifier::rlimit(100)]
fn jw_branch<B: Brancher>(
    cnf: &Cnf,
    assignment: Assignment,
    state: &mut SolveState<B>,
    base_choices: &Vec<(Var, bool)>,
    perturb_idx: usize,
    rng: &mut StdRng,
    record: &mut Option<PerturbRecord>,
    depth: usize,
    var: Var,
    value: bool,
) -> (r: Option<Assignment>)
    requires
        cnf.wf(),
        cnf.fits_counters(),
        assignment@.len() == cnf.num_vars,
        old(state).stats.covers(cnf.num_vars as nat),
        perturb_idx <= base_choices@.len(),
        choices_in_range(base_choices@, cnf.num_vars),
        perturb_idx + cnf.num_vars < usize::MAX,
        depth <= perturb_idx || depth - perturb_idx + unassigned_count(assignment@) <= cnf.num_vars,
        1 <= var.0 <= cnf.num_vars,
        depth >= perturb_idx ==> assignment@[var.slot()] is None,
        depth < perturb_idx ==> (var, value) == base_choices@[depth as int],
        depth == perturb_idx ==> value == prefers_true(cnf, assignment@, var) && unassigned_list(assignment@).contains(var)
            && (unassigned_list(assignment@).len() > 1 ==> var != jw_rule(cnf)(assignment@).0),
        depth > perturb_idx ==> (var, value) == jw_rule(cnf)(assignment@),
    ensures
        r matches Some(m) ==> m@.len() == cnf.num_vars && all_satisfied_under(cnf, m@) && refines(m@, assignment@),
        r is None ==> forall|m: Seq<bool>| extends(m, assignment@) ==> !cnf.is_model(m),
        final(state).stats.covers(cnf.num_vars as nat),
        *old(record) is Some ==> *final(record) == *old(record),
        *old(record) is None ==> (*final(record) matches Some(rec) ==> record_fits(cnf, rec, perturb_idx as u32)),
        exists|prule: spec_fn(Seq<Option<bool>>) -> Var| #[trigger] fair_perturbation(cnf, prule) && tree_counts(
            perturbed_branch(cnf, assignment@, base_choices@, perturb_idx as int, depth as int, prule),
            r is Some,
            old(state).decisions,
            old(state).backtracks,
            final(state).decisions,
            final(state).backtracks,
        ),
        exists|k: nat, j: nat|
            #[trigger] tallied(old(state).decisions, old(state).backtracks, final(state).decisions, final(state).backtracks, k, j, r is None)
                && k >= 1,
        assignment@[var.slot()] != Some(!value) && model_within(cnf, assignment@.update(var.slot(), Some(value))) ==> (r matches Some(
            x,
        ) && refines(x@, assignment@.update(var.slot(), Some(value)))),
        *old(record) is None && depth < perturb_idx && assignment@[var.slot()] != Some(!value) ==> (replay_node(
            cnf,
            assignment@.update(var.slot(), Some(value)),
            base_choices@,
            depth + 1,
            perturb_idx as int,
        ) matches Some(p) ==> (*final(record) matches Some(rec) && record_made_at(
            cnf,
            rec,
            p,
            old(state).stats,
            perturb_idx as u32,
        ) && (model_within(cnf, p.update(rec.rand_var.slot(), Some(rec.rand_value))) ==> (r matches Some(x) && refines(
            x@,
            p.update(rec.rand_var.slot(), Some(rec.rand_value)),
        ))))),
    decreases unassigned_count(assignment@), if depth < perturb_idx { perturb_idx - depth } else { 0 }, 1nat,
{
    let ghost d0 = state.decisions;
    let ghost b0 = state.backtracks;
    let ghost a1 = assignment@;
    proof {
        lemma_unassigned_below_le(a1, a1.len() as int);
    }
    state.decisions = state.decisions.saturating_add(1);
    let ghost d1 = state.decisions;
    let ghost mut k1: nat = 0;
    let ghost mut j1: nat = 0;
    let ghost mut pr1 = first_other(cnf);
    let ghost mut tt1: (bool, nat, nat) = (false, 0, 0);
    proof {
        lemma_first_other_fair(cnf);
    }
    let mut try_first = assignment.duplicate();
    if try_first.assign(var, value) {
        let ghost t1 = try_first@;
        proof {
            if a1[var.slot()] is None {
                lemma_unassigned_below_update(a1, var.slot(), Some(value), a1.len() as int);
            } else {
                assert(t1 =~= a1);
            }
            assert(t1 =~= a1.update(var.slot(), Some(value)));
        }
        if let Some(model) = solve_with_perturbation(cnf, try_first, state, base_choices, perturb_idx, rng, record, depth + 1) {
            proof {
                assert forall|i: int| 0 <= i < a1.len() && (#[trigger] a1[i]) is Some implies model@[i] == a1[i] by {
                    assert(t1[i] == a1[i]);
                }
                let (k, j) = choose|k: nat, j: nat|
                    #[trigger] tallied(d1, b0, state.decisions, state.backtracks, k, j, false) && (k >= 1 <==> decision_needed(cnf, t1));
                lemma_sat_add(d0 as int, 1, k as int);
                assert(tallied(d0, b0, state.decisions, state.backtracks, 1 + k, j, false));
                assert(exists|c: spec_fn(Seq<Option<bool>>) -> Var| #[trigger] fair_perturbation(cnf, c) && tree_counts(
                    perturbed_branch(cnf, a1, base_choices@, perturb_idx as int, depth as int, c),
                    true,
                    d0,
                    b0,
                    state.decisions,
                    state.backtracks,
                )) by {
                    let pr = choose|pr: spec_fn(Seq<Option<bool>>) -> Var| #[trigger] fair_perturbation(cnf, pr) && tree_counts(
                        perturbed_tree(cnf, t1, base_choices@, perturb_idx as int, depth + 1, pr),
                        true,
                        d1,
                        b0,
                        state.decisions,
                        state.backtracks,
                    );
                    assert(t1 == a1.update(var.slot(), Some(value)));
                    lemma_first_branch_wins(
                        cnf, a1, base_choices@, perturb_idx as int, depth as int, var, value, pr, d0, b0, state.decisions,
                        state.backtracks,
                    );
                }
            }
            return Some(model);
        }
        proof {
            let (k, j) = choose|k: nat, j: nat|
                #[trigger] tallied(d1, b0, state.decisions, state.backtracks, k, j, true) && (k >= 1 <==> decision_needed(cnf, t1));
            k1 = k;
            j1 = j;
            pr1 = choose|pr: spec_fn(Seq<Option<bool>>) -> Var| #[trigger] fair_perturbation(cnf, pr) && tree_counts(
                perturbed_tree(cnf, t1, base_choices@, perturb_idx as int, depth + 1, pr),
                false,
                d1,
                b0,
                state.decisions,
                state.backtracks,
            );
            tt1 = perturbed_tree(cnf, t1, base_choices@, perturb_idx as int, depth + 1, pr1);
        }
    }
    let ghost d2 = state.decisions;
    let ghost b2 = state.backtracks;
    proof {
        lemma_sat_add(d0 as int, 1, k1 as int);
        lemma_sat_add(d0 as int, 1, tt1.1 as int);
        assert(d2 == sat64(d0 + 1 + tt1.1));
        assert(b2 == sat64(b0 + tt1.2));
        assert(!tt1.0);
        assert(tt1 == (if a1[var.slot()] != Some(!value) {
            perturbed_tree(cnf, a1.update(var.slot(), Some(value)), base_choices@, perturb_idx as int, depth + 1, pr1)
        } else {
            (false, 0, 0)
        }));
    }
    let r = jw_second(cnf, assignment, state, base_choices, perturb_idx, rng, record, depth, var, value);
    proof {
        let (k2, j2) = choose|k: nat, j: nat|
            #[trigger] tallied(d2, sat64(b2 + 1), state.decisions, state.backtracks, k, j, r is None);
        lemma_sat_add(d0 as int + 1, k1 as int, k2 as int);
        lemma_sat_add(b0 as int, k1 as int, 1);
        lemma_sat_add(b0 as int + k1, 1, j2 as int);
        assert(tallied(d0, b0, state.decisions, state.backtracks, 1 + k1 + k2, k1 + 1 + j2, r is None));
        assert(exists|c: spec_fn(Seq<Option<bool>>) -> Var| #[trigger] fair_perturbation(cnf, c) && tree_counts(
            perturbed_branch(cnf, a1, base_choices@, perturb_idx as int, depth as int, c),
            r is Some,
            d0,
            b0,
            state.decisions,
            state.backtracks,
        )) by {
            let pr2 = choose|pr: spec_fn(Seq<Option<bool>>) -> Var| #[trigger] fair_perturbation(cnf, pr) && tree_counts(
                second_tree(cnf, a1, base_choices@, perturb_idx as int, depth as int, var, value, pr),
                r is Some,
                d2,
                sat64(b2 + 1),
                state.decisions,
                state.backtracks,
            );
            let tt2 = second_tree(cnf, a1, base_choices@, perturb_idx as int, depth as int, var, value, pr2);
            lemma_second_branch(
                cnf, a1, base_choices@, perturb_idx as int, depth as int, var, value, pr1, pr2, tt1, tt2, r is Some, d0, b0,
                state.decisions, state.backtracks,
            );
        }
        if r is None {
            assert forall|m: Seq<bool>| extends(m, a1) implies !cnf.is_model(m) by {
                if cnf.is_model(m) && m[var.slot()] == value {
                    if a1[var.slot()] is None {
                        assert(extends(m, a1.update(var.slot(), Some(value))));
                    }
                }
            }
        }
    }
    r
}

/// The tree of the second branch at `p` on `var`: the search with
/// `!value`, when it can be assigned.
pub open spec fn second_tree(
    cnf: &Cnf,
    p: Seq<Option<bool>>,
    choices: Seq<(Var, bool)>,
    pidx: int,
    depth: int,
    var: Var,
    value: bool,
    prule: spec_fn(Seq<Option<bool>>) -> Var,
) -> (bool, nat, nat) {
    if p[var.slot()] != Some(value) {
        perturbed_tree(cnf, p.update(var.slot(), Some(!value)), choices, pidx, depth + 1, prule)
    } else {
        (false, 0, 0)
    }
}

/// The second branch of `jw_branch` at `assignment`: counts a backtrack and
/// a flip of `var`, then tries `!value` when it can be assigned.
#[verifier::spinoff_prover]
#[verifier::rlimit(80)]
fn jw_second<B: Brancher>(
    cnf: &Cnf,
    assignment: Assignment,
    state: &mut SolveState<B>,
    base_choices: &Vec<(Var, bool)>,
    perturb_idx: usize,
    rng: &mut StdRng,
    record: &mut Option<PerturbRecord>,
    depth: usize,
    var: Var,
    value: bool,
) -> (r: Option<Assignment>)
    requires
        cnf.wf(),
        cnf.fits_counters(),
        assignment@.len() == cnf.num_vars,
        old(state).stats.covers(cnf.num_vars as nat),
        perturb_idx <= base_choices@.len(),
        choices_in_range(base_choices@, cnf.num_vars),
        perturb_idx + cnf.num_vars < usize::MAX,
        depth <= perturb_idx || depth - perturb_idx + unassigned_count(assignment@) <= cnf.num_vars,
        1 <= var.0 <= cnf.num_vars,
        depth >= perturb_idx ==> assignment@[var.slot()] is None,
    ensures
        r matches Some(m) ==> m@.len() == cnf.num_vars && all_satisfied_under(cnf, m@) && refines(m@, assignment@),
        r is None ==> forall|m: Seq<bool>| extends(m, assignment@) && m[var.slot()] != value ==> !cnf.is_model(m),
        final(state).stats.covers(cnf.num_vars as nat),
        *old(record) is Some ==> *final(record) == *old(record),
        *old(record) is None ==> (*final(record) matches Some(rec) ==> record_fits(cnf, rec, perturb_idx as u32)),
        exists|k: nat, j: nat|
            #[trigger] tallied(old(state).decisions, sat64(old(state).backtracks + 1), final(state).decisions, final(state).backtracks, k, j, r is None),
        exists|prule: spec_fn(Seq<Option<bool>>) -> Var| #[trigger] fair_perturbation(cnf, prule) && tree_counts(
            second_tree(cnf, assignment@, base_choices@, perturb_idx as int, depth as int, var, value, prule),
            r is Some,
            old(state).decisions,
            sat64(old(state).backtracks + 1),
            final(state).decisions,
            final(state).backtracks,
        ),
    decreases unassigned_count(assignment@), if depth < perturb_idx { perturb_idx - depth } else { 0 }, 0nat,
{
    let ghost d2 = state.decisions;
    let ghost a1 = assignment@;
    proof {
        lemma_unassigned_below_le(a1, a1.len() as int);
        lemma_first_other_fair(cnf);
    }
    state.backtracks = state.backtracks.saturating_add(1);
    state.stats.inc_flip(var);
    let ghost b3 = state.backtracks;
    proof {
        assert(b3 == sat64(old(state).backtracks + 1));
        assert(d2 == old(state).decisions);
    }
    let mut try_second = assignment;
    if try_second.assign(var, !value) {
        let ghost t2 = try_second@;
        proof {
            if a1[var.slot()] is None {
                lemma_unassigned_below_update(a1, var.slot(), Some(!value), a1.len() as int);
            } else {
                assert(t2 =~= a1);
            }
            assert(t2 =~= a1.update(var.slot(), Some(!value)));
        }
        let r = solve_with_perturbation(cnf, try_second, state, base_choices, perturb_idx, rng, record, depth + 1);
        proof {
            if r is Some {
                let model = r->0;
                assert forall|i: int| 0 <= i < a1.len() && (#[trigger] a1[i]) is Some implies model@[i] == a1[i] by {
                    assert(t2[i] == a1[i]);
                }
            } else {
                assert forall|m: Seq<bool>| extends(m, a1) && m[var.slot()] != value implies !cnf.is_model(m) by {
                    assert(extends(m, t2));
                }
            }
            let (k, j) = choose|k: nat, j: nat|
                #[trigger] tallied(d2, b3, state.decisions, state.backtracks, k, j, r is None) && (k >= 1 <==> decision_needed(cnf, t2));
            assert(tallied(d2, b3, state.decisions, state.backtracks, k, j, r is None));
        }
        r
    } else {
        proof {
            assert(tallied(d2, b3, state.decisions, state.backtracks, 0, 0, true));
            assert(tree_counts(
                second_tree(cnf, a1, base_choices@, perturb_idx as int, depth as int, var, value, first_other(cnf)),
                false,
                d2,
                b3,
                state.decisions,
                state.backtracks,
            ));
        }
        None
    }
}

/// What the perturbed network search saw at the perturbed decision: the
/// replayed decision of the first search and the perturbed one made
/// instead, with their features.
#[derive(Clone, Copy, Debug)]
pub struct NnuePerturbRecord {
    pub base_var: Var,
    pub base_value: bool,
    pub base_features: FeatureVector,
    pub perturb_var: Var,
    pub perturb_value: bool,
    pub perturb_features: FeatureVector,
}

/// `rec` was made at assignment `a` with statistics `stats` at trail depth
/// `depth`, where `choice` was the decision to replay: its replayed decision
/// is `choice`, its perturbed variable is unassigned and takes the value
/// the Jeroslow-Wang scores prefer, and the features are those of the two
/// variables there.
pub open spec fn nnue_record_made_at(
    cnf: &Cnf,
    rec: NnuePerturbRecord,
    choice: (Var, bool),
    a: Seq<Option<bool>>,
    stats: Stats,
    depth: u32,
) -> bool {
    &&& a.len() == cnf.num_vars
    &&& rec.base_var == choice.0
    &&& rec.base_value == choice.1
    &&& unassigned_list(a).contains(rec.perturb_var)
    &&& rec.perturb_value == prefers_true(cnf, a, rec.perturb_var)
    &&& rec.base_features == features_of(cnf, a, &stats, rec.base_var, depth)
    &&& rec.perturb_features == features_of(cnf, a, &stats, rec.perturb_var, depth)
}

/// `rec` was made at some point of the search at trail depth `depth`, with
/// `choice` to replay there.
pub open spec fn nnue_record_fits(cnf: &Cnf, rec: NnuePerturbRecord, choice: (Var, bool), depth: u32) -> bool {
    exists|a: Seq<Option<bool>>, stats: Stats| #[trigger] nnue_record_made_at(cnf, rec, choice, a, stats, depth)
}

/// The counters of a perturbed network search.
pub struct NnuePerturbState {
    pub stats: Stats,
    pub decisions: u64,
    pub backtracks: u64,
}

/// A variable of `candidates` other than `base_var`, drawn uniformly by
/// repeated draws from `rng`; the only candidate when there is one. After
/// `u64::MAX` draws that all hit `base_var` it stops drawing and takes the
/// first other candidate, or the first candidate when all are `base_var`
/// (no draw can succeed then).
fn pick_other_candidate(candidates: &Vec<Var>, base_var: Var, rng: &mut StdRng) -> (v: Var)
    requires
        candidates@.len() > 0,
    ensures
        candidates@.contains(v),
        candidates@.len() > 1 && (exists|k: int| 0 <= k < candidates@.len() && candidates@[k] != base_var) ==> v != base_var,
{
    if candidates.len() == 1 {
        assert(candidates@[0] == candidates[0]);
        return candidates[0];
    }
    let mut budget: u64 = u64::MAX;
    while budget > 0
        invariant
            candidates@.len() > 1,
        decreases budget,
    {
        let idx = draw_below(rng, candidates.len());
        let candidate = candidates[idx];
        if candidate != base_var {
            assert(candidates@[idx as int] == candidate);
            return candidate;
        }
        budget = budget - 1;
    }
    let mut k: usize = 0;
    while k < candidates.len()
        invariant
            k <= candidates@.len(),
            candidates@.len() > 1,
            forall|t: int| 0 <= t < k ==> candidates@[t] == base_var,
        decreases candidates@.len() - k,
    {
        if candidates[k] != base_var {
            assert(candidates@[k as int] == candidates[k as int]);
            return candidates[k];
        }
        k = k + 1;
    }
    assert(candidates@[0] == candidates[0]);
    candidates[0]
}

/// The perturbed decision of a network search at `assignment`: a variable
/// drawn from `rng` among the `top_k` best of `ranked` and one random
/// unassigned variable, other than the replayed `choice` when it can be,
/// with the value the scores prefer. The first time, it records the
/// replayed and the perturbed decisions with their features.
fn nnue_perturbed_decision(
    cnf: &Cnf,
    assignment: &Assignment,
    stats: &Stats,
    ranked: &Vec<Var>,
    unassigned: &Vec<Var>,
    scores: &JwScores,
    choice: (Var, bool),
    trail_depth: u32,
    rng: &mut StdRng,
    record: &mut Option<NnuePerturbRecord>,
    top_k: usize,
) -> (r: (Var, bool))
    requires
        cnf.wf(),
        cnf.fits_counters(),
        assignment@.len() == cnf.num_vars,
        stats.covers(cnf.num_vars as nat),
        unassigned@ == unassigned_list(assignment@),
        unassigned@.len() > 0,
        forall|q: int| 0 <= q < ranked@.len() ==> 1 <= (#[trigger] ranked@[q]).0 <= cnf.num_vars && assignment@[ranked@[q].slot()] is None,
        scores.holds_scores_of(cnf, assignment@),
        1 <= choice.0.0 <= cnf.num_vars,
    ensures
        1 <= r.0.0 <= cnf.num_vars,
        assignment@[r.0.slot()] is None,
        r.1 == prefers_true(cnf, assignment@, r.0),
        *old(record) is Some ==> *final(record) == *old(record),
        *old(record) is None ==> (*final(record) matches Some(rec) && nnue_record_made_at(
            cnf,
            rec,
            choice,
            assignment@,
            *stats,
            trail_depth,
        ) && rec.perturb_var == r.0 && rec.perturb_value == r.1),
{
    let ghost a1 = assignment@;
    let n = cnf.num_vars;
    proof {
        crate::solver::branching::lemma_unassigned_upto(a1, a1.len() as int);
    }
    let (base_var, base_value) = choice;
        let take = if top_k < ranked.len() { top_k } else { ranked.len() };
        let mut candidates: Vec<Var> = Vec::new();
        let mut k: usize = 0;
        while k < take
            invariant
                k <= take,
                take <= ranked@.len(),
                forall|q: int| 0 <= q < ranked@.len() ==> 1 <= (#[trigger] ranked@[q]).0 <= n && a1[ranked@[q].slot()] is None,
                forall|q: int| 0 <= q < candidates@.len() ==> 1 <= (#[trigger] candidates@[q]).0 <= n && a1[candidates@[q].slot()] is None,
            decreases take - k,
        {
            candidates.push(ranked[k]);
            k = k + 1;
        }
        let rand_var = unassigned[draw_below(rng, unassigned.len())];
        proof {
            let q = choose|q: int| 0 <= q < unassigned@.len() && unassigned@[q] == rand_var;
        }
        candidates.push(rand_var);
        let perturb_var = pick_other_candidate(&candidates, base_var, rng);
        proof {
            let q = choose|q: int| 0 <= q < candidates@.len() && candidates@[q] == perturb_var;
        }
        let perturb_value = value_for(&scores, perturb_var, Ghost(cnf), Ghost(a1));
        if record.is_none() {
            proof {
                crate::solver::features::lemma_count_where_le(cnf.clauses@.len() as int, active_pred(cnf, a1), active_pred(cnf, a1));
            }
            let base_features = compute_features(cnf, assignment, stats, base_var, trail_depth);
            let perturb_features = compute_features(cnf, assignment, stats, perturb_var, trail_depth);
            let rec = NnuePerturbRecord { base_var, base_value, base_features, perturb_var, perturb_value, perturb_features };
            proof {
                assert(unassigned_list(a1).contains(perturb_var)) by {
                    crate::solver::branching::lemma_unassigned_upto(a1, a1.len() as int);
                }
                assert(nnue_record_made_at(cnf, rec, choice, a1, *stats, trail_depth));
            }
            *record = Some(rec);
        }
    (perturb_var, perturb_value)
}

/// Like `solve_with_perturbation`, with the decisions of a ranking
/// heuristic: below `perturb_idx` it replays `base_choices[depth]`; at
/// depth `perturb_idx` it draws among the `top_k` best-ranked variables and
/// one uniformly drawn unassigned variable a candidate other than the
/// replayed choice (recording both, with their features, the first time);
/// deeper it takes the best-ranked variable. Values follow the
/// Jeroslow-Wang scores.
///
/// A model returned satisfies every clause and keeps every value of
/// `assignment`; `None` means that no model of `cnf` extends `assignment`.
/// The counters move as `tallied` says, with a decision made exactly when
/// one is needed after propagation. When the replay reaches a node at
/// depth `perturb_idx` (`replay_node`), the record is made at that node,
/// with the statistics the call started with, and the search branches there
/// on the recorded perturbed decision first: when some model keeps that
/// node and the perturbed value, the model returned is one of them.
pub fn solve_with_nnue_perturbation<R: Ranker>(
    cnf: &Cnf,
    assignment: Assignment,
    state: &mut NnuePerturbState,
    base_choices: &Vec<(Var, bool)>,
    perturb_idx: usize,
    rng: &mut StdRng,
    record: &mut Option<NnuePerturbRecord>,
    depth: usize,
    nnue: &mut R,
    top_k: usize,
) -> (r: Option<Assignment>)
    requires
        cnf.wf(),
        cnf.fits_counters(),
        assignment@.len() == cnf.num_vars,
        old(state).stats.covers(cnf.num_vars as nat),
        perturb_idx < base_choices@.len(),
        choices_in_range(base_choices@, cnf.num_vars),
        perturb_idx + cnf.num_vars < usize::MAX,
        depth <= perturb_idx || depth - perturb_idx + unassigned_count(assignment@) <= cnf.num_vars,
    ensures
        r matches Some(m) ==> m@.len() == cnf.num_vars && all_satisfied_under(cnf, m@) && refines(m@, assignment@),
        r is None ==> forall|m: Seq<bool>| extends(m, assignment@) ==> !cnf.is_model(m),
        final(state).stats.covers(cnf.num_vars as nat),
        *old(record) is Some ==> *final(record) == *old(record),
        *old(record) is None ==> (*final(record) matches Some(rec) ==> nnue_record_fits(
            cnf,
            rec,
            base_choices@[perturb_idx as int],
            perturb_idx as u32,
        )),
        exists|k: nat, j: nat|
            #[trigger] tallied(old(state).decisions, old(state).backtracks, final(state).decisions, final(state).backtracks, k, j, r is None)
                && (k >= 1 <==> decision_needed(cnf, assignment@)),
        *old(record) is None && depth <= perturb_idx ==> (replay_node(
            cnf,
            assignment@,
            base_choices@,
            depth as int,
            perturb_idx as int,
        ) matches Some(p) ==> (*final(record) matches Some(rec) && nnue_record_made_at(
            cnf,
            rec,
            base_choices@[perturb_idx as int],
            p,
            old(state).stats,
            perturb_idx as u32,
        ) && (model_within(cnf, p.update(rec.perturb_var.slot(), Some(rec.perturb_value))) ==> (r matches Some(x)
            && refines(x@, p.update(rec.perturb_var.slot(), Some(rec.perturb_value))))))),
    decreases unassigned_count(assignment@), if depth < perturb_idx { perturb_idx - depth } else { 0 }, 1nat,
{
    let ghost d0 = state.decisions;
    let ghost b0 = state.backtracks;
    let ghost a0 = assignment@;
    let mut assignment = assignment;
    let n = cnf.num_vars;

    if !unit_propagate(cnf, &mut assignment, &mut state.stats) {
        proof {
            assert(tallied(d0, b0, state.decisions, state.backtracks, 0, 0, true));
        }
        return None;
    }
    if all_clauses_satisfied(cnf, &assignment) {
        proof {
            assert(tallied(d0, b0, state.decisions, state.backtracks, 0, 0, false));
            assert(!decision_needed(cnf, a0));
        }
        return Some(assignment);
    }
    let ghost a1 = assignment@;
    proof {
        lemma_unassigned_below_refines(a1, a0, a0.len() as int);
        lemma_unassigned_below_le(a1, a1.len() as int);
        lemma_open_formula_has_unassigned(cnf, a1);
        assert(decision_needed(cnf, a0));
    }

    let var;
    let value;
    if depth < perturb_idx {
        let choice = base_choices[depth];
        proof {
            assert(1 <= base_choices@[depth as int].0.0 <= n);
        }
        var = choice.0;
        value = choice.1;
    } else {
        let unassigned = unassigned_vars(cnf, &assignment);
        let scores = jw_scores(cnf, &assignment);
        let trail_depth = #[verifier::truncate] (depth as u32);
        let ranked_raw = nnue.rank(cnf, &assignment, &state.stats, trail_depth, &unassigned);
        let ranked = usable_ranking(ranked_raw, &unassigned, cnf, &assignment);
        proof {
            crate::solver::branching::lemma_unassigned_upto(a1, a1.len() as int);
        }
        if depth == perturb_idx {
            proof {
                assert(1 <= base_choices@[depth as int].0.0 <= n);
                assert(trail_depth == perturb_idx as u32);
            }
            let (perturb_var, perturb_value) = nnue_perturbed_decision(
                cnf, &assignment, &state.stats, &ranked, &unassigned, &scores, base_choices[depth], trail_depth, rng, record,
                top_k,
            );
            var = perturb_var;
            value = perturb_value;
        } else {
            var = ranked[0];
            value = value_for(&scores, var, Ghost(cnf), Ghost(a1));
        }
    }
    let r = nnue_branch(cnf, assignment, state, base_choices, perturb_idx, rng, record, depth, nnue, top_k, var, value);
    proof {
        if r is Some {
            assert(refines(r->0@, a0)) by {
                assert forall|i: int| 0 <= i < a0.len() && (#[trigger] a0[i]) is Some implies r->0@[i] == a0[i] by {
                    assert(a1[i] == a0[i]);
                }
            }
        }
    }
    r
}

/// Branches on `var` in the network search: tries `value` (when it can be
/// assigned), then counts a backtrack and a flip and tries `!value` (when it
/// can be assigned); one decision is counted.
#[verifier::spinoff_prover]
#[verifier::rlimit(80)]
fn nnue_branch<R: Ranker>(
    cnf: &Cnf,
    assignment: Assignment,
    state: &mut NnuePerturbState,
    base_choices: &Vec<(Var, bool)>,
    perturb_idx: usize,
    rng: &mut StdRng,
    record: &mut Option<NnuePerturbRecord>,
    depth: usize,
    nnue: &mut R,
    top_k: usize,
    var: Var,
    value: bool,
) -> (r: Option<Assignment>)
    requires
        cnf.wf(),
        cnf.fits_counters(),
        assignment@.len() == cnf.num_vars,
        old(state).stats.covers(cnf.num_vars as nat),
        perturb_idx < base_choices@.len(),
        choices_in_range(base_choices@, cnf.num_vars),
        perturb_idx + cnf.num_vars < usize::MAX,
        depth <= perturb_idx || depth - perturb_idx + unassigned_count(assignment@) <= cnf.num_vars,
        1 <= var.0 <= cnf.num_vars,
        depth >= perturb_idx ==> assignment@[var.slot()] is None,
        depth < perturb_idx ==> (var, value) == base_choices@[depth as int],
    ensures
        r matches Some(m) ==> m@.len() == cnf.num_vars && all_satisfied_under(cnf, m@) && refines(m@, assignment@),
        r is None ==> forall|m: Seq<bool>| extends(m, assignment@) ==> !cnf.is_model(m),
        final(state).stats.covers(cnf.num_vars as nat),
        *old(record) is Some ==> *final(record) == *old(record),
        *old(record) is None ==> (*final(record) matches Some(rec) ==> nnue_record_fits(
            cnf,
            rec,
            base_choices@[perturb_idx as int],
            perturb_idx as u32,
        )),
        exists|k: nat, j: nat|
            #[trigger] tallied(old(state).decisions, old(state).backtracks, final(state).decisions, final(state).backtracks, k, j, r is None)
                && k >= 1,
        assignment@[var.slot()] != Some(!value) && model_within(cnf, assignment@.update(var.slot(), Some(value))) ==> (r matches Some(
            x,
        ) && refines(x@, assignment@.update(var.slot(), Some(value)))),
        *old(record) is None && depth < perturb_idx && assignment@[var.slot()] != Some(!value) ==> (replay_node(
            cnf,
            assignment@.update(var.slot(), Some(value)),
            base_choices@,
            depth + 1,
            perturb_idx as int,
        ) matches Some(p) ==> (*final(record) matches Some(rec) && nnue_record_made_at(
            cnf,
            rec,
            base_choices@[perturb_idx as int],
            p,
            old(state).stats,
            perturb_idx as u32,
        ) && (model_within(cnf, p.update(rec.perturb_var.slot(), Some(rec.perturb_value))) ==> (r matches Some(x)
            && refines(x@, p.update(rec.perturb_var.slot(), Some(rec.perturb_value))))))),
    decreases unassigned_count(assignment@), if depth < perturb_idx { perturb_idx - depth } else { 0 }, 0nat,
{
    let ghost d0 = state.decisions;
    let ghost b0 = state.backtracks;
    let ghost a1 = assignment@;
    proof {
        lemma_unassigned_below_le(a1, a1.len() as int);
    }
    state.decisions = state.decisions.saturating_add(1);
    let ghost d1 = state.decisions;
    let ghost mut k1: nat = 0;
    let ghost mut j1: nat = 0;
    let mut try_first = assignment.duplicate();
    if try_first.assign(var, value) {
        let ghost t1 = try_first@;
        proof {
            if a1[var.slot()] is None {
                lemma_unassigned_below_update(a1, var.slot(), Some(value), a1.len() as int);
            } else {
                assert(t1 =~= a1);
            }
            assert(t1 =~= a1.update(var.slot(), Some(value)));
        }
        if let Some(model) = solve_with_nnue_perturbation(
            cnf, try_first, state, base_choices, perturb_idx, rng, record, depth + 1, nnue, top_k,
        ) {
            proof {
                assert forall|i: int| 0 <= i < a1.len() && (#[trigger] a1[i]) is Some implies model@[i] == a1[i] by {
                    assert(t1[i] == a1[i]);
                }
                let (k, j) = choose|k: nat, j: nat|
                    #[trigger] tallied(d1, b0, state.decisions, state.backtracks, k, j, false) && (k >= 1 <==> decision_needed(cnf, t1));
                lemma_sat_add(d0 as int, 1, k as int);
                assert(tallied(d0, b0, state.decisions, state.backtracks, 1 + k, j, false));
            }
            return Some(model);
        }
        proof {
            let (k, j) = choose|k: nat, j: nat|
                #[trigger] tallied(d1, b0, state.decisions, state.backtracks, k, j, true) && (k >= 1 <==> decision_needed(cnf, t1));
            k1 = k;
            j1 = j;
        }
    }
    let ghost d2 = state.decisions;
    let ghost b2 = state.backtracks;
    proof {
        lemma_sat_add(d0 as int, 1, k1 as int);
    }
    state.backtracks = state.backtracks.saturating_add(1);
    state.stats.inc_flip(var);
    let ghost b3 = state.backtracks;
    let ghost mut k2: nat = 0;
    let ghost mut j2: nat = 0;
    let mut try_second = assignment;
    if try_second.assign(var, !value) {
        let ghost t2 = try_second@;
        proof {
            if a1[var.slot()] is None {
                lemma_unassigned_below_update(a1, var.slot(), Some(!value), a1.len() as int);
            } else {
                assert(t2 =~= a1);
            }
        }
        if let Some(model) = solve_with_nnue_perturbation(
            cnf, try_second, state, base_choices, perturb_idx, rng, record, depth + 1, nnue, top_k,
        ) {
            proof {
                assert forall|i: int| 0 <= i < a1.len() && (#[trigger] a1[i]) is Some implies model@[i] == a1[i] by {
                    assert(t2[i] == a1[i]);
                }
                let (k, j) = choose|k: nat, j: nat|
                    #[trigger] tallied(d2, b3, state.decisions, state.backtracks, k, j, false) && (k >= 1 <==> decision_needed(cnf, t2));
                lemma_sat_add(d0 as int + 1, k1 as int, k as int);
                lemma_sat_add(b0 as int, k1 as int, 1);
                lemma_sat_add(b0 as int + k1, 1, j as int);
                assert(tallied(d0, b0, state.decisions, state.backtracks, 1 + k1 + k, k1 + 1 + j, false));
            }
            return Some(model);
        }
        proof {
            let (k, j) = choose|k: nat, j: nat|
                #[trigger] tallied(d2, b3, state.decisions, state.backtracks, k, j, true) && (k >= 1 <==> decision_needed(cnf, t2));
            k2 = k;
            j2 = j;
        }
    }
    proof {
        lemma_sat_add(d0 as int + 1, k1 as int, k2 as int);
        lemma_sat_add(b0 as int, k1 as int, 1);
        lemma_sat_add(b0 as int + k1, 1, j2 as int);
        assert(tallied(d0, b0, state.decisions, state.backtracks, 1 + k1 + k2, k1 + 1 + j2, true));
        assert forall|m: Seq<bool>| extends(m, a1) implies !cnf.is_model(m) by {
            if cnf.is_model(m) {
                if m[var.slot()] == value {
                    if a1[var.slot()] is None {
                        assert(extends(m, a1.update(var.slot(), Some(value))));
                    }
                } else {
                    if a1[var.slot()] is None {
                        assert(extends(m, a1.update(var.slot(), Some(!value))));
                    }
                }
            }
        }
    }
    None
}

/// The decisions recorded on the path a search logs (the final path when
/// it found a model, else the shortest failing path), outermost first;
/// none when it logged no path.
pub fn logged_choices<B: Brancher>(state: &SolveState<B>, solved: bool, n: u32) -> (c: Vec<(Var, bool)>)
    requires
        state.logs_lead(n),
    ensures
        solved ==> chosen_path(groups_view(state.log_stack@)) == Some(c@),
        !solved ==> match state.best_unsat {
            Some(b) => chosen_path(groups_view(b@)) == Some(c@),
            None => c@.len() == 0,
        },
        choices_in_range(c@, n),
{
    match state.logged_path(solved) {
        None => Vec::new(),
        Some(path) => {
            proof {
                lemma_leading_log_has_path(groups_view(path@), n);
            }
            match chosen_decisions(path) {
                Some(c) => {
                    proof {
                        let gv = groups_view(path@);
                        assert forall|k: int| 0 <= k < c@.len() implies 1 <= (#[trigger] c@[k]).0.0 <= n by {
                            assert(c@[k] == chosen_path(gv)->0[k]);
                        }
                    }
                    c
                },
                None => Vec::new(),
            }
        },
    }
}

/// The first search of a perturbation experiment, with decisions from
/// `brancher`, and the decisions recorded on the path it logged.
pub struct PerturbationBase {
    pub model: Option<Model>,
    pub base_decisions: u64,
    pub base_choices: Vec<(Var, bool)>,
}

/// Runs the first search of a perturbation experiment from the empty
/// assignment with decisions from `brancher`, and takes the decisions on
/// its logged path (see `logged_choices`). A model returned satisfies every
/// clause and agrees with every decision taken; there is none exactly when
/// `cnf` is unsatisfiable. When propagating the empty assignment leaves a
/// decision to make, at least one decision is counted and the path holds
/// at least one decision; otherwise the path is empty. The decision counter
/// is capped at `u64::MAX`; for a brancher that branches by a rule (such as
/// the Jeroslow-Wang brancher without random picks, `jw_rule`) it is the
/// number of decisions that `search_tree` gives for that rule.
/// Replaying the path from the empty assignment reaches a node at each of
/// its depths (`replay_node`), so a perturbed search at any depth of it
/// makes its record there.
pub fn perturbation_base<B: Brancher>(cnf: &Cnf, brancher: B) -> (r: PerturbationBase)
    requires
        cnf.wf(),
        cnf.fits_counters() || !decision_needed(cnf, nothing_assigned(cnf.num_vars)),
    ensures
        r.model matches Some(m) ==> m@.len() == cnf.num_vars && all_satisfied_under(cnf, m@),
        r.model is None <==> !cnf.satisfiable(),
        choices_in_range(r.base_choices@, cnf.num_vars),
        r.model matches Some(m) ==> forall|k: int|
            0 <= k < r.base_choices@.len() ==> m@[(#[trigger] r.base_choices@[k]).0.slot()] == Some(r.base_choices@[k].1),
        decision_needed(cnf, nothing_assigned(cnf.num_vars)) ==> r.base_choices@.len() >= 1,
        exists|k: nat|
            r.base_decisions == sat64(k as int) && (k >= 1 <==> decision_needed(cnf, nothing_assigned(cnf.num_vars))),
        r.base_choices@.len() >= 1 ==> r.base_decisions >= 1,
        forall|i: int|
            0 <= i < r.base_choices@.len() ==> (#[trigger] replay_node(
                cnf,
                nothing_assigned(cnf.num_vars),
                r.base_choices@,
                0,
                i,
            )) is Some,
        forall|pick: spec_fn(Seq<Option<bool>>) -> (Var, bool)| #[trigger] decides_by(brancher, cnf, pick) ==> r.base_decisions
            == sat64(search_tree(cnf, nothing_assigned(cnf.num_vars), pick).1 as int),
{
    let (model, state) = search(cnf, brancher);
    let base_choices = logged_choices(&state, model.is_some(), cnf.num_vars);
    proof {
        let (k, j) = choose|k: nat, j: nat|
            #[trigger] counts_from_start(state, k, j, model is None) && (k >= 1 <==> decision_needed(
                cnf,
                nothing_assigned(cnf.num_vars),
            ));
        assert(state.decisions == sat64(k as int));
        if decision_needed(cnf, nothing_assigned(cnf.num_vars)) {
            if model is Some {
                assert(chosen_path(groups_view(state.log_stack@))->0.len() == groups_view(state.log_stack@).len());
            } else {
                let b = state.best_unsat->0;
                assert(chosen_path(groups_view(b@))->0.len() == groups_view(b@).len());
            }
        }
    }
    proof {
        if model is Some {
            let gv = groups_view(state.log_stack@);
            lemma_leading_log_has_path(gv, cnf.num_vars);
            assert forall|k: int| 0 <= k < base_choices@.len() implies model->0@[(#[trigger] base_choices@[k]).0.slot()]
                == Some(base_choices@[k].1) by {
                assert(base_choices@[k] == chosen_path(gv)->0[k]);
                assert(decisions_agree(gv, 0, model->0@));
                let s = gv[k].1;
                assert(s.len() >= 1 && model->0@[s[0].var.slot()] == Some(s[0].value));
            }
        }
    }
    proof {
        let gv = if model is Some {
            groups_view(state.log_stack@)
        } else {
            groups_view(state.best_unsat->0@)
        };
        assert(state.logs_lead(cnf.num_vars));
        lemma_leading_log_has_path(gv, cnf.num_vars);
        assert(base_choices@ =~= log_choices(gv));
        assert(reaches_from(cnf, nothing_assigned(cnf.num_vars), gv, 0));
    }
    PerturbationBase { model, base_decisions: state.decisions, base_choices }
}

/// The second search of a perturbation experiment: from the empty
/// assignment, `solve_with_perturbation` replays `base_choices` below depth
/// `perturb_idx` and branches on a random other variable there, drawing
/// from `rng`. Returns its model, its number of decisions (capped at
/// `u64::MAX`; at least one exactly when propagating the empty assignment
/// leaves a decision to make; what `perturbed_tree` gives for a rule of
/// perturbed decisions the draws can make), and what it recorded at the perturbed
/// decision (`record_fits` says what a record says). When the replay
/// reaches a node at depth `perturb_idx` (`replay_node`), the record is
/// the one made at that node with all-zero statistics, and when some model
/// keeps that node and the random decision, the model returned is one of
/// them. The state's own
/// generator is seeded with `seed` (or from the operating system) and is not
/// drawn from. A model returned satisfies every clause; there is none
/// exactly when `cnf` is unsatisfiable.
pub fn perturbed_search(
    cnf: &Cnf,
    base_choices: &Vec<(Var, bool)>,
    perturb_idx: usize,
    seed: Option<u64>,
    rng: &mut StdRng,
) -> (r: (Option<Model>, u64, Option<PerturbRecord>))
    requires
        cnf.wf(),
        cnf.fits_counters(),
        perturb_idx < base_choices@.len(),
        choices_in_range(base_choices@, cnf.num_vars),
        perturb_idx + cnf.num_vars < usize::MAX,
    ensures
        r.0 matches Some(m) ==> m@.len() == cnf.num_vars && all_satisfied_under(cnf, m@),
        r.0 is None <==> !cnf.satisfiable(),
        r.2 matches Some(rec) ==> record_fits(cnf, rec, perturb_idx as u32),
        exists|k: nat| r.1 == sat64(k as int) && (k >= 1 <==> decision_needed(cnf, nothing_assigned(cnf.num_vars))),
        replay_node(cnf, nothing_assigned(cnf.num_vars), base_choices@, 0, perturb_idx as int) matches Some(p) ==> (r.2 matches Some(
            rec,
        ) && (exists|st: Stats| #[trigger] st.all_zero(cnf.num_vars as nat) && record_made_at(cnf, rec, p, st, perturb_idx as u32))
            && (model_within(cnf, p.update(rec.rand_var.slot(), Some(rec.rand_value))) ==> (r.0 matches Some(x) && refines(
            x@,
            p.update(rec.rand_var.slot(), Some(rec.rand_value)),
        )))),
        exists|prule: spec_fn(Seq<Option<bool>>) -> Var| #[trigger] fair_perturbation(cnf, prule) && (perturbed_tree(
            cnf,
            nothing_assigned(cnf.num_vars),
            base_choices@,
            perturb_idx as int,
            0,
            prule,
        ).0 <==> r.0 is Some) && r.1 == sat64(
            perturbed_tree(cnf, nothing_assigned(cnf.num_vars), base_choices@, perturb_idx as int, 0, prule).1 as int,
        ),
{
    let assignment = Assignment::new(cnf.num_vars);
    let ghost a0 = assignment@;
    assert(a0 =~= nothing_assigned(cnf.num_vars));
    let mut state = SolveState::new(cnf.num_vars, JwBrancher::new(seed, 0));
    let mut record: Option<PerturbRecord> = None;
    let model = solve_with_perturbation(cnf, assignment, &mut state, base_choices, perturb_idx, rng, &mut record, 0);
    proof {
        let found = if model is Some {
            Some(model->0@)
        } else {
            None
        };
        lemma_search_from_empty_decides(cnf, a0, found);
    }
    (model, state.decisions, record)
}

/// The outcome of a perturbation experiment whose first search counted
/// `base_decisions` and found `base_model`: when a perturbed search ran
/// (`perturbed` holds its model and decision count) its model and count are
/// reported and a group was logged; otherwise nothing was perturbed, the
/// first search's model is reported and its count stands for both.
pub fn perturbation_outcome(
    base_model: Option<Model>,
    base_decisions: u64,
    perturbed: Option<(Option<Model>, u64)>,
) -> (o: PerturbationOutcome)
    ensures
        o.base_decisions == base_decisions,
        match perturbed {
            Some((m, k)) => o.model == m && o.new_decisions == k && o.logged,
            None => o.model == base_model && o.new_decisions == base_decisions && !o.logged,
        },
{
    match perturbed {
        Some((model, new_decisions)) => PerturbationOutcome { model, base_decisions, new_decisions, logged: true },
        None => PerturbationOutcome {
            model: base_model,
            base_decisions,
            new_decisions: base_decisions,
            logged: false,
        },
    }
}

/// The label of the perturbed decision: 1 when the perturbed search needed
/// fewer decisions than the first one, else 0 (the unperturbed decision then
/// gets 1).
pub open spec fn perturbed_label(base_decisions: u64, new_decisions: u64) -> u8 {
    if new_decisions < base_decisions {
        1
    } else {
        0
    }
}

/// The log group of a perturbation experiment (decision id 0): the
/// heuristic's decision, then the random one, with their features; the
/// random one is labelled 1 when the perturbed search needed fewer decisions
/// than the first, the heuristic's otherwise.
pub fn perturbation_group(record: &PerturbRecord, base_decisions: u64, new_decisions: u64) -> (g: DecisionGroup)
    ensures
        g.decision_id == 0,
        g.samples@ == seq![
            DecisionSample {
                label: (1 - perturbed_label(base_decisions, new_decisions)) as u8,
                var: record.jw_var,
                value: record.jw_value,
                features: record.jw_features,
            },
            DecisionSample {
                label: perturbed_label(base_decisions, new_decisions),
                var: record.rand_var,
                value: record.rand_value,
                features: record.rand_features,
            },
        ],
{
    let mut jw_sample = DecisionSample { label: 0, var: record.jw_var, value: record.jw_value, features: record.jw_features };
    let mut rand_sample = DecisionSample {
        label: 0,
        var: record.rand_var,
        value: record.rand_value,
        features: record.rand_features,
    };
    if new_decisions < base_decisions {
        rand_sample.label = 1;
    } else {
        jw_sample.label = 1;
    }
    let mut samples: Vec<DecisionSample> = Vec::new();
    samples.push(jw_sample);
    samples.push(rand_sample);
    DecisionGroup { decision_id: 0, samples }
}

/// The second search of a network perturbation experiment: from the empty
/// assignment, `solve_with_nnue_perturbation` replays `base_choices` below
/// depth `perturb_idx`, perturbs there among the `top_k` best-ranked
/// variables and a random one, drawing from `rng`, and follows `nnue`'s
/// ranking deeper. Returns its model, its number of decisions (capped at
/// `u64::MAX`; at least one exactly when a decision is needed at the
/// start), and what it recorded at the perturbed decision (see
/// `nnue_record_fits`); when the replay reaches a node at depth
/// `perturb_idx` (`replay_node`), the record is the one made at that node
/// with all-zero statistics, and when some model keeps that node and the
/// perturbed decision, the model returned is one of them. A model returned
/// satisfies every clause; there is none exactly when `cnf` is
/// unsatisfiable.
pub fn nnue_perturbed_search<R: Ranker>(
    cnf: &Cnf,
    base_choices: &Vec<(Var, bool)>,
    perturb_idx: usize,
    rng: &mut StdRng,
    nnue: &mut R,
    top_k: usize,
) -> (r: (Option<Model>, u64, Option<NnuePerturbRecord>))
    requires
        cnf.wf(),
        cnf.fits_counters(),
        perturb_idx < base_choices@.len(),
        choices_in_range(base_choices@, cnf.num_vars),
        perturb_idx + cnf.num_vars < usize::MAX,
    ensures
        r.0 matches Some(m) ==> m@.len() == cnf.num_vars && all_satisfied_under(cnf, m@),
        r.0 is None <==> !cnf.satisfiable(),
        r.2 matches Some(rec) ==> nnue_record_fits(cnf, rec, base_choices@[perturb_idx as int], perturb_idx as u32),
        exists|k: nat| r.1 == sat64(k as int) && (k >= 1 <==> decision_needed(cnf, nothing_assigned(cnf.num_vars))),
        replay_node(cnf, nothing_assigned(cnf.num_vars), base_choices@, 0, perturb_idx as int) matches Some(p) ==> (r.2 matches Some(
            rec,
        ) && (exists|st: Stats| #[trigger] st.all_zero(cnf.num_vars as nat) && nnue_record_made_at(
            cnf,
            rec,
            base_choices@[perturb_idx as int],
            p,
            st,
            perturb_idx as u32,
        )) && (model_within(cnf, p.update(rec.perturb_var.slot(), Some(rec.perturb_value))) ==> (r.0 matches Some(x)
            && refines(x@, p.update(rec.perturb_var.slot(), Some(rec.perturb_value)))))),
{
    let assignment = Assignment::new(cnf.num_vars);
    let ghost a0 = assignment@;
    assert(a0 =~= nothing_assigned(cnf.num_vars));
    let mut state = NnuePerturbState { stats: Stats::new(cnf.num_vars), decisions: 0, backtracks: 0 };
    let mut record: Option<NnuePerturbRecord> = None;
    let model = solve_with_nnue_perturbation(
        cnf,
        assignment,
        &mut state,
        base_choices,
        perturb_idx,
        rng,
        &mut record,
        0,
        nnue,
        top_k,
    );
    proof {
        let found = if model is Some {
            Some(model->0@)
        } else {
            None
        };
        lemma_search_from_empty_decides(cnf, a0, found);
    }
    (model, state.decisions, record)
}

/// The log group of a network perturbation experiment (decision id 0): the
/// replayed decision of the first search, then the perturbed one, with
/// their features; the perturbed one is labelled 1 when the perturbed search
/// needed fewer decisions than the first, the replayed one otherwise.
pub fn nnue_perturbation_group(record: &NnuePerturbRecord, base_decisions: u64, new_decisions: u64) -> (g: DecisionGroup)
    ensures
        g.decision_id == 0,
        g.samples@ == seq![
            DecisionSample {
                label: (1 - perturbed_label(base_decisions, new_decisions)) as u8,
                var: record.base_var,
                value: record.base_value,
                features: record.base_features,
            },
            DecisionSample {
                label: perturbed_label(base_decisions, new_decisions),
                var: record.perturb_var,
                value: record.perturb_value,
                features: record.perturb_features,
            },
        ],
{
    let mut base_sample = DecisionSample {
        label: 0,
        var: record.base_var,
        value: record.base_value,
        features: record.base_features,
    };
    let mut perturb_sample = DecisionSample {
        label: 0,
        var: record.perturb_var,
        value: record.perturb_value,
        features: record.perturb_features,
    };
    if new_decisions < base_decisions {
        perturb_sample.label = 1;
    } else {
        base_sample.label = 1;
    }
    let mut samples: Vec<DecisionSample> = Vec::new();
    samples.push(base_sample);
    samples.push(perturb_sample);
    DecisionGroup { decision_id: 0, samples }
}

} // verus!
