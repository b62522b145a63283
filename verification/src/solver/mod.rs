//! The search: a DPLL procedure with unit propagation, branching
//! heuristics, conflict statistics and decision logs, and the perturbation
//! experiments built on it.

pub mod assignment;
pub mod branching;
pub mod dpll;
pub mod features;
pub mod logging;
pub mod perturb;
pub mod propagation;
pub mod random;
pub mod ranking;
pub mod stats;

use rand::rngs::StdRng;
use vstd::prelude::*;
use vstd::string::StringExecFns;

use crate::cnf::{lit_holds, clause_holds, Cnf, Var};
use crate::solver::assignment::extends;
use crate::solver::branching::{
    choose_jw_decision, is_first_best, jw_decision_on, jw_total, lemma_unassigned_upto, prefers_true, unassigned_list, Decision,
};
use crate::solver::dpll::{
    counts_from_start, decides_by, reaches_from, sat64, search_counts, search_tree, Brancher, SolveState,
};
use crate::solver::logging::{decisions_agree, groups_view};
use crate::solver::propagation::{
    all_clauses_satisfied, all_satisfied_under, decision_needed, satisfied_under, unit_propagate,
};
use crate::solver::random::{generator_for, seeded_generator};
use crate::solver::stats::Stats;
use crate::text::chars_of;

pub use assignment::{Assignment, Model};

verus! {

/// Which branching heuristic a search uses.
#[derive(Clone, Copy, Debug, PartialEq, Eq, Structural)]
pub enum HeuristicKind {
    JwEpsilon,
    Nnue,
}

/// The heuristic that a name denotes: "jw", "jw-epsilon" and "jw_epsilon"
/// name the Jeroslow-Wang heuristic with random picks, "nnue" the network.
pub open spec fn heuristic_named(name: Seq<char>) -> Option<HeuristicKind> {
    if name == "jw"@ || name == "jw-epsilon"@ || name == "jw_epsilon"@ {
        Some(HeuristicKind::JwEpsilon)
    } else if name == "nnue"@ {
        Some(HeuristicKind::Nnue)
    } else {
        None
    }
}

/// Whether the characters `cs` spell `s`.
fn spells(cs: &Vec<char>, s: &str) -> (r: bool)
    ensures
        r == (cs@ == s@),
{
    let other = chars_of(s);
    if cs.len() != other.len() {
        return false;
    }
    let mut i: usize = 0;
    while i < cs.len()
        invariant
            i <= cs@.len(),
            cs@.len() == other@.len(),
            other@ == s@,
            forall|k: int| 0 <= k < i ==> cs@[k] == other@[k],
        decreases cs@.len() - i,
    {
        if cs[i] != other[i] {
            return false;
        }
        i = i + 1;
    }
    assert(cs@ =~= other@);
    true
}

impl HeuristicKind {
    pub fn from_str(value: &str) -> (h: Option<HeuristicKind>)
        ensures
            h == heuristic_named(value@),
    {
        let cs = chars_of(value);
        if spells(&cs, "jw") || spells(&cs, "jw-epsilon") || spells(&cs, "jw_epsilon") {
            Some(HeuristicKind::JwEpsilon)
        } else if spells(&cs, "nnue") {
            Some(HeuristicKind::Nnue)
        } else {
            None
        }
    }
}

/// The heuristic named by `value`, "jw" when absent; an unknown name is
/// answered with the message "unknown heuristic: " followed by the name.
pub fn parse_heuristic(value: Option<&str>) -> (r: Result<HeuristicKind, String>)
    ensures
        ({
            let raw = match value {
                Some(v) => v@,
                None => "jw"@,
            };
            match heuristic_named(raw) {
                Some(h) => r == Ok::<HeuristicKind, String>(h),
                None => r matches Err(msg) && msg@ == "unknown heuristic: "@ + raw,
            }
        }),
{
    let raw = match value {
        Some(v) => v,
        None => "jw",
    };
    match HeuristicKind::from_str(raw) {
        Some(h) => Ok(h),
        None => {
            let msg = String::from_str("unknown heuristic: ");
            Err(msg.concat(raw))
        },
    }
}

/// The counters of a finished search.
#[derive(Clone, Copy, Debug)]
pub struct SolveStats {
    pub decisions: u64,
    pub backtracks: u64,
    pub conflicts: u64,
}

/// The result of a search with its counters.
#[derive(Clone, Debug)]
pub struct SolveOutcome {
    pub model: Option<Model>,
    pub stats: SolveStats,
}

/// The random-pick threshold of the default search: a uniform draw from
/// `[0, 1)` in steps of `2^-53` falls below the probability 0.1 exactly when
/// its 53-bit numerator is below `ceil(0.1 * 2^53)`.
pub const DEFAULT_RANDOM_THRESHOLD: u64 = 900719925474100;

/// The Jeroslow-Wang heuristic with random picks, drawing from `rng`; a
/// draw picks at random with probability `random_threshold / 2^53`.
pub struct JwBrancher {
    pub rng: StdRng,
    pub random_threshold: u64,
}

impl JwBrancher {
    /// A brancher whose generator is seeded with `seed`, or from the
    /// operating system when there is none.
    pub fn new(seed: Option<u64>, random_threshold: u64) -> (b: JwBrancher)
        ensures
            b.random_threshold == random_threshold,
            seed matches Some(s) ==> b.rng == seeded_generator(s),
    {
        JwBrancher { rng: generator_for(seed), random_threshold }
    }
}

/// The Jeroslow-Wang rule without random picks: the first unassigned
/// variable of highest combined score, with the value its scores prefer.
pub open spec fn jw_rule(cnf: &Cnf) -> spec_fn(Seq<Option<bool>>) -> (Var, bool) {
    |a: Seq<Option<bool>>|
        {
            let list = unassigned_list(a);
            let i = choose|i: int| is_first_best(cnf, a, list, i);
            (list[i], prefers_true(cnf, a, list[i]))
        }
}

/// There is one first unassigned variable of highest score.
proof fn lemma_first_best_unique(cnf: &Cnf, a: Seq<Option<bool>>, list: Seq<Var>, i: int, j: int)
    requires
        is_first_best(cnf, a, list, i),
        is_first_best(cnf, a, list, j),
    ensures
        i == j,
{
    if i < j {
        assert(jw_total(cnf, a, list[i]) < jw_total(cnf, a, list[j]));
        assert(jw_total(cnf, a, list[j]) <= jw_total(cnf, a, list[i]));
    } else if j < i {
        assert(jw_total(cnf, a, list[j]) < jw_total(cnf, a, list[i]));
        assert(jw_total(cnf, a, list[i]) <= jw_total(cnf, a, list[j]));
    }
}

/// A Jeroslow-Wang brancher without random picks branches by `jw_rule`, so
/// a search with it is the one `search_tree` describes for that rule.
pub proof fn lemma_jw_brancher_follows_rule(b: JwBrancher, cnf: &Cnf)
    requires
        b.random_threshold == 0,
    ensures
        decides_by(b, cnf, jw_rule(cnf)),
{
    assert forall|a: Seq<Option<bool>>, d: Option<Decision>|
        a.len() == cnf.num_vars && unassigned_list(a).len() > 0 && #[trigger] b.gives(cnf, a, d) implies (d matches Some(
        x) && (x.var, x.value) == jw_rule(cnf)(a) && 1 <= x.var.0 <= cnf.num_vars && a[x.var.slot()] is None) by {
        let list = unassigned_list(a);
        let x = d->0;
        lemma_unassigned_upto(a, a.len() as int);
        let i = choose|i: int| is_first_best(cnf, a, list, i) && x.var == list[i];
        let i2 = choose|i: int| is_first_best(cnf, a, list, i);
        lemma_first_best_unique(cnf, a, list, i, i2);
        assert(list.contains(x.var));
        let q = choose|q: int| 0 <= q < list.len() && list[q] == x.var;
        assert(1 <= list[q].0 <= a.len());
    }
}

impl Brancher for JwBrancher {
    /// A Jeroslow-Wang decision while a variable is unassigned, none
    /// otherwise; without random picks, on the first unassigned variable of
    /// highest score.
    open spec fn gives(&self, cnf: &Cnf, a: Seq<Option<bool>>, d: Option<Decision>) -> bool {
        &&& (d is None <==> unassigned_list(a).len() == 0)
        &&& (d matches Some(dec) ==> jw_decision_on(cnf, a, dec))
        &&& (self.random_threshold == 0 ==> (d matches Some(dec) ==> exists|i: int|
            is_first_best(cnf, a, unassigned_list(a), i) && dec.var == unassigned_list(a)[i]))
    }

    fn next_decision(&mut self, cnf: &Cnf, assignment: &Assignment, stats: &Stats, trail_depth: u32) -> (d: Option<Decision>)
        ensures
            d is None <==> unassigned_list(assignment@).len() == 0,
            d matches Some(dec) ==> jw_decision_on(cnf, assignment@, dec),
            old(self).random_threshold == 0 ==> (d matches Some(dec) ==> exists|i: int|
                is_first_best(cnf, assignment@, unassigned_list(assignment@), i) && dec.var == unassigned_list(
                    assignment@,
                )[i]),
    {
        choose_jw_decision(cnf, assignment, &mut self.rng, self.random_threshold)
    }
}

/// A partial assignment that satisfies every clause extends to models: any
/// total assignment that keeps its values makes every clause true.
pub proof fn lemma_satisfying_assignment_models(cnf: &Cnf, a: Seq<Option<bool>>, m: Seq<bool>)
    requires
        cnf.wf(),
        a.len() == cnf.num_vars,
        all_satisfied_under(cnf, a),
        extends(m, a),
    ensures
        cnf.is_model(m),
{
    assert forall|i: int| 0 <= i < cnf.clauses@.len() implies clause_holds(m, #[trigger] cnf.clause(i)) by {
        let c = cnf.clause(i);
        assert(satisfied_under(a, c));
        let j = choose|j: int| 0 <= j < c.len() && crate::solver::assignment::lit_value(a, #[trigger] c[j]) == Some(true);
        assert(crate::cnf::clause_in_range(c, cnf.num_vars));
        assert(1 <= c[j].var.0 <= cnf.num_vars);
        assert(lit_holds(m, c[j]));
    }
}

/// A search from the empty assignment decides `cnf`: it finds no model
/// exactly when `cnf` is unsatisfiable, given that a model it finds
/// satisfies every clause and that finding none means that no total
/// assignment is a model.
pub proof fn lemma_search_from_empty_decides(cnf: &Cnf, a0: Seq<Option<bool>>, found: Option<Seq<Option<bool>>>)
    requires
        cnf.wf(),
        a0.len() == cnf.num_vars,
        forall|i: int| 0 <= i < a0.len() ==> (#[trigger] a0[i]) is None,
        found matches Some(m) ==> m.len() == cnf.num_vars && all_satisfied_under(cnf, m),
        found is None ==> forall|m: Seq<bool>| extends(m, a0) ==> !cnf.is_model(m),
    ensures
        found is None <==> !cnf.satisfiable(),
{
    match found {
        Some(mv) => {
            let total = Seq::new(cnf.num_vars as nat, |k: int| match mv[k] { Some(b) => b, None => false });
            assert(extends(total, mv));
            lemma_satisfying_assignment_models(cnf, mv, total);
        },
        None => {
            assert forall|m: Seq<bool>| !cnf.is_model(m) by {
                if m.len() == cnf.num_vars {
                    assert(extends(m, a0));
                }
            }
        },
    }
}

/// The assignment of `n` variables that leaves every one unassigned.
pub open spec fn nothing_assigned(n: u32) -> Seq<Option<bool>> {
    Seq::new(n as nat, |i: int| None)
}

/// Whether propagating the empty assignment of `cnf` leaves a decision to
/// make.
pub fn needs_decision(cnf: &Cnf) -> (b: bool)
    requires
        cnf.wf(),
    ensures
        b == decision_needed(cnf, nothing_assigned(cnf.num_vars)),
{
    let mut assignment = Assignment::new(cnf.num_vars);
    let mut stats = Stats::new(cnf.num_vars);
    proof {
        assert(assignment@ =~= nothing_assigned(cnf.num_vars));
    }
    if !unit_propagate(cnf, &mut assignment, &mut stats) {
        return false;
    }
    !all_clauses_satisfied(cnf, &assignment)
}

/// Whether a search can take `cnf`: every literal names a declared
/// variable, and the size limits of `fits_counters` hold unless propagating
/// the empty assignment already decides the formula.
pub fn search_accepts(cnf: &Cnf) -> (b: bool)
    ensures
        b == (cnf.wf() && (cnf.fits_counters() || !decision_needed(cnf, nothing_assigned(cnf.num_vars)))),
{
    if !cnf.well_formed() {
        return false;
    }
    cnf.fits_limits() || !needs_decision(cnf)
}

/// Runs a search from the empty assignment with decisions from `brancher`.
/// A model returned gives every variable a slot and satisfies every
/// clause; there is none exactly when `cnf` is unsatisfiable. Every group
/// of the returned log and kept failing path was logged from what the
/// brancher gave at its node, with the features there at its depth
/// (`logs_logged`); the brancher still gives what it gave at the start.
/// Replaying the returned log (or, without a model, the kept failing path)
/// from the empty assignment reaches a node at each of its depths
/// (`reaches_from`).
pub fn search<B: Brancher>(cnf: &Cnf, brancher: B) -> (r: (Option<Model>, SolveState<B>))
    requires
        cnf.wf(),
        cnf.fits_counters() || !decision_needed(cnf, nothing_assigned(cnf.num_vars)),
    ensures
        r.0 matches Some(m) ==> m@.len() == cnf.num_vars && all_satisfied_under(cnf, m@),
        r.0 is None <==> !cnf.satisfiable(),
        r.1.stats.covers(cnf.num_vars as nat),
        r.1.logs_lead(cnf.num_vars),
        r.0 matches Some(m) ==> decisions_agree(groups_view(r.1.log_stack@), 0, m@),
        exists|k: nat, j: nat|
            #[trigger] counts_from_start(r.1, k, j, r.0 is None) && (k >= 1 <==> decision_needed(
                cnf,
                nothing_assigned(cnf.num_vars),
            )),
        r.0 is Some && decision_needed(cnf, nothing_assigned(cnf.num_vars)) ==> r.1.log_stack@.len() >= 1,
        r.0 is None && decision_needed(cnf, nothing_assigned(cnf.num_vars)) ==> (r.1.best_unsat matches Some(b)
            && b@.len() >= 1),
        !decision_needed(cnf, nothing_assigned(cnf.num_vars)) ==> r.1.log_stack@.len() == 0 && (r.1.best_unsat matches Some(
            b,
        ) ==> b@.len() == 0),
        r.1.logs_logged(cnf),
        r.0 is Some ==> reaches_from(cnf, nothing_assigned(cnf.num_vars), groups_view(r.1.log_stack@), 0),
        r.0 is None ==> (r.1.best_unsat matches Some(b) && reaches_from(cnf, nothing_assigned(cnf.num_vars), groups_view(b@), 0)),
        forall|c: &Cnf, x: Seq<Option<bool>>, e: Option<Decision>| #[trigger] r.1.brancher.gives(c, x, e) == brancher.gives(
            c,
            x,
            e,
        ),
        forall|pick: spec_fn(Seq<Option<bool>>) -> (Var, bool)| #[trigger] decides_by(brancher, cnf, pick) ==> r.1.decisions
            == sat64(search_tree(cnf, nothing_assigned(cnf.num_vars), pick).1 as int) && r.1.backtracks == sat64(
            search_tree(cnf, nothing_assigned(cnf.num_vars), pick).2 as int,
        ),
{
    let assignment = Assignment::new(cnf.num_vars);
    let ghost a0 = assignment@;
    assert(a0 =~= nothing_assigned(cnf.num_vars));
    let mut state = SolveState::new(cnf.num_vars, brancher);
    let ghost s0 = state;
    proof {
        assert(groups_view(state.log_stack@).len() == 0);
        assert(state.logs_logged(cnf));
    }
    let model = dpll::solve(cnf, assignment, &mut state);
    proof {
        assert forall|pick: spec_fn(Seq<Option<bool>>) -> (Var, bool)| #[trigger] decides_by(brancher, cnf, pick) implies state.decisions
            == sat64(search_tree(cnf, nothing_assigned(cnf.num_vars), pick).1 as int) && state.backtracks == sat64(
            search_tree(cnf, nothing_assigned(cnf.num_vars), pick).2 as int,
        ) by {
            assert(s0.brancher == brancher);
            assert(decides_by(s0.brancher, cnf, pick));
        }
        let (k, j) = choose|k: nat, j: nat|
            #[trigger] search_counts(s0, state, k, j, model is None) && (k >= 1 <==> decision_needed(cnf, a0));
        assert(s0.ids_increasing());
        assert(counts_from_start(state, k, j, model is None));
        let found = if model is Some {
            Some(model->0@)
        } else {
            None
        };
        lemma_search_from_empty_decides(cnf, a0, found);
    }
    (model, state)
}

/// Decides `cnf` with the default search: the Jeroslow-Wang heuristic with
/// random picks at probability 0.1, seeded from the operating system. A
/// model returned satisfies every clause; there is none exactly when `cnf`
/// is unsatisfiable.
pub fn solve(cnf: &Cnf) -> (r: Option<Model>)
    requires
        cnf.wf(),
        cnf.fits_counters() || !decision_needed(cnf, nothing_assigned(cnf.num_vars)),
    ensures
        r matches Some(m) ==> m@.len() == cnf.num_vars && all_satisfied_under(cnf, m@),
        r is None <==> !cnf.satisfiable(),
{
    let brancher = JwBrancher::new(None, DEFAULT_RANDOM_THRESHOLD);
    let (model, _state) = search(cnf, brancher);
    model
}

} // verus!
