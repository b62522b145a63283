//! Decisions from a ranking of the unassigned variables (the network
//! heuristic): the best-ranked variable is chosen, the next ones are its
//! runner-ups, and values follow the Jeroslow-Wang scores.

use vstd::prelude::*;

use crate::cnf::{Cnf, Var};
use crate::solver::assignment::Assignment;
use crate::solver::branching::{
    choose_jw_decision, is_first_best, jw_decision_on, jw_scores, lemma_unassigned_upto, prefers_true, unassigned_list,
    unassigned_vars, value_for, Decision, RunnerUp,
};
use crate::solver::dpll::Brancher;
use crate::solver::stats::Stats;
use crate::solver::HeuristicKind;
use rand::rngs::StdRng;

verus! {

/// Something that ranks the unassigned variables, best first (the network
/// heuristic). The search checks what comes back (`usable_order`): entries
/// that are out of range, assigned or repeated are left out, and the
/// unassigned variables the ranking leaves out follow in increasing order.
pub trait Ranker {
    fn rank(&mut self, cnf: &Cnf, assignment: &Assignment, stats: &Stats, trail_depth: u32, unassigned: &Vec<Var>) -> Vec<Var>
        requires
            cnf.wf(),
            cnf.fits_counters(),
            assignment@.len() == cnf.num_vars,
            stats.covers(cnf.num_vars as nat),
            unassigned@ == unassigned_list(assignment@),
    ;
}

/// `v` is a variable in `1..=n` that `a` leaves unassigned.
pub open spec fn open_var(n: u32, a: Seq<Option<bool>>, v: Var) -> bool {
    1 <= v.0 <= n && a[v.slot()] is None
}

/// The first occurrences of the open variables among the first `i` entries
/// of `s`, in order.
pub open spec fn first_open(s: Seq<Var>, i: int, n: u32, a: Seq<Option<bool>>) -> Seq<Var>
    decreases i,
{
    if i <= 0 {
        Seq::empty()
    } else {
        let prev = first_open(s, i - 1, n, a);
        let v = s[i - 1];
        if open_var(n, a, v) && !prev.contains(v) {
            prev.push(v)
        } else {
            prev
        }
    }
}

/// A ranking once checked: the first occurrence of each unassigned variable
/// in range that `ranked` names, in order, then the unassigned variables it
/// does not name, in increasing order.
pub open spec fn usable_order(ranked: Seq<Var>, n: u32, a: Seq<Option<bool>>) -> Seq<Var> {
    let s = ranked + unassigned_list(a);
    first_open(s, s.len() as int, n, a)
}

/// `first_open` holds open variables without repetition, and every open
/// variable among the entries it has read.
proof fn lemma_first_open(s: Seq<Var>, i: int, n: u32, a: Seq<Option<bool>>)
    requires
        0 <= i <= s.len(),
    ensures
        forall|t: int| 0 <= t < first_open(s, i, n, a).len() ==> open_var(n, a, #[trigger] first_open(s, i, n, a)[t]),
        first_open(s, i, n, a).no_duplicates(),
        forall|j: int| 0 <= j < i && open_var(n, a, #[trigger] s[j]) ==> first_open(s, i, n, a).contains(s[j]),
    decreases i,
{
    if i > 0 {
        lemma_first_open(s, i - 1, n, a);
        let prev = first_open(s, i - 1, n, a);
        let v = s[i - 1];
        if open_var(n, a, v) && !prev.contains(v) {
            let cur = prev.push(v);
            assert forall|j: int| 0 <= j < i && open_var(n, a, #[trigger] s[j]) implies cur.contains(s[j]) by {
                if j < i - 1 {
                    let t = choose|t: int| 0 <= t < prev.len() && prev[t] == s[j];
                    assert(cur[t] == s[j]);
                } else {
                    assert(cur[cur.len() - 1] == s[j]);
                }
            }
        }
    }
}

/// The checked ranking orders exactly the unassigned variables, each once.
pub proof fn lemma_usable_order(ranked: Seq<Var>, n: u32, a: Seq<Option<bool>>)
    requires
        a.len() == n,
    ensures
        ({
            let o = usable_order(ranked, n, a);
            &&& o.no_duplicates()
            &&& forall|t: int| 0 <= t < o.len() ==> open_var(n, a, #[trigger] o[t])
            &&& forall|t: int| 0 <= t < o.len() ==> unassigned_list(a).contains(#[trigger] o[t])
            &&& forall|v: Var| #[trigger] unassigned_list(a).contains(v) ==> o.contains(v)
            &&& o.len() == unassigned_list(a).len()
        }),
{
    let u = unassigned_list(a);
    let s = ranked + u;
    let o = usable_order(ranked, n, a);
    lemma_unassigned_upto(a, a.len() as int);
    lemma_first_open(s, s.len() as int, n, a);
    assert forall|v: Var| #[trigger] u.contains(v) implies o.contains(v) by {
        let q = choose|q: int| 0 <= q < u.len() && u[q] == v;
        assert(s[ranked.len() + q] == v);
        assert(open_var(n, a, u[q]));
    }
    assert forall|t: int| 0 <= t < o.len() implies u.contains(#[trigger] o[t]) by {
        assert(open_var(n, a, o[t]));
    }
    assert(u.no_duplicates()) by {
        assert forall|x: int, y: int| 0 <= x < u.len() && 0 <= y < u.len() && x != y implies u[x] != u[y] by {
            if x < y {
                assert(u[x].0 < u[y].0);
            } else {
                assert(u[y].0 < u[x].0);
            }
        }
    }
    o.unique_seq_to_set();
    u.unique_seq_to_set();
    assert(o.to_set() =~= u.to_set());
}

/// Whether `v` occurs in `vars`.
fn holds_var(vars: &Vec<Var>, v: Var) -> (r: bool)
    ensures
        r == vars@.contains(v),
{
    let mut t: usize = 0;
    while t < vars.len()
        invariant
            t <= vars@.len(),
            forall|u: int| 0 <= u < t ==> vars@[u] != v,
        decreases vars@.len() - t,
    {
        if vars[t] == v {
            assert(vars@[t as int] == v);
            return true;
        }
        t = t + 1;
    }
    false
}

/// What `ranked` gives once checked: `usable_order`, which orders exactly
/// the unassigned variables, each once.
pub fn usable_ranking(ranked: Vec<Var>, unassigned: &Vec<Var>, cnf: &Cnf, assignment: &Assignment) -> (r: Vec<Var>)
    requires
        assignment@.len() == cnf.num_vars,
        unassigned@ == unassigned_list(assignment@),
        unassigned@.len() > 0,
    ensures
        r@ == usable_order(ranked@, cnf.num_vars, assignment@),
        r@.len() == unassigned@.len(),
        r@.no_duplicates(),
        forall|k: int| 0 <= k < r@.len() ==> open_var(cnf.num_vars, assignment@, #[trigger] r@[k]),
{
    let ghost a = assignment@;
    let ghost n = cnf.num_vars;
    let ghost s = ranked@ + unassigned@;
    let mut kept: Vec<Var> = Vec::new();
    let mut k: usize = 0;
    while k < ranked.len()
        invariant
            k <= ranked@.len(),
            s == ranked@ + unassigned@,
            a == assignment@,
            n == cnf.num_vars,
            a.len() == n,
            kept@ == first_open(s, k as int, n, a),
        decreases ranked@.len() - k,
    {
        let v = ranked[k];
        assert(v == s[k as int]);
        if 1 <= v.0 && v.0 <= cnf.num_vars && !assignment.is_assigned(v) && !holds_var(&kept, v) {
            kept.push(v);
        }
        k = k + 1;
    }
    let mut t: usize = 0;
    while t < unassigned.len()
        invariant
            t <= unassigned@.len(),
            s == ranked@ + unassigned@,
            a == assignment@,
            n == cnf.num_vars,
            a.len() == n,
            kept@ == first_open(s, ranked@.len() + t, n, a),
        decreases unassigned@.len() - t,
    {
        let v = unassigned[t];
        assert(v == s[ranked@.len() + t]);
        if 1 <= v.0 && v.0 <= cnf.num_vars && !assignment.is_assigned(v) && !holds_var(&kept, v) {
            kept.push(v);
        }
        t = t + 1;
    }
    proof {
        lemma_usable_order(ranked@, n, a);
    }
    kept
}

/// Every variable but `chosen`.
pub open spec fn other_than(chosen: Var) -> spec_fn(Var) -> bool {
    |v: Var| v != chosen
}

/// Up to three runner-ups from a ranking: the first entries other than
/// `chosen`, in order.
pub open spec fn ranked_runner_ups(ranked: Seq<Var>, chosen: Var) -> Seq<Var> {
    let others = ranked.filter(other_than(chosen));
    if others.len() <= 3 {
        others
    } else {
        others.take(3)
    }
}

/// In a ranking without repetition, the entries other than the first are
/// the rest of the ranking.
proof fn lemma_others_of_first(s: Seq<Var>)
    requires
        s.len() > 0,
        s.no_duplicates(),
    ensures
        s.filter(other_than(s[0])) == s.drop_first(),
    decreases s.len(),
{
    reveal(Seq::filter);
    let p = other_than(s[0]);
    if s.len() == 1 {
        assert(s.drop_last() =~= Seq::<Var>::empty());
        assert(s.drop_last().filter(p) =~= Seq::<Var>::empty());
        assert(!p(s.last()));
        assert(s.drop_first() =~= Seq::<Var>::empty());
    } else {
        let d = s.drop_last();
        assert(d[0] == s[0]);
        assert(d.no_duplicates()) by {
            assert forall|x: int, y: int| 0 <= x < d.len() && 0 <= y < d.len() && x != y implies d[x] != d[y] by {
                assert(d[x] == s[x] && d[y] == s[y]);
            }
        }
        lemma_others_of_first(d);
        assert(s.last() != s[0]) by {
            assert(s[s.len() - 1] == s.last());
        }
        assert(p(s.last()));
        assert(s.filter(p) == d.filter(p).push(s.last()));
        assert(d.drop_first().push(s.last()) =~= s.drop_first());
    }
}

/// The first `min(3, len - 1)` entries after the first one.
pub open spec fn next_three(s: Seq<Var>) -> Seq<Var> {
    if s.len() <= 4 {
        s.drop_first()
    } else {
        s.subrange(1, 4)
    }
}

/// The decision that a ranking gives: its first entry, then up to three
/// runner-ups (`ranked_runner_ups`), each variable with the value that its
/// Jeroslow-Wang scores prefer.
pub fn ranked_decision(cnf: &Cnf, assignment: &Assignment, ranked: &Vec<Var>) -> (d: Decision)
    requires
        cnf.wf(),
        cnf.fits_counters(),
        assignment@.len() == cnf.num_vars,
        ranked@.len() > 0,
        forall|k: int| 0 <= k < ranked@.len() ==> 1 <= (#[trigger] ranked@[k]).0 <= cnf.num_vars,
    ensures
        d.var == ranked@[0],
        d.value == prefers_true(cnf, assignment@, d.var),
        d.runner_ups@.map_values(|r: RunnerUp| r.var) == ranked_runner_ups(ranked@, d.var),
        ranked@.no_duplicates() ==> d.runner_ups@.map_values(|r: RunnerUp| r.var) == next_three(ranked@),
        forall|t: int| 0 <= t < d.runner_ups@.len() ==> (#[trigger] d.runner_ups@[t]).value == prefers_true(
            cnf,
            assignment@,
            d.runner_ups@[t].var,
        ),
{
    let ghost a = assignment@;
    let scores = jw_scores(cnf, assignment);
    let var = ranked[0];
    let value = value_for(&scores, var, Ghost(cnf), Ghost(a));
    let ghost ne = other_than(var);
    proof {
        assert(ranked@.take(0) =~= Seq::<Var>::empty());
        reveal(Seq::filter);
    }
    let mut runner_ups: Vec<RunnerUp> = Vec::new();
    let mut k: usize = 0;
    while k < ranked.len() && runner_ups.len() < 3
        invariant
            k <= ranked@.len(),
            a == assignment@,
            ne == other_than(var),
            scores.holds_scores_of(cnf, a),
            forall|q: int| 0 <= q < ranked@.len() ==> 1 <= (#[trigger] ranked@[q]).0 <= cnf.num_vars,
            runner_ups@.map_values(|r: RunnerUp| r.var) == ranked@.take(k as int).filter(ne),
            runner_ups@.len() <= 3,
            forall|t: int| 0 <= t < runner_ups@.len() ==> (#[trigger] runner_ups@[t]).value == prefers_true(
                cnf,
                a,
                runner_ups@[t].var,
            ),
        decreases ranked@.len() - k,
    {
        let v = ranked[k];
        let ghost before = runner_ups@;
        proof {
            let t = ranked@.take(k + 1);
            assert(t.drop_last() =~= ranked@.take(k as int));
            assert(t.last() == v);
            reveal(Seq::filter);
        }
        if v != var {
            let vv = value_for(&scores, v, Ghost(cnf), Ghost(a));
            runner_ups.push(RunnerUp { var: v, value: vv });
            proof {
                assert(runner_ups@.map_values(|r: RunnerUp| r.var) =~= before.map_values(|r: RunnerUp| r.var).push(v));
            }
        }
        k = k + 1;
    }
    proof {
        let others = ranked@.filter(ne);
        let head = ranked@.take(k as int);
        let tail = ranked@.skip(k as int);
        assert(ranked@ =~= head + tail);
        Seq::filter_distributes_over_add(head, tail, ne);
        let rv = runner_ups@.map_values(|r: RunnerUp| r.var);
        if k == ranked@.len() {
            assert(tail =~= Seq::<Var>::empty());
            assert(tail.filter(ne) =~= Seq::<Var>::empty()) by {
                reveal(Seq::filter);
            }
            assert(others =~= rv);
        } else {
            assert(rv.len() == 3);
            assert(others.take(3) =~= rv);
            if others.len() == 3 {
                assert(others.take(3) =~= others);
            }
        }
    }
    proof {
        if ranked@.no_duplicates() {
            lemma_others_of_first(ranked@);
            let f = ranked@.drop_first();
            if f.len() > 3 {
                assert(f.take(3) =~= ranked@.subrange(1, 4));
            }
        }
    }
    Decision { var, value, runner_ups }
}

/// Branching by a ranking: the decision `ranked_decision` gives on the
/// checked ranking (`usable_ranking`); none when every variable is
/// assigned.
pub struct RankedBrancher<R: Ranker> {
    pub ranker: R,
}

/// `dec` is the decision of a checked ranking of the unassigned variables:
/// its variable is unassigned, its runner-ups are `min(3, u - 1)` distinct
/// other unassigned variables (`u` unassigned in all), and every value is
/// the one the Jeroslow-Wang scores prefer; the variables are the first
/// entries of the checked form of some ranking.
pub open spec fn ranked_decision_on(cnf: &Cnf, a: Seq<Option<bool>>, dec: Decision) -> bool {
    let u = unassigned_list(a);
    let rv = dec.runner_ups@.map_values(|r: RunnerUp| r.var);
    &&& u.contains(dec.var)
    &&& dec.value == prefers_true(cnf, a, dec.var)
    &&& rv.len() == (if u.len() <= 4 { u.len() - 1 } else { 3 })
    &&& rv.no_duplicates()
    &&& forall|t: int| 0 <= t < rv.len() ==> u.contains(#[trigger] rv[t]) && rv[t] != dec.var
    &&& forall|t: int| 0 <= t < dec.runner_ups@.len() ==> (#[trigger] dec.runner_ups@[t]).value == prefers_true(
        cnf,
        a,
        dec.runner_ups@[t].var,
    )
    &&& exists|ranked: Seq<Var>|
        #![trigger usable_order(ranked, cnf.num_vars, a)]
        {
            let order = usable_order(ranked, cnf.num_vars, a);
            &&& dec.var == order[0]
            &&& rv == next_three(order)
        }
}

/// The decision from `ranker`'s checked ranking of the unassigned
/// variables; none when every variable is assigned.
fn ranked_choice<R: Ranker>(ranker: &mut R, cnf: &Cnf, assignment: &Assignment, stats: &Stats, trail_depth: u32) -> (d:
    Option<Decision>)
    requires
        cnf.wf(),
        cnf.fits_counters(),
        assignment@.len() == cnf.num_vars,
        stats.covers(cnf.num_vars as nat),
    ensures
        d is None <==> unassigned_list(assignment@).len() == 0,
        d matches Some(dec) ==> ranked_decision_on(cnf, assignment@, dec),
{
    let unassigned = unassigned_vars(cnf, assignment);
    if unassigned.len() == 0 {
        return None;
    }
    let raw = ranker.rank(cnf, assignment, stats, trail_depth, &unassigned);
    let ghost raw_view = raw@;
    let ranked = usable_ranking(raw, &unassigned, cnf, assignment);
    let d = ranked_decision(cnf, assignment, &ranked);
    proof {
        let a = assignment@;
        let u = unassigned_list(a);
        assert(usable_order(raw_view, cnf.num_vars, a) == ranked@);
        lemma_usable_order(raw_view, cnf.num_vars, a);
        let rv = d.runner_ups@.map_values(|r: RunnerUp| r.var);
        assert(rv == next_three(ranked@));
        assert(u.contains(d.var));
        assert forall|t: int| 0 <= t < rv.len() implies u.contains(#[trigger] rv[t]) && rv[t] != d.var by {
            assert(rv[t] == ranked@[t + 1]);
        }
        assert(rv.no_duplicates()) by {
            assert forall|x: int, y: int| 0 <= x < rv.len() && 0 <= y < rv.len() && x != y implies rv[x] != rv[y] by {
                assert(rv[x] == ranked@[x + 1] && rv[y] == ranked@[y + 1]);
            }
        }
    }
    Some(d)
}

impl<R: Ranker> Brancher for RankedBrancher<R> {
    /// The decision from a checked ranking while a variable is unassigned,
    /// none otherwise.
    open spec fn gives(&self, cnf: &Cnf, a: Seq<Option<bool>>, d: Option<Decision>) -> bool {
        &&& (d is None <==> unassigned_list(a).len() == 0)
        &&& (d matches Some(dec) ==> ranked_decision_on(cnf, a, dec))
    }

    fn next_decision(&mut self, cnf: &Cnf, assignment: &Assignment, stats: &Stats, trail_depth: u32) -> (d: Option<
        Decision,
    >)
        ensures
            d is None <==> unassigned_list(assignment@).len() == 0,
            d matches Some(dec) ==> ranked_decision_on(cnf, assignment@, dec),
    {
        ranked_choice(&mut self.ranker, cnf, assignment, stats, trail_depth)
    }
}

/// A branching decision by the heuristic `heuristic`: the Jeroslow-Wang
/// decision with random picks under `threshold` (drawing from `rng`), or
/// the decision from `ranker`'s checked ranking; none when every variable
/// is assigned. The ranking heuristic needs a ranker.
pub fn choose_decision<R: Ranker>(
    cnf: &Cnf,
    assignment: &Assignment,
    stats: &Stats,
    trail_depth: u32,
    rng: &mut StdRng,
    threshold: u64,
    heuristic: HeuristicKind,
    ranker: Option<&mut R>,
) -> (d: Option<Decision>)
    requires
        cnf.wf(),
        cnf.fits_counters(),
        assignment@.len() == cnf.num_vars,
        stats.covers(cnf.num_vars as nat),
        heuristic is Nnue ==> ranker is Some,
    ensures
        d is None <==> unassigned_list(assignment@).len() == 0,
        heuristic is JwEpsilon ==> (d matches Some(dec) ==> jw_decision_on(cnf, assignment@, dec)),
        heuristic is JwEpsilon && threshold == 0 ==> (d matches Some(dec) ==> exists|i: int|
            is_first_best(cnf, assignment@, unassigned_list(assignment@), i) && dec.var == unassigned_list(
                assignment@,
            )[i]),
        heuristic is Nnue ==> (d matches Some(dec) ==> ranked_decision_on(cnf, assignment@, dec)),
{
    match heuristic {
        HeuristicKind::JwEpsilon => choose_jw_decision(cnf, assignment, rng, threshold),
        HeuristicKind::Nnue => match ranker {
            Some(r) => ranked_choice(r, cnf, assignment, stats, trail_depth),
            None => None,
        },
    }
}

} // verus!
