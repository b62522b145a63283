//! Unit propagation and clause evaluation under a partial assignment.

use vstd::prelude::*;

use crate::cnf::{clause_holds, lit_holds, Cnf, Lit};
use crate::solver::assignment::{extends, lit_value, refines, unassigned_count, unassigned_below, Assignment};
use crate::solver::stats::{bump32, halved, heat_after_clause, Stats};

verus! {

/// Some literal of `c` is true under `a`.
pub open spec fn satisfied_under(a: Seq<Option<bool>>, c: Seq<Lit>) -> bool {
    exists|j: int| 0 <= j < c.len() && lit_value(a, #[trigger] c[j]) == Some(true)
}

/// Every literal of `c` is false under `a`.
pub open spec fn falsified_under(a: Seq<Option<bool>>, c: Seq<Lit>) -> bool {
    forall|j: int| 0 <= j < c.len() ==> lit_value(a, #[trigger] c[j]) == Some(false)
}

/// Every clause of `cnf` is satisfied under `a`.
pub open spec fn all_satisfied_under(cnf: &Cnf, a: Seq<Option<bool>>) -> bool {
    forall|i: int| 0 <= i < cnf.clauses@.len() ==> satisfied_under(a, #[trigger] cnf.clause(i))
}

/// The literals of `c` that `a` leaves unassigned, in order, one entry per
/// occurrence.
pub open spec fn free_lits(a: Seq<Option<bool>>, c: Seq<Lit>) -> Seq<Lit>
    decreases c.len(),
{
    if c.len() == 0 {
        Seq::empty()
    } else {
        let rest = free_lits(a, c.drop_last());
        if lit_value(a, c.last()) is None {
            rest.push(c.last())
        } else {
            rest
        }
    }
}

/// What a clause says under a partial assignment.
pub enum ClauseStatus {
    Satisfied,
    Unit(Lit),
    Unresolved,
    Conflict,
}

/// The status of `c` under `a`: satisfied when some literal is true;
/// otherwise a conflict with no unassigned literal, a unit with exactly one
/// unassigned occurrence (that literal), unresolved with two or more.
pub open spec fn status_of(a: Seq<Option<bool>>, c: Seq<Lit>) -> ClauseStatus {
    if satisfied_under(a, c) {
        ClauseStatus::Satisfied
    } else if free_lits(a, c).len() == 0 {
        ClauseStatus::Conflict
    } else if free_lits(a, c).len() == 1 {
        ClauseStatus::Unit(free_lits(a, c)[0])
    } else {
        ClauseStatus::Unresolved
    }
}

/// The statistics `after` are `before` with one conflict on `c` recorded.
pub open spec fn records_conflict(before: &Stats, after: &Stats, c: Seq<Lit>) -> bool {
    &&& after.conflicts() == bump32(before.conflicts())
    &&& after.heat() == if after.conflicts() % 256 == 0 {
        halved(heat_after_clause(before.heat(), c))
    } else {
        heat_after_clause(before.heat(), c)
    }
    &&& after.flips() == before.flips()
}

/// A clause has at most as many unassigned occurrences as literals.
pub proof fn lemma_free_lits_len(a: Seq<Option<bool>>, c: Seq<Lit>)
    ensures
        free_lits(a, c).len() <= c.len(),
    decreases c.len(),
{
    if c.len() > 0 {
        lemma_free_lits_len(a, c.drop_last());
    }
}

pub proof fn lemma_free_lits_facts(a: Seq<Option<bool>>, c: Seq<Lit>)
    ensures
        forall|j: int| 0 <= j < c.len() && lit_value(a, #[trigger] c[j]) is None ==> free_lits(a, c).contains(c[j]),
        forall|k: int| 0 <= k < free_lits(a, c).len() ==> lit_value(a, #[trigger] free_lits(a, c)[k]) is None
            && c.contains(free_lits(a, c)[k]),
        free_lits(a, c).len() <= c.len(),
    decreases c.len(),
{
    if c.len() > 0 {
        lemma_free_lits_facts(a, c.drop_last());
        let rest = free_lits(a, c.drop_last());
        assert forall|j: int| 0 <= j < c.len() && lit_value(a, #[trigger] c[j]) is None implies free_lits(a, c).contains(c[j]) by {
            if j < c.len() - 1 {
                assert(c.drop_last()[j] == c[j]);
                let k = choose|k: int| 0 <= k < rest.len() && rest[k] == c[j];
                if lit_value(a, c.last()) is None {
                    assert(free_lits(a, c)[k] == c[j]);
                }
            } else {
                assert(free_lits(a, c)[free_lits(a, c).len() - 1] == c[j]);
            }
        }
        assert forall|k: int| 0 <= k < free_lits(a, c).len() implies lit_value(a, #[trigger] free_lits(a, c)[k]) is None
            && c.contains(free_lits(a, c)[k]) by {
            if k < rest.len() {
                let j = choose|j: int| 0 <= j < c.drop_last().len() && c.drop_last()[j] == rest[k];
                assert(c[j] == rest[k]);
            } else {
                assert(c[c.len() - 1] == c.last());
            }
        }
    }
}

/// A unit clause that holds in a total extension of `a` holds through its
/// one unassigned literal; a conflict clause holds in no extension.
proof fn lemma_status_models(a: Seq<Option<bool>>, c: Seq<Lit>, m: Seq<bool>)
    requires
        extends(m, a),
        forall|j: int| 0 <= j < c.len() ==> 0 <= (#[trigger] c[j]).var.slot() < a.len(),
    ensures
        status_of(a, c) is Conflict ==> !clause_holds(m, c),
        status_of(a, c) is Conflict ==> falsified_under(a, c),
        status_of(a, c) matches ClauseStatus::Unit(l) ==> (clause_holds(m, c) ==> lit_holds(m, l))
            && lit_value(a, l) is None && c.contains(l),
{
    lemma_free_lits_facts(a, c);
    if !satisfied_under(a, c) {
        assert forall|j: int| 0 <= j < c.len() && lit_value(a, #[trigger] c[j]) is Some implies lit_value(a, c[j]) == Some(false) by {
        }
        if free_lits(a, c).len() == 0 {
            assert forall|j: int| 0 <= j < c.len() implies !lit_holds(m, #[trigger] c[j]) by {
                if lit_value(a, c[j]) is None {
                    assert(free_lits(a, c).contains(c[j]));
                }
            }
            assert forall|j: int| 0 <= j < c.len() implies lit_value(a, #[trigger] c[j]) == Some(false) by {
                if lit_value(a, c[j]) is None {
                    assert(free_lits(a, c).contains(c[j]));
                }
            }
        } else if free_lits(a, c).len() == 1 {
            let l = free_lits(a, c)[0];
            assert(lit_value(a, l) is None);
            if clause_holds(m, c) {
                let j = choose|j: int| 0 <= j < c.len() && lit_holds(m, #[trigger] c[j]);
                if lit_value(a, c[j]) is None {
                    assert(free_lits(a, c).contains(c[j]));
                } else {
                    assert(lit_value(a, c[j]) == Some(false));
                }
            }
        }
    }
}

/// Fixing more values never frees an occurrence: a refinement leaves at
/// most as many unassigned occurrences in a clause.
proof fn lemma_free_lits_refine(a: Seq<Option<bool>>, b: Seq<Option<bool>>, c: Seq<Lit>)
    requires
        refines(b, a),
        forall|j: int| 0 <= j < c.len() ==> 0 <= (#[trigger] c[j]).var.slot() < a.len(),
    ensures
        free_lits(b, c).len() <= free_lits(a, c).len(),
    decreases c.len(),
{
    if c.len() > 0 {
        let d = c.drop_last();
        assert forall|j: int| 0 <= j < d.len() implies 0 <= (#[trigger] d[j]).var.slot() < a.len() by {
            assert(d[j] == c[j]);
        }
        lemma_free_lits_refine(a, b, d);
        let l = c.last();
        assert(0 <= l.var.slot() < a.len()) by {
            assert(c[c.len() - 1] == l);
        }
        if lit_value(b, l) is None {
            assert(lit_value(a, l) is None);
        }
    }
}

/// A clause that is a unit or a conflict under `a` constrains every settled
/// refinement `b` of `a`: a conflict rules `b` out, and the literal of a
/// unit is true under `b`.
proof fn lemma_settled_refinement(a: Seq<Option<bool>>, b: Seq<Option<bool>>, c: Seq<Lit>)
    requires
        refines(b, a),
        forall|j: int| 0 <= j < c.len() ==> 0 <= (#[trigger] c[j]).var.slot() < a.len(),
        status_of(b, c) is Satisfied || status_of(b, c) is Unresolved,
    ensures
        !(status_of(a, c) is Conflict),
        status_of(a, c) matches ClauseStatus::Unit(l) ==> lit_value(b, l) == Some(true),
{
    lemma_free_lits_facts(a, c);
    lemma_free_lits_facts(b, c);
    lemma_free_lits_refine(a, b, c);
    if !satisfied_under(a, c) && free_lits(a, c).len() <= 1 {
        let fa = free_lits(a, c);
        assert forall|j: int| 0 <= j < c.len() && lit_value(a, #[trigger] c[j]) is Some implies lit_value(a, c[j]) == Some(false) by {
        }
        if free_lits(a, c).len() == 1 {
            let l = fa[0];
            if lit_value(b, l) != Some(true) {
                assert(!satisfied_under(b, c)) by {
                    if satisfied_under(b, c) {
                        let j = choose|j: int| 0 <= j < c.len() && lit_value(b, #[trigger] c[j]) == Some(true);
                        if lit_value(a, c[j]) is None {
                            assert(fa.contains(c[j]));
                            assert(c[j] == l);
                        } else {
                            assert(lit_value(a, c[j]) == Some(false));
                        }
                    }
                }
            }
        } else {
            assert(!satisfied_under(b, c)) by {
                if satisfied_under(b, c) {
                    let j = choose|j: int| 0 <= j < c.len() && lit_value(b, #[trigger] c[j]) == Some(true);
                    if lit_value(a, c[j]) is None {
                        assert(fa.contains(c[j]));
                    } else {
                        assert(lit_value(a, c[j]) == Some(false));
                    }
                }
            }
        }
    }
}

/// Assigning an unassigned slot lowers the number of unassigned slots by one.
pub proof fn lemma_unassigned_below_update(a: Seq<Option<bool>>, s: int, v: Option<bool>, n: int)
    requires
        0 <= s < a.len(),
        0 <= n <= a.len(),
        a[s] is None,
        v is Some,
    ensures
        s < n ==> unassigned_below(a.update(s, v), n) + 1 == unassigned_below(a, n),
        s >= n ==> unassigned_below(a.update(s, v), n) == unassigned_below(a, n),
    decreases n,
{
    if n > 0 {
        lemma_unassigned_below_update(a, s, v, n - 1);
    }
}

/// Keeping every fixed value never adds unassigned slots.
pub proof fn lemma_unassigned_below_refines(b: Seq<Option<bool>>, a: Seq<Option<bool>>, n: int)
    requires
        refines(b, a),
        0 <= n <= a.len(),
    ensures
        unassigned_below(b, n) <= unassigned_below(a, n),
    decreases n,
{
    if n > 0 {
        lemma_unassigned_below_refines(b, a, n - 1);
    }
}

/// The status of a clause, with the literal that makes it a unit.
fn clause_status(clause: &[Lit], assignment: &Assignment) -> (st: ClauseStatus)
    requires
        forall|j: int| 0 <= j < clause@.len() ==> 1 <= #[trigger] clause@[j].var.0 <= assignment@.len(),
    ensures
        st == status_of(assignment@, clause@),
{
    let ghost a = assignment@;
    let mut unit: Option<Lit> = None;
    let mut multiple = false;
    let mut j: usize = 0;
    while j < clause.len()
        invariant
            j <= clause@.len(),
            a == assignment@,
            forall|k: int| 0 <= k < clause@.len() ==> 1 <= #[trigger] clause@[k].var.0 <= a.len(),
            !satisfied_under(a, clause@.take(j as int)),
            unit is None <==> free_lits(a, clause@.take(j as int)).len() == 0,
            unit matches Some(l) ==> free_lits(a, clause@.take(j as int))[0] == l,
            multiple <==> free_lits(a, clause@.take(j as int)).len() >= 2,
        decreases clause@.len() - j,
    {
        let lit = clause[j];
        proof {
            assert(clause@.take(j + 1).drop_last() =~= clause@.take(j as int));
            assert(clause@.take(j + 1).last() == lit);
        }
        match assignment.eval_lit(lit) {
            Some(true) => {
                proof {
                    assert(clause@[j as int] == lit);
                }
                return ClauseStatus::Satisfied;
            },
            Some(false) => {},
            None => {
                if unit.is_some() {
                    multiple = true;
                } else {
                    unit = Some(lit);
                }
            },
        }
        proof {
            let t = clause@.take(j + 1);
            assert forall|k: int| 0 <= k < t.len() implies lit_value(a, #[trigger] t[k]) != Some(true) by {
                if k < j {
                    assert(t[k] == clause@.take(j as int)[k]);
                }
            }
        }
        j = j + 1;
    }
    proof {
        assert(clause@.take(clause@.len() as int) =~= clause@);
    }
    if multiple {
        ClauseStatus::Unresolved
    } else if let Some(lit) = unit {
        ClauseStatus::Unit(lit)
    } else {
        ClauseStatus::Conflict
    }
}

/// Whether some literal of `clause` is true under `assignment`.
pub(crate) fn clause_satisfied(clause: &[Lit], assignment: &Assignment) -> (r: bool)
    requires
        forall|j: int| 0 <= j < clause@.len() ==> 1 <= #[trigger] clause@[j].var.0 <= assignment@.len(),
    ensures
        r == satisfied_under(assignment@, clause@),
{
    let mut j: usize = 0;
    while j < clause.len()
        invariant
            j <= clause@.len(),
            forall|k: int| 0 <= k < clause@.len() ==> 1 <= #[trigger] clause@[k].var.0 <= assignment@.len(),
            forall|k: int| 0 <= k < j ==> lit_value(assignment@, #[trigger] clause@[k]) != Some(true),
        decreases clause@.len() - j,
    {
        if assignment.eval_lit(clause[j]) == Some(true) {
            return true;
        }
        j = j + 1;
    }
    false
}

/// Every literal of `cnf` names a variable in `1..=n`.
pub open spec fn lits_within(cnf: &Cnf, n: nat) -> bool {
    forall|i: int, j: int|
        0 <= i < cnf.clauses@.len() && 0 <= j < cnf.clause(i).len() ==> 1 <= #[trigger] cnf.clause(i)[j].var.0 <= n
}

/// Whether every clause of `cnf` is satisfied under `assignment`.
pub fn all_clauses_satisfied(cnf: &Cnf, assignment: &Assignment) -> (r: bool)
    requires
        lits_within(cnf, assignment@.len()),
    ensures
        r == all_satisfied_under(cnf, assignment@),
{
    let mut i: usize = 0;
    while i < cnf.clauses.len()
        invariant
            i <= cnf.clauses@.len(),
            lits_within(cnf, assignment@.len()),
            forall|k: int| 0 <= k < i ==> satisfied_under(assignment@, #[trigger] cnf.clause(k)),
        decreases cnf.clauses@.len() - i,
    {
        let clause = cnf.clauses[i].as_slice();
        proof {
            assert(clause@ == cnf.clause(i as int));
            assert forall|j: int| 0 <= j < clause@.len() implies 1 <= #[trigger] clause@[j].var.0 <= assignment@.len() by {
                assert(cnf.clause(i as int)[j] == clause@[j]);
            }
        }
        if !clause_satisfied(clause, assignment) {
            return false;
        }
        i = i + 1;
    }
    true
}

/// No clause is falsified or a unit under `a`: propagation has nothing
/// left to do.
pub open spec fn settled(cnf: &Cnf, a: Seq<Option<bool>>) -> bool {
    forall|i: int| 0 <= i < cnf.clauses@.len() ==> {
        let st = status_of(a, #[trigger] cnf.clause(i));
        st is Satisfied || st is Unresolved
    }
}

/// Every settled refinement of `start` keeps all values of `a`.
pub open spec fn below_settled(cnf: &Cnf, start: Seq<Option<bool>>, a: Seq<Option<bool>>) -> bool {
    forall|b: Seq<Option<bool>>| #![trigger refines(b, start), settled(cnf, b)]
        refines(b, start) && settled(cnf, b) ==> refines(b, a)
}

/// How a propagation pass or a whole propagation ends: at a falsified
/// clause (its position, and the assignment then), or with the assignment
/// reached and whether the pass assigned anything.
pub enum PassEnd {
    Conflict(int, Seq<Option<bool>>),
    Done(Seq<Option<bool>>, bool),
}

/// One pass over the clauses from position `i` on, from `a`: a falsified
/// clause stops it; the free literal of a unit clause is made true and the
/// pass goes on.
pub open spec fn pass_from(cnf: &Cnf, a: Seq<Option<bool>>, i: int, changed: bool) -> PassEnd
    decreases cnf.clauses@.len() - i,
{
    if i < 0 || i >= cnf.clauses@.len() {
        PassEnd::Done(a, changed)
    } else {
        match status_of(a, cnf.clause(i)) {
            ClauseStatus::Conflict => PassEnd::Conflict(i, a),
            ClauseStatus::Unit(l) => pass_from(cnf, a.update(l.var.slot(), Some(!l.neg)), i + 1, true),
            _ => pass_from(cnf, a, i + 1, changed),
        }
    }
}

/// Propagation from `a`: passes over the clauses, in order, until a pass
/// meets a falsified clause or assigns nothing.
pub open spec fn propagation_run(cnf: &Cnf, a: Seq<Option<bool>>) -> PassEnd
    decreases unassigned_count(a),
{
    match pass_from(cnf, a, 0, false) {
        PassEnd::Conflict(i, b) => PassEnd::Conflict(i, b),
        PassEnd::Done(b, changed) => if changed && unassigned_count(b) < unassigned_count(a) {
            propagation_run(cnf, b)
        } else {
            PassEnd::Done(b, changed)
        },
    }
}

/// `b` is the least settled refinement of `a`.
pub open spec fn least_settled(cnf: &Cnf, a: Seq<Option<bool>>, b: Seq<Option<bool>>) -> bool {
    refines(b, a) && settled(cnf, b) && below_settled(cnf, a, b)
}

/// What propagating `a` gives: its least settled refinement, none when no
/// settled refinement exists (a conflict).
#[verifier::opaque]
pub open spec fn propagated(cnf: &Cnf, a: Seq<Option<bool>>) -> Option<Seq<Option<bool>>> {
    if exists|b: Seq<Option<bool>>| #[trigger] least_settled(cnf, a, b) {
        Some(choose|b: Seq<Option<bool>>| #[trigger] least_settled(cnf, a, b))
    } else {
        None
    }
}

/// After propagating `a`, a decision is still to be made: there is no
/// conflict and some clause is not yet satisfied.
pub open spec fn decision_needed(cnf: &Cnf, a: Seq<Option<bool>>) -> bool {
    propagated(cnf, a) matches Some(p) && !all_satisfied_under(cnf, p)
}

/// There is one least settled refinement.
proof fn lemma_least_settled_unique(cnf: &Cnf, a: Seq<Option<bool>>, b1: Seq<Option<bool>>, b2: Seq<Option<bool>>)
    requires
        least_settled(cnf, a, b1),
        least_settled(cnf, a, b2),
    ensures
        b1 == b2,
{
    assert(refines(b2, b1));
    assert(refines(b1, b2));
    assert(b1 =~= b2) by {
        assert forall|i: int| 0 <= i < b1.len() implies b1[i] == b2[i] by {
            if b1[i] is Some {
                assert(b2[i] == b1[i]);
            } else if b2[i] is Some {
                assert(b1[i] == b2[i]);
            }
        }
    }
}

/// Repeatedly assigns the one free literal of each unit clause until no
/// clause is a unit; stops with `false` at the first clause found false,
/// after recording that conflict in `stats`.
///
/// The result is exactly the least settled refinement of `assignment`: on
/// `true` it is settled and every settled refinement of `assignment` keeps
/// its values; `false` means that there is no settled refinement. Only
/// forced values are added, so every model of `cnf` that extends the
/// assignment before extends it after; on `false` no model extends the
/// assignment given and a clause falsified by the result was recorded; on
/// `true`, `stats` is unchanged. A settled assignment is left as it is, so
/// propagating twice gives what propagating once gives.
pub fn unit_propagate(cnf: &Cnf, assignment: &mut Assignment, stats: &mut Stats) -> (ok: bool)
    requires
        cnf.wf(),
        old(assignment)@.len() == cnf.num_vars,
        old(stats).covers(cnf.num_vars as nat),
    ensures
        refines(final(assignment)@, old(assignment)@),
        forall|m: Seq<bool>| extends(m, old(assignment)@) && cnf.is_model(m) ==> extends(m, final(assignment)@),
        !ok ==> forall|m: Seq<bool>| extends(m, old(assignment)@) ==> !cnf.is_model(m),
        ok ==> settled(cnf, final(assignment)@),
        ok ==> *final(stats) == *old(stats),
        !ok ==> exists|i: int| 0 <= i < cnf.clauses@.len()
            && falsified_under(final(assignment)@, #[trigger] cnf.clause(i))
            && records_conflict(old(stats), final(stats), cnf.clause(i)),
        final(stats).covers(cnf.num_vars as nat),
        settled(cnf, old(assignment)@) ==> ok && final(assignment)@ == old(assignment)@,
        ok ==> below_settled(cnf, old(assignment)@, final(assignment)@),
        !ok ==> forall|b: Seq<Option<bool>>| #[trigger] refines(b, old(assignment)@) ==> !settled(cnf, b),
        ok ==> propagated(cnf, old(assignment)@) == Some(final(assignment)@),
        !ok ==> propagated(cnf, old(assignment)@) is None,
        match propagation_run(cnf, old(assignment)@) {
            PassEnd::Conflict(i, b) => !ok && final(assignment)@ == b && 0 <= i < cnf.clauses@.len() && records_conflict(
                old(stats),
                final(stats),
                cnf.clause(i),
            ),
            PassEnd::Done(b, _) => ok && final(assignment)@ == b,
        },
{
    let ok = propagate_units(cnf, assignment, stats);
    proof {
        reveal(propagated);
        let a0 = old(assignment)@;
        if ok {
            assert(least_settled(cnf, a0, assignment@));
            let c = choose|b: Seq<Option<bool>>| #[trigger] least_settled(cnf, a0, b);
            lemma_least_settled_unique(cnf, a0, c, assignment@);
        } else {
            assert forall|b: Seq<Option<bool>>| !(#[trigger] least_settled(cnf, a0, b)) by {
                if least_settled(cnf, a0, b) {
                    assert(refines(b, a0));
                }
            }
        }
    }
    ok
}

/// The propagation loop of `unit_propagate`, with its contract but for the
/// name of its result.
fn propagate_units(cnf: &Cnf, assignment: &mut Assignment, stats: &mut Stats) -> (ok: bool)
    requires
        cnf.wf(),
        old(assignment)@.len() == cnf.num_vars,
        old(stats).covers(cnf.num_vars as nat),
    ensures
        refines(final(assignment)@, old(assignment)@),
        final(assignment)@.len() == old(assignment)@.len(),
        forall|m: Seq<bool>| extends(m, old(assignment)@) && cnf.is_model(m) ==> extends(m, final(assignment)@),
        !ok ==> forall|m: Seq<bool>| extends(m, old(assignment)@) ==> !cnf.is_model(m),
        ok ==> settled(cnf, final(assignment)@),
        ok ==> *final(stats) == *old(stats),
        !ok ==> exists|i: int| 0 <= i < cnf.clauses@.len()
            && falsified_under(final(assignment)@, #[trigger] cnf.clause(i))
            && records_conflict(old(stats), final(stats), cnf.clause(i)),
        final(stats).covers(cnf.num_vars as nat),
        settled(cnf, old(assignment)@) ==> ok && final(assignment)@ == old(assignment)@,
        ok ==> below_settled(cnf, old(assignment)@, final(assignment)@),
        !ok ==> forall|b: Seq<Option<bool>>| #[trigger] refines(b, old(assignment)@) ==> !settled(cnf, b),
        match propagation_run(cnf, old(assignment)@) {
            PassEnd::Conflict(i, b) => !ok && final(assignment)@ == b && 0 <= i < cnf.clauses@.len() && records_conflict(
                old(stats),
                final(stats),
                cnf.clause(i),
            ),
            PassEnd::Done(b, _) => ok && final(assignment)@ == b,
        },
{
    let ghost a0 = assignment@;
    let n = cnf.num_vars;
    loop
        invariant
            cnf.wf(),
            n == cnf.num_vars,
            assignment@.len() == n,
            a0 == old(assignment)@,
            refines(assignment@, a0),
            forall|m: Seq<bool>| extends(m, a0) && cnf.is_model(m) ==> extends(m, assignment@),
            *stats == *old(stats),
            stats.covers(n as nat),
            settled(cnf, a0) ==> assignment@ == a0,
            below_settled(cnf, a0, assignment@),
            propagation_run(cnf, a0) == propagation_run(cnf, assignment@),
        decreases unassigned_count(assignment@),
    {
        let ghost start = assignment@;
        let mut changed = false;
        let mut i: usize = 0;
        while i < cnf.clauses.len()
            invariant
                cnf.wf(),
                n == cnf.num_vars,
                i <= cnf.clauses@.len(),
                assignment@.len() == n,
                a0 == old(assignment)@,
                refines(assignment@, a0),
                refines(assignment@, start),
                forall|m: Seq<bool>| extends(m, a0) && cnf.is_model(m) ==> extends(m, assignment@),
                *stats == *old(stats),
                stats.covers(n as nat),
                !changed ==> assignment@ == start,
                changed ==> unassigned_count(assignment@) < unassigned_count(start),
                !changed ==> forall|k: int| 0 <= k < i ==> {
                    let st = status_of(assignment@, #[trigger] cnf.clause(k));
                    st is Satisfied || st is Unresolved
                },
                settled(cnf, a0) ==> start == a0 && !changed,
                below_settled(cnf, a0, assignment@),
                propagation_run(cnf, a0) == propagation_run(cnf, start),
                pass_from(cnf, start, 0, false) == pass_from(cnf, assignment@, i as int, changed),
            decreases cnf.clauses@.len() - i,
        {
            let clause = cnf.clauses[i].as_slice();
            proof {
                assert(crate::cnf::clause_in_range(cnf.clause(i as int), n));
                assert(clause@ == cnf.clause(i as int));
            }
            let st = clause_status(clause, assignment);
            proof {
                assert forall|m: Seq<bool>| extends(m, assignment@) implies ({
                    &&& status_of(assignment@, clause@) is Conflict ==> !clause_holds(m, clause@)
                    &&& status_of(assignment@, clause@) matches ClauseStatus::Unit(l) ==> (clause_holds(m, clause@) ==> lit_holds(m, l))
                }) by {
                    lemma_status_models(assignment@, clause@, m);
                }
                let cur = assignment@;
                let filled = Seq::new(n as nat, |k: int| match cur[k] { Some(b) => b, None => false });
                assert(extends(filled, cur));
                lemma_status_models(cur, clause@, filled);
            }
            match st {
                ClauseStatus::Satisfied | ClauseStatus::Unresolved => {},
                ClauseStatus::Conflict => {
                    proof {
                        assert forall|m: Seq<bool>| extends(m, a0) implies !cnf.is_model(m) by {
                            if cnf.is_model(m) {
                                assert(clause_holds(m, cnf.clause(i as int)));
                            }
                        }
                    }
                    proof {
                        crate::solver::stats::lemma_heat_after_clause_len(stats.heat(), clause@);
                        assert forall|b: Seq<Option<bool>>| #[trigger] refines(b, a0) implies !settled(cnf, b) by {
                            if settled(cnf, b) {
                                assert(refines(b, assignment@));
                                assert(status_of(b, cnf.clause(i as int)) is Satisfied || status_of(b, cnf.clause(i as int)) is Unresolved);
                                lemma_settled_refinement(assignment@, b, clause@);
                            }
                        }
                    }
                    stats.record_conflict_clause(clause);
                    proof {
                        assert(pass_from(cnf, assignment@, i as int, changed) == PassEnd::Conflict(i as int, assignment@));
                    }
                    return false;
                },
                ClauseStatus::Unit(lit) => {
                    let value = !lit.neg;
                    let ghost before = assignment@;
                    proof {
                        let j = choose|j: int| 0 <= j < clause@.len() && clause@[j] == lit;
                        assert(1 <= clause@[j].var.0 <= n);
                    }
                    let ok = assignment.assign(lit.var, value);
                    if !ok {
                        stats.record_conflict_clause(clause);
                        return false;
                    }
                    proof {
                        assert forall|b: Seq<Option<bool>>| #![trigger refines(b, a0), settled(cnf, b)]
                            refines(b, a0) && settled(cnf, b) implies refines(b, assignment@) by {
                            assert(refines(b, before));
                            assert(status_of(b, cnf.clause(i as int)) is Satisfied || status_of(b, cnf.clause(i as int)) is Unresolved);
                            lemma_settled_refinement(before, b, clause@);
                            assert(lit_value(b, lit) == Some(true));
                            assert forall|k: int| 0 <= k < assignment@.len() && (#[trigger] assignment@[k]) is Some implies b[k] == assignment@[k] by {
                                if k != lit.var.slot() {
                                    assert(before[k] == assignment@[k]);
                                }
                            }
                        }
                        lemma_unassigned_below_update(before, lit.var.slot(), Some(value), before.len() as int);
                        assert forall|m: Seq<bool>| extends(m, a0) && cnf.is_model(m) implies extends(m, assignment@) by {
                            assert(clause_holds(m, cnf.clause(i as int)));
                            assert(lit_holds(m, lit));
                            assert forall|k: int| 0 <= k < assignment@.len() && (#[trigger] assignment@[k]) is Some implies m[k] == assignment@[k]->0 by {
                                if k != lit.var.slot() {
                                    assert(before[k] == assignment@[k]);
                                }
                            }
                        }
                    }
                    proof {
                        assert(assignment@ == before.update(lit.var.slot(), Some(!lit.neg)));
                        assert(pass_from(cnf, before, i as int, changed) == pass_from(cnf, assignment@, i + 1, true));
                    }
                    changed = true;
                },
            }
            i = i + 1;
        }
        proof {
            assert(pass_from(cnf, assignment@, i as int, changed) == PassEnd::Done(assignment@, changed));
        }
        if !changed {
            return true;
        }
    }
}

} // verus!
