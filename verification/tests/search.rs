use enue_sat::cnf::{Cnf, Lit, Var};
use enue_sat::solver::assignment::Assignment;
use enue_sat::solver::branching::{choose_jw_decision, unassigned_vars};
use enue_sat::solver::dpll::{solve as dpll_solve, SolveState};
use enue_sat::solver::features::compute_features;
use enue_sat::solver::propagation::{all_clauses_satisfied, unit_propagate};
use enue_sat::solver::random::generator_for;
use enue_sat::solver::stats::Stats;
use enue_sat::solver::{needs_decision, parse_heuristic, search, search_accepts, solve, HeuristicKind, JwBrancher};

fn clause(lits: &[i32]) -> Vec<Lit> {
    lits.iter().map(|&v| Lit::from_dimacs(v)).collect()
}

fn formula(num_vars: u32, clauses: &[&[i32]]) -> Cnf {
    Cnf::new(num_vars, clauses.iter().map(|c| clause(c)).collect())
}

fn satisfies(cnf: &Cnf, model: &Assignment) -> bool {
    cnf.clauses.iter().all(|c| c.iter().any(|&l| model.eval_lit(l) == Some(true)))
}

#[test]
fn heuristic_names() {
    assert_eq!(HeuristicKind::from_str("jw"), Some(HeuristicKind::JwEpsilon));
    assert_eq!(HeuristicKind::from_str("jw-epsilon"), Some(HeuristicKind::JwEpsilon));
    assert_eq!(HeuristicKind::from_str("jw_epsilon"), Some(HeuristicKind::JwEpsilon));
    assert_eq!(HeuristicKind::from_str("nnue"), Some(HeuristicKind::Nnue));
    assert_eq!(HeuristicKind::from_str("JW"), None);
    assert_eq!(HeuristicKind::from_str(""), None);
    assert_eq!(parse_heuristic(None), Ok(HeuristicKind::JwEpsilon));
    assert_eq!(parse_heuristic(Some("nnue")), Ok(HeuristicKind::Nnue));
    assert_eq!(parse_heuristic(Some("vsids")), Err("unknown heuristic: vsids".to_string()));
}

#[test]
fn propagation_follows_a_chain_of_units() {
    let cnf = formula(3, &[&[1], &[-1, 2], &[-2, 3]]);
    let mut a = Assignment::new(3);
    let mut stats = Stats::new(3);
    assert!(unit_propagate(&cnf, &mut a, &mut stats));
    assert_eq!(a.get(Var(1)), Some(true));
    assert_eq!(a.get(Var(2)), Some(true));
    assert_eq!(a.get(Var(3)), Some(true));
    assert_eq!(stats.conflict_count(), 0);
    assert!(all_clauses_satisfied(&cnf, &a));
}

#[test]
fn propagating_twice_changes_nothing_more() {
    let cnf = formula(4, &[&[1], &[-1, 2, 3], &[-3, 4]]);
    let mut a = Assignment::new(4);
    let mut stats = Stats::new(4);
    assert!(unit_propagate(&cnf, &mut a, &mut stats));
    let once: Vec<Option<bool>> = (1..=4).map(|i| a.get(Var(i))).collect();
    assert_eq!(once, vec![Some(true), None, None, None]);
    assert!(unit_propagate(&cnf, &mut a, &mut stats));
    let twice: Vec<Option<bool>> = (1..=4).map(|i| a.get(Var(i))).collect();
    assert_eq!(once, twice);
    assert!(!all_clauses_satisfied(&cnf, &a));
}

#[test]
fn propagation_records_a_conflict() {
    let cnf = formula(2, &[&[1], &[-1, 2], &[-2, -1]]);
    let mut a = Assignment::new(2);
    let mut stats = Stats::new(2);
    assert!(!unit_propagate(&cnf, &mut a, &mut stats));
    assert_eq!(stats.conflict_count(), 1);
    assert_eq!(stats.conflict_heat(Var(1)), 1);
    assert_eq!(stats.conflict_heat(Var(2)), 1);
    assert_eq!(stats.recent_flips(Var(1)), 0);
}

#[test]
fn heat_halves_every_256_conflicts() {
    let mut stats = Stats::new(2);
    let c = clause(&[1, -1, 2]);
    for _ in 0..255 {
        stats.record_conflict_clause(&c);
    }
    assert_eq!(stats.conflict_count(), 255);
    assert_eq!(stats.conflict_heat(Var(1)), 510);
    assert_eq!(stats.conflict_heat(Var(2)), 255);
    stats.record_conflict_clause(&c);
    assert_eq!(stats.conflict_count(), 256);
    assert_eq!(stats.conflict_heat(Var(1)), 256);
    assert_eq!(stats.conflict_heat(Var(2)), 128);
    stats.inc_flip(Var(2));
    stats.inc_flip(Var(2));
    assert_eq!(stats.recent_flips(Var(2)), 2);
    assert_eq!(stats.recent_flips(Var(1)), 0);
}

#[test]
fn features_count_active_clauses_by_width() {
    let cnf = formula(4, &[&[1, 2], &[-1, 2, 3], &[1, -2, 3, 4], &[2]]);
    let mut stats = Stats::new(4);
    stats.inc_flip(Var(1));
    stats.record_conflict_clause(&clause(&[1]));
    let a = Assignment::new(4);
    let f = compute_features(&cnf, &a, &stats, Var(1), 7);
    assert_eq!((f.pos_len_2, f.neg_len_2), (1, 0));
    assert_eq!((f.pos_len_3, f.neg_len_3), (0, 1));
    assert_eq!((f.pos_len_4p, f.neg_len_4p), (1, 0));
    assert_eq!((f.conflict_heat, f.recent_flips, f.trail_depth), (1, 1, 7));
    assert_eq!(f.active_clause_ratio, 100);

    let mut b = Assignment::new(4);
    assert!(b.assign(Var(2), true));
    let g = compute_features(&cnf, &b, &stats, Var(1), 0);
    assert_eq!((g.pos_len_2, g.pos_len_3, g.pos_len_4p), (0, 1, 0));
    assert_eq!(g.active_clause_ratio, 25);
    let empty = formula(1, &[]);
    assert_eq!(compute_features(&empty, &Assignment::new(1), &Stats::new(1), Var(1), 0).active_clause_ratio, 0);
}

#[test]
fn unassigned_variables_in_increasing_order() {
    let cnf = formula(4, &[]);
    let mut a = Assignment::new(4);
    assert!(a.assign(Var(3), false));
    assert_eq!(unassigned_vars(&cnf, &a), vec![Var(1), Var(2), Var(4)]);
}

#[test]
fn jeroslow_wang_picks_the_best_scored_variable() {
    // var 1 scores 1/4 + 1/4 + 1/8, vars 2 and 3 score 1/4 + 1/8 each.
    let cnf = formula(3, &[&[1, 2], &[1, 3], &[-1, -2, -3]]);
    let a = Assignment::new(3);
    let mut rng = generator_for(Some(7));
    let d = choose_jw_decision(&cnf, &a, &mut rng, 0).expect("decision");
    assert_eq!((d.var, d.value), (Var(1), true));
    let runners: Vec<(Var, bool)> = d.runner_ups.iter().map(|r| (r.var, r.value)).collect();
    assert_eq!(runners, vec![(Var(2), true), (Var(3), true)]);
}

#[test]
fn jeroslow_wang_breaks_ties_by_first_variable_and_prefers_negative_when_larger() {
    // vars 1 and 2 tie at 1/4 + 1/4; var 2's negative literal scores more.
    let cnf = formula(3, &[&[1, -2], &[-1, -2], &[3, 1, 2, -3]]);
    let a = Assignment::new(3);
    let mut rng = generator_for(None);
    let d = choose_jw_decision(&cnf, &a, &mut rng, 0).expect("decision");
    assert_eq!(d.var, Var(1));
    assert_eq!(d.value, true);
    assert_eq!(d.runner_ups[0].var, Var(2));
    assert_eq!(d.runner_ups[0].value, false);
    let mut full = Assignment::new(3);
    for i in 1..=3 {
        assert!(full.assign(Var(i), true));
    }
    assert!(choose_jw_decision(&cnf, &full, &mut rng, 0).is_none());
}

#[test]
fn default_search_decides_small_formulas() {
    let sat = formula(3, &[&[1, 2], &[-1, 3], &[-2, -3], &[2, 3]]);
    let model = solve(&sat).expect("sat");
    assert_eq!(model.len(), 3);
    assert!(satisfies(&sat, &model));

    let pigeons = formula(2, &[&[1, 2], &[-1, 2], &[1, -2], &[-1, -2]]);
    assert!(solve(&pigeons).is_none());
    assert!(solve(&formula(0, &[&[]])).is_none());
    assert!(solve(&formula(0, &[])).is_some());
}

#[test]
fn search_logs_the_decisions_of_its_model_path() {
    let cnf = formula(3, &[&[1, 2, 3], &[-1, -2], &[-2, -3]]);
    let (model, state) = search(&cnf, JwBrancher::new(Some(3), 0));
    let model = model.expect("sat");
    assert!(satisfies(&cnf, &model));
    let stats = state.metrics();
    assert_eq!(stats.decisions, state.decisions);
    assert!(stats.decisions >= 1);
    let path = state.logged_path(true).expect("path");
    assert!(!path.is_empty());
    for group in path.iter() {
        assert_eq!(group.samples[0].label, 1);
        assert!(group.samples[1..].iter().all(|s| s.label == 0));
        let chosen = group.samples[0].var;
        assert_eq!(model.get(chosen), Some(group.samples[0].value));
    }
}

#[test]
fn failed_search_keeps_a_failing_path() {
    let cnf = formula(2, &[&[1, 2], &[-1, 2], &[1, -2], &[-1, -2]]);
    let (model, state) = search(&cnf, JwBrancher::new(Some(1), 0));
    assert!(model.is_none());
    assert!(state.log_stack.is_empty());
    let best = state.logged_path(false).expect("failing path");
    assert_eq!(best.len(), 1);
    assert!(state.backtracks >= 1);
    assert!(state.metrics().conflicts >= 2);
}

#[test]
fn search_from_a_partial_assignment_keeps_its_values() {
    let cnf = formula(3, &[&[1, 2, 3]]);
    let mut start = Assignment::new(3);
    assert!(start.assign(Var(1), false));
    assert!(start.assign(Var(2), false));
    let mut state = SolveState::new(3, JwBrancher::new(Some(5), 0));
    let model = dpll_solve(&cnf, start, &mut state).expect("sat");
    assert_eq!(model.get(Var(1)), Some(false));
    assert_eq!(model.get(Var(2)), Some(false));
    assert_eq!(model.get(Var(3)), Some(true));
}

#[test]
fn propagation_keeps_what_it_assigned_before_a_conflict() {
    let cnf = formula(1, &[&[1], &[-1]]);
    let mut a = Assignment::new(1);
    let mut stats = Stats::new(1);
    assert!(!unit_propagate(&cnf, &mut a, &mut stats));
    assert_eq!(a.get(Var(1)), Some(true));
    assert_eq!(stats.conflict_heat(Var(1)), 1);
    assert_eq!(stats.conflict_count(), 1);
}

#[test]
fn a_new_search_state_starts_from_zero() {
    let state = SolveState::new(3, JwBrancher::new(Some(1), 0));
    for i in 1..=3 {
        assert_eq!(state.stats.conflict_heat(Var(i)), 0);
        assert_eq!(state.stats.recent_flips(Var(i)), 0);
    }
    assert_eq!((state.decisions, state.backtracks, state.decision_id), (0, 0, 0));
    assert!(state.log_stack.is_empty() && state.best_unsat.is_none());
}

#[test]
fn satisfaction_is_checked_on_a_longer_assignment() {
    let cnf = formula(2, &[&[1, -2]]);
    let mut a = Assignment::new(5);
    assert!(!all_clauses_satisfied(&cnf, &a));
    assert!(a.assign(Var(2), false));
    assert!(all_clauses_satisfied(&cnf, &a));
    assert!(all_clauses_satisfied(&formula(2, &[]), &Assignment::new(2)));
    assert!(!all_clauses_satisfied(&formula(2, &[&[]]), &Assignment::new(2)));
}

#[test]
fn search_counters_and_decision_ids() {
    let cnf = formula(3, &[&[1, 2], &[-1, 2], &[1, -2], &[-1, -2], &[3, -3]]);
    let (model, state) = search(&cnf, JwBrancher::new(Some(2), 0));
    assert!(model.is_none());
    assert_eq!(state.backtracks, state.decisions);
    assert_eq!(state.decision_id as u64, state.decisions);
    let cnf = formula(4, &[&[1, 2, 3, 4], &[-1, -2], &[-3, -4], &[1, 3]]);
    let (model, state) = search(&cnf, JwBrancher::new(Some(2), 0));
    assert!(model.is_some());
    assert!(state.backtracks <= state.decisions);
    let path = state.logged_path(true).expect("path");
    for w in path.windows(2) {
        assert!(w[0].decision_id < w[1].decision_id);
    }
    for g in path.iter() {
        assert!(g.samples.len() >= 1 && g.samples.len() <= 4);
        for (t, s) in g.samples.iter().enumerate() {
            assert_eq!(s.label, if t == 0 { 1 } else { 0 });
            for u in &g.samples[t + 1..] {
                assert_ne!(s.var, u.var);
            }
        }
    }
}

#[test]
fn logged_groups_carry_their_depth() {
    let cnf = formula(3, &[&[-1, 2, 3], &[-1, 2, -3], &[-1, -2, 3], &[-1, -2, -3], &[1, 2, 3]]);
    let (model, state) = search(&cnf, JwBrancher::new(Some(0), 0));
    assert!(model.is_some());
    assert!(!state.log_stack.is_empty());
    for (k, g) in state.log_stack.iter().enumerate() {
        for s in g.samples.iter() {
            assert_eq!(s.features.trail_depth, k as u32);
        }
    }
    let unsat = formula(2, &[&[1, 2], &[1, -2], &[-1, 2], &[-1, -2]]);
    let (none, state) = search(&unsat, JwBrancher::new(Some(0), 0));
    assert!(none.is_none());
    let best = state.best_unsat.expect("a failing path");
    assert!(!best.is_empty());
    for (k, g) in best.iter().enumerate() {
        for s in g.samples.iter() {
            assert_eq!(s.features.trail_depth, k as u32);
        }
    }
}


#[test]
fn a_decision_is_needed_only_where_propagation_leaves_one() {
    assert!(!needs_decision(&formula(2, &[&[1], &[-1, 2]])));
    assert!(!needs_decision(&formula(1, &[&[1], &[-1]])));
    assert!(needs_decision(&formula(2, &[&[1, 2], &[-1, 2]])));
    assert!(search_accepts(&formula(2, &[&[1, 2], &[-1, 2]])));
    assert!(!search_accepts(&formula(2, &[&[3]])));
}
