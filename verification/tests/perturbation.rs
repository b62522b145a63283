use enue_sat::cnf::{Cnf, Lit, Var};
use enue_sat::solver::assignment::Assignment;
use enue_sat::solver::features::FeatureVector;
use enue_sat::solver::logging::{chosen_decisions, DecisionGroup, DecisionSample};
use enue_sat::solver::perturb::{
    nnue_perturbation_group, nnue_perturbed_search, perturbation_base, perturbation_group, perturbation_outcome,
    perturbed_search, random_other, NnuePerturbRecord, PerturbRecord,
};
use enue_sat::solver::random::generator_for;
use enue_sat::solver::ranking::{choose_decision, ranked_decision, usable_ranking, RankedBrancher, Ranker};
use enue_sat::solver::stats::Stats;
use enue_sat::solver::{search, HeuristicKind, JwBrancher};

fn formula(num_vars: u32, clauses: &[&[i32]]) -> Cnf {
    Cnf::new(
        num_vars,
        clauses.iter().map(|c| c.iter().map(|&v| Lit::from_dimacs(v)).collect()).collect(),
    )
}

fn satisfies(cnf: &Cnf, model: &Assignment) -> bool {
    cnf.clauses.iter().all(|c| c.iter().any(|&l| model.eval_lit(l) == Some(true)))
}

fn features(n: u32) -> FeatureVector {
    FeatureVector {
        pos_len_2: n,
        neg_len_2: 0,
        pos_len_3: 0,
        neg_len_3: 0,
        pos_len_4p: 0,
        neg_len_4p: 0,
        conflict_heat: 0,
        recent_flips: 0,
        trail_depth: 0,
        active_clause_ratio: 0,
    }
}

fn sample(label: u8, var: u32, value: bool) -> DecisionSample {
    DecisionSample { label, var: Var(var), value, features: features(var) }
}

/// Ranks the unassigned variables from the highest number down.
struct Descending;

impl Ranker for Descending {
    fn rank(&mut self, _cnf: &Cnf, _a: &Assignment, _s: &Stats, _d: u32, unassigned: &Vec<Var>) -> Vec<Var> {
        unassigned.iter().rev().copied().collect()
    }
}

#[test]
fn random_other_avoids_the_heuristic_choice() {
    let mut rng = generator_for(Some(11));
    let vars = vec![Var(1), Var(2), Var(3)];
    for _ in 0..50 {
        let v = random_other(&vars, Var(2), &mut rng);
        assert!(v == Var(1) || v == Var(3));
    }
    assert_eq!(random_other(&vec![Var(4)], Var(4), &mut rng), Var(4));
    assert_eq!(random_other(&vec![Var(2), Var(5)], Var(2), &mut rng), Var(5));
}

#[test]
fn chosen_decisions_read_the_first_labelled_sample() {
    let groups = vec![
        DecisionGroup { decision_id: 0, samples: vec![sample(1, 2, false), sample(0, 1, true)] },
        DecisionGroup { decision_id: 1, samples: vec![sample(0, 3, true), sample(1, 1, true), sample(1, 3, false)] },
    ];
    assert_eq!(chosen_decisions(&groups), Some(vec![(Var(2), false), (Var(1), true)]));
    let missing = vec![DecisionGroup { decision_id: 0, samples: vec![sample(0, 1, true)] }];
    assert_eq!(chosen_decisions(&missing), None);
    assert_eq!(chosen_decisions(&Vec::new()), Some(Vec::new()));
}

#[test]
fn perturbation_labels_the_faster_decision() {
    let record = PerturbRecord {
        jw_var: Var(1),
        jw_value: true,
        jw_features: features(1),
        rand_var: Var(4),
        rand_value: false,
        rand_features: features(4),
    };
    let g = perturbation_group(&record, 10, 9);
    assert_eq!(g.decision_id, 0);
    assert_eq!(g.samples.len(), 2);
    assert_eq!((g.samples[0].label, g.samples[0].var, g.samples[0].value), (0, Var(1), true));
    assert_eq!((g.samples[1].label, g.samples[1].var, g.samples[1].value), (1, Var(4), false));
    assert_eq!(g.samples[1].features.pos_len_2, 4);
    let g = perturbation_group(&record, 10, 10);
    assert_eq!((g.samples[0].label, g.samples[1].label), (1, 0));
    let g = perturbation_group(&record, 10, 12);
    assert_eq!((g.samples[0].label, g.samples[1].label), (1, 0));

    let nrecord = NnuePerturbRecord {
        base_var: Var(2),
        base_value: false,
        base_features: features(2),
        perturb_var: Var(3),
        perturb_value: true,
        perturb_features: features(3),
    };
    let g = nnue_perturbation_group(&nrecord, 3, 1);
    assert_eq!((g.samples[0].label, g.samples[0].var), (0, Var(2)));
    assert_eq!((g.samples[1].label, g.samples[1].var), (1, Var(3)));
    let g = nnue_perturbation_group(&nrecord, 3, 3);
    assert_eq!((g.samples[0].label, g.samples[1].label), (1, 0));
}

#[test]
fn perturbation_experiment_on_a_satisfiable_formula() {
    let cnf = formula(4, &[&[1, 2, 3, 4], &[-1, -2], &[-3, -4], &[1, 3], &[2, 4, -1]]);
    let base = perturbation_base(&cnf, JwBrancher::new(Some(2), 0));
    let base_model = base.model.expect("sat");
    assert!(satisfies(&cnf, &base_model));
    assert!(!base.base_choices.is_empty());
    for &(var, value) in &base.base_choices {
        assert_eq!(base_model.get(var), Some(value));
    }
    assert!(base.base_decisions >= base.base_choices.len() as u64);

    let mut rng = generator_for(Some(2));
    let (model, new_decisions, record) = perturbed_search(&cnf, &base.base_choices, 0, Some(2), &mut rng);
    assert!(satisfies(&cnf, &model.expect("sat")));
    assert!(new_decisions >= 1);
    let record = record.expect("record");
    assert_ne!(record.jw_var, record.rand_var);
    assert_eq!(record.jw_var, base.base_choices[0].0);
    let g = perturbation_group(&record, base.base_decisions, new_decisions);
    assert_eq!(g.samples.iter().filter(|s| s.label == 1).count(), 1);
}

#[test]
fn perturbation_experiment_on_an_unsatisfiable_formula() {
    let cnf = formula(3, &[&[1, 2], &[-1, 2], &[1, -2], &[-1, -2], &[3, -3]]);
    let base = perturbation_base(&cnf, JwBrancher::new(None, 0));
    assert!(base.model.is_none());
    assert_eq!(base.base_choices.len(), 1);
    let mut rng = generator_for(Some(9));
    let (model, _, record) = perturbed_search(&cnf, &base.base_choices, 0, None, &mut rng);
    assert!(model.is_none());
    assert!(record.is_some());
}

#[test]
fn network_perturbation_follows_the_ranking() {
    let cnf = formula(4, &[&[1, 2], &[3, 4], &[-1, -3]]);
    let choices = vec![(Var(4), true), (Var(2), true)];
    let mut rng = generator_for(Some(4));
    let mut ranker = Descending;
    let (model, decisions, record) = nnue_perturbed_search(&cnf, &choices, 1, &mut rng, &mut ranker, 2);
    assert!(satisfies(&cnf, &model.expect("sat")));
    assert!(decisions >= 2);
    let record = record.expect("record");
    assert_eq!((record.base_var, record.base_value), (Var(2), true));
    assert_ne!(record.perturb_var, Var(2));
}

/// Ranks every variable of the formula, including assigned ones, from the
/// highest number down, and adds one out of range.
struct Careless;

impl Ranker for Careless {
    fn rank(&mut self, cnf: &Cnf, _a: &Assignment, _s: &Stats, _d: u32, _u: &Vec<Var>) -> Vec<Var> {
        let mut all: Vec<Var> = vec![Var(cnf.num_vars + 1)];
        all.extend((1..=cnf.num_vars).rev().map(Var));
        all
    }
}

/// Ranks nothing.
struct Silent;

impl Ranker for Silent {
    fn rank(&mut self, _cnf: &Cnf, _a: &Assignment, _s: &Stats, _d: u32, _u: &Vec<Var>) -> Vec<Var> {
        Vec::new()
    }
}

#[test]
fn a_ranking_is_checked_before_use() {
    let cnf = formula(4, &[]);
    let mut a = Assignment::new(4);
    assert!(a.assign(Var(3), true));
    let unassigned = vec![Var(1), Var(2), Var(4)];
    let checked = usable_ranking(vec![Var(9), Var(3), Var(2), Var(4)], &unassigned, &cnf, &a);
    assert_eq!(checked, vec![Var(2), Var(4), Var(1)]);
    let repeated = usable_ranking(vec![Var(4), Var(4), Var(1), Var(4)], &unassigned, &cnf, &a);
    assert_eq!(repeated, vec![Var(4), Var(1), Var(2)]);
    let fallback = usable_ranking(vec![Var(3), Var(0)], &unassigned, &cnf, &a);
    assert_eq!(fallback, unassigned);
}

#[test]
fn a_ranked_decision_takes_the_first_and_three_runner_ups() {
    // var 2's negative literal scores more; the others prefer true.
    let cnf = formula(5, &[&[-2, 1], &[-2, 3]]);
    let a = Assignment::new(5);
    let ranked = vec![Var(2), Var(5), Var(2), Var(1), Var(4), Var(3)];
    let d = ranked_decision(&cnf, &a, &ranked);
    assert_eq!((d.var, d.value), (Var(2), false));
    let runners: Vec<(Var, bool)> = d.runner_ups.iter().map(|r| (r.var, r.value)).collect();
    assert_eq!(runners, vec![(Var(5), true), (Var(1), true), (Var(4), true)]);
}

#[test]
fn a_ranked_search_follows_its_ranking() {
    let cnf = formula(3, &[&[1, 2, 3], &[-3, -2]]);
    let (model, state) = search(&cnf, RankedBrancher { ranker: Careless });
    let model = model.expect("sat");
    assert!(satisfies(&cnf, &model));
    let path = state.logged_path(true).expect("path");
    assert_eq!(path[0].samples[0].var, Var(3));
    assert_eq!(path[0].samples[0].label, 1);

    let (model, state) = search(&cnf, RankedBrancher { ranker: Silent });
    assert!(satisfies(&cnf, &model.expect("sat")));
    let path = state.logged_path(true).expect("path");
    assert_eq!(path[0].samples[0].var, Var(1));
}

#[test]
fn choose_decision_follows_the_heuristic() {
    let cnf = formula(3, &[&[1, 2], &[1, 3], &[-1, -2, -3]]);
    let a = Assignment::new(3);
    let stats = Stats::new(3);
    let mut rng = generator_for(Some(1));
    let d = choose_decision::<Descending>(&cnf, &a, &stats, 0, &mut rng, 0, HeuristicKind::JwEpsilon, None)
        .expect("decision");
    assert_eq!((d.var, d.value), (Var(1), true));
    let mut ranker = Descending;
    let d = choose_decision(&cnf, &a, &stats, 0, &mut rng, 0, HeuristicKind::Nnue, Some(&mut ranker))
        .expect("decision");
    assert_eq!((d.var, d.value), (Var(3), true));
    let runners: Vec<Var> = d.runner_ups.iter().map(|r| r.var).collect();
    assert_eq!(runners, vec![Var(2), Var(1)]);

    let mut b = Assignment::new(3);
    assert!(b.assign(Var(2), false));
    for _ in 0..20 {
        let d = choose_decision::<Descending>(&cnf, &b, &stats, 0, &mut rng, 1 << 53, HeuristicKind::JwEpsilon, None)
            .expect("decision");
        assert!(d.var == Var(1) || d.var == Var(3));
    }
}

#[test]
fn csv_rows_have_one_field_per_header_column() {
    let header = DecisionSample::header();
    assert_eq!(header.split(',').count(), 14);
    assert_eq!(header.split(',').next(), Some("decision_id"));
    let s = DecisionSample {
        label: 1,
        var: Var(12),
        value: false,
        features: FeatureVector {
            pos_len_2: 3,
            neg_len_2: 0,
            pos_len_3: 10,
            neg_len_3: 7,
            pos_len_4p: 4294967295,
            neg_len_4p: 1,
            conflict_heat: 256,
            recent_flips: 9,
            trail_depth: 2,
            active_clause_ratio: 100,
        },
    };
    let row = s.write_csv_row(4000000000);
    assert_eq!(row, "4000000000,1,12,0,3,0,10,7,4294967295,1,256,9,2,100\n");
    assert_eq!(row.trim_end().split(',').count(), header.split(',').count());
}

#[test]
fn the_same_seed_gives_the_same_generator() {
    let vars: Vec<Var> = (1..=50).map(Var).collect();
    let mut first = generator_for(Some(42));
    let mut second = generator_for(Some(42));
    let a: Vec<Var> = (0..20).map(|_| random_other(&vars, Var(1), &mut first)).collect();
    let b: Vec<Var> = (0..20).map(|_| random_other(&vars, Var(1), &mut second)).collect();
    assert_eq!(a, b);
}

#[test]
fn choose_decision_without_random_picks_is_the_first_maximum() {
    // var 2 scores 1/4 + 1/4 + 1/8; vars 1 and 3 score 3/8 each.
    let cnf = formula(3, &[&[-1, 2], &[2, 3], &[1, 2, 3]]);
    let a = Assignment::new(3);
    let stats = Stats::new(3);
    for seed in 0..5 {
        let mut rng = generator_for(Some(seed));
        let d = choose_decision::<Descending>(&cnf, &a, &stats, 0, &mut rng, 0, HeuristicKind::JwEpsilon, None)
            .expect("decision");
        assert_eq!((d.var, d.value), (Var(2), true));
        let runners: Vec<(Var, bool)> = d.runner_ups.iter().map(|r| (r.var, r.value)).collect();
        assert_eq!(runners, vec![(Var(1), false), (Var(3), true)]);
    }
}

/// Ranks only variable 2, twice.
struct Repeating;

impl Ranker for Repeating {
    fn rank(&mut self, _cnf: &Cnf, _a: &Assignment, _s: &Stats, _d: u32, _u: &Vec<Var>) -> Vec<Var> {
        vec![Var(2), Var(2)]
    }
}

#[test]
fn network_decisions_have_distinct_runner_ups() {
    let cnf = formula(5, &[&[-2, 1], &[-2, 3]]);
    let a = Assignment::new(5);
    let stats = Stats::new(5);
    let mut rng = generator_for(Some(0));
    let mut ranker = Repeating;
    let d = choose_decision(&cnf, &a, &stats, 0, &mut rng, 0, HeuristicKind::Nnue, Some(&mut ranker)).expect("decision");
    assert_eq!((d.var, d.value), (Var(2), false));
    let runners: Vec<(Var, bool)> = d.runner_ups.iter().map(|r| (r.var, r.value)).collect();
    assert_eq!(runners, vec![(Var(1), true), (Var(3), true), (Var(4), true)]);
}

#[test]
fn a_perturbed_search_replays_then_perturbs() {
    let cnf = formula(3, &[&[-1, 2, 3], &[-1, 2, -3], &[-1, -2, 3], &[-1, -2, -3], &[1, 2, 3]]);
    let mut state = enue_sat::solver::dpll::SolveState::new(3, JwBrancher::new(Some(0), 0));
    let choices = vec![(Var(1), true)];
    let mut rng = generator_for(Some(0));
    let mut record = None;
    let model = enue_sat::solver::perturb::solve_with_perturbation(
        &cnf,
        Assignment::new(3),
        &mut state,
        &choices,
        1,
        &mut rng,
        &mut record,
        0,
    )
    .expect("sat");
    assert_eq!(model.get(Var(1)), Some(false));
    assert_eq!(model.get(Var(2)), None);
    assert_eq!(model.get(Var(3)), Some(true));
    assert_eq!(state.decisions, 3);
    assert_eq!(state.backtracks, 2);
    let r = record.expect("record");
    assert_eq!((r.jw_var, r.jw_value), (Var(2), true));
    assert_eq!((r.rand_var, r.rand_value), (Var(3), true));
    assert_eq!((r.jw_features.pos_len_2, r.jw_features.neg_len_2), (2, 2));
    assert_eq!((r.jw_features.conflict_heat, r.jw_features.trail_depth, r.jw_features.active_clause_ratio), (0, 1, 80));
}

#[test]
fn an_experiment_without_a_path_reports_the_first_search() {
    let o = perturbation_outcome(None, 5, None);
    assert!(o.model.is_none());
    assert_eq!((o.base_decisions, o.new_decisions, o.logged), (5, 5, false));
    let cnf = formula(2, &[&[1], &[2]]);
    let base = perturbation_base(&cnf, JwBrancher::new(Some(0), 0));
    assert!(base.base_choices.is_empty());
    assert_eq!(base.base_decisions, 0);
    let o = perturbation_outcome(base.model, base.base_decisions, None);
    let m = o.model.expect("sat");
    assert_eq!((m.get(Var(1)), m.get(Var(2))), (Some(true), Some(true)));
    assert!(!o.logged);
}

#[test]
fn an_experiment_with_a_perturbed_search_reports_it() {
    let o = perturbation_outcome(None, 7, Some((None, 3)));
    assert!(o.model.is_none());
    assert_eq!((o.base_decisions, o.new_decisions, o.logged), (7, 3, true));
}

#[test]
fn a_base_path_with_a_decision_counts_one() {
    let cnf = formula(3, &[&[-1, 2, 3], &[-1, 2, -3], &[-1, -2, 3], &[-1, -2, -3], &[1, 2, 3]]);
    let base = perturbation_base(&cnf, JwBrancher::new(Some(0), 0));
    assert!(!base.base_choices.is_empty());
    assert!(base.base_decisions >= 1);
    assert!(base.model.is_some());
}

#[test]
fn every_depth_of_a_first_search_path_gets_a_record() {
    let cnf = formula(4, &[&[1, 2], &[-1, 3], &[-2, -3, 4], &[-4, 1], &[2, 3, -4], &[-1, -2, -3]]);
    let base = perturbation_base(&cnf, JwBrancher::new(Some(0), 0));
    assert!(!base.base_choices.is_empty());
    for idx in 0..base.base_choices.len() {
        let mut rng = generator_for(Some(idx as u64));
        let (model, decisions, record) = perturbed_search(&cnf, &base.base_choices, idx, Some(0), &mut rng);
        assert!(record.is_some());
        assert!(decisions >= 1);
        assert_eq!(model.is_some(), base.model.is_some());
    }
}
