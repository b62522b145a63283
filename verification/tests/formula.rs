use enue_sat::cnf::{Cnf, Lit, Var};
use enue_sat::solver::assignment::Assignment;

#[test]
fn var_index_is_one_below_its_number() {
    assert_eq!(Var::new(1).index(), 0);
    assert_eq!(Var::new(3).index(), 2);
    assert_eq!(Var::new(3), Var(3));
}

#[test]
fn dimacs_integers_round_trip() {
    for value in [-2147483647, -7, -1, 1, 42, 2147483647] {
        assert_eq!(Lit::from_dimacs(value).dimacs(), value);
    }
    assert_eq!(Lit::from_dimacs(5), Lit::new(Var(5), false));
    assert_eq!(Lit::from_dimacs(-5), Lit::new(Var(5), true));
    for lit in [Lit::new(Var(9), true), Lit::new(Var(9), false), Lit::new(Var(1), true)] {
        assert_eq!(Lit::from_dimacs(lit.dimacs()), lit);
    }
}

#[test]
fn cnf_new_keeps_its_parts() {
    let cnf = Cnf::new(4, vec![vec![Lit::from_dimacs(4)], vec![]]);
    assert_eq!(cnf.num_vars, 4);
    assert_eq!(cnf.clauses.len(), 2);
    assert_eq!(cnf.clauses[0], vec![Lit::from_dimacs(4)]);
    assert!(cnf.clauses[1].is_empty());
}

#[test]
fn assignment_reads_back_what_was_written() {
    let mut a = Assignment::new(3);
    assert_eq!(a.len(), 3);
    assert_eq!(a.get(Var(2)), None);
    assert!(!a.is_assigned(Var(2)));

    assert!(a.assign(Var(2), true));
    assert_eq!(a.get(Var(2)), Some(true));
    assert!(a.is_assigned(Var(2)));
    assert_eq!(a.eval_lit(Lit::from_dimacs(2)), Some(true));
    assert_eq!(a.eval_lit(Lit::from_dimacs(-2)), Some(false));
    assert_eq!(a.get(Var(1)), None);
    assert_eq!(a.get(Var(3)), None);
    assert_eq!(a.eval_lit(Lit::from_dimacs(-3)), None);
}

#[test]
fn assignment_never_overwrites() {
    let mut a = Assignment::new(2);
    assert!(a.assign(Var(1), false));
    assert!(!a.assign(Var(1), true));
    assert_eq!(a.get(Var(1)), Some(false));
    assert!(a.assign(Var(1), false));
    assert_eq!(a.get(Var(1)), Some(false));
    assert_eq!(a.len(), 2);
}

#[test]
fn searchable_formulas_name_declared_variables() {
    assert!(Cnf::new(2, vec![vec![Lit::from_dimacs(2), Lit::from_dimacs(-1)], vec![]]).searchable());
    assert!(!Cnf::new(2, vec![vec![Lit::from_dimacs(3)]]).searchable());
    assert!(!Cnf::new(2, vec![vec![Lit::new(Var(0), false)]]).searchable());
    assert!(Cnf::new(0, vec![]).searchable());
}

#[test]
fn well_formed_and_size_limits_are_checked_apart() {
    let ok = Cnf::new(2, vec![vec![Lit::from_dimacs(2), Lit::from_dimacs(-1)]]);
    assert!(ok.well_formed() && ok.fits_limits());
    let bad = Cnf::new(1, vec![vec![Lit::from_dimacs(2)]]);
    assert!(!bad.well_formed());
    assert!(bad.fits_limits());
}
