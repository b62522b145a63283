use enue_sat::cnf::Lit;
use enue_sat::parser::dimacs::{parse_dimacs, try_parse_dimacs};
use enue_sat::parser::{ParseError, ParseErrorKind};

fn refusal(input: &str) -> ParseError {
    match parse_dimacs(input) {
        Ok(_) => panic!("expected a refusal"),
        Err(e) => e,
    }
}

#[test]
fn refuses_a_second_problem_line() {
    let e = refusal("p cnf 1 1\nc between\np cnf 1 1\n1 0\n");
    assert_eq!(e, ParseError::new(3, ParseErrorKind::DuplicateProblemLine));
    assert_eq!(e.message(), "duplicate problem line");
}

#[test]
fn refuses_a_malformed_problem_line() {
    let e = refusal("p dnf 1 1\n");
    assert_eq!(e, ParseError::new(1, ParseErrorKind::BadProblemLine));
    assert_eq!(e.message(), "expected: p cnf <vars> <clauses>");
    let e = refusal("c x\np cnf 1\n");
    assert_eq!(e, ParseError::new(2, ParseErrorKind::BadProblemLine));
    let e = refusal("p cnf 1 1 1\n");
    assert_eq!(e.kind, ParseErrorKind::BadProblemLine);
}

#[test]
fn refuses_bad_counts() {
    let e = refusal("p cnf x 1\n");
    assert_eq!(e, ParseError::new(1, ParseErrorKind::InvalidVariableCount));
    assert_eq!(e.message(), "invalid variable count");
    let e = refusal("p cnf -1 1\n");
    assert_eq!(e.kind, ParseErrorKind::InvalidVariableCount);
    let e = refusal("p cnf 4294967296 1\n");
    assert_eq!(e.kind, ParseErrorKind::InvalidVariableCount);
    let e = refusal("p cnf 2 two\n");
    assert_eq!(e, ParseError::new(1, ParseErrorKind::InvalidClauseCount));
    assert_eq!(e.message(), "invalid clause count");
}

#[test]
fn refuses_clauses_before_the_problem_line() {
    let e = refusal("c comment\n\n1 2 0\np cnf 2 1\n");
    assert_eq!(e, ParseError::new(3, ParseErrorKind::MissingProblemLine));
    assert_eq!(e.message(), "missing problem line");
    assert_eq!(refusal(""), ParseError::new(1, ParseErrorKind::MissingProblemLine));
    assert_eq!(refusal("c a\nc b\n"), ParseError::new(1, ParseErrorKind::MissingProblemLine));
}

#[test]
fn refuses_bad_literals() {
    let e = refusal("p cnf 2 1\n1 a 0\n");
    assert_eq!(e, ParseError::new(2, ParseErrorKind::InvalidLiteral));
    assert_eq!(e.message(), "invalid literal");
    let e = refusal("p cnf 2 1\n1 2147483648 0\n");
    assert_eq!(e.kind, ParseErrorKind::InvalidLiteral);
    let e = refusal("p cnf 2 1\n\n1 3 0\n");
    assert_eq!(e, ParseError::new(3, ParseErrorKind::LiteralOutOfRange));
    assert_eq!(e.message(), "literal exceeds declared variable count");
}

#[test]
fn refuses_an_unfinished_clause_and_a_wrong_count() {
    let e = refusal("p cnf 2 1\n1 2\n");
    assert_eq!(e, ParseError::new(2, ParseErrorKind::MissingTrailingZero));
    assert_eq!(e.message(), "clause missing trailing 0");
    let e = refusal("p cnf 2 2\n1 2 0\nc end\n");
    assert_eq!(e, ParseError::new(3, ParseErrorKind::ClauseCountMismatch));
    assert_eq!(e.message(), "clause count does not match header");
}

#[test]
fn reads_clauses_across_lines_and_stops_at_percent() {
    let cnf = parse_dimacs("p cnf 3 2\n 1 -2\n\t3 0 -1\n0\n%\n1 2 x\n").expect("parse");
    assert_eq!(cnf.num_vars, 3);
    assert_eq!(
        cnf.clauses,
        vec![
            vec![Lit::from_dimacs(1), Lit::from_dimacs(-2), Lit::from_dimacs(3)],
            vec![Lit::from_dimacs(-1)],
        ]
    );
}

#[test]
fn reads_empty_clauses_and_crlf_lines() {
    let cnf = parse_dimacs("p cnf 0 2\r\n0 0\r\n").expect("parse");
    assert_eq!(cnf.num_vars, 0);
    assert_eq!(cnf.clauses.len(), 2);
    assert!(cnf.clauses[0].is_empty() && cnf.clauses[1].is_empty());
}

#[test]
fn gets_stuck_only_on_the_smallest_literal() {
    assert!(try_parse_dimacs("p cnf 1 1\n-2147483648 0\n").is_none());
    match try_parse_dimacs("p cnf 1 1\nx -2147483648 0\n") {
        Some(Err(e)) => assert_eq!(e, ParseError::new(2, ParseErrorKind::InvalidLiteral)),
        _ => panic!("expected a refusal"),
    }
    let read = try_parse_dimacs("p cnf 1 1\n-1 0\n").expect("not stuck").expect("parse");
    assert_eq!(read.clauses, vec![vec![Lit::from_dimacs(-1)]]);
}
