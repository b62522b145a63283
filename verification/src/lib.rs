//! A DPLL SAT solver over CNF formulas read from DIMACS text, with a
//! Jeroslow-Wang branching heuristic, conflict statistics and per-decision
//! feature logging.

pub mod cnf;
pub mod parser;
pub mod text;
pub mod solver;
