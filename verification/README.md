# enue_sat

A DPLL SAT solver for formulas in conjunctive normal form, written in Verus
and verified against its contracts.

- `src/cnf.rs`: variables, literals, formulas and what a model is.
- `src/parser/`: the DIMACS reader, specified as a function of the text.
- `src/solver/`: partial assignments, unit propagation, the exact
  Jeroslow-Wang heuristic, ranking-based decisions, feature vectors,
  conflict statistics, the search with its decision log, and perturbed
  searches that produce training samples.
  The search's result and counters are specified by `search_tree` for a
  brancher that follows a rule, and the perturbed search's by
  `perturbed_tree` for a rule of perturbed decisions that its random draws
  can make.
- `tests/`: tests of the library on concrete values.
- `app/`: the command-line program and the Python module: file I/O, the
  floating-point parts (random-pick probability, the scoring network, the
  biased choice of the perturbed decision) and CSV output.
