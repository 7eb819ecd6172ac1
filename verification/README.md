# logic_theorist

The Logic Theorist of Newell, Shaw and Simon (1956): a backward-search prover
for the propositional calculus of *Principia Mathematica*, verified with Verus.

- `src/expr.rs` — formulas (`Expr`, whose value is `Formula`), substitution,
  variables, renaming apart, one-way matching, and the text of a formula.
- `src/subst.rs` — substitutions, finite maps from variable names to formulas.
- `src/text.rs` — white space, the alphanumeric test, decimal numerals.
- `src/parse.rs` — the parser, its grammar as spec functions, and the laws that
  the text of a formula whose names are made of alphanumeric characters and
  `_` parses back to it, and that Unicode operators are interchangeable with
  ASCII ones.
- `src/prover.rs` — theorems, proof trees, the five axioms and the prover.
- `src/search.rs` — what the search finds, as spec functions.
- `src/laws.rs` — soundness: every returned proof is justified step by step by
  the knowledge base, and from tautologies only tautologies are proved; no
  smaller depth limit finds a proof; a rendered proof has one line per node.
- `app/main.rs` — a demonstration that works through *Principia* chapter 2.
