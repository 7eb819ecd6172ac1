//! Logic Theorist: a backward-search prover for the propositional calculus of
//! *Principia Mathematica*, working from the five axioms by substitution,
//! detachment (modus ponens) and forward / backward chaining.
//!
//! ```text
//! let lt = LogicTheorist::new(6);
//! let proof = lt.prove(&parse("p -> (q | p)")).expect("provable");
//! println!("{}", proof.render());
//! ```

pub mod expr;
pub mod subst;
pub mod text;
pub mod parse;
pub mod prover;
pub mod search;
pub mod laws;

pub use expr::{Expr, Formula};
pub use subst::Subst;
pub use parse::{parse, try_parse, ParseError};
pub use prover::{axioms, LogicTheorist, Proof, Theorem};
