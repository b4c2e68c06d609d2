//! Formulas, rules, theorems and proofs.

pub mod formula;
pub mod lists;
pub mod numbers;
pub mod parse;
pub mod proofs;
pub mod rewriting;
pub mod rules;
pub mod scopes;
pub mod spelling;
pub mod text;
pub mod theorem;

pub use formula::{Formula, Prop};
pub use parse::ParseError;
pub use proofs::{Justification, Proof, ProofLine};
pub use theorem::{Difficulty, Theorem};
