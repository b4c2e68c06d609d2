//! The rule set: equivalence rules, inference rules and subproof techniques.

pub mod equivalence;
pub mod inference;
pub mod technique;

pub use equivalence::EquivalenceRule;
pub use inference::InferenceRule;
pub use technique::ProofTechnique;
