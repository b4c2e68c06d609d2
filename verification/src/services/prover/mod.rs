//! Proof search: move enumeration, the greedy ("philosopher") policy and the bounded
//! optimal ("lawyer") policy.
//!
//! The philosopher simulates a diligent-but-strategically-blind prover: deterministic,
//! fixed rule priority, first productive move, no backtracking, no search. It measures
//! the honest grind length of a theorem and detects "hallways", where every move along
//! the way was forced (no equally productive alternative existed).
//!
//! The lawyer searches: it looks for the shortest proof that its moves can give, and
//! certifies it where nothing was left out on the way.

pub mod bank;
pub mod candidates;
pub mod counting;
pub mod derivation;
pub mod diligence;
pub mod findable;
pub mod finite;
pub mod found;
pub mod greedy;
pub mod memo;
pub mod minimal;
pub mod moves;
pub mod optimal;
pub mod rivals;
pub mod search;
pub mod selection;
pub mod sizes;
pub mod splice;
pub mod transcript;
pub mod words;

pub use greedy::{greedy_prove, FoundProof, GreedyOutcome, ProofStep};
pub use moves::{forward_moves, Move};
pub use optimal::{optimal_prove, OptimalConfig, OptimalOutcome};
