//! Truth tables, proof verification, cheap checks, proof search, the serve filter and the
//! planting of theorems.

pub mod cheese;
pub mod dice;
pub mod nearest;
pub mod planted_gen;
pub mod prover;
pub mod serve_filter;
pub mod truth_table;
pub mod verification;

pub use cheese::{cheese_check, is_satisfiable_dynamic, rewrite_distance, CheeseReport};
pub use planted_gen::{
    golf_gate, plant, GateConfig, GateReject, PlantError, PlantSpec, PlantedCandidate,
};
pub use prover::{
    forward_moves, greedy_prove, optimal_prove, FoundProof, GreedyOutcome, Move, OptimalConfig,
    OptimalOutcome, ProofStep,
};
pub use serve_filter::{analyze_for_serving, ServeAnalysis, ServeConfig, ServeRejection};
pub use verification::ProofVerifier;
