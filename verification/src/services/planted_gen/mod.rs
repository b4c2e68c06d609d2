//! Forward proof construction ("planting"), and the filter that planted candidates pass.
//!
//! A candidate is built by growing a derivation from sampled premises with real rule
//! applications, and is then cut down to what its conclusion depends on.

pub mod candidate;
pub mod cone;
pub mod costume;
pub mod dressing;
pub mod gate;
pub mod growth;
pub mod husbandry;
pub mod lengths;
pub mod planting;
pub mod promises;
pub mod rebuilding;
pub mod sampling;
pub mod scratch;
pub mod seams;
pub mod soundness;
pub mod tailoring;
pub mod tending;
pub mod wardrobe;
pub mod weights;

pub use candidate::{PlantError, PlantSpec, PlantedCandidate};
pub use planting::plant;
pub use gate::{golf_gate, GateConfig, GateReject};
