//! What is planted, and what comes of it.

use vstd::prelude::*;

use crate::models::proofs::Proof;
use crate::models::theorem::Theorem;

verus! {

/// What kind of candidate is to be planted.
#[derive(Debug, Clone, Copy)]
pub struct PlantSpec {
    /// How many atoms there are to draw from.
    pub atoms: u8,
    /// The least number of lines besides the premises.
    pub par_min: usize,
    /// The greatest number of lines besides the premises.
    pub par_max: usize,
    /// How many premises are sampled at most; at least two are.
    pub max_premises: usize,
    /// How many characters the text of a formula may have.
    pub max_formula_len: usize,
    /// How deep subproofs may nest.
    pub subproofs: u8,
    /// How many rewrites may disguise each premise and the conclusion.
    pub obfuscation_passes: u8,
}

/// Why nothing came of a seed.
#[derive(Debug, Clone, Copy, PartialEq, Eq, Structural)]
pub enum PlantError {
    /// Not a single line could be derived.
    Stuck,
    /// The largest derivation is outside the band that was asked for.
    OutOfBand,
}

/// A planted candidate: a theorem, and a proof of it as a witness.
#[derive(Debug, Clone)]
pub struct PlantedCandidate {
    pub theorem: Theorem,
    pub proof: Proof,
    /// How many lines the proof has besides the premises.
    pub par: usize,
    pub seed: u64,
}

} // verus!
