//! A propositional logic proof engine: formulas, natural deduction rules, proof
//! verification, proof search and theorem generation.

pub mod models;
pub mod services;
