//! Theorems: premises and a conclusion, with what a catalogue says of them.

use vstd::prelude::*;

use crate::models::formula::{copy_formulas, views};
use crate::models::formula::{Formula, Prop};

verus! {

/// How hard a theorem is meant to be.
#[derive(Debug, Clone, Copy, PartialEq, Eq, Structural)]
pub enum Difficulty {
    Easy,
    Medium,
    Hard,
    Expert,
}

impl Difficulty {
    /// The difficulty on a scale up to a hundred.
    pub open spec fn spec_value(self) -> u8 {
        match self {
            Difficulty::Easy => 25,
            Difficulty::Medium => 50,
            Difficulty::Hard => 75,
            Difficulty::Expert => 100,
        }
    }

    /// The difficulty on a scale up to a hundred.
    pub fn value(&self) -> (r: u8)
        ensures
            r == self.spec_value(),
    {
        match self {
            Difficulty::Easy => 25,
            Difficulty::Medium => 50,
            Difficulty::Hard => 75,
            Difficulty::Expert => 100,
        }
    }
}

/// The difficulties are four even steps up to a hundred.
pub proof fn law_difficulty_scale()
    ensures
        Difficulty::Expert.spec_value() == 100,
        Difficulty::Expert.spec_value() - Difficulty::Hard.spec_value() == 25,
        Difficulty::Hard.spec_value() - Difficulty::Medium.spec_value() == 25,
        Difficulty::Medium.spec_value() - Difficulty::Easy.spec_value() == 25,
{
}

/// A theorem.
#[derive(Debug)]
pub struct Theorem {
    pub id: String,
    pub premises: Vec<Formula>,
    pub conclusion: Formula,
    pub difficulty: Difficulty,
    pub difficulty_value: u8,
    pub tier: Option<u8>,
    pub theme: Option<String>,
    pub name: Option<String>,
    pub is_classic: bool,
}

impl Theorem {
    /// The premises, as values.
    pub open spec fn premise_views(self) -> Seq<Prop> {
        views(self.premises@)
    }

    /// A theorem with no catalogue number.
    pub fn new(
        premises: Vec<Formula>,
        conclusion: Formula,
        difficulty: Difficulty,
        theme: Option<String>,
        name: Option<String>,
    ) -> (r: Theorem)
        ensures
            r.id@ == ""@,
            r.premises == premises,
            r.conclusion == conclusion,
            r.difficulty == difficulty,
            r.difficulty_value == difficulty.spec_value(),
            r.tier is None,
            r.theme == theme,
            r.name == name,
            !r.is_classic,
    {
        let difficulty_value = difficulty.value();
        Theorem {
            id: "".to_owned(),
            premises,
            conclusion,
            difficulty,
            difficulty_value,
            tier: None,
            theme,
            name,
            is_classic: false,
        }
    }
}

impl Clone for Theorem {
    fn clone(&self) -> (r: Theorem)
        ensures
            r.id@ == self.id@,
            views(r.premises@) == views(self.premises@),
            r.conclusion@ == self.conclusion@,
            r.difficulty == self.difficulty,
            r.difficulty_value == self.difficulty_value,
            r.tier == self.tier,
            r.theme == self.theme,
            r.name == self.name,
            r.is_classic == self.is_classic,
    {
        Theorem {
            id: self.id.clone(),
            premises: copy_formulas(&self.premises),
            conclusion: self.conclusion.clone(),
            difficulty: self.difficulty,
            difficulty_value: self.difficulty_value,
            tier: self.tier,
            theme: self.theme.clone(),
            name: self.name.clone(),
            is_classic: self.is_classic,
        }
    }
}

} // verus!
