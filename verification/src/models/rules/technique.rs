//! Subproof techniques: conditional and indirect proof.

use vstd::prelude::*;

use crate::models::formula::{implies_of, not_of, p_implies, p_not};
use crate::models::formula::{Formula, Prop};

verus! {

/// How a subproof is discharged.
#[derive(Debug, Clone, Copy, PartialEq, Eq, Structural)]
pub enum ProofTechnique {
    ConditionalProof,
    IndirectProof,
}

/// What a subproof proves, given its assumption and the formula it derives: a
/// conditional proof proves the implication; an indirect proof that derives `⊥` proves
/// the negation of its assumption, with a negated assumption losing its negation.
pub open spec fn discharge(t: ProofTechnique, assumption: Prop, derived: Prop) -> Option<Prop> {
    match t {
        ProofTechnique::ConditionalProof => Some(p_implies(assumption, derived)),
        ProofTechnique::IndirectProof => if derived == Prop::Contradiction {
            match assumption {
                Prop::Not(a) => Some(*a),
                _ => Some(p_not(assumption)),
            }
        } else {
            None
        },
    }
}

/// A conditional proof proves that what it derives follows from what it assumes, whatever
/// the two are.
pub proof fn law_conditional_discharge(assumption: Prop, derived: Prop)
    ensures
        discharge(ProofTechnique::ConditionalProof, assumption, derived) == Some(
            p_implies(assumption, derived),
        ),
{
}

/// An indirect proof proves any goal whose negation it refutes, and the negation of any
/// assumption that is none itself; deriving anything but `⊥` proves nothing.
pub proof fn law_indirect_discharge(goal: Prop, assumption: Prop, derived: Prop)
    ensures
        discharge(ProofTechnique::IndirectProof, p_not(goal), Prop::Contradiction) == Some(goal),
        !(assumption is Not) ==> discharge(
            ProofTechnique::IndirectProof,
            assumption,
            Prop::Contradiction,
        ) == Some(p_not(assumption)),
        derived != Prop::Contradiction ==> discharge(
            ProofTechnique::IndirectProof,
            assumption,
            derived,
        ) is None,
{
}

impl ProofTechnique {
    /// The short name of the technique.
    pub open spec fn short_name(self) -> Seq<char> {
        match self {
            ProofTechnique::ConditionalProof => "CP"@,
            ProofTechnique::IndirectProof => "IP"@,
        }
    }

    /// The short name of the assumption line that opens a subproof.
    pub open spec fn assumption_name(self) -> Seq<char> {
        match self {
            ProofTechnique::ConditionalProof => "ACP"@,
            ProofTechnique::IndirectProof => "AIP"@,
        }
    }

    /// The short name of the technique.
    pub fn abbreviation(&self) -> (r: &'static str)
        ensures
            r@ == self.short_name(),
    {
        match self {
            ProofTechnique::ConditionalProof => "CP",
            ProofTechnique::IndirectProof => "IP",
        }
    }

    /// The short name of the assumption line that opens a subproof.
    pub fn assumption_abbreviation(&self) -> (r: &'static str)
        ensures
            r@ == self.assumption_name(),
    {
        match self {
            ProofTechnique::ConditionalProof => "ACP",
            ProofTechnique::IndirectProof => "AIP",
        }
    }

    /// What a subproof proves, given its assumption and the formula it derives.
    pub fn get_conclusion(&self, assumption: &Formula, derived: &Formula) -> (r: Option<Formula>)
        ensures
            r is Some <==> discharge(*self, assumption@, derived@) is Some,
            r matches Some(f) ==> discharge(*self, assumption@, derived@) == Some(f@),
    {
        match self {
            ProofTechnique::ConditionalProof => Some(implies_of(assumption, derived)),
            ProofTechnique::IndirectProof => match derived {
                Formula::Contradiction => match assumption {
                    Formula::Not(a) => Some((&**a).clone()),
                    _ => Some(not_of(assumption)),
                },
                _ => None,
            },
        }
    }
}

/// An assumption goes by the name of its technique with an `A` before it, and the two
/// techniques go by different names.
pub proof fn law_technique_names(t: ProofTechnique)
    ensures
        t.assumption_name() == "A"@ + t.short_name(),
        ProofTechnique::ConditionalProof.short_name() == "CP"@,
        ProofTechnique::IndirectProof.short_name() == "IP"@,
{
    reveal_strlit("A");
    reveal_strlit("CP");
    reveal_strlit("IP");
    reveal_strlit("ACP");
    reveal_strlit("AIP");
    assert(t.assumption_name() =~= "A"@ + t.short_name());
}

} // verus!
