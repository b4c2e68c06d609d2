//! Planting: from a seed to a theorem with a proof of it.

use vstd::prelude::*;

use super::candidate::{PlantError, PlantSpec, PlantedCandidate};
use super::cone::{best_line, best_upto, derived_in_cone, rebuild_proof, rebuilt};
use super::costume::{apply_costume_pass, costumed};
use super::dressing::law_costumed_verified;
use super::growth::{grown_to, Entry, Growth, Soil};
use super::rebuilding::{law_rebuilt_finished, law_rebuilt_verified, lemma_grown_refers_back};
use super::sampling::{build_atom_pool, pool, sample_premises, sampled};
use super::scratch::{soil_of, Scratch};
use super::soundness::{draft_of, law_grown_to_justified, nested, well_grown};
use super::tending::lemma_grown_to;
use crate::models::formula::{entails, name_views, views, Prop};
use crate::models::numbers::bounded_sum;
use crate::models::proofs::{reaches_conclusion, Draft, Reason};
use crate::models::scopes::{depth_at, lemma_depth_zero};
use crate::models::theorem::Difficulty;
use crate::services::dice::{seeded, Dice};
use crate::services::verification::{
    fault_at, law_verified_sound, marked, verified, ProofVerifier,
};

verus! {

/// How many lines are grown after the premises. A subproof adds several at once, so with
/// subproofs fewer are aimed for.
pub open spec fn lines_wanted(spec: PlantSpec) -> int {
    let n = if spec.subproofs >= 1 {
        spec.par_max + 3
    } else {
        spec.par_max * 2
    };
    if n > usize::MAX {
        usize::MAX as int
    } else if n < 8 {
        8
    } else {
        n
    }
}

/// How many attempts are made to grow them.
pub open spec fn tries_for(wanted: int) -> int {
    if wanted * 20 < 120 {
        120
    } else {
        wanted * 20
    }
}

/// A derivation that holds the premises alone.
pub open spec fn seedling(premises: Seq<Prop>, held: Seq<u32>) -> Growth {
    Growth {
        lines: Seq::new(
            premises.len(),
            |i: int| Entry { formula: premises[i], reason: Reason::Premise },
        ),
        used: Seq::new(premises.len(), |i: int| 0int),
        spans: seq![],
        held,
    }
}

/// What a derivation grows on.
pub open spec fn soil_for(spec: PlantSpec) -> Soil {
    Soil { atoms: pool(spec.atoms as nat), max_len: spec.max_formula_len as nat }
}

/// The premises that are sampled.
pub open spec fn premises_for(spec: PlantSpec, seed: u64) -> Seq<Prop> {
    sampled(
        pool(spec.atoms as nat),
        spec.max_formula_len as nat,
        spec.max_premises as int,
        seeded(seed),
    ).0
}

/// The derivation that grows from a seed.
pub open spec fn derivation(spec: PlantSpec, seed: u64) -> Growth {
    let (premises, held) = sampled(
        pool(spec.atoms as nat),
        spec.max_formula_len as nat,
        spec.max_premises as int,
        seeded(seed),
    );
    let wanted = lines_wanted(spec);
    grown_to(
        soil_for(spec),
        spec.subproofs as nat,
        seedling(premises, held),
        (premises.len() + wanted) as nat,
        tries_for(wanted) as nat,
    )
}

/// What comes of a derivation from its first `premises` lines: the proof of the line
/// outside all subproofs that depends on most lines, in costume if one is asked for.
pub open spec fn harvested(spec: PlantSpec, g: Growth, premises: int) -> Result<Draft, PlantError> {
    match best_upto(g, premises, g.lines.len() as int) {
        None => Err(PlantError::Stuck),
        Some(line) => {
            let size = derived_in_cone(g.lines, premises, line);
            let d = rebuilt(g.lines, premises, line);
            if size < spec.par_min || size > spec.par_max {
                Err(PlantError::OutOfBand)
            } else if spec.obfuscation_passes > 0 {
                Ok(costumed(d, spec.obfuscation_passes, spec.max_formula_len as nat, g.held).0)
            } else {
                Ok(d)
            }
        },
    }
}

/// What is planted with a seed.
pub open spec fn planted(spec: PlantSpec, seed: u64) -> Result<Draft, PlantError> {
    harvested(spec, derivation(spec, seed), premises_for(spec, seed).len() as int)
}

/// Premises alone are a well-grown derivation.
proof fn lemma_seedling(premises: Seq<Prop>, held: Seq<u32>)
    ensures
        well_grown(seedling(premises, held), premises.len() as int),
{
    let g = seedling(premises, held);
    let n = premises.len() as int;
    let d = draft_of(g, n);
    assert(g.lines.take(n) =~= g.lines);
    assert forall|m: int| 1 <= m <= n implies #[trigger] fault_at(d, m) is None by {
        assert(d.premises[m - 1] == premises[m - 1]);
    }
    assert(nested(g, n));
}

/// The line that is chosen is one after the premises and outside all subproofs.
pub proof fn lemma_best(g: Growth, premises: int, n: int)
    requires
        0 <= premises,
    ensures
        best_upto(g, premises, n) matches Some(line) ==> premises < line <= n && depth_at(
            g.spans,
            line,
        ) == 0,
        n > premises && depth_at(g.spans, n) == 0 ==> best_upto(g, premises, n) is Some,
    decreases n - premises,
{
    if n > premises {
        lemma_best(g, premises, n - 1);
    }
}

/// The derivation that grows from a seed is well grown, and all its subproofs are closed.
pub proof fn law_derivation_justified(spec: PlantSpec, seed: u64)
    ensures
        well_grown(derivation(spec, seed), premises_for(spec, seed).len() as int),
        forall|i: int|
            0 <= i < derivation(spec, seed).spans.len() ==> (#[trigger] derivation(
                spec,
                seed,
            ).spans[i]).end is Some,
{
    let (premises, held) = sampled(
        pool(spec.atoms as nat),
        spec.max_formula_len as nat,
        spec.max_premises as int,
        seeded(seed),
    );
    let wanted = lines_wanted(spec);
    let g0 = seedling(premises, held);
    let size = (premises.len() + wanted) as nat;
    let tries = tries_for(wanted) as nat;
    lemma_seedling(premises, held);
    law_grown_to_justified(
        soil_for(spec),
        spec.subproofs as nat,
        g0,
        size,
        tries,
        premises.len() as int,
    );
    lemma_grown_to(soil_for(spec), spec.subproofs as nat, g0, size, tries);
}

/// The derivation begins with the premises.
pub proof fn lemma_first_lines(spec: PlantSpec, seed: u64)
    ensures
        premises_for(spec, seed).len() <= derivation(spec, seed).lines.len(),
        forall|i: int|
            0 <= i < premises_for(spec, seed).len() ==> (#[trigger] derivation(
                spec,
                seed,
            ).lines[i]).formula == premises_for(spec, seed)[i],
{
    let (premises, held) = sampled(
        pool(spec.atoms as nat),
        spec.max_formula_len as nat,
        spec.max_premises as int,
        seeded(seed),
    );
    let wanted = lines_wanted(spec);
    let g0 = seedling(premises, held);
    let g = derivation(spec, seed);
    lemma_seedling(premises, held);
    lemma_grown_to(
        soil_for(spec),
        spec.subproofs as nat,
        g0,
        (premises.len() + wanted) as nat,
        tries_for(wanted) as nat,
    );
    assert forall|i: int| 0 <= i < premises.len() implies (#[trigger] g.lines[i]).formula
        == premises[i] by {
        assert(g.lines.take(g0.lines.len() as int)[i] == g0.lines[i]);
    }
}

/// Where all subproofs are closed, the last line lies outside all of them.
proof fn lemma_last_outside(g: Growth, premises: int)
    requires
        well_grown(g, premises),
        forall|i: int| 0 <= i < g.spans.len() ==> (#[trigger] g.spans[i]).end is Some,
    ensures
        depth_at(g.spans, g.lines.len() as int) == 0,
{
    lemma_depth_zero(g.spans, g.lines.len() as int);
}

/// Nothing comes of a seed for want of a line exactly where no line could be derived.
pub proof fn law_stuck(spec: PlantSpec, seed: u64)
    ensures
        (planted(spec, seed) matches Err(e) && e == PlantError::Stuck) <==> derivation(
            spec,
            seed,
        ).lines.len() == premises_for(spec, seed).len(),
{
    let g = derivation(spec, seed);
    let premises = premises_for(spec, seed).len() as int;
    law_derivation_justified(spec, seed);
    lemma_last_outside(g, premises);
    lemma_best(g, premises, g.lines.len() as int);
}

/// Whatever is planted is justified throughout and reaches its conclusion, which thus
/// follows from the premises. Without a costume, the number of lines besides the premises
/// lies in the band that was asked for.
pub proof fn law_planted_verified(spec: PlantSpec, seed: u64)
    ensures
        planted(spec, seed) matches Ok(d) ==> {
            &&& verified(d)
            &&& reaches_conclusion(d)
            &&& entails(d.premises, d.conclusion)
            &&& d.premises.len() < d.rows.len()
            &&& spec.obfuscation_passes == 0 ==> spec.par_min <= d.rows.len() - d.premises.len()
                <= spec.par_max
        },
{
    let g = derivation(spec, seed);
    let premises = premises_for(spec, seed).len() as int;
    law_derivation_justified(spec, seed);
    lemma_best(g, premises, g.lines.len() as int);
    match best_upto(g, premises, g.lines.len() as int) {
        Some(line) => {
            let d = rebuilt(g.lines, premises, line);
            law_rebuilt_verified(g, premises, line);
            law_rebuilt_finished(g, premises, line);
            law_costumed_verified(
                d,
                spec.obfuscation_passes,
                spec.max_formula_len as nat,
                g.held,
            );
        },
        None => {},
    }
    match planted(spec, seed) {
        Ok(d) => {
            law_verified_sound(d);
        },
        Err(_) => {},
    }
}

/// How many lines are grown after the premises.
fn count_wanted(spec: &PlantSpec) -> (r: usize)
    ensures
        r == lines_wanted(*spec),
{
    let n = if spec.subproofs >= 1 {
        bounded_sum(spec.par_max, 3)
    } else {
        bounded_sum(spec.par_max, spec.par_max)
    };
    if n < 8 {
        8
    } else {
        n
    }
}

/// Builds a proof forward, from premises by rules to a conclusion, and takes the theorem
/// that it proves. Everything follows from `spec` and `seed`.
pub fn plant(spec: &PlantSpec, seed: u64) -> (r: Result<PlantedCandidate, PlantError>)
    requires
        spec.atoms >= 1,
        spec.max_premises >= 2,
        lines_wanted(*spec) * 20 <= usize::MAX,
    ensures
        match r {
            Err(e) => planted(*spec, seed) == Err::<Draft, PlantError>(e),
            Ok(c) => {
                &&& planted(*spec, seed) == Ok::<Draft, PlantError>(c.proof@)
                &&& views(c.theorem.premises@) == c.proof@.premises
                &&& c.theorem.conclusion@ == c.proof@.conclusion
                &&& c.par == c.proof@.rows.len() - c.proof@.premises.len()
                &&& c.seed == seed
                &&& verified(c.proof@)
                &&& reaches_conclusion(c.proof@)
                &&& forall|i: int|
                    0 <= i < c.proof.lines@.len() ==> (#[trigger] c.proof.lines@[i]).is_valid
                        && c.proof.lines@[i].validation_message is None
                &&& c.theorem.id@ == ""@
                &&& c.theorem.difficulty == Difficulty::Medium
                &&& c.theorem.difficulty_value == Difficulty::Medium.spec_value()
                &&& c.theorem.tier is None
                &&& c.theorem.theme is None
                &&& c.theorem.name is None
                &&& !c.theorem.is_classic
            },
        },
{
    proof {
        law_planted_verified(*spec, seed);
        law_derivation_justified(*spec, seed);
    }
    let mut dice = Dice::new(seed);
    let atoms = build_atom_pool(spec.atoms);
    assert(name_views(atoms@).len() == atoms@.len());
    let premises = sample_premises(&mut dice, &atoms, spec);
    let ghost sample = views(premises@);
    let n = premises.len();
    let mut scratch = Scratch::new(premises, dice);
    assert(scratch@.lines =~= seedling(sample, scratch@.held).lines);
    assert(scratch@ == seedling(sample, scratch@.held));
    proof {
        lemma_seedling(sample, scratch@.held);
    }
    let wanted = count_wanted(spec);
    let tries = if wanted * 20 < 120 {
        120
    } else {
        wanted * 20
    };
    scratch.grow_to(spec.subproofs, n, wanted, tries, spec, &atoms);
    let ghost g = scratch@;
    assert(soil_of(atoms@, *spec) == soil_for(*spec));
    assert(g == derivation(*spec, seed));
    proof {
        lemma_best(g, n as int, g.lines.len() as int);
        lemma_grown_refers_back(g, n as int);
    }
    match best_line(&scratch, n) {
        None => Err(PlantError::Stuck),
        Some((line, size)) => {
            if size < spec.par_min || size > spec.par_max {
                return Err(PlantError::OutOfBand);
            }
            proof {
                law_rebuilt_finished(g, n as int, line as int);
            }
            let mut p = rebuild_proof(&scratch.lines, n, line);
            if spec.obfuscation_passes > 0 {
                p = apply_costume_pass(&p, spec, &mut scratch.dice);
            }
            let ghost d = p@;
            assert(planted(*spec, seed) == Ok::<Draft, PlantError>(d));
            ProofVerifier::verify_proof(&mut p);
            assert forall|i: int| 0 <= i < p.lines@.len() implies (
            #[trigger] p.lines@[i]).is_valid && p.lines@[i].validation_message is None by {
                assert(marked(p.lines@[i], fault_at(d, i + 1)));
                assert(fault_at(d, i + 1) is None);
            }
            let theorem = p.theorem.clone();
            let par = p.lines.len() - p.theorem.premises.len();
            Ok(PlantedCandidate { theorem, proof: p, par, seed })
        },
    }
}

} // verus!
