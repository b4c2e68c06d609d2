use logic_core::models::rules::InferenceRule;
use logic_core::models::{Difficulty, Formula, Justification, Proof, Theorem};
use logic_core::services::{golf_gate, plant, GateConfig, GateReject, PlantSpec, PlantedCandidate};

fn f(s: &str) -> Formula {
    Formula::parse(s).unwrap()
}

fn theorem(premises: Vec<Formula>, conclusion: Formula) -> Theorem {
    Theorem::new(premises, conclusion, Difficulty::Medium, None, None)
}

fn hand_built(premises: Vec<Formula>, conclusion: Formula, lines: Vec<(Formula, Justification)>) -> PlantedCandidate {
    let th = theorem(premises, conclusion);
    let mut proof = Proof::new(th.clone());
    for (formula, justification) in lines {
        proof.add_line(formula, justification);
    }
    let par = proof.lines.len() - th.premises.len();
    PlantedCandidate { theorem: th, proof, par, seed: 0 }
}

#[test]
fn mp_only_two_liner_is_greedy_provable() {
    let premises = vec![f("P"), f("P > Q"), f("Q > R")];
    let conclusion = f("R");
    let lines = vec![
        (f("Q"), Justification::Inference { rule: InferenceRule::ModusPonens, lines: vec![1, 2] }),
        (f("R"), Justification::Inference { rule: InferenceRule::ModusPonens, lines: vec![3, 4] }),
    ];
    let c = hand_built(premises, conclusion, lines);
    assert_eq!(c.par, 2);

    match golf_gate(&c, &GateConfig::default()) {
        Err(GateReject::GreedyProvable { lines }) => {
            assert_eq!(lines, 2, "philosopher should solve this in exactly 2 MP steps");
        }
        other => panic!("expected GreedyProvable, got {other:?}"),
    }
}

#[test]
fn tautologous_disjunct_conclusion_is_cheese() {
    let conclusion = f("Q v (P > P)");
    let c = hand_built(vec![], conclusion, vec![]);

    match golf_gate(&c, &GateConfig::default()) {
        Err(GateReject::Cheese(msg)) => {
            assert!(msg.contains("tautologous disjunct"), "unexpected message: {msg}");
        }
        other => panic!("expected Cheese(tautologous disjunct), got {other:?}"),
    }
}

#[test]
fn disguised_identity_conclusion_is_cheese() {
    let conclusion = f("(P . Q) > (Q . P)");
    let c = hand_built(vec![], conclusion, vec![]);

    match golf_gate(&c, &GateConfig::default()) {
        Err(GateReject::Cheese(msg)) => {
            assert!(msg.contains("disguised identity"), "unexpected message: {msg}");
        }
        other => panic!("expected Cheese(disguised identity), got {other:?}"),
    }
}

#[test]
fn over_length_conclusion_is_too_big() {
    let long = (0..25).rev().fold(Formula::Atom("Z".to_string()), |acc, i| {
        Formula::Or(Box::new(Formula::Atom(format!("A{i}"))), Box::new(acc))
    });
    let cfg = GateConfig::default();
    assert!(
        long.ascii_string_bracketed().chars().count() > cfg.max_formula_len,
        "test formula must actually exceed max_formula_len to be a meaningful TooBig witness"
    );

    let c = hand_built(vec![], long, vec![]);
    assert_eq!(golf_gate(&c, &cfg), Err(GateReject::TooBig));
}

fn probe_reach_spec() -> PlantSpec {
    PlantSpec {
        atoms: 3,
        par_min: 6,
        par_max: 6,
        max_premises: 4,
        max_formula_len: 90,
        subproofs: 0,
        obfuscation_passes: 0,
    }
}

#[test]
fn plant_generated_par_6_is_cracked_by_lawyer_probe() {
    let spec = probe_reach_spec();
    let seed = 1u64;
    let c = plant(&spec, seed).unwrap_or_else(|e| panic!("pinned seed {seed} must plant: {e:?}"));
    assert_eq!(c.par, 6, "pinned seed must be an exact par-6 candidate");

    match golf_gate(&c, &GateConfig::default()) {
        Err(GateReject::LawyerProbeCracked { lines }) => {
            assert_eq!(lines, 4, "pinned seed's minimal proof is 4 lines — confirms determinism, not just the reject variant");
            assert!(lines <= GateConfig::default().probe.max_lines);
        }
        other => panic!("expected LawyerProbeCracked for pinned seed {seed}, got {other:?}"),
    }
}
