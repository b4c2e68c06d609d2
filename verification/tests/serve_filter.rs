use logic_core::models::{Difficulty, Formula, Theorem};
use logic_core::services::prover::{FoundProof, OptimalOutcome, ProofStep};
use logic_core::services::serve_filter::{
    analyze_for_serving, decide_optimal_stage, ServeAnalysis, ServeConfig, ServeRejection,
};

fn f(s: &str) -> Formula {
    Formula::parse(s).unwrap()
}

fn theorem(premises: &[&str], conclusion: &str) -> Theorem {
    Theorem::new(
        premises.iter().map(|p| f(p)).collect(),
        f(conclusion),
        Difficulty::Easy,
        None,
        None,
    )
}

fn serve(premises: &[&str], conclusion: &str) -> ServeAnalysis {
    analyze_for_serving(&theorem(premises, conclusion), &ServeConfig::default())
}

fn greedy_stage(lines: usize, branch_points: usize) -> ServeAnalysis {
    ServeAnalysis { greedy_lines: Some(lines), branch_points, ..ServeAnalysis::empty() }
}

fn mock_proof(line_count: usize, rules: &[&str]) -> FoundProof {
    FoundProof {
        line_count,
        steps: rules
            .iter()
            .map(|r| ProofStep { formula: Formula::Atom("X".to_string()), rule: r.to_string(), cited: vec![] })
            .collect(),
    }
}

#[test]
fn default_config_matches_spec() {
    let cfg = ServeConfig::default();
    assert_eq!(cfg.min_divergence, 3);
    assert_eq!(cfg.max_identity_distance, 3);
    assert_eq!(cfg.min_optimal_lines, 5);
    assert_eq!(cfg.greedy_max_lines, 40);
}

#[test]
fn reason1_tautologous_disjunct_short_circuits_before_greedy() {
    let result = serve(&[], "Z > (Z v (Q > Q))");
    assert_eq!(result.rejection, Some(ServeRejection::TautologousDisjunct));
    assert_eq!(result.greedy_lines, None, "greedy must never run once cheese rejects");
    assert_eq!(result.score, 0);
}

#[test]
fn reason2_subformula_decoy_short_circuits_before_greedy() {
    let result = serve(&[], "(P . Q) > (P v Q v Z)");
    assert_eq!(result.rejection, Some(ServeRejection::SubformulaDecoy));
    assert_eq!(result.greedy_lines, None);
}

#[test]
fn reason3_disguised_identity_short_circuits_before_greedy() {
    let result = serve(&[], "P > ~~P");
    assert_eq!(result.rejection, Some(ServeRejection::DisguisedIdentity { distance: 1 }));
    assert_eq!(result.greedy_lines, None);
}

#[test]
fn reason4_not_greedy_provable() {
    let result = serve(&["Q"], "P");
    assert_eq!(result.rejection, Some(ServeRejection::NotGreedyProvable));
    assert_eq!(result.greedy_lines, None, "no proof means no line count to report");
}

#[test]
fn reason5_hallway_when_greedy_has_zero_choice() {
    let result = serve(&["P", "P > Q"], "Q");
    assert_eq!(result.rejection, Some(ServeRejection::Hallway));
    assert_eq!(result.greedy_lines, Some(1), "the hallway proof itself is still reported");
    assert_eq!(result.branch_points, 0);
}

#[test]
fn reason7_too_short_via_real_certified_optimal() {
    let result = serve(&["P . Q"], "P");
    assert_eq!(result.rejection, Some(ServeRejection::TooShort { optimal: 1 }));
    assert_eq!(result.greedy_lines, Some(1));
    assert_eq!(result.optimal_lines, Some(1), "certified length is populated even though rejected");
    assert_eq!(result.best_found_lines, Some(1));
    assert!(result.optimal_certified);
    assert_eq!(result.divergence, Some(0), "divergence is populated even when TooShort, not it, is the reason");
    assert_eq!(result.score, 0);
}

#[test]
fn optimal_exhausted_is_optimal_unknown_with_no_best_found() {
    let result = decide_optimal_stage(greedy_stage(11, 2), 11, &Vec::new(), OptimalOutcome::Exhausted, &ServeConfig::default());
    assert_eq!(result.rejection, Some(ServeRejection::OptimalUnknown));
    assert_eq!(result.best_found_lines, None);
    assert_eq!(result.optimal_lines, None);
    assert!(!result.optimal_certified);
    assert_eq!(result.score, 0);
    assert_eq!(result.greedy_lines, Some(11), "greedy facts survive from the earlier stage");
}

#[test]
fn optimal_not_proved_within_bounds_is_optimal_unknown() {
    let result = decide_optimal_stage(
        greedy_stage(9, 0),
        9,
        &Vec::new(),
        OptimalOutcome::NotProvedWithinBounds,
        &ServeConfig::default(),
    );
    assert_eq!(result.rejection, Some(ServeRejection::OptimalUnknown));
    assert_eq!(result.best_found_lines, None);
    assert_eq!(result.optimal_lines, None);
    assert!(!result.optimal_certified);
}

#[test]
fn optimal_uncertified_proof_is_optimal_unknown_but_keeps_best_found_par() {
    let proof = mock_proof(7, &["MP", "MP", "HS"]);
    let result = decide_optimal_stage(
        greedy_stage(11, 2),
        11,
        &Vec::new(),
        OptimalOutcome::Proved { proof, minimal_proven: false },
        &ServeConfig::default(),
    );
    assert_eq!(result.rejection, Some(ServeRejection::OptimalUnknown));
    assert_eq!(result.best_found_lines, Some(7));
    assert_eq!(result.optimal_lines, None, "uncertified length must never leak into optimal_lines");
    assert!(!result.optimal_certified);
    assert_eq!(result.score, 0);
}

#[test]
fn certified_optimal_below_min_is_too_short() {
    let proof = mock_proof(3, &["MP", "MP", "MP"]);
    let result = decide_optimal_stage(
        greedy_stage(9, 1),
        9,
        &Vec::new(),
        OptimalOutcome::Proved { proof, minimal_proven: true },
        &ServeConfig::default(),
    );
    assert_eq!(result.rejection, Some(ServeRejection::TooShort { optimal: 3 }));
    assert_eq!(result.optimal_lines, Some(3));
    assert_eq!(result.best_found_lines, Some(3));
    assert!(result.optimal_certified);
    assert_eq!(result.divergence, Some(6), "divergence is populated even though TooShort is the reason");
    assert_eq!(result.score, 0);
}

#[test]
fn low_divergence_is_insufficient_divergence() {
    let proof = mock_proof(5, &["MP", "MP", "MP", "MP", "MP"]);
    let result = decide_optimal_stage(
        greedy_stage(6, 1),
        6,
        &Vec::new(),
        OptimalOutcome::Proved { proof, minimal_proven: true },
        &ServeConfig::default(),
    );
    assert_eq!(result.rejection, Some(ServeRejection::InsufficientDivergence { greedy: 6, optimal: 5 }));
    assert_eq!(result.divergence, Some(1));
    assert_eq!(result.score, 0);
}

#[test]
fn no_unlock_rules_and_ip_used_by_both_is_no_unlock() {
    let proof = mock_proof(5, &["MP", "HS", "IP"]);
    let greedy_rules = vec!["IP".to_string()];
    let result = decide_optimal_stage(
        greedy_stage(10, 2),
        10,
        &greedy_rules,
        OptimalOutcome::Proved { proof, minimal_proven: true },
        &ServeConfig::default(),
    );
    assert_eq!(result.rejection, Some(ServeRejection::NoUnlock));
    assert!(result.unlock_rules.is_empty());
    assert_eq!(result.score, 0);
}

#[test]
fn dist_in_optimal_proof_unlocks_and_scores() {
    let proof = mock_proof(5, &["MP", "Dist", "HS"]);
    let result = decide_optimal_stage(
        greedy_stage(10, 2),
        10,
        &Vec::new(),
        OptimalOutcome::Proved { proof, minimal_proven: true },
        &ServeConfig::default(),
    );
    assert_eq!(result.rejection, None);
    assert_eq!(result.unlock_rules, vec!["Dist".to_string()]);
    assert_eq!(result.score, 15);
}

#[test]
fn cd_in_optimal_proof_unlocks() {
    let proof = mock_proof(6, &["CD"]);
    let result = decide_optimal_stage(
        greedy_stage(11, 0),
        11,
        &Vec::new(),
        OptimalOutcome::Proved { proof, minimal_proven: true },
        &ServeConfig::default(),
    );
    assert_eq!(result.rejection, None);
    assert_eq!(result.unlock_rules, vec!["CD".to_string()]);
}

#[test]
fn ip_used_only_by_optimal_unlocks() {
    let proof = mock_proof(5, &["MP", "IP"]);
    let result = decide_optimal_stage(
        greedy_stage(10, 0),
        10,
        &Vec::new(),
        OptimalOutcome::Proved { proof, minimal_proven: true },
        &ServeConfig::default(),
    );
    assert_eq!(result.rejection, None);
    assert_eq!(result.unlock_rules, vec!["IP".to_string()]);
    assert_eq!(result.score, 5);
}

#[test]
fn score_multiplier_caps_branch_points_at_three() {
    let proof = mock_proof(5, &["Exp"]);
    let result = decide_optimal_stage(
        greedy_stage(10, 7),
        10,
        &Vec::new(),
        OptimalOutcome::Proved { proof, minimal_proven: true },
        &ServeConfig::default(),
    );
    assert_eq!(result.rejection, None);
    assert_eq!(result.score, 20);
}

#[test]
fn multiple_unlock_rules_are_sorted_for_determinism() {
    let proof = mock_proof(6, &["Dist", "CD", "MP"]);
    let result = decide_optimal_stage(
        greedy_stage(11, 1),
        11,
        &Vec::new(),
        OptimalOutcome::Proved { proof, minimal_proven: true },
        &ServeConfig::default(),
    );
    assert_eq!(result.unlock_rules, vec!["CD".to_string(), "Dist".to_string()]);
}
