use logic_core::models::Formula;
use logic_core::services::prover::{greedy_prove, optimal_prove, OptimalConfig, OptimalOutcome};

fn f(s: &str) -> Formula {
    Formula::parse(s).unwrap()
}

#[test]
fn round3_optimal_is_4_lines() {
    let out = optimal_prove(&[], &f("P v ~P"), &OptimalConfig::default());
    match out {
        OptimalOutcome::Proved { proof, minimal_proven } => {
            assert_eq!(proof.line_count, 4);
            assert!(minimal_proven);
        }
        _ => panic!("must prove P v ~P"),
    }
}

#[test]
fn round11_optimal_is_5_lines() {
    let goal = f("~{{[(~R v ~R) > R] . P} . [(S v S) > (Q v ~S)]} v {{[(R > ~R) > R] . P} . {~(Q v ~S) > ~(S v S)}}");
    let out = optimal_prove(&[], &goal, &OptimalConfig::default());
    match out {
        OptimalOutcome::Proved { proof, .. } => {
            assert_eq!(proof.line_count, 5);
        }
        _ => panic!("must find the trench-coat shortcut"),
    }
}

#[test]
fn round10_optimal_is_5_lines_via_left_add() {
    let goal = f("{[(R > ~P) v (P > P)] . {S > [(Q v ~S) > ~S]}} > [(P > ~R) v (~P > ~P)]");
    let out = optimal_prove(&[], &goal, &OptimalConfig::default());
    match out {
        OptimalOutcome::Proved { proof, .. } => assert_eq!(proof.line_count, 5),
        _ => panic!("must find the vacuous-disjunct shortcut"),
    }
}

#[test]
fn not_proved_when_semantically_unprovable() {
    let premises = [f("Q")];
    let goal = f("P");
    match optimal_prove(&premises, &goal, &OptimalConfig::default()) {
        OptimalOutcome::NotProvedWithinBounds => {}
        other => panic!("Q must not prove P: expected NotProvedWithinBounds, got {:?}", other),
    }
}

#[test]
fn not_proved_when_bounds_too_tight_for_a_real_proof() {
    let premises = [f("P"), f("P > Q"), f("Q > R"), f("R > S")];
    let goal = f("S");
    let cfg = OptimalConfig { max_lines: 2, ..OptimalConfig::default() };
    match optimal_prove(&premises, &goal, &cfg) {
        OptimalOutcome::NotProvedWithinBounds => {}
        other => panic!("S needs 3 lines, max_lines=2 must not find it: got {:?}", other),
    }
}

#[test]
fn round9_exhausts_honestly_within_bounds() {
    let goal = f("{P . {(R > S) . [(P > Q) . (Q > R)]}} > S");
    let greedy = greedy_prove(&[], &goal, 40).proof.unwrap();
    assert_eq!(greedy.line_count, 11);
    match optimal_prove(&[], &goal, &OptimalConfig::default()) {
        OptimalOutcome::Exhausted => {}
        OptimalOutcome::Proved { proof, .. } => assert!(
            greedy.line_count as i64 - (proof.line_count as i64) < 3,
            "if a future prover ever cracks R9 within bounds, the no-daylight truth must still hold (greedy {} vs optimal {})",
            greedy.line_count,
            proof.line_count
        ),
        OptimalOutcome::NotProvedWithinBounds => panic!(
            "R9 is provable (greedy found an 11-line proof) — NotProvedWithinBounds would mean exhaustive search wrongly concluded no proof exists, which is a real bug, not an honest exhaustion"
        ),
    }
}

#[test]
fn conj_goal_proves_at_known_minimal_length() {
    let premises = [f("P"), f("P > Q"), f("R")];
    let goal = f("Q . R");
    let out = optimal_prove(&premises, &goal, &OptimalConfig::default());
    match out {
        OptimalOutcome::Proved { proof, minimal_proven } => {
            assert_eq!(proof.line_count, 2);
            assert!(minimal_proven);
        }
        _ => panic!("must prove Q . R in 2 lines (MP, Conj)"),
    }
}

#[test]
fn round_whole_dn_wrap_needed_for_minimal_proof() {
    let premises = [f("P . Q"), f("~(~P v ~Q) > C")];
    let goal = f("C");
    let out = optimal_prove(&premises, &goal, &OptimalConfig::default());
    match out {
        OptimalOutcome::Proved { proof, .. } => {
            assert_eq!(proof.line_count, 3);
        }
        _ => panic!("must prove C in 3 lines via the whole-formula DN-wrap route"),
    }

    let raised_cap = OptimalConfig { equiv_moves_per_state: 128, ..OptimalConfig::default() };
    let out2 = optimal_prove(&premises, &goal, &raised_cap);
    match out2 {
        OptimalOutcome::Proved { proof, minimal_proven } => {
            assert_eq!(proof.line_count, 3);
            assert!(minimal_proven, "cap=128 must restore certification on this small witness");
        }
        _ => panic!("must still prove C in 3 lines at the raised cap"),
    }
}
