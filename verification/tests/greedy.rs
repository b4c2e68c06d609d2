use logic_core::models::Formula;
use logic_core::services::prover::greedy_prove;

fn f(s: &str) -> Formula {
    Formula::parse(s).unwrap()
}

#[test]
fn round9_hallway_greedy_solves_single_path() {
    let goal = f("{P . {(R > S) . [(P > Q) . (Q > R)]}} > S");
    let out = greedy_prove(&[], &goal, 40);
    let proof = out.proof.expect("greedy must solve the hallway");
    assert_eq!(proof.line_count, 11, "got {}", proof.line_count);
    assert!(!out.single_path, "R9 legitimately has route choices — tournament record: MP relay vs double-HS");
    assert!(out.branch_points > 0);
}

#[test]
fn mp_chain_solves() {
    let premises = [f("P"), f("P > Q"), f("Q > R")];
    let out = greedy_prove(&premises, &f("R"), 10);
    assert_eq!(out.proof.unwrap().line_count, 2);
}

#[test]
fn branching_detected() {
    let premises = [f("P . Q"), f("R . S")];
    let out = greedy_prove(&premises, &f("P"), 10);
    assert!(!out.single_path);
}

#[test]
fn unprovable_returns_none() {
    assert!(greedy_prove(&[f("Q")], &f("P"), 10).proof.is_none());
}

#[test]
fn demorgan_unpack_is_mechanical() {
    let out = greedy_prove(&[f("~(P v Q)")], &f("~P"), 10);
    assert_eq!(out.proof.unwrap().line_count, 2);
}
