use logic_core::models::Formula;
use logic_core::services::prover::forward_moves;

fn f(s: &str) -> Formula {
    Formula::parse(s).unwrap()
}

#[test]
fn simp_emits_both_conjuncts() {
    let state = [f("P & Q")];
    let moves = forward_moves(&state);
    assert!(moves.iter().any(|m| m.rule == "Simp" && m.result == f("P")));
    assert!(moves.iter().any(|m| m.rule == "Simp" && m.result == f("Q")));
}

#[test]
fn demorgan_is_inward_only() {
    let state = [f("~(P & Q)")];
    let moves = forward_moves(&state);
    assert!(moves.iter().any(|m| m.rule == "DeM" && m.result == f("~P | ~Q")));

    let state2 = [f("~P | ~Q")];
    let moves2 = forward_moves(&state2);
    assert!(!moves2.iter().any(|m| m.rule == "DeM"));
}

#[test]
fn dn_strip_is_elimination_only() {
    let state = [f("~~P")];
    let moves = forward_moves(&state);
    assert!(moves.iter().any(|m| m.rule == "DN" && m.result == f("P")));

    let state2 = [f("P")];
    let moves2 = forward_moves(&state2);
    assert!(!moves2.iter().any(|m| m.rule == "DN"));
}

#[test]
fn mp_and_mt_fire() {
    let state = [f("P"), f("P > Q"), f("~Q")];
    let moves = forward_moves(&state);
    assert!(moves.iter().any(|m| m.rule == "MP" && m.result == f("Q")));
    assert!(moves.iter().any(|m| m.rule == "MT" && m.result == f("~P")));
}

#[test]
fn hs_fires_on_compatible_pair() {
    let state = [f("P > Q"), f("Q > R")];
    let moves = forward_moves(&state);
    assert!(moves.iter().any(|m| m.rule == "HS" && m.result == f("P > R")));
}

#[test]
fn ds_fires_both_directions() {
    let state = [f("P | Q"), f("~P")];
    let moves = forward_moves(&state);
    assert!(moves.iter().any(|m| m.rule == "DS" && m.result == f("Q")));

    let state2 = [f("P | Q"), f("~Q")];
    let moves2 = forward_moves(&state2);
    assert!(moves2.iter().any(|m| m.rule == "DS" && m.result == f("P")));
}

#[test]
fn cd_fires_on_matching_triple() {
    let state = [f("P | Q"), f("P > R"), f("Q > S")];
    let moves = forward_moves(&state);
    assert!(moves.iter().any(|m| m.rule == "CD" && m.result == f("R | S")));
}

#[test]
fn neg_e_fires_on_contradictory_pair() {
    let state = [f("P"), f("~P")];
    let moves = forward_moves(&state);
    assert!(moves.iter().any(|m| m.rule == "NegE" && m.result == Formula::Contradiction));
}

#[test]
fn no_conj_or_add_moves_ever_emitted() {
    let state = [f("P"), f("Q"), f("P | R")];
    let moves = forward_moves(&state);
    assert!(!moves.iter().any(|m| m.rule == "Conj" || m.rule == "Add"));
}

#[test]
fn results_already_in_state_are_skipped() {
    let state = [f("P & Q"), f("P"), f("Q")];
    let moves = forward_moves(&state);
    assert!(moves.is_empty(), "expected no moves, got {:?}", moves);
}
