use logic_core::models::rewriting::one_step_equiv_rewrites;
use logic_core::models::rules::{EquivalenceRule, InferenceRule, ProofTechnique};
use logic_core::models::{Difficulty, Formula, Justification, Proof, Theorem};
use logic_core::services::dice::Dice;
use logic_core::services::planted_gen::costume::{
    admissible_rewrite_steps, apply_costume_pass, obfuscate_with_trace,
};
use logic_core::services::planted_gen::sampling::{build_atom_pool, sample_premises};
use logic_core::services::truth_table::{are_equivalent_dynamic, entails_dynamic, is_tautology_dynamic};
use logic_core::services::{
    analyze_for_serving, cheese_check, forward_moves, golf_gate, greedy_prove, is_satisfiable_dynamic,
    optimal_prove, plant, rewrite_distance, GateConfig, GateReject, OptimalConfig, OptimalOutcome, PlantError,
    PlantSpec, PlantedCandidate, ProofStep, ProofVerifier, ServeConfig,
};

fn f(s: &str) -> Formula {
    Formula::parse(s).unwrap()
}

fn spec(subproofs: u8, obfuscation_passes: u8) -> PlantSpec {
    PlantSpec {
        atoms: 4,
        par_min: 6,
        par_max: 12,
        max_premises: 4,
        max_formula_len: 90,
        subproofs,
        obfuscation_passes,
    }
}

fn candidate(premises: &[&str], conclusion: &str, lines: Vec<(Formula, Justification)>) -> PlantedCandidate {
    let theorem = Theorem::new(
        premises.iter().map(|p| f(p)).collect(),
        f(conclusion),
        Difficulty::Medium,
        None,
        None,
    );
    let mut proof = Proof::new(theorem.clone());
    for (formula, justification) in lines {
        proof.add_line(formula, justification);
    }
    let par = proof.lines.len() - theorem.premises.len();
    PlantedCandidate { theorem, proof, par, seed: 0 }
}

// Moves.

#[test]
fn moves_are_new_and_follow() {
    let state = [f("P . Q"), f("P > R"), f("R > S"), f("~S v T"), f("~(P v T)"), f("~~Q"), f("R v P")];
    let moves = forward_moves(&state);
    assert!(!moves.is_empty());
    for m in &moves {
        assert!(!state.contains(&m.result));
        assert!(entails_dynamic(&state, &m.result));
        assert!(m.cited.iter().all(|&c| c < state.len()));
    }
}

#[test]
fn moves_come_in_the_order_of_the_rules() {
    let state = [
        f("A v B"),
        f("A > C"),
        f("B > D"),
        f("C > E"),
        f("F"),
        f("~F"),
        f("~E"),
        f("~~G"),
        f("~(H . I)"),
        f("J . K"),
        f("F > L"),
        f("F v M"),
    ];
    let order = ["Simp", "DeM", "DN", "MP", "HS", "DS", "MT", "NegE", "CD"];
    let ranks: Vec<usize> =
        forward_moves(&state).iter().map(|m| order.iter().position(|r| *r == m.rule).unwrap()).collect();
    assert!(ranks.windows(2).all(|w| w[0] <= w[1]));
    for r in 0..order.len() {
        assert!(ranks.contains(&r), "{} is missing", order[r]);
    }
    let first = &forward_moves(&state)[0];
    assert_eq!((first.result.clone(), first.rule, first.cited.clone()), (f("J"), "Simp", vec![9]));
    let last = forward_moves(&state).pop().unwrap();
    assert_eq!((last.result, last.rule, last.cited), (f("C v D"), "CD", vec![0, 1, 2]));
}

// The greedy prover.

#[test]
fn greedy_proofs_end_with_their_goal_and_follow() {
    let premises = [f("P > Q"), f("Q > R")];
    let goal = f("P > (R v S)");
    let out = greedy_prove(&premises, &goal, 40);
    let found = out.proof.unwrap();
    assert_eq!(found.line_count, found.steps.len());
    assert_eq!(found.steps.last().unwrap().formula, goal);
    assert!(entails_dynamic(&premises, &goal));
    for (i, s) in found.steps.iter().enumerate() {
        assert!(s.cited.iter().all(|&c| c < premises.len() + i));
    }
}

#[test]
fn greedy_needs_no_lines_for_what_is_given() {
    let out = greedy_prove(&[f("P")], &f("P"), 0);
    assert_eq!(out.proof.unwrap().line_count, 0);
    assert!(out.single_path);
    assert_eq!(out.branch_points, 0);
}

#[test]
fn greedy_cites_the_assumption_twice_where_it_is_all_there_is() {
    let out = greedy_prove(&[], &f("P > P"), 10);
    let steps = out.proof.unwrap().steps;
    let rules: Vec<&str> = steps.iter().map(|s| s.rule.as_str()).collect();
    assert_eq!(rules, vec!["ACP", "CP"]);
    assert_eq!(steps[1].cited, vec![0, 0]);
}

#[test]
fn greedy_keeps_within_its_lines() {
    let premises = [f("P"), f("P > Q"), f("Q > R")];
    assert!(greedy_prove(&premises, &f("R"), 1).proof.is_none());
    assert_eq!(greedy_prove(&premises, &f("R"), 2).proof.unwrap().line_count, 2);
}

#[test]
fn greedy_takes_the_first_move_and_goes_on() {
    let premises = vec![f("P . Q"), f("P > R"), f("Q > S")];
    let goal = f("S");
    let moves = forward_moves(&premises);
    let mut results: Vec<&Formula> = Vec::new();
    for m in &moves {
        if !results.contains(&&m.result) {
            results.push(&m.result);
        }
    }
    let mut more = premises.clone();
    more.push(moves[0].result.clone());
    let whole = greedy_prove(&premises, &goal, 10);
    let rest = greedy_prove(&more, &goal, 9);
    let found = whole.proof.unwrap().steps;
    let later = rest.proof.unwrap().steps;
    assert_eq!(found.len(), later.len() + 1);
    assert_eq!(found[0].formula, moves[0].result);
    for (x, y) in found[1..].iter().zip(later.iter()) {
        assert_eq!((&x.formula, &x.rule, &x.cited), (&y.formula, &y.rule, &y.cited));
    }
    assert_eq!(whole.branch_points, rest.branch_points + results.len() - 1);
}

#[test]
fn greedy_rules_are_listed_once() {
    let out = greedy_prove(&[f("P"), f("P > Q"), f("Q > R")], &f("R"), 10);
    assert_eq!(out.proof.unwrap().rules_used(), vec!["MP".to_string()]);
}

// The optimal prover.

fn proved(premises: &[Formula], goal: &Formula, cfg: &OptimalConfig) -> (usize, bool) {
    match optimal_prove(premises, goal, cfg) {
        OptimalOutcome::Proved { proof, minimal_proven } => {
            assert_eq!(proof.line_count, proof.steps.len());
            if let Some(last) = proof.steps.last() {
                assert_eq!(&last.formula, goal);
            }
            (proof.line_count, minimal_proven)
        }
        other => panic!("not proved: {other:?}"),
    }
}

#[test]
fn optimal_proofs_are_no_longer_than_greedy_ones() {
    for (premises, goal) in [
        (vec![f("P"), f("P > Q"), f("Q > R")], f("R")),
        (vec![f("~(P v Q)")], f("~P")),
        (vec![f("P . Q")], f("Q v R")),
        (vec![], f("P > P")),
    ] {
        let (lines, _) = proved(&premises, &goal, &OptimalConfig::default());
        let greedy = greedy_prove(&premises, &goal, 40).proof.unwrap();
        assert!(lines <= greedy.line_count);
        assert!(entails_dynamic(&premises, &goal));
    }
}

#[test]
fn what_does_not_follow_is_never_proved() {
    let out = optimal_prove(&[f("P v Q")], &f("P"), &OptimalConfig::default());
    assert!(matches!(out, OptimalOutcome::NotProvedWithinBounds));
}

#[test]
fn a_certified_length_cannot_be_undercut() {
    let premises = [f("P"), f("P > Q"), f("Q > R")];
    let (lines, minimal) = proved(&premises, &f("R"), &OptimalConfig::default());
    assert_eq!((lines, minimal), (2, true));
    let tight = OptimalConfig { max_lines: 1, ..OptimalConfig::default() };
    assert!(matches!(optimal_prove(&premises, &f("R"), &tight), OptimalOutcome::NotProvedWithinBounds));
}

#[test]
fn a_conjunction_of_known_halves_takes_one_line() {
    let premises = [f("P"), f("Q")];
    let tight = OptimalConfig { max_lines: 1, ..OptimalConfig::default() };
    match optimal_prove(&premises, &f("P . Q"), &tight) {
        OptimalOutcome::Proved { proof, minimal_proven } => {
            assert_eq!(proof.line_count, 1);
            assert_eq!(proof.steps[0].rule, "Conj");
            assert_eq!(proof.steps[0].formula, f("P . Q"));
            assert_eq!(proof.steps[0].cited, vec![0, 1]);
            assert!(minimal_proven);
        }
        other => panic!("not proved: {other:?}"),
    }
    let longer = [f("P"), f("Q"), f("P > (Q > (P . Q))")];
    assert_eq!(proved(&longer, &f("P . Q"), &OptimalConfig::default()), (1, true));
    let given = [f("P"), f("Q"), f("~~~~(P . Q)")];
    assert_eq!(proved(&given, &f("P . Q"), &OptimalConfig::default()), (1, true));
}

/// No line cites a line of a subproof that is closed by then.
fn cites_nothing_closed(premises: usize, steps: &[ProofStep]) -> bool {
    steps.iter().enumerate().all(|(i, step)| {
        step.cited.iter().all(|&c| {
            c < premises + i
                && steps[..i].iter().enumerate().all(|(k, earlier)| {
                    !((earlier.rule == "CP" || earlier.rule == "IP")
                        && earlier.cited[0] <= c
                        && c < premises + k)
                })
        })
    })
}

#[test]
fn found_proofs_cite_nothing_inside_a_closed_subproof() {
    for (premises, goal) in [
        (vec![], f("(P > P) . (P v ~P)")),
        (vec![], f("(P > P) . (Q > Q)")),
        (vec![f("Q")], f("(P > Q) . (R > Q)")),
        (vec![f("Q")], f("(P > Q) . ((P > Q) v R)")),
        (vec![f("P . Q")], f("(R > P) . (R > Q)")),
    ] {
        match optimal_prove(&premises, &goal, &OptimalConfig::default()) {
            OptimalOutcome::Proved { proof, .. } => {
                assert!(cites_nothing_closed(premises.len(), &proof.steps));
                assert_eq!(proof.steps.last().unwrap().formula, goal);
            }
            other => panic!("not proved: {other:?}"),
        }
    }
}

#[test]
fn the_right_half_uses_the_left_half() {
    // The left half once, then the right half by addition, then both.
    assert_eq!(proved(&[], &f("(P > P) . ((P > P) v Q)"), &OptimalConfig::default()).0, 4);
}

fn uncapped() -> OptimalConfig {
    OptimalConfig { max_lines: 12, max_nodes: 50_000_000, equiv_moves_per_state: 1_000_000 }
}

#[test]
fn both_halves_share_a_subgoal_of_the_left_one() {
    let premises = [f("A"), f("D")];
    let goal = f("((A v B) v (A v C)) . ((A v C) . D)");
    assert_eq!(proved(&premises, &goal, &uncapped()), (4, true));
    match optimal_prove(&premises, &goal, &uncapped()) {
        OptimalOutcome::Proved { proof, .. } => {
            let rules: Vec<&str> = proof.steps.iter().map(|s| s.rule.as_str()).collect();
            assert_eq!(rules, vec!["Add", "Add", "Conj", "Conj"]);
            assert!(cites_nothing_closed(premises.len(), &proof.steps));
        }
        other => panic!("not proved: {other:?}"),
    }
}

#[test]
fn a_subproof_is_shared_by_both_halves() {
    let goal = f("((A > A) v (B > B)) . (B > B)");
    match optimal_prove(&[], &goal, &uncapped()) {
        OptimalOutcome::Proved { proof, minimal_proven } => {
            let rules: Vec<&str> = proof.steps.iter().map(|s| s.rule.as_str()).collect();
            assert_eq!(rules, vec!["ACP", "CP", "Add", "Conj"]);
            assert!(minimal_proven);
            assert!(cites_nothing_closed(0, &proof.steps));
        }
        other => panic!("not proved: {other:?}"),
    }
    // A conditional proof, addition to `(P > P) v (B . C)`, and distribution.
    assert_eq!(proved(&[], &f("((P > P) v B) . ((P > P) v C)"), &uncapped()), (4, true));
}

#[test]
fn many_atoms_are_no_way_around_the_meaning() {
    let premises: Vec<Formula> = (0..25).map(|i| f(&format!("A{i} > A{}", i + 1))).collect();
    let cfg = OptimalConfig { max_lines: 3, max_nodes: 50, ..OptimalConfig::default() };
    let out = optimal_prove(&premises, &f("A25 > A0"), &cfg);
    assert!(matches!(out, OptimalOutcome::NotProvedWithinBounds));
    assert_eq!(proved(&premises, &f("A3 > A5"), &cfg).0, 1);
}

#[test]
fn the_node_cap_is_an_honest_unknown() {
    let tight = OptimalConfig { max_nodes: 1, ..OptimalConfig::default() };
    let out = optimal_prove(&[f("P v Q"), f("P > R"), f("Q > R")], &f("R"), &tight);
    assert!(matches!(out, OptimalOutcome::Exhausted));
}

#[test]
fn nodes_are_counted_up_to_the_cap() {
    let premises = [f("P"), f("P > Q")];
    let none = OptimalConfig { max_nodes: 0, ..OptimalConfig::default() };
    let one = OptimalConfig { max_nodes: 1, ..OptimalConfig::default() };
    assert_eq!(proved(&premises, &f("P"), &none), (0, true));
    assert!(matches!(optimal_prove(&premises, &f("Q"), &none), OptimalOutcome::Exhausted));
    assert_eq!(proved(&premises, &f("Q"), &one), (1, true));
    // What does not follow is refused before it counts.
    assert!(matches!(optimal_prove(&premises, &f("R"), &none), OptimalOutcome::NotProvedWithinBounds));
}

#[test]
fn only_greedy_proves_the_contradiction_indirectly() {
    let out = greedy_prove(&[f("P > #"), f("~P > #")], &f("#"), 10);
    let steps = out.proof.unwrap().steps;
    assert_eq!((steps[0].rule.as_str(), &steps[0].formula), ("AIP", &f("~#")));
}

#[test]
fn a_cap_on_rewrites_voids_the_certificate() {
    let premises = [f("P . Q"), f("~(~P v ~Q) > C")];
    let (lines, minimal) = proved(&premises, &f("C"), &OptimalConfig::default());
    assert_eq!((lines, minimal), (3, false));
}

// Cheap checks.

#[test]
fn a_tautologous_disjunct_makes_a_tautology() {
    let conclusion = f("R > (Q v (P > P))");
    let report = cheese_check(&[], &conclusion, 3);
    assert_eq!(report.tautologous_disjunct, Some(f("P > P")));
    assert!(is_tautology_dynamic(&conclusion));
}

#[test]
fn a_decoy_entails_its_target() {
    let report = cheese_check(&[f("P . Q")], &f("P v R"), 3);
    let decoy = report.subformula_decoy.unwrap();
    assert_eq!(decoy, f("P"));
    assert!(entails_dynamic(&[decoy], &f("P v R")));
}

#[test]
fn rewrites_keep_the_meaning_and_can_be_undone() {
    let x = f("~(P . Q) > (R v R)");
    let all = one_step_equiv_rewrites(&x);
    assert!(!all.is_empty());
    for (y, rule) in all {
        assert_ne!(y, x);
        assert!(are_equivalent_dynamic(&x, &y));
        assert!(one_step_equiv_rewrites(&y).contains(&(x.clone(), rule)));
    }
}

#[test]
fn a_distance_is_that_of_a_shortest_path() {
    let a = f("P > Q");
    for (b, _) in one_step_equiv_rewrites(&a) {
        assert_eq!(rewrite_distance(&a, &b, 3), Some(1));
        for (c, _) in one_step_equiv_rewrites(&b) {
            let d = rewrite_distance(&a, &c, 3).unwrap();
            assert!(d <= 2);
            assert_eq!(d == 0, c == a);
            assert_eq!(d == 1, one_step_equiv_rewrites(&a).iter().any(|(x, _)| *x == c));
        }
    }
    assert_eq!(rewrite_distance(&a, &f("~Q > ~P"), 0), None);
    assert_eq!(rewrite_distance(&a, &f("Q > P"), 3), None);
    assert_eq!(rewrite_distance(&a, &a, 0), Some(0));
}

#[test]
fn a_distance_does_not_depend_on_the_bound() {
    let a = f("P > Q");
    for b in [f("P > Q"), f("~P v Q"), f("~~(~P v Q)"), f("Q v ~P"), f("~~Q v ~P")] {
        let d = rewrite_distance(&a, &b, 4).unwrap();
        for bound in 0..5 {
            let expected = if d <= bound { Some(d) } else { None };
            assert_eq!(rewrite_distance(&a, &b, bound), expected);
        }
    }
}

// The serve filter.

#[test]
fn rejected_theorems_have_no_score() {
    for (premises, conclusion) in [(vec![], "P v ~P"), (vec![f("P"), f("P > Q")], "Q"), (vec![f("Q")], "P")] {
        let t = Theorem::new(premises, f(conclusion), Difficulty::Easy, None, None);
        let a = analyze_for_serving(&t, &ServeConfig::default());
        assert!(a.rejection.is_some());
        assert_eq!(a.score, 0);
        assert_eq!(a.optimal_certified, a.optimal_lines.is_some());
    }
}

// Planting.

#[test]
fn atoms_beyond_the_first_five_take_other_letters() {
    let names = build_atom_pool(9);
    assert_eq!(names, vec!["P", "Q", "R", "S", "T", "A", "B", "C", "D"]);
    assert_eq!(build_atom_pool(26).last().unwrap(), "Z");
    assert_eq!(build_atom_pool(28)[26..], ["P1".to_string(), "Q1".to_string()]);
}

#[test]
fn sampled_premises_are_consistent_and_different() {
    let atoms = build_atom_pool(3);
    for seed in 0..200u64 {
        let premises = sample_premises(&mut Dice::new(seed), &atoms, &spec(0, 0));
        assert!(premises.len() >= 2 && premises.len() <= 4);
        assert!(is_satisfiable_dynamic(&premises));
        for i in 0..premises.len() {
            assert!(!premises[..i].contains(&premises[i]));
        }
    }
}

#[test]
fn sampled_premises_are_small_formulas_over_the_pool() {
    let atoms = build_atom_pool(3);
    let literal = |p: &Formula| match p {
        Formula::Atom(n) => atoms.contains(n),
        Formula::Not(a) => matches!(&**a, Formula::Atom(n) if atoms.contains(n)),
        _ => false,
    };
    for most in 2..9usize {
        let mut s = spec(0, 0);
        s.max_premises = most;
        for seed in 0..30u64 {
            let premises = sample_premises(&mut Dice::new(seed), &atoms, &s);
            assert!(premises.len() >= 2 && premises.len() <= most);
            for p in &premises {
                assert!(match p {
                    Formula::And(a, b)
                    | Formula::Or(a, b)
                    | Formula::Implies(a, b)
                    | Formula::Biconditional(a, b) => literal(a) && literal(b),
                    other => literal(other),
                });
            }
        }
    }
}

#[test]
fn two_premises_come_back_wherever_two_fit() {
    // Two short names among very many long ones are hardly ever drawn.
    let mut atoms: Vec<String> = (0..150_000).map(|i| format!("Long{i}")).collect();
    atoms.push("P".to_string());
    atoms.push("Q".to_string());
    let mut s = spec(0, 0);
    s.max_premises = 2;
    s.max_formula_len = 1;
    for seed in 0..3u64 {
        let premises = sample_premises(&mut Dice::new(seed), &atoms, &s);
        assert_eq!(premises.len(), 2);
        assert!(premises.contains(&f("P")) && premises.contains(&f("Q")));
    }
    // Over one atom a literal alone fits into two characters, and `P > P` into five.
    let one = build_atom_pool(1);
    s.max_formula_len = 2;
    assert_eq!(sample_premises(&mut Dice::new(1), &one, &s).len(), 1);
    s.max_formula_len = 5;
    assert_eq!(sample_premises(&mut Dice::new(1), &one, &s).len(), 2);
}

#[test]
fn planted_theorems_follow_and_are_consistent() {
    for seed in 0..60u64 {
        for s in [spec(0, 0), spec(1, 0), spec(2, 2)] {
            if let Ok(c) = plant(&s, seed) {
                assert!(entails_dynamic(&c.theorem.premises, &c.theorem.conclusion));
                assert!(is_satisfiable_dynamic(&c.theorem.premises));
                assert_eq!(c.proof.lines.last().unwrap().formula, c.theorem.conclusion);
                assert_eq!(c.seed, seed);
            }
        }
    }
}

#[test]
fn planted_formulas_are_short() {
    for cap in [1usize, 2, 3, 5, 8, 12, 30] {
        for atoms in [2u8, 5, 30] {
            for seed in 0..10u64 {
                let mut s = spec(1, 2);
                s.max_formula_len = cap;
                s.atoms = atoms;
                if let Ok(c) = plant(&s, seed) {
                    for line in &c.proof.lines {
                        assert!(line.formula.ascii_string_bracketed().chars().count() <= cap);
                    }
                }
            }
        }
    }
}

#[test]
fn sampled_premises_are_short() {
    let atoms = build_atom_pool(30);
    for cap in [1usize, 2, 3, 6, 9] {
        let mut s = spec(0, 0);
        s.max_formula_len = cap;
        for seed in 0..50u64 {
            let premises = sample_premises(&mut Dice::new(seed), &atoms, &s);
            assert!(premises.len() >= 2);
            for p in &premises {
                assert!(p.ascii_string_bracketed().chars().count() <= cap);
            }
        }
    }
}

#[test]
fn planted_candidates_pass_the_first_stages() {
    let cheap = OptimalConfig { max_lines: 1, max_nodes: 10, equiv_moves_per_state: 4 };
    let cfg = GateConfig { probe: cheap, greedy_max_lines: 1, ..GateConfig::default() };
    for seed in 0..60u64 {
        if let Ok(c) = plant(&spec(1, 1), seed) {
            let verdict = golf_gate(&c, &cfg);
            assert_ne!(verdict, Err(GateReject::TooBig));
            assert_ne!(verdict, Err(GateReject::InconsistentPremises));
        }
    }
}

#[test]
fn a_costume_changes_no_line_of_the_body() {
    for seed in 0..60u64 {
        if let (Ok(bare), Ok(dressed)) = (plant(&spec(1, 0), seed), plant(&spec(1, 2), seed)) {
            let n = bare.theorem.premises.len();
            assert_eq!(dressed.theorem.premises.len(), n);
            let body: Vec<Formula> = bare.proof.lines[n..].iter().map(|l| l.formula.clone()).collect();
            let lines: Vec<Formula> = dressed.proof.lines.iter().map(|l| l.formula.clone()).collect();
            assert!(lines.windows(body.len()).any(|w| w == body.as_slice()));
            for (x, y) in bare.theorem.premises.iter().zip(dressed.theorem.premises.iter()) {
                assert!(are_equivalent_dynamic(x, y));
                assert!(x == y || !body.contains(y));
            }
            assert!(are_equivalent_dynamic(&bare.theorem.conclusion, &dressed.theorem.conclusion));
            assert!(dressed.par >= bare.par);
            assert!(dressed.proof.lines.len() <= bare.proof.lines.len() + 2 * (n + 1));
            for i in 0..n {
                assert!(!dressed.theorem.premises[..i].contains(&dressed.theorem.premises[i]));
            }
        }
    }
}

#[test]
fn a_proof_that_repeats_a_formula_can_wear_a_costume() {
    for seed in 0..20u64 {
        let mut p = candidate(&["P", "Q > R"], "(P > P) . P", vec![]).proof;
        p.open_subproof(f("P"), ProofTechnique::ConditionalProof);
        p.close_subproof(f("P > P"), ProofTechnique::ConditionalProof);
        let conj = Justification::Inference { rule: InferenceRule::Conjunction, lines: vec![4, 1] };
        p.add_line(f("(P > P) . P"), conj);
        let mut q = apply_costume_pass(&p, &spec(1, 2), &mut Dice::new(seed));
        ProofVerifier::verify_proof(&mut q);
        assert!(q.lines.iter().all(|l| l.is_valid));
        assert_eq!(q.lines.last().unwrap().formula, q.theorem.conclusion);
        assert!(are_equivalent_dynamic(&q.theorem.conclusion, &f("(P > P) . P")));
        assert!(are_equivalent_dynamic(&q.theorem.premises[0], &f("P")));
        assert!(are_equivalent_dynamic(&q.theorem.premises[1], &f("Q > R")));
    }
}

#[test]
fn costumed_proofs_have_no_dead_lines() {
    for seed in 0..60u64 {
        if let Ok(c) = plant(&spec(2, 2), seed) {
            let n = c.proof.lines.len();
            let mut reached = vec![false; n + 1];
            reached[n] = true;
            for i in (1..=n).rev() {
                assert!(reached[i], "seed {seed}: line {i} is dead");
                for r in c.proof.get_line(i).unwrap().justification.referenced_lines() {
                    reached[r] = true;
                }
            }
        }
    }
}

#[test]
fn costumed_subproofs_repeat_nothing_in_reach() {
    for seed in 0..60u64 {
        if let Ok(c) = plant(&spec(2, 2), seed) {
            for line in &c.proof.lines {
                let edge = matches!(
                    line.justification,
                    Justification::Assumption { .. } | Justification::SubproofConclusion { .. }
                );
                for other in &c.proof.lines {
                    if edge && c.proof.is_line_accessible(line.line_number, other.line_number) {
                        assert_ne!(line.formula, other.formula);
                    }
                }
            }
        }
    }
}

#[test]
fn a_disguise_avoids_what_it_is_told_to_and_never_turns_back() {
    let start = f("P > (Q . R)");
    let avoid = vec![f("~P v (Q . R)"), f("~(Q . R) > ~P")];
    for seed in 0..100u64 {
        let c = obfuscate_with_trace(&start, 4, &mut Dice::new(seed), &spec(0, 4), &avoid);
        assert_eq!(c.stages[0], start);
        assert_eq!(c.stages.last().unwrap(), &c.formula);
        assert_eq!(c.stages.len(), c.trace.len() + 1);
        for i in 0..c.stages.len() {
            assert!(!avoid.contains(&c.stages[i]));
            assert!(!c.stages[..i].contains(&c.stages[i]));
            assert!(are_equivalent_dynamic(&start, &c.stages[i]));
        }
    }
}

#[test]
fn admissible_steps_can_be_undone() {
    let current = f("(P > Q) . (Q > P)");
    let steps = admissible_rewrite_steps(&current, &spec(0, 1), &vec![]);
    assert!(!steps.is_empty());
    for s in &steps {
        assert_ne!(s.before, s.after);
        assert_eq!(EquivalenceRule::replace_subformula(&current, &s.before, &s.after), s.next);
        assert_eq!(EquivalenceRule::replace_subformula(&s.next, &s.after, &s.before), current);
        assert!(s.rule.equivalent_forms(&s.after).contains(&s.before));
    }
    assert!(steps.iter().any(|s| s.next == f("P <-> Q") && s.rule == EquivalenceRule::Equivalence));
}

#[test]
fn a_known_seed_is_planted_with_a_subproof() {
    let c = plant(&spec(1, 0), 12).unwrap();
    assert!(c.par >= 6 && c.par <= 12);
    assert!(c.proof.lines.iter().any(|l| matches!(l.justification, Justification::SubproofConclusion { .. })));
    let mut p = c.proof.clone();
    ProofVerifier::verify_proof(&mut p);
    assert!(p.check_complete());
}

#[test]
fn a_band_that_no_cone_reaches_is_reported() {
    let mut s = spec(0, 0);
    s.par_min = 1000;
    s.par_max = 4;
    for seed in 0..20u64 {
        assert!(matches!(plant(&s, seed), Err(PlantError::OutOfBand)));
    }
}

#[test]
fn nothing_grows_where_no_formula_is_short_enough() {
    let mut s = spec(2, 0);
    s.max_formula_len = 0;
    for seed in 0..20u64 {
        assert!(matches!(plant(&s, seed), Err(PlantError::Stuck)));
    }
}

// The golf filter.

#[test]
fn inconsistent_premises_are_refused() {
    let c = candidate(&["P", "~P"], "Q", vec![]);
    assert_eq!(golf_gate(&c, &GateConfig::default()), Err(GateReject::InconsistentPremises));
}

#[test]
fn a_tautologous_conclusion_is_refused() {
    let c = candidate(&["R"], "[(P v Q) . ~P] > Q", vec![]);
    assert_eq!(golf_gate(&c, &GateConfig::default()), Err(GateReject::TautologousConclusion));
}

#[test]
fn a_theorem_that_is_too_big_is_refused_first() {
    let cfg = GateConfig { max_formula_len: 4, ..GateConfig::default() };
    let c = candidate(&["P", "~P"], "P . Q", vec![]);
    assert_eq!(golf_gate(&c, &cfg), Err(GateReject::TooBig));
}

#[test]
fn the_cheap_shortcuts_are_named() {
    let c = candidate(&["P . Q"], "P v R", vec![]);
    assert_eq!(
        golf_gate(&c, &GateConfig::default()),
        Err(GateReject::Cheese("subformula decoy: P".to_string()))
    );
    let c = candidate(&[], "(P . Q) > (Q . P)", vec![]);
    assert_eq!(
        golf_gate(&c, &GateConfig::default()),
        Err(GateReject::Cheese("disguised identity at distance 1".to_string()))
    );
    let c = candidate(&[], "R > (Q v (P > P))", vec![]);
    assert_eq!(
        golf_gate(&c, &GateConfig::default()),
        Err(GateReject::Cheese("tautologous disjunct: P > P".to_string()))
    );
}

#[test]
fn finalists_face_a_second_search() {
    let weak = OptimalConfig { max_lines: 1, ..OptimalConfig::default() };
    let premises = ["P v Q", "P > R", "Q > S", "~R"];
    let c = candidate(&premises, "S . (P > R)", vec![]);
    let cfg = GateConfig { greedy_max_lines: 0, probe: weak, ..GateConfig::default() };
    assert_eq!(golf_gate(&c, &cfg), Ok(()));
    let cfg = GateConfig { freeze: Some(OptimalConfig::default()), ..cfg };
    assert!(matches!(golf_gate(&c, &cfg), Err(GateReject::LawyerFreezeCracked { .. })));
}

#[test]
fn a_repeated_line_is_refused_last() {
    let weak = OptimalConfig { max_lines: 1, ..OptimalConfig::default() };
    let cfg = GateConfig { greedy_max_lines: 0, probe: weak, ..GateConfig::default() };
    let premises = ["P v Q", "P > R", "Q > S", "~R"];
    let mt = Justification::Inference { rule: InferenceRule::ModusTollens, lines: vec![2, 4] };
    let c = candidate(&premises, "S . (P > R)", vec![(f("~P"), mt.clone()), (f("~P"), mt)]);
    assert_eq!(golf_gate(&c, &cfg), Err(GateReject::DuplicateLine { line: 6, duplicates: 5 }));
}

#[test]
fn a_line_may_repeat_what_is_sealed() {
    let weak = OptimalConfig { max_lines: 1, ..OptimalConfig::default() };
    let cfg = GateConfig { greedy_max_lines: 0, probe: weak, ..GateConfig::default() };
    let mut c = candidate(&["P v Q", "P > R", "Q > S", "~R"], "S . (P > R)", vec![]);
    for _ in 0..2 {
        c.proof.open_subproof(f("T"), ProofTechnique::ConditionalProof);
        c.proof.close_subproof(f("T > T"), ProofTechnique::ConditionalProof);
    }
    assert_eq!(golf_gate(&c, &cfg), Err(GateReject::DuplicateLine { line: 8, duplicates: 6 }));
}
