use logic_core::models::rules::{EquivalenceRule, InferenceRule, ProofTechnique};
use logic_core::models::scopes::Scopes;
use logic_core::models::{Difficulty, Formula, Justification, ParseError, Proof, Theorem};
use logic_core::services::ProofVerifier;

fn f(s: &str) -> Formula {
    Formula::parse(s).unwrap()
}

fn theorem(premises: &[&str], conclusion: &str) -> Theorem {
    Theorem::new(premises.iter().map(|p| f(p)).collect(), f(conclusion), Difficulty::Hard, None, None)
}

fn atom(name: &str) -> Formula {
    Formula::Atom(name.to_string())
}

#[test]
fn connectives_bind_in_order() {
    let p = || Box::new(atom("P"));
    let q = || Box::new(atom("Q"));
    let r = || Box::new(atom("R"));
    assert_eq!(f("~P . Q"), Formula::And(Box::new(Formula::Not(p())), q()));
    assert_eq!(f("P . Q v R"), Formula::Or(Box::new(Formula::And(p(), q())), r()));
    assert_eq!(f("P v Q > R"), Formula::Implies(Box::new(Formula::Or(p(), q())), r()));
    assert_eq!(f("P > Q <-> R"), Formula::Biconditional(Box::new(Formula::Implies(p(), q())), r()));
    assert_eq!(f("P v Q v R"), Formula::Or(Box::new(Formula::Or(p(), q())), r()));
    assert_eq!(f("#"), Formula::Contradiction);
}

#[test]
fn other_signs_and_brackets_are_read() {
    assert_eq!(f("P & Q"), f("P . Q"));
    assert_eq!(f("P | Q"), f("P v Q"));
    assert_eq!(f("!P"), f("~P"));
    assert_eq!(f("{[(P)]}"), f("P"));
    assert_eq!(f("Junk1 . P"), Formula::And(Box::new(atom("Junk1")), Box::new(atom("P"))));
}

#[test]
fn bad_texts_are_refused() {
    assert_eq!(Formula::parse("P ? Q"), Err(ParseError::BadCharacter));
    assert_eq!(Formula::parse("p"), Err(ParseError::BadCharacter));
    assert_eq!(Formula::parse(""), Err(ParseError::BadSyntax));
    assert_eq!(Formula::parse("P Q"), Err(ParseError::BadSyntax));
    assert_eq!(Formula::parse("(P]"), Err(ParseError::BadSyntax));
    assert_eq!(Formula::parse("P ."), Err(ParseError::BadSyntax));
}

#[test]
fn formulas_are_written_in_two_styles() {
    let x = f("(P . Q) > (R v ~S)");
    assert_eq!(x.ascii_string(), "P . Q > R v ~S");
    assert_eq!(x.ascii_string_bracketed(), "(P . Q) > (R v ~S)");
    let y = f("~(P . (Q v (R > S)))");
    assert_eq!(y.ascii_string(), "~(P . (Q v (R > S)))");
    assert_eq!(y.ascii_string_bracketed(), "~{P . [Q v (R > S)]}");
    assert_eq!(f("~~P").ascii_string(), "~~P");
    assert_eq!(f("P <-> #").ascii_string_bracketed(), "P <-> #");
}

#[test]
fn what_is_written_is_read_back() {
    for s in [
        "P",
        "~~(P . Q) v (R > ~S)",
        "{[(R > ~P) v (P > P)] . {S > [(Q v ~S) > ~S]}} > [(P > ~R) v (~P > ~P)]",
        "(P <-> Q) <-> (R <-> #)",
        "P . (Q . R)",
        "(P . Q) . R",
        "Abc1 > (B2 > C)",
    ] {
        let x = f(s);
        assert_eq!(Formula::parse(&x.ascii_string()), Ok(x.clone()));
        assert_eq!(Formula::parse(&x.ascii_string_bracketed()), Ok(x.clone()));
    }
    assert_ne!(f("P . (Q . R)").ascii_string(), f("(P . Q) . R").ascii_string());
}

#[test]
fn atoms_and_subformulas_are_listed_in_order() {
    let x = f("P . (Q > P)");
    let mut atoms: Vec<String> = x.atoms().into_iter().collect();
    atoms.sort();
    assert_eq!(atoms, vec!["P".to_string(), "Q".to_string()]);
    assert_eq!(x.subformulas(), vec![x.clone(), f("P"), f("Q > P"), f("Q"), f("P")]);
}

#[test]
fn texts_are_measured_within_a_budget() {
    let x = f("(P . Q) > R");
    assert_eq!(x.ascii_string_bracketed().chars().count(), 11);
    assert_eq!(x.spend(11), Some(0));
    assert_eq!(x.spend(20), Some(9));
    assert_eq!(x.spend(10), None);
}

#[test]
fn justifications_are_displayed() {
    let mp = Justification::Inference { rule: InferenceRule::ModusPonens, lines: vec![1, 12] };
    assert_eq!(mp.display_string(), "MP 1,12");
    let dn = Justification::Equivalence { rule: EquivalenceRule::DoubleNegation, line: 105 };
    assert_eq!(dn.display_string(), "DN 105");
    let cp = Justification::SubproofConclusion {
        technique: ProofTechnique::ConditionalProof,
        subproof_start: 2,
        subproof_end: 10,
    };
    assert_eq!(cp.display_string(), "CP 2-10");
    let aip = Justification::Assumption { technique: ProofTechnique::IndirectProof };
    assert_eq!(aip.display_string(), "AIP");
    assert_eq!(Justification::Premise.display_string(), "Premise");
}

#[test]
fn justifications_refer_to_their_lines() {
    let cd = Justification::Inference { rule: InferenceRule::ConstructiveDilemma, lines: vec![3, 1, 2] };
    assert_eq!(cd.referenced_lines(), vec![3, 1, 2]);
    let ip = Justification::SubproofConclusion {
        technique: ProofTechnique::IndirectProof,
        subproof_start: 4,
        subproof_end: 9,
    };
    assert_eq!(ip.referenced_lines(), vec![4, 9]);
    assert!(Justification::Premise.referenced_lines().is_empty());
}

#[test]
fn techniques_discharge() {
    let cp = ProofTechnique::ConditionalProof;
    assert_eq!(cp.get_conclusion(&f("P"), &f("Q")), Some(f("P > Q")));
    let ip = ProofTechnique::IndirectProof;
    assert_eq!(ip.get_conclusion(&f("~P"), &Formula::Contradiction), Some(f("P")));
    assert_eq!(ip.get_conclusion(&f("~P"), &f("Q")), None);
}

#[test]
fn rules_conclude() {
    let all = |rule: InferenceRule, ps: &[&Formula], extra: Option<&Formula>| rule.all_conclusions(ps, extra);
    assert_eq!(all(InferenceRule::ModusPonens, &[&f("P > Q"), &f("P")], None), vec![f("Q")]);
    assert_eq!(all(InferenceRule::ModusTollens, &[&f("P > Q"), &f("~Q")], None), vec![f("~P")]);
    assert_eq!(all(InferenceRule::DisjunctiveSyllogism, &[&f("P v Q"), &f("~Q")], None), vec![f("P")]);
    assert_eq!(all(InferenceRule::Simplification, &[&f("P . Q")], None), vec![f("P"), f("Q")]);
    assert_eq!(
        all(InferenceRule::HypotheticalSyllogism, &[&f("P > Q"), &f("Q > R")], None),
        vec![f("P > R")]
    );
    assert_eq!(all(InferenceRule::Conjunction, &[&f("P"), &f("Q")], None), vec![f("P . Q")]);
    assert_eq!(
        all(InferenceRule::Contradiction, &[&f("P"), &f("~P")], None),
        vec![Formula::Contradiction]
    );
    assert!(all(InferenceRule::Addition, &[&f("P")], Some(&f("Q"))).contains(&f("P v Q")));
    assert!(all(InferenceRule::Addition, &[&f("P")], None).is_empty());
}

#[test]
fn equivalence_rules_work_both_ways() {
    for s in ["~~P", "~(P . Q)", "P v Q", "P . (Q v R)", "P > Q", "(P . Q) > R", "P <-> Q", "P v P", "(P . Q) . R"] {
        let x = f(s);
        for rule in EquivalenceRule::all() {
            for y in rule.equivalent_forms(&x) {
                assert!(rule.equivalent_forms(&y).contains(&x), "{s} {rule:?}");
            }
        }
    }
}

#[test]
fn a_subformula_is_replaced_everywhere() {
    let x = EquivalenceRule::replace_subformula(&f("(P > Q) . ~(P > Q)"), &f("P > Q"), &f("~P v Q"));
    assert_eq!(x, f("(~P v Q) . ~(~P v Q)"));
}

#[test]
fn subproofs_open_and_close() {
    let mut p = Proof::new(theorem(&["Q"], "P > Q"));
    assert_eq!(p.lines.len(), 1);
    assert!(!p.close_subproof(f("P > Q"), ProofTechnique::ConditionalProof));
    p.open_subproof(f("P"), ProofTechnique::ConditionalProof);
    assert_eq!(p.lines[1].depth, 1);
    assert!(!p.check_complete());
    p.add_line(f("P . Q"), Justification::Inference { rule: InferenceRule::Conjunction, lines: vec![2, 1] });
    p.add_line(f("Q"), Justification::Inference { rule: InferenceRule::Simplification, lines: vec![3] });
    assert!(p.close_subproof(f("P > Q"), ProofTechnique::ConditionalProof));
    assert_eq!(p.lines[4].depth, 0);
    assert_eq!(p.lines[4].justification.referenced_lines(), vec![2, 4]);
    assert!(p.is_line_accessible(5, 1));
    assert!(!p.is_line_accessible(5, 3));
    assert!(!p.is_line_accessible(3, 3));
    assert!(!p.check_complete());
    ProofVerifier::verify_proof(&mut p);
    assert!(p.lines.iter().all(|l| l.is_valid && l.validation_message.is_none()));
    assert!(p.check_complete());
    assert!(p.get_line(0).is_none() && p.get_line(6).is_none());
    assert_eq!(p.get_line(4).unwrap().formula, f("Q"));
}

#[test]
fn an_open_subproof_leaves_a_proof_incomplete() {
    let mut p = Proof::new(theorem(&["Q"], "Q"));
    p.open_subproof(f("P"), ProofTechnique::ConditionalProof);
    ProofVerifier::verify_proof(&mut p);
    assert!(p.lines.iter().all(|l| l.is_valid));
    assert!(!p.check_complete());
}

fn message_of(p: &mut Proof) -> String {
    ProofVerifier::verify_proof(p);
    let line = p.lines.last().unwrap();
    assert!(!line.is_valid);
    line.validation_message.clone().unwrap()
}

#[test]
fn every_fault_has_its_message() {
    let mut p = Proof::new(theorem(&["P > Q", "P"], "Q"));
    p.add_line(f("R"), Justification::Premise);
    assert_eq!(message_of(&mut p), "not a premise of the theorem");

    let mut p = Proof::new(theorem(&["P > Q", "P"], "Q"));
    p.add_line(f("R"), Justification::Assumption { technique: ProofTechnique::ConditionalProof });
    assert_eq!(message_of(&mut p), "no subproof starts with this assumption");

    let mut p = Proof::new(theorem(&["P > Q", "P"], "Q"));
    p.add_line(f("Q"), Justification::Inference { rule: InferenceRule::ModusPonens, lines: vec![1, 3] });
    assert_eq!(message_of(&mut p), "a cited line is not accessible");

    let mut p = Proof::new(theorem(&["P > Q", "P"], "Q"));
    p.add_line(f("R"), Justification::Inference { rule: InferenceRule::ModusPonens, lines: vec![1, 2] });
    assert_eq!(message_of(&mut p), "the rule does not give this formula");

    let mut p = Proof::new(theorem(&["P > Q", "P"], "Q"));
    p.add_line(f("~P v R"), Justification::Equivalence { rule: EquivalenceRule::Implication, line: 1 });
    assert_eq!(message_of(&mut p), "the rule does not rewrite the line to this formula");

    let mut p = Proof::new(theorem(&["P > Q", "P"], "Q"));
    p.add_line(
        f("P > P"),
        Justification::SubproofConclusion {
            technique: ProofTechnique::ConditionalProof,
            subproof_start: 2,
            subproof_end: 2,
        },
    );
    assert_eq!(message_of(&mut p), "no such subproof ends here");

    let mut p = Proof::new(theorem(&["P > Q", "P"], "Q"));
    p.open_subproof(f("R"), ProofTechnique::ConditionalProof);
    p.close_subproof(f("R > Q"), ProofTechnique::ConditionalProof);
    assert_eq!(message_of(&mut p), "the subproof does not prove this formula");
}

#[test]
fn a_sealed_line_cannot_be_cited() {
    let mut p = Proof::new(theorem(&["Q"], "P"));
    p.open_subproof(f("P"), ProofTechnique::ConditionalProof);
    p.close_subproof(f("P > P"), ProofTechnique::ConditionalProof);
    p.add_line(f("P . Q"), Justification::Inference { rule: InferenceRule::Conjunction, lines: vec![2, 1] });
    assert_eq!(message_of(&mut p), "a cited line is not accessible");
}

#[test]
fn an_equivalence_may_rewrite_within_a_line() {
    let mut p = Proof::new(theorem(&["R v (P > Q)"], "R v (~P v Q)"));
    p.add_line(f("R v (~P v Q)"), Justification::Equivalence { rule: EquivalenceRule::Implication, line: 1 });
    ProofVerifier::verify_proof(&mut p);
    assert!(p.check_complete());
}

#[test]
fn theorems_carry_their_difficulty() {
    let t = theorem(&["P"], "P");
    assert_eq!(t.difficulty, Difficulty::Hard);
    assert!(t.theme.is_none() && t.name.is_none() && !t.is_classic);
    let c = t.clone();
    assert_eq!(c.premises, t.premises);
    assert_eq!(c.conclusion, t.conclusion);
}

#[test]
fn scopes_opened_at_a_line_or_later_are_forgotten() {
    let mut scopes = Scopes::new();
    scopes.open(2);
    scopes.open(3);
    let _ = scopes.close(4);
    scopes.open(5);
    assert_eq!(scopes.depth(), 2);
    let mut early = scopes.clone();
    scopes.truncate_to(5);
    assert_eq!(scopes.depth(), 1);
    assert_eq!(scopes.depth_at(4), 2);
    scopes.truncate_to(3);
    assert_eq!(scopes.depth_at(4), 1);
    early.truncate_to(2);
    assert_eq!(early.depth(), 0);
    assert_eq!(early.depth_at(4), 0);
}
