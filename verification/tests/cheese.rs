use logic_core::models::Formula;
use logic_core::services::cheese::{cheese_check, rewrite_distance};

fn f(s: &str) -> Formula {
    Formula::parse(s).unwrap()
}

#[test]
fn round10_has_tautologous_disjunct() {
    let c = f("{[(R > ~P) v (P > P)] . {S > [(Q v ~S) > ~S]}} > [(P > ~R) v (~P > ~P)]");
    let r = cheese_check(&[], &c, 3);
    assert_eq!(r.tautologous_disjunct, Some(f("~P > ~P")));
}

#[test]
fn round11_is_identity_at_distance_2() {
    let c = f("~{{[(~R v ~R) > R] . P} . [(S v S) > (Q v ~S)]} v {{[(R > ~R) > R] . P} . {~(Q v ~S) > ~(S v S)}}");
    let r = cheese_check(&[], &c, 3);
    assert_eq!(r.identity_rewrite_distance, Some(2));
}

#[test]
fn round9_is_clean_of_cheese() {
    let c = f("{P . {(R > S) . [(P > Q) . (Q > R)]}} > S");
    let r = cheese_check(&[], &c, 3);
    assert!(
        r.tautologous_disjunct.is_none()
            && r.subformula_decoy.is_none()
            && r.identity_rewrite_distance.is_none()
    );
}

#[test]
fn single_impl_rewrite_is_distance_1() {
    assert_eq!(rewrite_distance(&f("P > Q"), &f("~P v Q"), 3), Some(1));
    assert_eq!(rewrite_distance(&f("P"), &f("Q"), 3), None);
}

#[test]
fn no_false_tautologous_disjunct_with_non_standard_atoms() {
    let c = f("A v ~B");
    let r = cheese_check(&[], &c, 3);
    assert!(r.tautologous_disjunct.is_none());
}

#[test]
fn no_false_tautologous_disjunct_for_compound_non_flattened_disjunct() {
    let c = f("(A > B) v C");
    let r = cheese_check(&[], &c, 3);
    assert!(r.tautologous_disjunct.is_none());
}

#[test]
fn rewrite_distance_is_correct_with_non_standard_atoms() {
    assert_eq!(rewrite_distance(&f("A > B"), &f("~A v B"), 3), Some(1));
}

#[test]
fn decoy_check_stays_clean_for_pure_non_standard_atoms() {
    let c = f("(A . B) > C");
    let r = cheese_check(&[], &c, 3);
    assert!(r.subformula_decoy.is_none());
}

#[test]
fn decoy_fires_on_add_shortcut_shape() {
    let c = f("(P . Q) > (P v Q v Z)");
    let r = cheese_check(&[], &c, 3);
    assert_eq!(r.subformula_decoy, Some(f("P")));
}

#[test]
fn decoy_fires_from_premises() {
    let c = f("P v Z");
    let r = cheese_check(&[f("P . Junk")], &c, 3);
    assert_eq!(r.subformula_decoy, Some(f("P")));
}

#[test]
fn decoy_check_catches_mixed_standard_and_nonstandard_atom_bug() {
    let c = f("(A . R) > (P v Q)");
    let r = cheese_check(&[], &c, 3);
    assert!(r.subformula_decoy.is_none());
}
