//! Equivalence rules: rewrites that may be applied to any subformula.

use vstd::prelude::*;

use crate::models::formula::{
    and_of, equivalent, eval, iff_of, implies_of, is_part, lemma_views_push, model, not_of, or_of,
    p_and, p_iff, p_implies, p_not, p_or, views,
};
use crate::models::formula::{Formula, Prop, Valuation};

verus! {

/// An equivalence rule.
#[derive(Debug, Clone, Copy, PartialEq, Eq, Structural)]
pub enum EquivalenceRule {
    DoubleNegation,
    DeMorgan,
    Commutation,
    Association,
    Distribution,
    Contraposition,
    Implication,
    Exportation,
    Tautology,
    Equivalence,
}

/// All equivalence rules, in the order in which searches try them.
pub open spec fn all_equivalence_rules() -> Seq<EquivalenceRule> {
    seq![
        EquivalenceRule::DoubleNegation,
        EquivalenceRule::DeMorgan,
        EquivalenceRule::Commutation,
        EquivalenceRule::Association,
        EquivalenceRule::Distribution,
        EquivalenceRule::Contraposition,
        EquivalenceRule::Implication,
        EquivalenceRule::Exportation,
        EquivalenceRule::Tautology,
        EquivalenceRule::Equivalence,
    ]
}

/// `p`, if it is there.
pub open spec fn maybe(p: Option<Prop>) -> Seq<Prop> {
    match p {
        Some(q) => seq![q],
        None => seq![],
    }
}

/// `~~x` to `x`.
pub open spec fn strip_double_negation(p: Prop) -> Option<Prop> {
    match p {
        Prop::Not(x) => match *x {
            Prop::Not(y) => Some(*y),
            _ => None,
        },
        _ => None,
    }
}

/// `~(a . b)` to `~a v ~b`, `~(a v b)` to `~a . ~b`, and back.
pub open spec fn de_morgan(p: Prop) -> Option<Prop> {
    match p {
        Prop::Not(x) => match *x {
            Prop::And(a, b) => Some(p_or(p_not(*a), p_not(*b))),
            Prop::Or(a, b) => Some(p_and(p_not(*a), p_not(*b))),
            _ => None,
        },
        Prop::And(l, r) => match (*l, *r) {
            (Prop::Not(a), Prop::Not(b)) => Some(p_not(p_or(*a, *b))),
            _ => None,
        },
        Prop::Or(l, r) => match (*l, *r) {
            (Prop::Not(a), Prop::Not(b)) => Some(p_not(p_and(*a, *b))),
            _ => None,
        },
        _ => None,
    }
}

/// `a . b` to `b . a`, `a v b` to `b v a`.
pub open spec fn commute(p: Prop) -> Option<Prop> {
    match p {
        Prop::And(a, b) => Some(p_and(*b, *a)),
        Prop::Or(a, b) => Some(p_or(*b, *a)),
        _ => None,
    }
}

/// `a . (b . c)` to `(a . b) . c`, and the same for `v`.
pub open spec fn associate_left(p: Prop) -> Option<Prop> {
    match p {
        Prop::And(a, r) => match *r {
            Prop::And(b, c) => Some(p_and(p_and(*a, *b), *c)),
            _ => None,
        },
        Prop::Or(a, r) => match *r {
            Prop::Or(b, c) => Some(p_or(p_or(*a, *b), *c)),
            _ => None,
        },
        _ => None,
    }
}

/// `(a . b) . c` to `a . (b . c)`, and the same for `v`.
pub open spec fn associate_right(p: Prop) -> Option<Prop> {
    match p {
        Prop::And(l, c) => match *l {
            Prop::And(a, b) => Some(p_and(*a, p_and(*b, *c))),
            _ => None,
        },
        Prop::Or(l, c) => match *l {
            Prop::Or(a, b) => Some(p_or(*a, p_or(*b, *c))),
            _ => None,
        },
        _ => None,
    }
}

/// `a . (b v c)` to `(a . b) v (a . c)`, and the same with `.` and `v` exchanged.
pub open spec fn expand(p: Prop) -> Option<Prop> {
    match p {
        Prop::And(a, r) => match *r {
            Prop::Or(b, c) => Some(p_or(p_and(*a, *b), p_and(*a, *c))),
            _ => None,
        },
        Prop::Or(a, r) => match *r {
            Prop::And(b, c) => Some(p_and(p_or(*a, *b), p_or(*a, *c))),
            _ => None,
        },
        _ => None,
    }
}

/// `(a . b) v (a . c)` to `a . (b v c)`, and the same with `.` and `v` exchanged.
pub open spec fn factor(p: Prop) -> Option<Prop> {
    match p {
        Prop::And(l, r) => match (*l, *r) {
            (Prop::Or(a, b), Prop::Or(a2, c)) => if *a == *a2 {
                Some(p_or(*a, p_and(*b, *c)))
            } else {
                None
            },
            _ => None,
        },
        Prop::Or(l, r) => match (*l, *r) {
            (Prop::And(a, b), Prop::And(a2, c)) => if *a == *a2 {
                Some(p_and(*a, p_or(*b, *c)))
            } else {
                None
            },
            _ => None,
        },
        _ => None,
    }
}

/// `a > b` to `~b > ~a`.
pub open spec fn contrapose(p: Prop) -> Option<Prop> {
    match p {
        Prop::Implies(a, b) => Some(p_implies(p_not(*b), p_not(*a))),
        _ => None,
    }
}

/// `~a > ~b` to `b > a`.
pub open spec fn uncontrapose(p: Prop) -> Option<Prop> {
    match p {
        Prop::Implies(l, r) => match (*l, *r) {
            (Prop::Not(a), Prop::Not(b)) => Some(p_implies(*b, *a)),
            _ => None,
        },
        _ => None,
    }
}

/// `a > b` to `~a v b`, and back.
pub open spec fn implication(p: Prop) -> Option<Prop> {
    match p {
        Prop::Implies(a, b) => Some(p_or(p_not(*a), *b)),
        Prop::Or(l, b) => match *l {
            Prop::Not(a) => Some(p_implies(*a, *b)),
            _ => None,
        },
        _ => None,
    }
}

/// `(a . b) > c` to `a > (b > c)`.
pub open spec fn export_step(p: Prop) -> Option<Prop> {
    match p {
        Prop::Implies(l, c) => match *l {
            Prop::And(a, b) => Some(p_implies(*a, p_implies(*b, *c))),
            _ => None,
        },
        _ => None,
    }
}

/// `a > (b > c)` to `(a . b) > c`.
pub open spec fn import_step(p: Prop) -> Option<Prop> {
    match p {
        Prop::Implies(a, r) => match *r {
            Prop::Implies(b, c) => Some(p_implies(p_and(*a, *b), *c)),
            _ => None,
        },
        _ => None,
    }
}

/// `a . a` to `a`, `a v a` to `a`.
pub open spec fn collapse(p: Prop) -> Option<Prop> {
    match p {
        Prop::And(a, b) => if *a == *b {
            Some(*a)
        } else {
            None
        },
        Prop::Or(a, b) => if *a == *b {
            Some(*a)
        } else {
            None
        },
        _ => None,
    }
}

/// `a <-> b` to `(a > b) . (b > a)`, and back.
pub open spec fn biconditional(p: Prop) -> Option<Prop> {
    match p {
        Prop::Biconditional(a, b) => Some(p_and(p_implies(*a, *b), p_implies(*b, *a))),
        Prop::And(l, r) => match (*l, *r) {
            (Prop::Implies(a, b), Prop::Implies(b2, a2)) => if *a == *a2 && *b == *b2 {
                Some(p_iff(*a, *b))
            } else {
                None
            },
            _ => None,
        },
        _ => None,
    }
}

/// The forms that `rule` gives of a whole formula.
pub open spec fn forms(rule: EquivalenceRule, p: Prop) -> Seq<Prop> {
    match rule {
        EquivalenceRule::DoubleNegation => maybe(strip_double_negation(p)) + seq![p_not(p_not(p))],
        EquivalenceRule::DeMorgan => maybe(de_morgan(p)),
        EquivalenceRule::Commutation => maybe(commute(p)),
        EquivalenceRule::Association => maybe(associate_left(p)) + maybe(associate_right(p)),
        EquivalenceRule::Distribution => maybe(expand(p)) + maybe(factor(p)),
        EquivalenceRule::Contraposition => maybe(contrapose(p)) + maybe(uncontrapose(p)),
        EquivalenceRule::Implication => maybe(implication(p)),
        EquivalenceRule::Exportation => maybe(export_step(p)) + maybe(import_step(p)),
        EquivalenceRule::Tautology => maybe(collapse(p)) + seq![p_and(p, p), p_or(p, p)],
        EquivalenceRule::Equivalence => maybe(biconditional(p)),
    }
}

/// Every form that a rule gives of a formula is equivalent to it.
pub proof fn law_forms_equivalent(rule: EquivalenceRule, p: Prop, q: Prop)
    requires
        forms(rule, p).contains(q),
    ensures
        equivalent(p, q),
{
    assert forall|v: Valuation| #[trigger] eval(p, v) == eval(q, v) by {
        reveal_with_fuel(eval, 5);
    }
}

/// Every rule works both ways: a formula is a form of each of its forms, under the same
/// rule.
pub proof fn law_forms_symmetric(rule: EquivalenceRule, p: Prop, q: Prop)
    requires
        forms(rule, p).contains(q),
    ensures
        forms(rule, q).contains(p),
{
    let fs = forms(rule, q);
    match rule {
        EquivalenceRule::DoubleNegation => {
            if q == p_not(p_not(p)) {
                assert(fs[0] == p);
            } else {
                assert(fs[fs.len() - 1] == p);
            }
        },
        EquivalenceRule::Tautology => {
            if q == p_and(p, p) || q == p_or(p, p) {
                assert(fs[0] == p);
            } else {
                assert(fs[fs.len() - 1] == p_or(q, q));
                assert(fs[fs.len() - 2] == p_and(q, q));
            }
        },
        EquivalenceRule::Association => {
            if associate_left(p) == Some(q) {
                assert(associate_right(q) == Some(p));
                assert(fs[fs.len() - 1] == p);
            } else {
                assert(associate_left(q) == Some(p));
                assert(fs[0] == p);
            }
        },
        EquivalenceRule::Distribution => {
            if expand(p) == Some(q) {
                assert(factor(q) == Some(p));
                assert(fs[fs.len() - 1] == p);
            } else {
                assert(expand(q) == Some(p));
                assert(fs[0] == p);
            }
        },
        EquivalenceRule::Contraposition => {
            if contrapose(p) == Some(q) {
                assert(uncontrapose(q) == Some(p));
                assert(fs[fs.len() - 1] == p);
            } else {
                assert(contrapose(q) == Some(p));
                assert(fs[0] == p);
            }
        },
        EquivalenceRule::Exportation => {
            if export_step(p) == Some(q) {
                assert(import_step(q) == Some(p));
                assert(fs[fs.len() - 1] == p);
            } else {
                assert(export_step(q) == Some(p));
                assert(fs[0] == p);
            }
        },
        _ => {
            assert(fs[0] == p);
        },
    }
}

/// Whether `x` and `y` are the two sides of the textbook schema of a rule.
pub open spec fn schema(rule: EquivalenceRule, x: Prop, y: Prop) -> bool {
    match rule {
        EquivalenceRule::DoubleNegation => y == p_not(p_not(x)),
        EquivalenceRule::DeMorgan => exists|a: Prop, b: Prop|
            #![trigger p_not(a), p_not(b)]
            (x == p_not(p_and(a, b)) && y == p_or(p_not(a), p_not(b))) || (x == p_not(p_or(a, b))
                && y == p_and(p_not(a), p_not(b))),
        EquivalenceRule::Commutation => exists|a: Prop, b: Prop|
            #![trigger p_and(a, b)]
            #![trigger p_or(a, b)]
            (x == p_and(a, b) && y == p_and(b, a)) || (x == p_or(a, b) && y == p_or(b, a)),
        EquivalenceRule::Association => exists|a: Prop, b: Prop, c: Prop|
            #![trigger p_and(a, p_and(b, c))]
            #![trigger p_or(a, p_or(b, c))]
            (x == p_and(a, p_and(b, c)) && y == p_and(p_and(a, b), c)) || (x == p_or(a, p_or(b, c))
                && y == p_or(p_or(a, b), c)),
        EquivalenceRule::Distribution => exists|a: Prop, b: Prop, c: Prop|
            #![trigger p_and(a, p_or(b, c))]
            #![trigger p_or(a, p_and(b, c))]
            (x == p_and(a, p_or(b, c)) && y == p_or(p_and(a, b), p_and(a, c))) || (x == p_or(
                a,
                p_and(b, c),
            ) && y == p_and(p_or(a, b), p_or(a, c))),
        EquivalenceRule::Contraposition => exists|a: Prop, b: Prop|
            x == #[trigger] p_implies(a, b) && y == p_implies(p_not(b), p_not(a)),
        EquivalenceRule::Implication => exists|a: Prop, b: Prop|
            x == #[trigger] p_implies(a, b) && y == p_or(p_not(a), b),
        EquivalenceRule::Exportation => exists|a: Prop, b: Prop, c: Prop|
            x == #[trigger] p_implies(p_and(a, b), c) && y == p_implies(a, p_implies(b, c)),
        EquivalenceRule::Tautology => y == p_and(x, x) || y == p_or(x, x),
        EquivalenceRule::Equivalence => exists|a: Prop, b: Prop|
            x == #[trigger] p_iff(a, b) && y == p_and(p_implies(a, b), p_implies(b, a)),
    }
}

/// What a rule gives of a formula is what the schema of the rule says, read from either
/// side, and nothing else.
pub proof fn law_forms_by_schema(rule: EquivalenceRule, p: Prop, q: Prop)
    ensures
        forms(rule, p).contains(q) <==> schema(rule, p, q) || schema(rule, q, p),
{
    if schema(rule, p, q) {
        lemma_schema_given(rule, p, q);
    }
    if schema(rule, q, p) {
        lemma_schema_given(rule, q, p);
        law_forms_symmetric(rule, q, p);
    }
    if forms(rule, p).contains(q) {
        lemma_given_by_schema(rule, p, q);
    }
}

/// A rule gives the second side of its schema from the first.
proof fn lemma_schema_given(rule: EquivalenceRule, p: Prop, q: Prop)
    requires
        schema(rule, p, q),
    ensures
        forms(rule, p).contains(q),
{
    let fs = forms(rule, p);
    match rule {
        EquivalenceRule::DoubleNegation => {
            assert(fs[fs.len() - 1] == q);
        },
        EquivalenceRule::Tautology => {
            assert(fs[fs.len() - 1] == p_or(p, p));
            assert(fs[fs.len() - 2] == p_and(p, p));
        },
        EquivalenceRule::Association => {
            assert(associate_left(p) == Some(q));
            assert(fs[0] == q);
        },
        EquivalenceRule::Distribution => {
            assert(expand(p) == Some(q));
            assert(fs[0] == q);
        },
        EquivalenceRule::Contraposition => {
            assert(contrapose(p) == Some(q));
            assert(fs[0] == q);
        },
        EquivalenceRule::Exportation => {
            assert(export_step(p) == Some(q));
            assert(fs[0] == q);
        },
        _ => {
            assert(fs[0] == q);
        },
    }
}

/// Whatever a rule gives is a side of its schema.
proof fn lemma_given_by_schema(rule: EquivalenceRule, p: Prop, q: Prop)
    requires
        forms(rule, p).contains(q),
    ensures
        schema(rule, p, q) || schema(rule, q, p),
{
    match rule {
        EquivalenceRule::DoubleNegation | EquivalenceRule::Tautology => {},
        EquivalenceRule::DeMorgan => match p {
            Prop::Not(x) => match *x {
                Prop::And(a, b) | Prop::Or(a, b) => {
                    assert(q == p_or(p_not(*a), p_not(*b)) || q == p_and(p_not(*a), p_not(*b)));
                },
                _ => {},
            },
            Prop::And(l, r) | Prop::Or(l, r) => match (*l, *r) {
                (Prop::Not(a), Prop::Not(b)) => {
                    assert(*l == p_not(*a) && *r == p_not(*b));
                },
                _ => {},
            },
            _ => {},
        },
        EquivalenceRule::Commutation => match p {
            Prop::And(a, b) => {
                assert(p == p_and(*a, *b));
            },
            Prop::Or(a, b) => {
                assert(p == p_or(*a, *b));
            },
            _ => {},
        },
        EquivalenceRule::Association => match p {
            Prop::And(l, r) => {
                if associate_left(p) == Some(q) {
                    let b = r->And_0;
                    let c = r->And_1;
                    assert(p == p_and(*l, p_and(*b, *c)));
                } else {
                    let a = l->And_0;
                    let b = l->And_1;
                    assert(q == p_and(*a, p_and(*b, *r)));
                }
            },
            Prop::Or(l, r) => {
                if associate_left(p) == Some(q) {
                    let b = r->Or_0;
                    let c = r->Or_1;
                    assert(p == p_or(*l, p_or(*b, *c)));
                } else {
                    let a = l->Or_0;
                    let b = l->Or_1;
                    assert(q == p_or(*a, p_or(*b, *r)));
                }
            },
            _ => {},
        },
        EquivalenceRule::Distribution => match p {
            Prop::And(l, r) => {
                if expand(p) == Some(q) {
                    assert(p == p_and(*l, p_or(*r->Or_0, *r->Or_1)));
                } else {
                    assert(q == p_or(*l->Or_0, p_and(*l->Or_1, *r->Or_1)));
                }
            },
            Prop::Or(l, r) => {
                if expand(p) == Some(q) {
                    assert(p == p_or(*l, p_and(*r->And_0, *r->And_1)));
                } else {
                    assert(q == p_and(*l->And_0, p_or(*l->And_1, *r->And_1)));
                }
            },
            _ => {},
        },
        EquivalenceRule::Contraposition => match p {
            Prop::Implies(l, r) => {
                if contrapose(p) == Some(q) {
                    assert(p == p_implies(*l, *r));
                } else {
                    assert(q == p_implies(*r->Not_0, *l->Not_0));
                }
            },
            _ => {},
        },
        EquivalenceRule::Implication => match p {
            Prop::Implies(l, r) => {
                assert(p == p_implies(*l, *r));
            },
            Prop::Or(l, r) => {
                assert(q == p_implies(*l->Not_0, *r));
            },
            _ => {},
        },
        EquivalenceRule::Exportation => match p {
            Prop::Implies(l, r) => {
                if export_step(p) == Some(q) {
                    assert(p == p_implies(p_and(*l->And_0, *l->And_1), *r));
                } else {
                    assert(q == p_implies(p_and(*l, *r->Implies_0), *r->Implies_1));
                }
            },
            _ => {},
        },
        EquivalenceRule::Equivalence => match p {
            Prop::Biconditional(a, b) => {
                assert(p == p_iff(*a, *b));
            },
            Prop::And(l, r) => {
                assert(q == p_iff(*l->Implies_0, *l->Implies_1));
            },
            _ => {},
        },
    }
}

/// `p` with every occurrence of `from` replaced by `to`.
pub open spec fn replace_all(p: Prop, from: Prop, to: Prop) -> Prop
    decreases p,
{
    if p == from {
        to
    } else {
        match p {
            Prop::Atom(_) | Prop::Contradiction => p,
            Prop::Not(a) => p_not(replace_all(*a, from, to)),
            Prop::And(a, b) => p_and(replace_all(*a, from, to), replace_all(*b, from, to)),
            Prop::Or(a, b) => p_or(replace_all(*a, from, to), replace_all(*b, from, to)),
            Prop::Implies(a, b) => p_implies(replace_all(*a, from, to), replace_all(*b, from, to)),
            Prop::Biconditional(a, b) => p_iff(
                replace_all(*a, from, to),
                replace_all(*b, from, to),
            ),
        }
    }
}

/// Replacing a subformula everywhere by an equivalent one keeps the meaning.
pub proof fn law_replace_all_equivalent(p: Prop, from: Prop, to: Prop)
    requires
        equivalent(from, to),
    ensures
        equivalent(p, replace_all(p, from, to)),
    decreases p,
{
    let q = replace_all(p, from, to);
    match p {
        Prop::Atom(_) | Prop::Contradiction => {},
        Prop::Not(a) => {
            law_replace_all_equivalent(*a, from, to);
        },
        Prop::And(a, b) | Prop::Or(a, b) | Prop::Implies(a, b) | Prop::Biconditional(a, b) => {
            law_replace_all_equivalent(*a, from, to);
            law_replace_all_equivalent(*b, from, to);
        },
    }
    assert forall|v: Valuation| #[trigger] eval(p, v) == eval(q, v) by {
        assert(eval(from, v) == eval(to, v));
        match p {
            Prop::Atom(_) | Prop::Contradiction => {},
            Prop::Not(a) => {
                assert(eval(*a, v) == eval(replace_all(*a, from, to), v));
            },
            Prop::And(a, b) | Prop::Or(a, b) | Prop::Implies(a, b) | Prop::Biconditional(a, b) => {
                assert(eval(*a, v) == eval(replace_all(*a, from, to), v));
                assert(eval(*b, v) == eval(replace_all(*b, from, to), v));
            },
        }
    }
}

/// Replacing goes everywhere and touches nothing else: it acts on the whole where the
/// whole is what is replaced, and otherwise keeps the connective and acts on every part.
pub proof fn law_replacement(p: Prop, q: Prop, from: Prop, to: Prop)
    ensures
        replace_all(from, from, to) == to,
        !is_part(from, p) ==> replace_all(p, from, to) == p,
        from != p_not(p) ==> replace_all(p_not(p), from, to) == p_not(replace_all(p, from, to)),
        from != p_and(p, q) ==> replace_all(p_and(p, q), from, to) == p_and(
            replace_all(p, from, to),
            replace_all(q, from, to),
        ),
        from != p_or(p, q) ==> replace_all(p_or(p, q), from, to) == p_or(
            replace_all(p, from, to),
            replace_all(q, from, to),
        ),
        from != p_implies(p, q) ==> replace_all(p_implies(p, q), from, to) == p_implies(
            replace_all(p, from, to),
            replace_all(q, from, to),
        ),
        from != p_iff(p, q) ==> replace_all(p_iff(p, q), from, to) == p_iff(
            replace_all(p, from, to),
            replace_all(q, from, to),
        ),
    decreases p,
{
    match p {
        Prop::Atom(_) | Prop::Contradiction => {},
        Prop::Not(a) => {
            law_replacement(*a, q, from, to);
        },
        Prop::And(a, b) | Prop::Or(a, b) | Prop::Implies(a, b) | Prop::Biconditional(a, b) => {
            law_replacement(*a, q, from, to);
            law_replacement(*b, q, from, to);
        },
    }
}

/// Pushes a formula, if it is there.
fn push_maybe(out: &mut Vec<Formula>, f: Option<Formula>)
    ensures
        f matches Some(g) ==> views(final(out)@) == views(old(out)@) + maybe(Some(g@)),
        f is None ==> views(final(out)@) == views(old(out)@) + maybe(None),
{
    broadcast use lemma_views_push;

    let ghost start = views(out@);
    match f {
        Some(g) => {
            out.push(g);
            assert(views(out@) =~= start + seq![g@]);
        },
        None => {
            assert(views(out@) =~= start + Seq::<Prop>::empty());
        },
    }
}

/// The model of an optional formula.
pub open spec fn option_view(f: Option<Formula>) -> Option<Prop> {
    match f {
        Some(g) => Some(g@),
        None => None,
    }
}

fn strip_double_negation_of(f: &Formula) -> (r: Option<Formula>)
    ensures
        option_view(r) == strip_double_negation(f@),
{
    proof {
        reveal_with_fuel(model, 3);
    }
    match f {
        Formula::Not(x) => match &**x {
            Formula::Not(y) => Some((&**y).clone()),
            _ => None,
        },
        _ => None,
    }
}

fn de_morgan_of(f: &Formula) -> (r: Option<Formula>)
    ensures
        option_view(r) == de_morgan(f@),
{
    proof {
        reveal_with_fuel(model, 3);
    }
    match f {
        Formula::Not(x) => match &**x {
            Formula::And(a, b) => Some(or_of(&not_of(a), &not_of(b))),
            Formula::Or(a, b) => Some(and_of(&not_of(a), &not_of(b))),
            _ => None,
        },
        Formula::And(l, r) => match (&**l, &**r) {
            (Formula::Not(a), Formula::Not(b)) => Some(not_of(&or_of(a, b))),
            _ => None,
        },
        Formula::Or(l, r) => match (&**l, &**r) {
            (Formula::Not(a), Formula::Not(b)) => Some(not_of(&and_of(a, b))),
            _ => None,
        },
        _ => None,
    }
}

fn commute_of(f: &Formula) -> (r: Option<Formula>)
    ensures
        option_view(r) == commute(f@),
{
    proof {
        reveal_with_fuel(model, 3);
    }
    match f {
        Formula::And(a, b) => Some(and_of(b, a)),
        Formula::Or(a, b) => Some(or_of(b, a)),
        _ => None,
    }
}

fn associate_left_of(f: &Formula) -> (r: Option<Formula>)
    ensures
        option_view(r) == associate_left(f@),
{
    proof {
        reveal_with_fuel(model, 3);
    }
    match f {
        Formula::And(a, r) => match &**r {
            Formula::And(b, c) => Some(and_of(&and_of(a, b), c)),
            _ => None,
        },
        Formula::Or(a, r) => match &**r {
            Formula::Or(b, c) => Some(or_of(&or_of(a, b), c)),
            _ => None,
        },
        _ => None,
    }
}

fn associate_right_of(f: &Formula) -> (r: Option<Formula>)
    ensures
        option_view(r) == associate_right(f@),
{
    proof {
        reveal_with_fuel(model, 3);
    }
    match f {
        Formula::And(l, c) => match &**l {
            Formula::And(a, b) => Some(and_of(a, &and_of(b, c))),
            _ => None,
        },
        Formula::Or(l, c) => match &**l {
            Formula::Or(a, b) => Some(or_of(a, &or_of(b, c))),
            _ => None,
        },
        _ => None,
    }
}

fn expand_of(f: &Formula) -> (r: Option<Formula>)
    ensures
        option_view(r) == expand(f@),
{
    proof {
        reveal_with_fuel(model, 3);
    }
    match f {
        Formula::And(a, r) => match &**r {
            Formula::Or(b, c) => Some(or_of(&and_of(a, b), &and_of(a, c))),
            _ => None,
        },
        Formula::Or(a, r) => match &**r {
            Formula::And(b, c) => Some(and_of(&or_of(a, b), &or_of(a, c))),
            _ => None,
        },
        _ => None,
    }
}

fn factor_of(f: &Formula) -> (r: Option<Formula>)
    ensures
        option_view(r) == factor(f@),
{
    proof {
        reveal_with_fuel(model, 3);
    }
    match f {
        Formula::And(l, r) => match (&**l, &**r) {
            (Formula::Or(a, b), Formula::Or(a2, c)) => if a.same(a2) {
                Some(or_of(a, &and_of(b, c)))
            } else {
                None
            },
            _ => None,
        },
        Formula::Or(l, r) => match (&**l, &**r) {
            (Formula::And(a, b), Formula::And(a2, c)) => if a.same(a2) {
                Some(and_of(a, &or_of(b, c)))
            } else {
                None
            },
            _ => None,
        },
        _ => None,
    }
}

fn contrapose_of(f: &Formula) -> (r: Option<Formula>)
    ensures
        option_view(r) == contrapose(f@),
{
    proof {
        reveal_with_fuel(model, 3);
    }
    match f {
        Formula::Implies(a, b) => Some(implies_of(&not_of(b), &not_of(a))),
        _ => None,
    }
}

fn uncontrapose_of(f: &Formula) -> (r: Option<Formula>)
    ensures
        option_view(r) == uncontrapose(f@),
{
    proof {
        reveal_with_fuel(model, 3);
    }
    match f {
        Formula::Implies(l, r) => match (&**l, &**r) {
            (Formula::Not(a), Formula::Not(b)) => Some(implies_of(b, a)),
            _ => None,
        },
        _ => None,
    }
}

fn implication_of(f: &Formula) -> (r: Option<Formula>)
    ensures
        option_view(r) == implication(f@),
{
    proof {
        reveal_with_fuel(model, 3);
    }
    match f {
        Formula::Implies(a, b) => Some(or_of(&not_of(a), b)),
        Formula::Or(l, b) => match &**l {
            Formula::Not(a) => Some(implies_of(a, b)),
            _ => None,
        },
        _ => None,
    }
}

fn export_of(f: &Formula) -> (r: Option<Formula>)
    ensures
        option_view(r) == export_step(f@),
{
    proof {
        reveal_with_fuel(model, 3);
    }
    match f {
        Formula::Implies(l, c) => match &**l {
            Formula::And(a, b) => Some(implies_of(a, &implies_of(b, c))),
            _ => None,
        },
        _ => None,
    }
}

fn import_of(f: &Formula) -> (r: Option<Formula>)
    ensures
        option_view(r) == import_step(f@),
{
    proof {
        reveal_with_fuel(model, 3);
    }
    match f {
        Formula::Implies(a, r) => match &**r {
            Formula::Implies(b, c) => Some(implies_of(&and_of(a, b), c)),
            _ => None,
        },
        _ => None,
    }
}

fn collapse_of(f: &Formula) -> (r: Option<Formula>)
    ensures
        option_view(r) == collapse(f@),
{
    proof {
        reveal_with_fuel(model, 3);
    }
    match f {
        Formula::And(a, b) => if a.same(b) {
            Some((&**a).clone())
        } else {
            None
        },
        Formula::Or(a, b) => if a.same(b) {
            Some((&**a).clone())
        } else {
            None
        },
        _ => None,
    }
}

fn biconditional_of(f: &Formula) -> (r: Option<Formula>)
    ensures
        option_view(r) == biconditional(f@),
{
    proof {
        reveal_with_fuel(model, 3);
    }
    match f {
        Formula::Biconditional(a, b) => Some(and_of(&implies_of(a, b), &implies_of(b, a))),
        Formula::And(l, r) => match (&**l, &**r) {
            (Formula::Implies(a, b), Formula::Implies(b2, a2)) => if a.same(a2) && b.same(b2) {
                Some(iff_of(a, b))
            } else {
                None
            },
            _ => None,
        },
        _ => None,
    }
}

/// Every rule is on the list, once.
pub proof fn law_all_equivalence_rules(rule: EquivalenceRule)
    ensures
        all_equivalence_rules().contains(rule),
        all_equivalence_rules().len() == 10,
        forall|i: int, j: int|
            0 <= i < j < all_equivalence_rules().len() ==> #[trigger] all_equivalence_rules()[i]
                != #[trigger] all_equivalence_rules()[j],
{
    let all = all_equivalence_rules();
    match rule {
        EquivalenceRule::DoubleNegation => assert(all[0] == rule),
        EquivalenceRule::DeMorgan => assert(all[1] == rule),
        EquivalenceRule::Commutation => assert(all[2] == rule),
        EquivalenceRule::Association => assert(all[3] == rule),
        EquivalenceRule::Distribution => assert(all[4] == rule),
        EquivalenceRule::Contraposition => assert(all[5] == rule),
        EquivalenceRule::Implication => assert(all[6] == rule),
        EquivalenceRule::Exportation => assert(all[7] == rule),
        EquivalenceRule::Tautology => assert(all[8] == rule),
        EquivalenceRule::Equivalence => assert(all[9] == rule),
    }
}

/// Rules go by different names, of letters alone.
pub proof fn law_equivalence_names(a: EquivalenceRule, b: EquivalenceRule)
    ensures
        a.short_name() == b.short_name() ==> a == b,
        a.short_name().len() > 0,
        forall|i: int|
            0 <= i < a.short_name().len() ==> 'A' <= #[trigger] a.short_name()[i] <= 'z',
{
    reveal_strlit("DN");
    reveal_strlit("DeM");
    reveal_strlit("Comm");
    reveal_strlit("Assoc");
    reveal_strlit("Dist");
    reveal_strlit("Contra");
    reveal_strlit("Impl");
    reveal_strlit("Exp");
    reveal_strlit("Taut");
    reveal_strlit("Equiv");
    if a.short_name() == b.short_name() {
        assert(a.short_name()[0] == b.short_name()[0]);
        assert(a.short_name()[1] == b.short_name()[1]);
        assert(a.short_name().len() == b.short_name().len());
    }
}

impl EquivalenceRule {
    /// All equivalence rules, in the order in which searches try them.
    pub fn all() -> (r: Vec<EquivalenceRule>)
        ensures
            r@ == all_equivalence_rules(),
    {
        vec![
            EquivalenceRule::DoubleNegation,
            EquivalenceRule::DeMorgan,
            EquivalenceRule::Commutation,
            EquivalenceRule::Association,
            EquivalenceRule::Distribution,
            EquivalenceRule::Contraposition,
            EquivalenceRule::Implication,
            EquivalenceRule::Exportation,
            EquivalenceRule::Tautology,
            EquivalenceRule::Equivalence,
        ]
    }

    /// The short name of the rule.
    pub open spec fn short_name(self) -> Seq<char> {
        match self {
            EquivalenceRule::DoubleNegation => "DN"@,
            EquivalenceRule::DeMorgan => "DeM"@,
            EquivalenceRule::Commutation => "Comm"@,
            EquivalenceRule::Association => "Assoc"@,
            EquivalenceRule::Distribution => "Dist"@,
            EquivalenceRule::Contraposition => "Contra"@,
            EquivalenceRule::Implication => "Impl"@,
            EquivalenceRule::Exportation => "Exp"@,
            EquivalenceRule::Tautology => "Taut"@,
            EquivalenceRule::Equivalence => "Equiv"@,
        }
    }

    /// The short name of the rule.
    pub fn abbreviation(&self) -> (r: &'static str)
        ensures
            r@ == self.short_name(),
    {
        match self {
            EquivalenceRule::DoubleNegation => "DN",
            EquivalenceRule::DeMorgan => "DeM",
            EquivalenceRule::Commutation => "Comm",
            EquivalenceRule::Association => "Assoc",
            EquivalenceRule::Distribution => "Dist",
            EquivalenceRule::Contraposition => "Contra",
            EquivalenceRule::Implication => "Impl",
            EquivalenceRule::Exportation => "Exp",
            EquivalenceRule::Tautology => "Taut",
            EquivalenceRule::Equivalence => "Equiv",
        }
    }

    /// The forms that the rule gives of the whole formula `f`.
    pub fn equivalent_forms(&self, f: &Formula) -> (r: Vec<Formula>)
        ensures
            views(r@) == forms(*self, f@),
    {
        broadcast use lemma_views_push;

        let mut r: Vec<Formula> = Vec::new();
        match self {
            EquivalenceRule::DoubleNegation => {
                push_maybe(&mut r, strip_double_negation_of(f));
                r.push(not_of(&not_of(f)));
            },
            EquivalenceRule::DeMorgan => {
                push_maybe(&mut r, de_morgan_of(f));
            },
            EquivalenceRule::Commutation => {
                push_maybe(&mut r, commute_of(f));
            },
            EquivalenceRule::Association => {
                push_maybe(&mut r, associate_left_of(f));
                push_maybe(&mut r, associate_right_of(f));
            },
            EquivalenceRule::Distribution => {
                push_maybe(&mut r, expand_of(f));
                push_maybe(&mut r, factor_of(f));
            },
            EquivalenceRule::Contraposition => {
                push_maybe(&mut r, contrapose_of(f));
                push_maybe(&mut r, uncontrapose_of(f));
            },
            EquivalenceRule::Implication => {
                push_maybe(&mut r, implication_of(f));
            },
            EquivalenceRule::Exportation => {
                push_maybe(&mut r, export_of(f));
                push_maybe(&mut r, import_of(f));
            },
            EquivalenceRule::Tautology => {
                push_maybe(&mut r, collapse_of(f));
                r.push(and_of(f, f));
                r.push(or_of(f, f));
            },
            EquivalenceRule::Equivalence => {
                push_maybe(&mut r, biconditional_of(f));
            },
        }
        assert(views(r@) =~= forms(*self, f@));
        r
    }

    /// `formula` with every occurrence of `from` replaced by `to`.
    pub fn replace_subformula(formula: &Formula, from: &Formula, to: &Formula) -> (r: Formula)
        ensures
            r@ == replace_all(formula@, from@, to@),
        decreases formula,
    {
        if formula.same(from) {
            return to.clone();
        }
        match formula {
            Formula::Atom(_) | Formula::Contradiction => formula.clone(),
            Formula::Not(a) => Formula::Not(Box::new(Self::replace_subformula(a, from, to))),
            Formula::And(a, b) => Formula::And(
                Box::new(Self::replace_subformula(a, from, to)),
                Box::new(Self::replace_subformula(b, from, to)),
            ),
            Formula::Or(a, b) => Formula::Or(
                Box::new(Self::replace_subformula(a, from, to)),
                Box::new(Self::replace_subformula(b, from, to)),
            ),
            Formula::Implies(a, b) => Formula::Implies(
                Box::new(Self::replace_subformula(a, from, to)),
                Box::new(Self::replace_subformula(b, from, to)),
            ),
            Formula::Biconditional(a, b) => Formula::Biconditional(
                Box::new(Self::replace_subformula(a, from, to)),
                Box::new(Self::replace_subformula(b, from, to)),
            ),
        }
    }
}

} // verus!
