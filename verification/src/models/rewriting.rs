//! One-step rewriting: every way of applying one equivalence rule to one subformula.

use vstd::prelude::*;

use crate::models::formula::{
    equivalent, eval, p_and, p_iff, p_implies, p_not, p_or, views,
};
use crate::models::formula::{Formula, Prop, Valuation};
use crate::models::rules::equivalence::{
    all_equivalence_rules, forms, law_forms_by_schema, law_forms_equivalent, law_forms_symmetric,
    schema, EquivalenceRule,
};

verus! {

/// One rewrite: its result and the rule that was applied.
pub type Rewrite = (Prop, EquivalenceRule);

/// The forms `fs` that differ from `p`, each with its rule.
pub open spec fn changed(p: Prop, rule: EquivalenceRule, fs: Seq<Prop>) -> Seq<Rewrite>
    decreases fs.len(),
{
    if fs.len() == 0 {
        seq![]
    } else {
        let before = changed(p, rule, fs.drop_last());
        if fs.last() == p {
            before
        } else {
            before.push((fs.last(), rule))
        }
    }
}

/// The rewrites of the whole of `p` by the given rules, in their order.
pub open spec fn root_rewrites_by(p: Prop, rules: Seq<EquivalenceRule>) -> Seq<Rewrite>
    decreases rules.len(),
{
    if rules.len() == 0 {
        seq![]
    } else {
        root_rewrites_by(p, rules.drop_last()) + changed(p, rules.last(), forms(rules.last(), p))
    }
}

/// The rewrites of the whole of `p` that change it.
pub open spec fn root_rewrites(p: Prop) -> Seq<Rewrite> {
    root_rewrites_by(p, all_equivalence_rules())
}

/// The rewrites `s` of a part, put into its surroundings.
pub open spec fn within(s: Seq<Rewrite>, around: spec_fn(Prop) -> Prop) -> Seq<Rewrite> {
    Seq::new(s.len(), |i: int| (around(s[i].0), s[i].1))
}

/// Every way of applying one equivalence rule to one subformula of `p` that changes it:
/// at the whole first, then within the left part, then within the right part.
pub open spec fn rewrites(p: Prop) -> Seq<Rewrite>
    decreases p,
{
    match p {
        Prop::Atom(_) | Prop::Contradiction => root_rewrites(p),
        Prop::Not(a) => root_rewrites(p) + within(rewrites(*a), |x: Prop| p_not(x)),
        Prop::And(a, b) => root_rewrites(p) + within(rewrites(*a), |x: Prop| p_and(x, *b))
            + within(rewrites(*b), |x: Prop| p_and(*a, x)),
        Prop::Or(a, b) => root_rewrites(p) + within(rewrites(*a), |x: Prop| p_or(x, *b)) + within(
            rewrites(*b),
            |x: Prop| p_or(*a, x),
        ),
        Prop::Implies(a, b) => root_rewrites(p) + within(rewrites(*a), |x: Prop| p_implies(x, *b))
            + within(rewrites(*b), |x: Prop| p_implies(*a, x)),
        Prop::Biconditional(a, b) => root_rewrites(p) + within(
            rewrites(*a),
            |x: Prop| p_iff(x, *b),
        ) + within(rewrites(*b), |x: Prop| p_iff(*a, x)),
    }
}

/// What `changed` holds: the forms that differ.
proof fn lemma_changed(p: Prop, rule: EquivalenceRule, fs: Seq<Prop>, q: Prop)
    ensures
        changed(p, rule, fs).contains((q, rule)) <==> (fs.contains(q) && q != p),
        forall|i: int|
            0 <= i < changed(p, rule, fs).len() ==> (#[trigger] changed(p, rule, fs)[i]).1 == rule,
    decreases fs.len(),
{
    if fs.len() > 0 {
        let t = fs.drop_last();
        lemma_changed(p, rule, t, q);
        let before = changed(p, rule, t);
        let after = changed(p, rule, fs);
        assert(fs.contains(q) <==> (t.contains(q) || fs.last() == q)) by {
            if t.contains(q) {
                let i = choose|i: int| 0 <= i < t.len() && t[i] == q;
                assert(fs[i] == q);
            }
            if fs.contains(q) && fs.last() != q {
                let i = choose|i: int| 0 <= i < fs.len() && fs[i] == q;
                assert(t[i] == q);
            }
            if fs.last() == q {
                assert(fs[fs.len() - 1] == q);
            }
        }
        if fs.last() != p {
            assert(after == before.push((fs.last(), rule)));
            if before.contains((q, rule)) {
                let i = choose|i: int| 0 <= i < before.len() && before[i] == (q, rule);
                assert(after[i] == (q, rule));
            }
            if fs.last() == q {
                assert(after[before.len() as int] == (q, rule));
            }
        }
    }
}

/// What the root rewrites by some rules are.
proof fn lemma_root_by(p: Prop, rules: Seq<EquivalenceRule>, q: Prop, rule: EquivalenceRule)
    ensures
        root_rewrites_by(p, rules).contains((q, rule)) <==> (rules.contains(rule) && forms(
            rule,
            p,
        ).contains(q) && q != p),
    decreases rules.len(),
{
    if rules.len() > 0 {
        let t = rules.drop_last();
        let last = rules.last();
        lemma_root_by(p, t, q, rule);
        lemma_changed(p, last, forms(last, p), q);
        let before = root_rewrites_by(p, t);
        let more = changed(p, last, forms(last, p));
        let all = root_rewrites_by(p, rules);
        assert(all == before + more);
        assert(rules.contains(rule) <==> (t.contains(rule) || last == rule)) by {
            if t.contains(rule) {
                let i = choose|i: int| 0 <= i < t.len() && t[i] == rule;
                assert(rules[i] == rule);
            }
            if rules.contains(rule) && last != rule {
                let i = choose|i: int| 0 <= i < rules.len() && rules[i] == rule;
                assert(t[i] == rule);
            }
            if last == rule {
                assert(rules[rules.len() - 1] == rule);
            }
        }
        assert(all.contains((q, rule)) <==> (before.contains((q, rule)) || more.contains((q, rule)))) by {
            if before.contains((q, rule)) {
                let i = choose|i: int| 0 <= i < before.len() && before[i] == (q, rule);
                assert(all[i] == (q, rule));
            }
            if more.contains((q, rule)) {
                let i = choose|i: int| 0 <= i < more.len() && more[i] == (q, rule);
                assert(all[before.len() + i] == (q, rule));
            }
        }
    }
}

/// Every rule is among all rules.
proof fn lemma_all_rules(rule: EquivalenceRule)
    ensures
        all_equivalence_rules().contains(rule),
{
    let s = all_equivalence_rules();
    assert(s[0] == EquivalenceRule::DoubleNegation);
    assert(s[1] == EquivalenceRule::DeMorgan);
    assert(s[2] == EquivalenceRule::Commutation);
    assert(s[3] == EquivalenceRule::Association);
    assert(s[4] == EquivalenceRule::Distribution);
    assert(s[5] == EquivalenceRule::Contraposition);
    assert(s[6] == EquivalenceRule::Implication);
    assert(s[7] == EquivalenceRule::Exportation);
    assert(s[8] == EquivalenceRule::Tautology);
    assert(s[9] == EquivalenceRule::Equivalence);
}

/// The root rewrites of `p` are the forms that differ from it.
pub proof fn lemma_root_rewrites(p: Prop, q: Prop, rule: EquivalenceRule)
    ensures
        root_rewrites(p).contains((q, rule)) <==> (forms(rule, p).contains(q) && q != p),
{
    lemma_root_by(p, all_equivalence_rules(), q, rule);
    lemma_all_rules(rule);
}

/// A rewrite within a part comes from a rewrite of that part.
proof fn lemma_within(s: Seq<Rewrite>, around: spec_fn(Prop) -> Prop, q: Prop, rule: EquivalenceRule)
    ensures
        within(s, around).contains((q, rule)) <==> exists|x: Prop|
            #[trigger] s.contains((x, rule)) && around(x) == q,
{
    if within(s, around).contains((q, rule)) {
        let i = choose|i: int| 0 <= i < s.len() && within(s, around)[i] == (q, rule);
        assert(s[i] == (s[i].0, rule));
        assert(s.contains((s[i].0, rule)));
    }
    if exists|x: Prop| #[trigger] s.contains((x, rule)) && around(x) == q {
        let x = choose|x: Prop| #[trigger] s.contains((x, rule)) && around(x) == q;
        let i = choose|i: int| 0 <= i < s.len() && s[i] == (x, rule);
        assert(within(s, around)[i] == (q, rule));
    }
}

/// Membership in three joined lists.
proof fn lemma_in_three(a: Seq<Rewrite>, b: Seq<Rewrite>, c: Seq<Rewrite>, x: Rewrite)
    ensures
        (a + b + c).contains(x) <==> (a.contains(x) || b.contains(x) || c.contains(x)),
        (a + b).contains(x) <==> (a.contains(x) || b.contains(x)),
{
    let ab = a + b;
    let abc = a + b + c;
    if a.contains(x) {
        let i = choose|i: int| 0 <= i < a.len() && a[i] == x;
        assert(ab[i] == x);
        assert(abc[i] == x);
    }
    if b.contains(x) {
        let i = choose|i: int| 0 <= i < b.len() && b[i] == x;
        assert(ab[a.len() + i] == x);
        assert(abc[a.len() + i] == x);
    }
    if c.contains(x) {
        let i = choose|i: int| 0 <= i < c.len() && c[i] == x;
        assert(abc[ab.len() + i] == x);
    }
}

/// The rewrites of a compound, by where they happen.
pub proof fn lemma_rewrites_cases(p: Prop, q: Prop, rule: EquivalenceRule)
    ensures
        rewrites(p).contains((q, rule)) <==> (root_rewrites(p).contains((q, rule)) || match p {
            Prop::Atom(_) | Prop::Contradiction => false,
            Prop::Not(a) => exists|x: Prop|
                #[trigger] rewrites(*a).contains((x, rule)) && q == p_not(x),
            Prop::And(a, b) => (exists|x: Prop|
                #[trigger] rewrites(*a).contains((x, rule)) && q == p_and(x, *b)) || (exists|x: Prop|

                #[trigger] rewrites(*b).contains((x, rule)) && q == p_and(*a, x)),
            Prop::Or(a, b) => (exists|x: Prop|
                #[trigger] rewrites(*a).contains((x, rule)) && q == p_or(x, *b)) || (exists|x: Prop|
                #[trigger] rewrites(*b).contains((x, rule)) && q == p_or(*a, x)),
            Prop::Implies(a, b) => (exists|x: Prop|
                #[trigger] rewrites(*a).contains((x, rule)) && q == p_implies(x, *b)) || (exists|
                x: Prop,
            |
                #[trigger] rewrites(*b).contains((x, rule)) && q == p_implies(*a, x)),
            Prop::Biconditional(a, b) => (exists|x: Prop|
                #[trigger] rewrites(*a).contains((x, rule)) && q == p_iff(x, *b)) || (exists|x: Prop|

                #[trigger] rewrites(*b).contains((x, rule)) && q == p_iff(*a, x)),
        }),
{
    let root = root_rewrites(p);
    match p {
        Prop::Atom(_) | Prop::Contradiction => {},
        Prop::Not(a) => {
            let f = |x: Prop| p_not(x);
            let l = within(rewrites(*a), f);
            lemma_in_three(root, l, seq![], (q, rule));
            lemma_within(rewrites(*a), f, q, rule);
            assert(rewrites(p) == root + l);
        },
        Prop::And(a, b) => {
            let f = |x: Prop| p_and(x, *b);
            let g = |x: Prop| p_and(*a, x);
            lemma_in_three(root, within(rewrites(*a), f), within(rewrites(*b), g), (q, rule));
            lemma_within(rewrites(*a), f, q, rule);
            lemma_within(rewrites(*b), g, q, rule);
        },
        Prop::Or(a, b) => {
            let f = |x: Prop| p_or(x, *b);
            let g = |x: Prop| p_or(*a, x);
            lemma_in_three(root, within(rewrites(*a), f), within(rewrites(*b), g), (q, rule));
            lemma_within(rewrites(*a), f, q, rule);
            lemma_within(rewrites(*b), g, q, rule);
        },
        Prop::Implies(a, b) => {
            let f = |x: Prop| p_implies(x, *b);
            let g = |x: Prop| p_implies(*a, x);
            lemma_in_three(root, within(rewrites(*a), f), within(rewrites(*b), g), (q, rule));
            lemma_within(rewrites(*a), f, q, rule);
            lemma_within(rewrites(*b), g, q, rule);
        },
        Prop::Biconditional(a, b) => {
            let f = |x: Prop| p_iff(x, *b);
            let g = |x: Prop| p_iff(*a, x);
            lemma_in_three(root, within(rewrites(*a), f), within(rewrites(*b), g), (q, rule));
            lemma_within(rewrites(*a), f, q, rule);
            lemma_within(rewrites(*b), g, q, rule);
        },
    }
}

/// A rewrite keeps the meaning and changes the formula.
pub proof fn law_rewrites_equivalent(p: Prop, q: Prop, rule: EquivalenceRule)
    requires
        rewrites(p).contains((q, rule)),
    ensures
        equivalent(p, q),
        p != q,
    decreases p,
{
    lemma_rewrites_cases(p, q, rule);
    if root_rewrites(p).contains((q, rule)) {
        lemma_root_rewrites(p, q, rule);
        law_forms_equivalent(rule, p, q);
    } else {
        match p {
            Prop::Atom(_) | Prop::Contradiction => {},
            Prop::Not(a) => {
                let x = choose|x: Prop|
                    #[trigger] rewrites(*a).contains((x, rule)) && q == p_not(x);
                law_rewrites_equivalent(*a, x, rule);
                assert forall|v: Valuation| #[trigger] eval(p, v) == eval(q, v) by {
                    assert(eval(*a, v) == eval(x, v));
                }
            },
            Prop::And(a, b) | Prop::Or(a, b) | Prop::Implies(a, b) | Prop::Biconditional(a, b) => {
                if exists|x: Prop|
                    #[trigger] rewrites(*a).contains((x, rule)) && same_shape(p, q, x, *b) {
                    let x = choose|x: Prop|
                        #[trigger] rewrites(*a).contains((x, rule)) && same_shape(p, q, x, *b);
                    law_rewrites_equivalent(*a, x, rule);
                    assert forall|v: Valuation| #[trigger] eval(p, v) == eval(q, v) by {
                        assert(eval(*a, v) == eval(x, v));
                    }
                } else {
                    let x = choose|x: Prop|
                        #[trigger] rewrites(*b).contains((x, rule)) && same_shape(p, q, *a, x);
                    law_rewrites_equivalent(*b, x, rule);
                    assert forall|v: Valuation| #[trigger] eval(p, v) == eval(q, v) by {
                        assert(eval(*b, v) == eval(x, v));
                    }
                }
            },
        }
    }
}

/// `q` joins `l` and `r` by the main connective of `p`.
pub open spec fn same_shape(p: Prop, q: Prop, l: Prop, r: Prop) -> bool {
    match p {
        Prop::And(_, _) => q == p_and(l, r),
        Prop::Or(_, _) => q == p_or(l, r),
        Prop::Implies(_, _) => q == p_implies(l, r),
        Prop::Biconditional(_, _) => q == p_iff(l, r),
        _ => false,
    }
}

/// Rewriting works both ways: what rewrites to `q` in one step is one step from `q`, by
/// the same rule.
pub proof fn law_rewrites_symmetric(p: Prop, q: Prop, rule: EquivalenceRule)
    requires
        rewrites(p).contains((q, rule)),
    ensures
        rewrites(q).contains((p, rule)),
    decreases p,
{
    lemma_rewrites_cases(p, q, rule);
    lemma_rewrites_cases(q, p, rule);
    if root_rewrites(p).contains((q, rule)) {
        lemma_root_rewrites(p, q, rule);
        lemma_root_rewrites(q, p, rule);
        law_forms_symmetric(rule, p, q);
    } else {
        match p {
            Prop::Atom(_) | Prop::Contradiction => {},
            Prop::Not(a) => {
                let x = choose|x: Prop|
                    #[trigger] rewrites(*a).contains((x, rule)) && q == p_not(x);
                law_rewrites_symmetric(*a, x, rule);
                assert(rewrites(x).contains((*a, rule)));
                assert(p == p_not(*a));
            },
            Prop::And(a, b) | Prop::Or(a, b) | Prop::Implies(a, b) | Prop::Biconditional(a, b) => {
                if exists|x: Prop|
                    #[trigger] rewrites(*a).contains((x, rule)) && same_shape(p, q, x, *b) {
                    let x = choose|x: Prop|
                        #[trigger] rewrites(*a).contains((x, rule)) && same_shape(p, q, x, *b);
                    law_rewrites_symmetric(*a, x, rule);
                    assert(rewrites(x).contains((*a, rule)));
                    assert(same_shape(q, p, *a, *b));
                } else {
                    let x = choose|x: Prop|
                        #[trigger] rewrites(*b).contains((x, rule)) && same_shape(p, q, *a, x);
                    law_rewrites_symmetric(*b, x, rule);
                    assert(rewrites(x).contains((*b, rule)));
                    assert(same_shape(q, p, *a, *b));
                }
            },
        }
    }
}

/// Whether one application of a rule, read from either side of its schema, to the whole
/// of `p` or to one of its parts at whatever depth, turns `p` into `q`.
pub open spec fn one_step(rule: EquivalenceRule, p: Prop, q: Prop) -> bool
    decreases p,
{
    ||| p != q && (schema(rule, p, q) || schema(rule, q, p))
    ||| match (p, q) {
        (Prop::Not(a), Prop::Not(x)) => one_step(rule, *a, *x),
        (Prop::And(a, b), Prop::And(x, y)) => (one_step(rule, *a, *x) && *b == *y) || (one_step(
            rule,
            *b,
            *y,
        ) && *a == *x),
        (Prop::Or(a, b), Prop::Or(x, y)) => (one_step(rule, *a, *x) && *b == *y) || (one_step(
            rule,
            *b,
            *y,
        ) && *a == *x),
        (Prop::Implies(a, b), Prop::Implies(x, y)) => (one_step(rule, *a, *x) && *b == *y) || (
        one_step(rule, *b, *y) && *a == *x),
        (Prop::Biconditional(a, b), Prop::Biconditional(x, y)) => (one_step(rule, *a, *x) && *b
            == *y) || (one_step(rule, *b, *y) && *a == *x),
        _ => false,
    }
}

/// The rewrites of a formula are all that one application of a rule can turn it into.
pub proof fn law_rewrites_complete(p: Prop, q: Prop, rule: EquivalenceRule)
    ensures
        rewrites(p).contains((q, rule)) <==> one_step(rule, p, q),
    decreases p,
{
    lemma_rewrites_cases(p, q, rule);
    lemma_root_rewrites(p, q, rule);
    law_forms_by_schema(rule, p, q);
    match (p, q) {
        (Prop::Not(a), Prop::Not(x)) => {
            law_rewrites_complete(*a, *x, rule);
            assert(q == p_not(*x));
        },
        (Prop::And(a, b), Prop::And(x, y)) => {
            law_rewrites_complete(*a, *x, rule);
            law_rewrites_complete(*b, *y, rule);
            assert(q == p_and(*x, *y));
        },
        (Prop::Or(a, b), Prop::Or(x, y)) => {
            law_rewrites_complete(*a, *x, rule);
            law_rewrites_complete(*b, *y, rule);
            assert(q == p_or(*x, *y));
        },
        (Prop::Implies(a, b), Prop::Implies(x, y)) => {
            law_rewrites_complete(*a, *x, rule);
            law_rewrites_complete(*b, *y, rule);
            assert(q == p_implies(*x, *y));
        },
        (Prop::Biconditional(a, b), Prop::Biconditional(x, y)) => {
            law_rewrites_complete(*a, *x, rule);
            law_rewrites_complete(*b, *y, rule);
            assert(q == p_iff(*x, *y));
        },
        _ => {},
    }
}

/// Where a rule comes among the rules.
pub open spec fn rule_rank(rule: EquivalenceRule) -> int {
    match rule {
        EquivalenceRule::DoubleNegation => 0,
        EquivalenceRule::DeMorgan => 1,
        EquivalenceRule::Commutation => 2,
        EquivalenceRule::Association => 3,
        EquivalenceRule::Distribution => 4,
        EquivalenceRule::Contraposition => 5,
        EquivalenceRule::Implication => 6,
        EquivalenceRule::Exportation => 7,
        EquivalenceRule::Tautology => 8,
        EquivalenceRule::Equivalence => 9,
    }
}

/// Rewrites of the whole come in the order of their rules.
proof fn lemma_root_order(p: Prop, n: int)
    requires
        0 <= n <= 10,
    ensures
        ({
            let s = root_rewrites_by(p, all_equivalence_rules().take(n));
            &&& forall|i: int| 0 <= i < s.len() ==> rule_rank((#[trigger] s[i]).1) < n
            &&& forall|i: int, j: int|
                0 <= i < j < s.len() ==> rule_rank((#[trigger] s[i]).1) <= rule_rank(
                    (#[trigger] s[j]).1,
                )
        }),
    decreases n,
{
    let rules = all_equivalence_rules();
    if n > 0 {
        lemma_root_order(p, n - 1);
        assert(rules.take(n).drop_last() =~= rules.take(n - 1));
        let rule = rules[n - 1];
        assert(rules.take(n).last() == rule);
        assert(rule_rank(rule) == n - 1);
        lemma_changed(p, rule, forms(rule, p), p);
        let (a, b) = (root_rewrites_by(p, rules.take(n - 1)), changed(p, rule, forms(rule, p)));
        let s = root_rewrites_by(p, rules.take(n));
        assert(s == a + b);
        assert forall|i: int| 0 <= i < s.len() implies rule_rank((#[trigger] s[i]).1) < n by {
            if i < a.len() {
                assert(s[i] == a[i]);
            } else {
                assert(s[i] == b[i - a.len()]);
            }
        }
        assert forall|i: int, j: int| 0 <= i < j < s.len() implies rule_rank((#[trigger] s[i]).1)
            <= rule_rank((#[trigger] s[j]).1) by {
            if j < a.len() {
                assert(s[i] == a[i] && s[j] == a[j]);
            } else {
                assert(s[j] == b[j - a.len()]);
                if i < a.len() {
                    assert(s[i] == a[i]);
                } else {
                    assert(s[i] == b[i - a.len()]);
                }
            }
        }
    }
}

/// Rewrites come in order: first `r` of them change the whole, by the rules in their order;
/// then come those of the left side, in their order, and then those of the right side.
pub proof fn law_rewrites_in_order(p: Prop, a: Prop, b: Prop) -> (r: int)
    requires
        p == p_and(a, b) || p == p_or(a, b) || p == p_implies(a, b) || p == p_iff(a, b),
    ensures
        0 <= r,
        rewrites(p).len() == r + rewrites(a).len() + rewrites(b).len(),
        forall|i: int, j: int|
            0 <= i < j < r ==> rule_rank((#[trigger] rewrites(p)[i]).1) <= rule_rank(
                (#[trigger] rewrites(p)[j]).1,
            ),
        forall|k: int|
            0 <= k < rewrites(a).len() ==> same_shape(
                p,
                rewrites(p)[r + k].0,
                (#[trigger] rewrites(a)[k]).0,
                b,
            ) && rewrites(p)[r + k].1 == rewrites(a)[k].1,
        forall|k: int|
            0 <= k < rewrites(b).len() ==> same_shape(
                p,
                rewrites(p)[r + rewrites(a).len() + k].0,
                a,
                (#[trigger] rewrites(b)[k]).0,
            ) && rewrites(p)[r + rewrites(a).len() + k].1 == rewrites(b)[k].1,
{
    let root = root_rewrites(p);
    let r = root.len() as int;
    lemma_root_order(p, 10);
    assert(all_equivalence_rules().take(10) =~= all_equivalence_rules());
    assert forall|i: int| 0 <= i < r implies #[trigger] rewrites(p)[i] == root[i] by {}
    r
}

/// The models of a list of rewrites.
pub open spec fn rewrite_views(s: Seq<(Formula, EquivalenceRule)>) -> Seq<Rewrite> {
    Seq::new(s.len(), |i: int| (s[i].0@, s[i].1))
}

/// The rewrites of the whole of `f` that change it.
pub(crate) fn root_rewrites_of(f: &Formula) -> (r: Vec<(Formula, EquivalenceRule)>)
    ensures
        rewrite_views(r@) == root_rewrites(f@),
{
    let rules = EquivalenceRule::all();
    let mut out: Vec<(Formula, EquivalenceRule)> = Vec::new();
    let mut k: usize = 0;
    assert(rewrite_views(out@) =~= seq![]);
    assert(rules@.take(0) =~= seq![]);
    while k < rules.len()
        invariant
            k <= rules@.len(),
            rewrite_views(out@) == root_rewrites_by(f@, rules@.take(k as int)),
        decreases rules@.len() - k,
    {
        let rule = rules[k];
        let fs = rule.equivalent_forms(f);
        let ghost start = rewrite_views(out@);
        let ghost fv = views(fs@);
        let mut i: usize = 0;
        assert(fv.take(0) =~= seq![]);
        assert(start + changed(f@, rule, fv.take(0)) =~= start);
        while i < fs.len()
            invariant
                i <= fs@.len(),
                fv == views(fs@),
                rewrite_views(out@) == start + changed(f@, rule, fv.take(i as int)),
            decreases fs@.len() - i,
        {
            let ghost t = fv.take(i as int + 1);
            assert(t.drop_last() =~= fv.take(i as int));
            assert(t.last() == fs@[i as int]@);
            if !fs[i].same(f) {
                let ghost before = out@;
                let g = fs[i].clone();
                out.push((g, rule));
                assert(rewrite_views(out@) =~= rewrite_views(before).push((g@, rule)));
                assert(rewrite_views(out@) =~= start + changed(f@, rule, t));
            }
            i = i + 1;
        }
        assert(fv.take(fs@.len() as int) =~= fv);
        assert(rules@.take(k as int + 1).drop_last() =~= rules@.take(k as int));
        k = k + 1;
    }
    assert(rules@.take(rules@.len() as int) =~= rules@);
    out
}

/// `x` in place of the left part (or the only part) or the right part of `whole`.
pub open spec fn placed(whole: Prop, left: bool, x: Prop) -> Prop {
    match whole {
        Prop::Not(_) => p_not(x),
        Prop::And(a, b) => if left {
            p_and(x, *b)
        } else {
            p_and(*a, x)
        },
        Prop::Or(a, b) => if left {
            p_or(x, *b)
        } else {
            p_or(*a, x)
        },
        Prop::Implies(a, b) => if left {
            p_implies(x, *b)
        } else {
            p_implies(*a, x)
        },
        Prop::Biconditional(a, b) => if left {
            p_iff(x, *b)
        } else {
            p_iff(*a, x)
        },
        _ => whole,
    }
}

/// `x` in place of the left part (or the only part) or the right part of `whole`.
fn place(whole: &Formula, left: bool, x: Formula) -> (r: Formula)
    ensures
        r@ == placed(whole@, left, x@),
{
    match whole {
        Formula::Atom(_) | Formula::Contradiction => whole.clone(),
        Formula::Not(_) => Formula::Not(Box::new(x)),
        Formula::And(a, b) => if left {
            Formula::And(Box::new(x), Box::new((&**b).clone()))
        } else {
            Formula::And(Box::new((&**a).clone()), Box::new(x))
        },
        Formula::Or(a, b) => if left {
            Formula::Or(Box::new(x), Box::new((&**b).clone()))
        } else {
            Formula::Or(Box::new((&**a).clone()), Box::new(x))
        },
        Formula::Implies(a, b) => if left {
            Formula::Implies(Box::new(x), Box::new((&**b).clone()))
        } else {
            Formula::Implies(Box::new((&**a).clone()), Box::new(x))
        },
        Formula::Biconditional(a, b) => if left {
            Formula::Biconditional(Box::new(x), Box::new((&**b).clone()))
        } else {
            Formula::Biconditional(Box::new((&**a).clone()), Box::new(x))
        },
    }
}

/// Appends to `out` the rewrites of a part, put into `whole`.
fn push_within(
    out: &mut Vec<(Formula, EquivalenceRule)>,
    part: &Formula,
    whole: &Formula,
    left: bool,
)
    requires
        part@ == part_of(whole@, left),
        has_part(whole@, left),
    ensures
        rewrite_views(final(out)@) == rewrite_views(old(out)@) + within(
            rewrites(part@),
            |x: Prop| placed(whole@, left, x),
        ),
    decreases part, 1int,
{
    let inner = one_step_equiv_rewrites(part);
    let ghost around = |x: Prop| placed(whole@, left, x);
    let ghost start = rewrite_views(out@);
    let ghost target = within(rewrites(part@), around);
    let mut rest = inner;
    let mut i: usize = 0;
    assert(target.take(0) =~= seq![]);
    assert(start + target.take(0) =~= start);
    while i < rest.len()
        invariant
            i <= rest@.len(),
            rewrite_views(rest@) == rewrites(part@),
            target == within(rewrites(part@), around),
            around == (|x: Prop| placed(whole@, left, x)),
            rewrite_views(out@) == start + target.take(i as int),
        decreases rest@.len() - i,
    {
        let ghost before = out@;
        assert(rewrite_views(rest@)[i as int] == (rest@[i as int].0@, rest@[i as int].1));
        let g = place(whole, left, rest[i].0.clone());
        let rule = rest[i].1;
        out.push((g, rule));
        assert(rewrite_views(out@) =~= rewrite_views(before).push((g@, rule)));
        assert(target[i as int] == (g@, rule));
        assert(target.take(i as int + 1) =~= target.take(i as int).push(target[i as int]));
        assert(rewrite_views(out@) =~= start + target.take(i as int + 1));
        i = i + 1;
    }
    assert(target.take(target.len() as int) =~= target);
}

/// Whether `whole` has the part.
pub open spec fn has_part(whole: Prop, left: bool) -> bool {
    match whole {
        Prop::Atom(_) | Prop::Contradiction => false,
        Prop::Not(_) => left,
        _ => true,
    }
}

/// The left part (or the only part) or the right part of `whole`.
pub open spec fn part_of(whole: Prop, left: bool) -> Prop {
    match whole {
        Prop::Not(a) => *a,
        Prop::And(a, b) | Prop::Or(a, b) | Prop::Implies(a, b) | Prop::Biconditional(a, b) => if left {
            *a
        } else {
            *b
        },
        _ => whole,
    }
}

/// The rewrites within the left part (or the only part) or the right part of `whole`.
pub open spec fn part_rewrites(whole: Prop, left: bool) -> Seq<Rewrite> {
    within(rewrites(part_of(whole, left)), |x: Prop| placed(whole, left, x))
}

/// The rewrites of a formula are those of the whole, then those within its parts.
pub proof fn lemma_rewrites_placed(p: Prop)
    ensures
        rewrites(p) == root_rewrites(p) + (if has_part(p, true) {
            part_rewrites(p, true)
        } else {
            seq![]
        }) + (if has_part(p, false) {
            part_rewrites(p, false)
        } else {
            seq![]
        }),
{
    let l = part_rewrites(p, true);
    let r = part_rewrites(p, false);
    match p {
        Prop::Atom(_) | Prop::Contradiction => {},
        Prop::Not(a) => {
            assert(l =~= within(rewrites(*a), |x: Prop| p_not(x)));
        },
        Prop::And(a, b) => {
            assert(l =~= within(rewrites(*a), |x: Prop| p_and(x, *b)));
            assert(r =~= within(rewrites(*b), |x: Prop| p_and(*a, x)));
        },
        Prop::Or(a, b) => {
            assert(l =~= within(rewrites(*a), |x: Prop| p_or(x, *b)));
            assert(r =~= within(rewrites(*b), |x: Prop| p_or(*a, x)));
        },
        Prop::Implies(a, b) => {
            assert(l =~= within(rewrites(*a), |x: Prop| p_implies(x, *b)));
            assert(r =~= within(rewrites(*b), |x: Prop| p_implies(*a, x)));
        },
        Prop::Biconditional(a, b) => {
            assert(l =~= within(rewrites(*a), |x: Prop| p_iff(x, *b)));
            assert(r =~= within(rewrites(*b), |x: Prop| p_iff(*a, x)));
        },
    }
    assert(rewrites(p) =~= root_rewrites(p) + (if has_part(p, true) {
        l
    } else {
        seq![]
    }) + (if has_part(p, false) {
        r
    } else {
        seq![]
    }));
}

/// Every way of applying one equivalence rule to one subformula of `f` that changes it.
pub fn one_step_equiv_rewrites(f: &Formula) -> (r: Vec<(Formula, EquivalenceRule)>)
    ensures
        rewrite_views(r@) == rewrites(f@),
    decreases f, 0int,
{
    proof {
        lemma_rewrites_placed(f@);
    }
    let mut out = root_rewrites_of(f);
    match f {
        Formula::Atom(_) | Formula::Contradiction => {},
        Formula::Not(a) => {
            push_within(&mut out, a, f, true);
        },
        Formula::And(a, b) | Formula::Or(a, b) | Formula::Implies(a, b)
        | Formula::Biconditional(a, b) => {
            push_within(&mut out, a, f, true);
            push_within(&mut out, b, f, false);
        },
    }
    out
}

} // verus!
