//! Inference rules: from one to three premises to a conclusion.

use vstd::prelude::*;

use crate::models::formula::{
    all_true, and_of, contains, entails, eval, implies_of, lemma_views_push, not_of, or_of, p_and,
    p_implies, p_not, p_or, views,
};
use crate::models::formula::{Formula, Prop, Valuation};
use crate::models::lists::lemma_in_joined;

verus! {

/// An inference rule.
#[derive(Debug, Clone, Copy, PartialEq, Eq, Structural)]
pub enum InferenceRule {
    ModusPonens,
    ModusTollens,
    DisjunctiveSyllogism,
    Simplification,
    Conjunction,
    HypotheticalSyllogism,
    Addition,
    ConstructiveDilemma,
    Contradiction,
}

/// All inference rules, in order.
pub open spec fn all_inference_rules() -> Seq<InferenceRule> {
    seq![
        InferenceRule::ModusPonens,
        InferenceRule::ModusTollens,
        InferenceRule::DisjunctiveSyllogism,
        InferenceRule::Simplification,
        InferenceRule::Conjunction,
        InferenceRule::HypotheticalSyllogism,
        InferenceRule::Addition,
        InferenceRule::ConstructiveDilemma,
        InferenceRule::Contradiction,
    ]
}

/// `a > c`, `a` to `c`.
pub open spec fn mp(f: Prop, g: Prop) -> Seq<Prop> {
    match f {
        Prop::Implies(a, c) => if *a == g {
            seq![*c]
        } else {
            seq![]
        },
        _ => seq![],
    }
}

/// `a > c`, `~c` to `~a`.
pub open spec fn mt(f: Prop, g: Prop) -> Seq<Prop> {
    match (f, g) {
        (Prop::Implies(a, c), Prop::Not(n)) => if *n == *c {
            seq![p_not(*a)]
        } else {
            seq![]
        },
        _ => seq![],
    }
}

/// `l v r`, `~l` to `r`; `l v r`, `~r` to `l`.
pub open spec fn ds(f: Prop, g: Prop) -> Seq<Prop> {
    match (f, g) {
        (Prop::Or(l, r), Prop::Not(n)) => (if *n == *l {
            seq![*r]
        } else {
            seq![]
        }) + (if *n == *r {
            seq![*l]
        } else {
            seq![]
        }),
        _ => seq![],
    }
}

/// `l . r` to `l` and to `r`.
pub open spec fn simp(f: Prop) -> Seq<Prop> {
    match f {
        Prop::And(l, r) => seq![*l, *r],
        _ => seq![],
    }
}

/// `p > q`, `q > r` to `p > r`.
pub open spec fn hs(f: Prop, g: Prop) -> Seq<Prop> {
    match (f, g) {
        (Prop::Implies(p, q), Prop::Implies(q2, r)) => if *q == *q2 {
            seq![p_implies(*p, *r)]
        } else {
            seq![]
        },
        _ => seq![],
    }
}

/// `p v q`, `p > r`, `q > s` to `r v s`.
pub open spec fn cd(f: Prop, g: Prop, h: Prop) -> Seq<Prop> {
    match (f, g, h) {
        (Prop::Or(p, q), Prop::Implies(p2, r), Prop::Implies(q2, s)) => if *p == *p2 && *q == *q2 {
            seq![p_or(*r, *s)]
        } else {
            seq![]
        },
        _ => seq![],
    }
}

/// `p`, `~p` to `⊥`.
pub open spec fn neg_e(f: Prop, g: Prop) -> Seq<Prop> {
    if g == p_not(f) {
        seq![Prop::Contradiction]
    } else {
        seq![]
    }
}

/// How many premises the rule takes.
pub open spec fn premise_count(rule: InferenceRule) -> nat {
    match rule {
        InferenceRule::Simplification | InferenceRule::Addition => 1,
        InferenceRule::ConstructiveDilemma => 3,
        _ => 2,
    }
}

/// Everything that the rule concludes from the premises. Conjunction joins them in the
/// order in which they are given, and for the other rules the order makes no difference.
/// Addition disjoins `extra` on either side.
pub open spec fn conclusions(rule: InferenceRule, ps: Seq<Prop>, extra: Option<Prop>) -> Seq<Prop> {
    if ps.len() != premise_count(rule) {
        seq![]
    } else {
        match rule {
            InferenceRule::ModusPonens => mp(ps[0], ps[1]) + mp(ps[1], ps[0]),
            InferenceRule::ModusTollens => mt(ps[0], ps[1]) + mt(ps[1], ps[0]),
            InferenceRule::DisjunctiveSyllogism => ds(ps[0], ps[1]) + ds(ps[1], ps[0]),
            InferenceRule::Simplification => simp(ps[0]),
            InferenceRule::Conjunction => seq![p_and(ps[0], ps[1])],
            InferenceRule::HypotheticalSyllogism => hs(ps[0], ps[1]) + hs(ps[1], ps[0]),
            InferenceRule::Addition => match extra {
                Some(q) => seq![p_or(ps[0], q), p_or(q, ps[0])],
                None => seq![],
            },
            InferenceRule::ConstructiveDilemma => cd(ps[0], ps[1], ps[2]) + cd(ps[0], ps[2], ps[1])
                + cd(ps[1], ps[0], ps[2]) + cd(ps[1], ps[2], ps[0]) + cd(ps[2], ps[0], ps[1]) + cd(
                ps[2],
                ps[1],
                ps[0],
            ),
            InferenceRule::Contradiction => neg_e(ps[0], ps[1]) + neg_e(ps[1], ps[0]),
        }
    }
}

/// Whether the rule permits to conclude `c` from the premises, in whatever order they are
/// given.
pub open spec fn permits(rule: InferenceRule, ps: Seq<Prop>, extra: Option<Prop>, c: Prop) -> bool {
    conclusions(rule, ps, extra).contains(c) || (rule == InferenceRule::Conjunction && ps.len() == 2
        && c == p_and(ps[1], ps[0]))
}

/// Every conclusion that a rule permits follows from its premises.
pub proof fn law_conclusions_follow(
    rule: InferenceRule,
    ps: Seq<Prop>,
    extra: Option<Prop>,
    c: Prop,
)
    requires
        permits(rule, ps, extra, c),
    ensures
        entails(ps, c),
{
    assert forall|v: Valuation| #[trigger] all_true(ps, v) implies eval(c, v) by {
        reveal_with_fuel(eval, 3);
        assert(eval(ps[0], v));
        if ps.len() >= 2 {
            assert(eval(ps[1], v));
        }
        if ps.len() >= 3 {
            assert(eval(ps[2], v));
        }
    }
}

/// Whether `ps` are `a` and `b`, in either order.
pub open spec fn are_two(ps: Seq<Prop>, a: Prop, b: Prop) -> bool {
    ps == seq![a, b] || ps == seq![b, a]
}

/// Whether `ps` are `a`, `b` and `c`, in any order.
pub open spec fn are_three(ps: Seq<Prop>, a: Prop, b: Prop, c: Prop) -> bool {
    ||| ps == seq![a, b, c]
    ||| ps == seq![a, c, b]
    ||| ps == seq![b, a, c]
    ||| ps == seq![b, c, a]
    ||| ps == seq![c, a, b]
    ||| ps == seq![c, b, a]
}

/// Whether `c` from `ps` is a textbook instance of the rule, with the premises in any
/// order.
pub open spec fn instance(rule: InferenceRule, ps: Seq<Prop>, c: Prop) -> bool {
    match rule {
        InferenceRule::ModusPonens => exists|p: Prop| #[trigger] are_two(ps, p_implies(p, c), p),
        InferenceRule::ModusTollens => exists|p: Prop, q: Prop| #[trigger]
            are_two(ps, p_implies(p, q), p_not(q)) && c == p_not(p),
        InferenceRule::DisjunctiveSyllogism => (exists|p: Prop| #[trigger]
            are_two(ps, p_or(p, c), p_not(p))) || (exists|p: Prop| #[trigger]
            are_two(ps, p_or(c, p), p_not(p))),
        InferenceRule::Simplification => exists|p: Prop|
            #![trigger p_and(p, c)]
            ps == seq![p_and(p, c)] || ps == seq![p_and(c, p)],
        InferenceRule::Conjunction => exists|p: Prop, q: Prop| #[trigger]
            are_two(ps, p, q) && c == p_and(p, q),
        InferenceRule::HypotheticalSyllogism => exists|p: Prop, q: Prop, r: Prop|
            #![trigger are_two(ps, p_implies(p, q), p_implies(q, r))]
            are_two(ps, p_implies(p, q), p_implies(q, r)) && c == p_implies(p, r),
        InferenceRule::Addition => exists|p: Prop, q: Prop|
            #![trigger p_or(p, q)]
            ps == seq![p] && (c == p_or(p, q) || c == p_or(q, p)),
        InferenceRule::ConstructiveDilemma => exists|p: Prop, q: Prop, r: Prop, s: Prop|
            #![trigger are_three(ps, p_or(p, q), p_implies(p, r), p_implies(q, s))]
            are_three(ps, p_or(p, q), p_implies(p, r), p_implies(q, s)) && c == p_or(r, s),
        InferenceRule::Contradiction => c == Prop::Contradiction && exists|p: Prop| #[trigger]
            are_two(ps, p, p_not(p)),
    }
}

/// Every rule permits its textbook instances, with the premises in any order: modus
/// ponens `q` from `p > q` and `p`; modus tollens `~p` from `p > q` and `~q`; disjunctive
/// syllogism either side of `p v q` from it and the negation of the other; simplification
/// either half of `p . q`; conjunction `p . q` from `p` and `q`; hypothetical syllogism
/// `p > r` from `p > q` and `q > r`; addition a disjunction of `p` with what is added;
/// constructive dilemma `r v s` from `p v q`, `p > r` and `q > s`; and contradiction `⊥`
/// from `p` and `~p`.
pub proof fn law_instances_permitted(
    ps: Seq<Prop>,
    extra: Option<Prop>,
    p: Prop,
    q: Prop,
    r: Prop,
    s: Prop,
)
    ensures
        are_two(ps, p_implies(p, q), p) ==> permits(InferenceRule::ModusPonens, ps, extra, q),
        are_two(ps, p_implies(p, q), p_not(q)) ==> permits(
            InferenceRule::ModusTollens,
            ps,
            extra,
            p_not(p),
        ),
        are_two(ps, p_or(p, q), p_not(p)) ==> permits(
            InferenceRule::DisjunctiveSyllogism,
            ps,
            extra,
            q,
        ),
        are_two(ps, p_or(p, q), p_not(q)) ==> permits(
            InferenceRule::DisjunctiveSyllogism,
            ps,
            extra,
            p,
        ),
        ps == seq![p_and(p, q)] ==> permits(InferenceRule::Simplification, ps, extra, p),
        ps == seq![p_and(p, q)] ==> permits(InferenceRule::Simplification, ps, extra, q),
        are_two(ps, p, q) ==> permits(InferenceRule::Conjunction, ps, extra, p_and(p, q)),
        are_two(ps, p_implies(p, q), p_implies(q, r)) ==> permits(
            InferenceRule::HypotheticalSyllogism,
            ps,
            extra,
            p_implies(p, r),
        ),
        ps == seq![p] && extra == Some(q) ==> permits(
            InferenceRule::Addition,
            ps,
            extra,
            p_or(p, q),
        ),
        ps == seq![p] && extra == Some(q) ==> permits(
            InferenceRule::Addition,
            ps,
            extra,
            p_or(q, p),
        ),
        are_three(ps, p_or(p, q), p_implies(p, r), p_implies(q, s)) ==> permits(
            InferenceRule::ConstructiveDilemma,
            ps,
            extra,
            p_or(r, s),
        ),
        are_two(ps, p, p_not(p)) ==> permits(
            InferenceRule::Contradiction,
            ps,
            extra,
            Prop::Contradiction,
        ),
{
    if are_two(ps, p_implies(p, q), p) {
        lemma_in_either(mp(ps[0], ps[1]), mp(ps[1], ps[0]), q);
        assert(mp(p_implies(p, q), p)[0] == q);
    }
    if are_two(ps, p_implies(p, q), p_not(q)) {
        lemma_in_either(mt(ps[0], ps[1]), mt(ps[1], ps[0]), p_not(p));
        assert(mt(p_implies(p, q), p_not(q))[0] == p_not(p));
    }
    if are_two(ps, p_or(p, q), p_not(p)) {
        lemma_in_either(ds(ps[0], ps[1]), ds(ps[1], ps[0]), q);
        assert(ds(p_or(p, q), p_not(p))[0] == q);
    }
    if are_two(ps, p_or(p, q), p_not(q)) {
        lemma_in_either(ds(ps[0], ps[1]), ds(ps[1], ps[0]), p);
        let all = ds(p_or(p, q), p_not(q));
        assert(all[all.len() - 1] == p);
    }
    if ps == seq![p_and(p, q)] {
        assert(conclusions(InferenceRule::Simplification, ps, extra)[0] == p);
        assert(conclusions(InferenceRule::Simplification, ps, extra)[1] == q);
    }
    if are_two(ps, p, q) {
        assert(conclusions(InferenceRule::Conjunction, ps, extra)[0] == p_and(ps[0], ps[1]));
    }
    if are_two(ps, p_implies(p, q), p_implies(q, r)) {
        lemma_in_either(hs(ps[0], ps[1]), hs(ps[1], ps[0]), p_implies(p, r));
        assert(hs(p_implies(p, q), p_implies(q, r))[0] == p_implies(p, r));
    }
    if ps == seq![p] && extra == Some(q) {
        assert(conclusions(InferenceRule::Addition, ps, extra)[0] == p_or(p, q));
        assert(conclusions(InferenceRule::Addition, ps, extra)[1] == p_or(q, p));
    }
    if are_three(ps, p_or(p, q), p_implies(p, r), p_implies(q, s)) {
        let x = p_or(r, s);
        let a = cd(ps[0], ps[1], ps[2]);
        let b = cd(ps[0], ps[2], ps[1]);
        let c = cd(ps[1], ps[0], ps[2]);
        let d = cd(ps[1], ps[2], ps[0]);
        let e = cd(ps[2], ps[0], ps[1]);
        let f = cd(ps[2], ps[1], ps[0]);
        lemma_in_either(a, b, x);
        lemma_in_either(a + b, c, x);
        lemma_in_either(a + b + c, d, x);
        lemma_in_either(a + b + c + d, e, x);
        lemma_in_either(a + b + c + d + e, f, x);
        assert(cd(p_or(p, q), p_implies(p, r), p_implies(q, s))[0] == x);
    }
    if are_two(ps, p, p_not(p)) {
        lemma_in_either(neg_e(ps[0], ps[1]), neg_e(ps[1], ps[0]), Prop::Contradiction);
        assert(neg_e(p, p_not(p))[0] == Prop::Contradiction);
    }
}

/// Membership in two joined lists.
proof fn lemma_in_either(a: Seq<Prop>, b: Seq<Prop>, x: Prop)
    ensures
        (a + b).contains(x) <==> a.contains(x) || b.contains(x),
{
    lemma_in_joined(a, b, x);
}

/// No rule permits anything but its textbook instances: what it concludes and from what
/// is of the shape that the rule is named for.
pub proof fn law_only_instances_permitted(
    rule: InferenceRule,
    ps: Seq<Prop>,
    extra: Option<Prop>,
    c: Prop,
)
    requires
        permits(rule, ps, extra, c),
    ensures
        rule == InferenceRule::ModusPonens ==> exists|p: Prop| #[trigger]
            are_two(ps, p_implies(p, c), p),
        rule == InferenceRule::ModusTollens ==> exists|p: Prop, q: Prop| #[trigger]
            are_two(ps, p_implies(p, q), p_not(q)) && c == p_not(p),
        rule == InferenceRule::DisjunctiveSyllogism ==> (exists|p: Prop| #[trigger]
            are_two(ps, p_or(p, c), p_not(p))) || (exists|p: Prop| #[trigger]
            are_two(ps, p_or(c, p), p_not(p))),
        rule == InferenceRule::Simplification ==> exists|p: Prop| #[trigger]
            p_and(p, c) == ps[0] || p_and(c, p) == ps[0],
        rule == InferenceRule::Conjunction ==> exists|p: Prop, q: Prop| #[trigger]
            are_two(ps, p, q) && c == p_and(p, q),
        rule == InferenceRule::HypotheticalSyllogism ==> exists|p: Prop, q: Prop, r: Prop|
            #![trigger are_two(ps, p_implies(p, q), p_implies(q, r))]
            are_two(ps, p_implies(p, q), p_implies(q, r)) && c == p_implies(p, r),
        rule == InferenceRule::Addition ==> extra is Some && (c == p_or(ps[0], extra->0) || c
            == p_or(extra->0, ps[0])),
        rule == InferenceRule::ConstructiveDilemma ==> exists|p: Prop, q: Prop, r: Prop, s: Prop|
            #![trigger are_three(ps, p_or(p, q), p_implies(p, r), p_implies(q, s))]
            are_three(ps, p_or(p, q), p_implies(p, r), p_implies(q, s)) && c == p_or(r, s),
        rule == InferenceRule::Contradiction ==> c == Prop::Contradiction && exists|p: Prop|
            #[trigger] are_two(ps, p, p_not(p)),
        ps.len() == match rule {
            InferenceRule::Simplification | InferenceRule::Addition => 1int,
            InferenceRule::ConstructiveDilemma => 3,
            _ => 2,
        },
{
    if ps.len() == 2 {
        assert(ps =~= seq![ps[0], ps[1]]);
    }
    match rule {
        InferenceRule::ModusPonens => {
            lemma_in_either(mp(ps[0], ps[1]), mp(ps[1], ps[0]), c);
            let (f, g) = if mp(ps[0], ps[1]).contains(c) {
                (ps[0], ps[1])
            } else {
                (ps[1], ps[0])
            };
            assert(mp(f, g).contains(c));
            assert(f == p_implies(g, c));
            assert(are_two(ps, p_implies(g, c), g));
        },
        InferenceRule::ModusTollens => {
            lemma_in_either(mt(ps[0], ps[1]), mt(ps[1], ps[0]), c);
            let (f, g) = if mt(ps[0], ps[1]).contains(c) {
                (ps[0], ps[1])
            } else {
                (ps[1], ps[0])
            };
            assert(mt(f, g).contains(c));
            match f {
                Prop::Implies(p, q) => {
                    assert(f == p_implies(*p, *q) && g == p_not(*q));
                    assert(are_two(ps, p_implies(*p, *q), p_not(*q)));
                },
                _ => {},
            }
        },
        InferenceRule::DisjunctiveSyllogism => {
            lemma_in_either(ds(ps[0], ps[1]), ds(ps[1], ps[0]), c);
            let (f, g) = if ds(ps[0], ps[1]).contains(c) {
                (ps[0], ps[1])
            } else {
                (ps[1], ps[0])
            };
            assert(ds(f, g).contains(c));
            match (f, g) {
                (Prop::Or(l, r), Prop::Not(n)) => {
                    assert(f == p_or(*l, *r) && g == p_not(*n));
                    if *n == *l && c == *r {
                        assert(are_two(ps, p_or(*n, c), p_not(*n)));
                    } else {
                        assert(*n == *r && c == *l);
                        assert(are_two(ps, p_or(c, *n), p_not(*n)));
                    }
                },
                _ => {},
            }
        },
        InferenceRule::Simplification => {
            match ps[0] {
                Prop::And(l, r) => {
                    assert(ps[0] == p_and(*l, *r));
                    if c == *l {
                        assert(p_and(c, *r) == ps[0]);
                        assert(p_and(*r, c) == ps[0] || p_and(c, *r) == ps[0]);
                    } else {
                        assert(p_and(*l, c) == ps[0] || p_and(c, *l) == ps[0]);
                    }
                },
                _ => {},
            }
        },
        InferenceRule::Conjunction => {
            if c == p_and(ps[0], ps[1]) {
                assert(are_two(ps, ps[0], ps[1]));
            } else {
                assert(c == p_and(ps[1], ps[0]));
                assert(are_two(ps, ps[1], ps[0]));
            }
        },
        InferenceRule::HypotheticalSyllogism => {
            lemma_in_either(hs(ps[0], ps[1]), hs(ps[1], ps[0]), c);
            let (f, g) = if hs(ps[0], ps[1]).contains(c) {
                (ps[0], ps[1])
            } else {
                (ps[1], ps[0])
            };
            assert(hs(f, g).contains(c));
            match (f, g) {
                (Prop::Implies(p, q), Prop::Implies(q2, r)) => {
                    assert(f == p_implies(*p, *q) && g == p_implies(*q, *r));
                    assert(are_two(ps, p_implies(*p, *q), p_implies(*q, *r)));
                },
                _ => {},
            }
        },
        InferenceRule::Addition => {},
        InferenceRule::ConstructiveDilemma => {
            lemma_cd_shape(ps, c);
        },
        InferenceRule::Contradiction => {
            lemma_in_either(neg_e(ps[0], ps[1]), neg_e(ps[1], ps[0]), c);
            let (f, g) = if neg_e(ps[0], ps[1]).contains(c) {
                (ps[0], ps[1])
            } else {
                (ps[1], ps[0])
            };
            assert(neg_e(f, g).contains(c));
            assert(g == p_not(f) && c == Prop::Contradiction);
            assert(are_two(ps, f, p_not(f)));
        },
    }
}

/// [`law_only_instances_permitted`] for constructive dilemma.
proof fn lemma_cd_shape(ps: Seq<Prop>, x: Prop)
    requires
        permits(InferenceRule::ConstructiveDilemma, ps, None, x),
    ensures
        ps.len() == 3,
        exists|p: Prop, q: Prop, r: Prop, s: Prop|
            #![trigger are_three(ps, p_or(p, q), p_implies(p, r), p_implies(q, s))]
            are_three(ps, p_or(p, q), p_implies(p, r), p_implies(q, s)) && x == p_or(r, s),
{
    let a = cd(ps[0], ps[1], ps[2]);
    let b = cd(ps[0], ps[2], ps[1]);
    let c = cd(ps[1], ps[0], ps[2]);
    let d = cd(ps[1], ps[2], ps[0]);
    let e = cd(ps[2], ps[0], ps[1]);
    let f = cd(ps[2], ps[1], ps[0]);
    lemma_in_either(a, b, x);
    lemma_in_either(a + b, c, x);
    lemma_in_either(a + b + c, d, x);
    lemma_in_either(a + b + c + d, e, x);
    lemma_in_either(a + b + c + d + e, f, x);
    let (u, v, w) = if a.contains(x) {
        (ps[0], ps[1], ps[2])
    } else if b.contains(x) {
        (ps[0], ps[2], ps[1])
    } else if c.contains(x) {
        (ps[1], ps[0], ps[2])
    } else if d.contains(x) {
        (ps[1], ps[2], ps[0])
    } else if e.contains(x) {
        (ps[2], ps[0], ps[1])
    } else {
        (ps[2], ps[1], ps[0])
    };
    assert(cd(u, v, w).contains(x));
    assert(are_three(ps, u, v, w)) by {
        assert(ps =~= seq![ps[0], ps[1], ps[2]]);
    }
    match (u, v, w) {
        (Prop::Or(p, q), Prop::Implies(p2, r), Prop::Implies(q2, s)) => {
            assert(u == p_or(*p, *q) && v == p_implies(*p, *r) && w == p_implies(*q, *s));
            assert(are_three(ps, p_or(*p, *q), p_implies(*p, *r), p_implies(*q, *s)));
        },
        _ => {},
    }
}

/// The models of a list of references to formulas.
pub open spec fn ref_views(s: Seq<&Formula>) -> Seq<Prop> {
    Seq::new(s.len(), |i: int| s[i]@)
}

pub(crate) fn push_mp(out: &mut Vec<Formula>, f: &Formula, g: &Formula)
    ensures
        views(final(out)@) == views(old(out)@) + mp(f@, g@),
{
    broadcast use lemma_views_push;

    let ghost start = views(out@);
    match f {
        Formula::Implies(a, c) => {
            if a.same(g) {
                out.push((&**c).clone());
            }
        },
        _ => {},
    }
    assert(views(out@) =~= start + mp(f@, g@));
}

pub(crate) fn push_mt(out: &mut Vec<Formula>, f: &Formula, g: &Formula)
    ensures
        views(final(out)@) == views(old(out)@) + mt(f@, g@),
{
    broadcast use lemma_views_push;

    let ghost start = views(out@);
    match (f, g) {
        (Formula::Implies(a, c), Formula::Not(n)) => {
            if n.same(c) {
                out.push(not_of(a));
            }
        },
        _ => {},
    }
    assert(views(out@) =~= start + mt(f@, g@));
}

pub(crate) fn push_ds(out: &mut Vec<Formula>, f: &Formula, g: &Formula)
    ensures
        views(final(out)@) == views(old(out)@) + ds(f@, g@),
{
    broadcast use lemma_views_push;

    let ghost start = views(out@);
    match (f, g) {
        (Formula::Or(l, r), Formula::Not(n)) => {
            if n.same(l) {
                out.push((&**r).clone());
            }
            if n.same(r) {
                out.push((&**l).clone());
            }
        },
        _ => {},
    }
    assert(views(out@) =~= start + ds(f@, g@));
}

pub(crate) fn push_simp(out: &mut Vec<Formula>, f: &Formula)
    ensures
        views(final(out)@) == views(old(out)@) + simp(f@),
{
    broadcast use lemma_views_push;

    let ghost start = views(out@);
    match f {
        Formula::And(l, r) => {
            out.push((&**l).clone());
            out.push((&**r).clone());
        },
        _ => {},
    }
    assert(views(out@) =~= start + simp(f@));
}

pub(crate) fn push_hs(out: &mut Vec<Formula>, f: &Formula, g: &Formula)
    ensures
        views(final(out)@) == views(old(out)@) + hs(f@, g@),
{
    broadcast use lemma_views_push;

    let ghost start = views(out@);
    match (f, g) {
        (Formula::Implies(p, q), Formula::Implies(q2, r)) => {
            if q.same(q2) {
                out.push(implies_of(p, r));
            }
        },
        _ => {},
    }
    assert(views(out@) =~= start + hs(f@, g@));
}

pub(crate) fn push_cd(out: &mut Vec<Formula>, f: &Formula, g: &Formula, h: &Formula)
    ensures
        views(final(out)@) == views(old(out)@) + cd(f@, g@, h@),
{
    broadcast use lemma_views_push;

    let ghost start = views(out@);
    match (f, g, h) {
        (Formula::Or(p, q), Formula::Implies(p2, r), Formula::Implies(q2, s)) => {
            if p.same(p2) && q.same(q2) {
                out.push(or_of(r, s));
            }
        },
        _ => {},
    }
    assert(views(out@) =~= start + cd(f@, g@, h@));
}

pub(crate) fn push_neg_e(out: &mut Vec<Formula>, f: &Formula, g: &Formula)
    ensures
        views(final(out)@) == views(old(out)@) + neg_e(f@, g@),
{
    broadcast use lemma_views_push;

    let ghost start = views(out@);
    match g {
        Formula::Not(n) => {
            if n.same(f) {
                out.push(Formula::Contradiction);
            }
        },
        _ => {},
    }
    assert(views(out@) =~= start + neg_e(f@, g@));
}

/// Every rule is on the list, once.
pub proof fn law_all_inference_rules(rule: InferenceRule)
    ensures
        all_inference_rules().contains(rule),
        all_inference_rules().len() == 9,
        forall|i: int, j: int|
            0 <= i < j < all_inference_rules().len() ==> #[trigger] all_inference_rules()[i]
                != #[trigger] all_inference_rules()[j],
{
    let all = all_inference_rules();
    match rule {
        InferenceRule::ModusPonens => assert(all[0] == rule),
        InferenceRule::ModusTollens => assert(all[1] == rule),
        InferenceRule::DisjunctiveSyllogism => assert(all[2] == rule),
        InferenceRule::Simplification => assert(all[3] == rule),
        InferenceRule::Conjunction => assert(all[4] == rule),
        InferenceRule::HypotheticalSyllogism => assert(all[5] == rule),
        InferenceRule::Addition => assert(all[6] == rule),
        InferenceRule::ConstructiveDilemma => assert(all[7] == rule),
        InferenceRule::Contradiction => assert(all[8] == rule),
    }
}

/// Rules go by different names, of letters alone.
pub proof fn law_inference_names(a: InferenceRule, b: InferenceRule)
    ensures
        a.short_name() == b.short_name() ==> a == b,
        a.short_name().len() > 0,
        forall|i: int|
            0 <= i < a.short_name().len() ==> 'A' <= #[trigger] a.short_name()[i] <= 'z',
{
    reveal_strlit("MP");
    reveal_strlit("MT");
    reveal_strlit("DS");
    reveal_strlit("Simp");
    reveal_strlit("Conj");
    reveal_strlit("HS");
    reveal_strlit("Add");
    reveal_strlit("CD");
    reveal_strlit("NegE");
    if a.short_name() == b.short_name() {
        assert(a.short_name()[0] == b.short_name()[0]);
        assert(a.short_name()[1] == b.short_name()[1]);
        assert(a.short_name().len() == b.short_name().len());
    }
}

impl InferenceRule {
    /// All inference rules, in order.
    pub fn all() -> (r: Vec<InferenceRule>)
        ensures
            r@ == all_inference_rules(),
    {
        vec![
            InferenceRule::ModusPonens,
            InferenceRule::ModusTollens,
            InferenceRule::DisjunctiveSyllogism,
            InferenceRule::Simplification,
            InferenceRule::Conjunction,
            InferenceRule::HypotheticalSyllogism,
            InferenceRule::Addition,
            InferenceRule::ConstructiveDilemma,
            InferenceRule::Contradiction,
        ]
    }

    /// The short name of the rule.
    pub open spec fn short_name(self) -> Seq<char> {
        match self {
            InferenceRule::ModusPonens => "MP"@,
            InferenceRule::ModusTollens => "MT"@,
            InferenceRule::DisjunctiveSyllogism => "DS"@,
            InferenceRule::Simplification => "Simp"@,
            InferenceRule::Conjunction => "Conj"@,
            InferenceRule::HypotheticalSyllogism => "HS"@,
            InferenceRule::Addition => "Add"@,
            InferenceRule::ConstructiveDilemma => "CD"@,
            InferenceRule::Contradiction => "NegE"@,
        }
    }

    /// The short name of the rule.
    pub fn abbreviation(&self) -> (r: &'static str)
        ensures
            r@ == self.short_name(),
    {
        match self {
            InferenceRule::ModusPonens => "MP",
            InferenceRule::ModusTollens => "MT",
            InferenceRule::DisjunctiveSyllogism => "DS",
            InferenceRule::Simplification => "Simp",
            InferenceRule::Conjunction => "Conj",
            InferenceRule::HypotheticalSyllogism => "HS",
            InferenceRule::Addition => "Add",
            InferenceRule::ConstructiveDilemma => "CD",
            InferenceRule::Contradiction => "NegE",
        }
    }

    /// How many premises the rule takes.
    pub fn premise_count(&self) -> (r: usize)
        ensures
            r == premise_count(*self),
    {
        match self {
            InferenceRule::Simplification | InferenceRule::Addition => 1,
            InferenceRule::ConstructiveDilemma => 3,
            _ => 2,
        }
    }

    /// Everything that the rule concludes from the premises.
    pub fn all_conclusions(&self, premises: &[&Formula], extra: Option<&Formula>) -> (r: Vec<
        Formula,
    >)
        ensures
            views(r@) == conclusions(
                *self,
                ref_views(premises@),
                match extra {
                    Some(f) => Some(f@),
                    None => None,
                },
            ),
    {
        broadcast use lemma_views_push;

        let ghost ps = ref_views(premises@);
        let ghost ex = match extra {
            Some(f) => Some(f@),
            None => None,
        };
        let mut r: Vec<Formula> = Vec::new();
        assert(views(r@) =~= seq![]);
        if premises.len() != self.premise_count() {
            return r;
        }
        let a = premises[0];
        match self {
            InferenceRule::ModusPonens => {
                let b = premises[1];
                push_mp(&mut r, a, b);
                push_mp(&mut r, b, a);
            },
            InferenceRule::ModusTollens => {
                let b = premises[1];
                push_mt(&mut r, a, b);
                push_mt(&mut r, b, a);
            },
            InferenceRule::DisjunctiveSyllogism => {
                let b = premises[1];
                push_ds(&mut r, a, b);
                push_ds(&mut r, b, a);
            },
            InferenceRule::Simplification => {
                push_simp(&mut r, a);
            },
            InferenceRule::Conjunction => {
                let b = premises[1];
                r.push(and_of(a, b));
            },
            InferenceRule::HypotheticalSyllogism => {
                let b = premises[1];
                push_hs(&mut r, a, b);
                push_hs(&mut r, b, a);
            },
            InferenceRule::Addition => {
                match extra {
                    Some(q) => {
                        r.push(or_of(a, q));
                        r.push(or_of(q, a));
                    },
                    None => {},
                }
            },
            InferenceRule::ConstructiveDilemma => {
                let b = premises[1];
                let c = premises[2];
                push_cd(&mut r, a, b, c);
                push_cd(&mut r, a, c, b);
                push_cd(&mut r, b, a, c);
                push_cd(&mut r, b, c, a);
                push_cd(&mut r, c, a, b);
                push_cd(&mut r, c, b, a);
            },
            InferenceRule::Contradiction => {
                let b = premises[1];
                push_neg_e(&mut r, a, b);
                push_neg_e(&mut r, b, a);
            },
        }
        assert(views(r@) =~= conclusions(*self, ps, ex));
        r
    }

    /// Whether the rule permits to conclude `conclusion` from the premises, in whatever
    /// order they are given.
    pub fn verify(
        &self,
        premises: &[&Formula],
        conclusion: &Formula,
        extra: Option<&Formula>,
    ) -> (r: bool)
        ensures
            r == permits(
                *self,
                ref_views(premises@),
                match extra {
                    Some(f) => Some(f@),
                    None => None,
                },
                conclusion@,
            ),
    {
        if *self == InferenceRule::Conjunction && premises.len() == 2 && and_of(
            premises[1],
            premises[0],
        ).same(conclusion) {
            return true;
        }
        let all = self.all_conclusions(premises, extra);
        contains(all.as_slice(), conclusion)
    }
}

} // verus!
