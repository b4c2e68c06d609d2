//! What can be derived in so many lines, with no search in it.
//!
//! From known formulas, counted but in no order, a goal is derivable in so many lines if
//! some move leads there: a rule or a rewrite that adds a formula, a conditional or an
//! indirect proof, addition, conjunction, or a rewrite of another goal. A derivation
//! leaves more formulas known than there were: all that it has established outside closed
//! subproofs, the goal included. The right half of a conjunction is derived from all that
//! the derivation of the left half leaves.

use vstd::multiset::Multiset;
use vstd::prelude::*;

use super::moves::{law_rules_sound, MoveRule};
use crate::models::formula::{eval, p_not, Prop, Valuation};
use crate::models::rewriting::{law_rewrites_equivalent, rewrites};
use crate::models::rules::equivalence::EquivalenceRule;

verus! {

/// The formulas that a rule takes, counted.
pub open spec fn taken(rule: MoveRule, f: Prop, g: Prop, h: Prop) -> Multiset<Prop> {
    let one = Multiset::<Prop>::empty().insert(f);
    if rule.arity() == 1 {
        one
    } else if rule.arity() == 2 {
        one.insert(g)
    } else {
        one.insert(g).insert(h)
    }
}

/// Whether some forward rule leads from known formulas to `x`.
pub open spec fn offered(known: Multiset<Prop>, x: Prop) -> bool {
    exists|rule: MoveRule, f: Prop, g: Prop, h: Prop|
        #![trigger rule.gives(f, g, h).contains(x), taken(rule, f, g, h)]
        rule.gives(f, g, h).contains(x) && taken(rule, f, g, h).subset_of(known)
}

/// Whether a rewrite leads from a known formula to `x`.
pub open spec fn rewritten_from(known: Multiset<Prop>, x: Prop) -> bool {
    exists|f: Prop, rule: EquivalenceRule|
        known.contains(f) && #[trigger] rewrites(f).contains((x, rule))
}

/// Whether `i` of `lines` lines leave one over.
pub open spec fn spare(i: nat, lines: nat) -> bool {
    i < lines
}

/// Known formulas together with one more, unless it is among them.
pub open spec fn joined_by(known: Multiset<Prop>, x: Prop) -> Multiset<Prop> {
    if known.contains(x) {
        known
    } else {
        known.insert(x)
    }
}

/// Whether one line leads from the subgoal `s` to `goal`: addition, or a rewrite.
pub open spec fn serves(s: Prop, goal: Prop) -> bool {
    ||| goal matches Prop::Or(l, r) && (s == *l || s == *r)
    ||| exists|rule: EquivalenceRule| #[trigger] rewrites(goal).contains((s, rule))
}

/// Whether `goal` can be derived from known formulas in at most `lines` lines in such a
/// way that the formulas `after` are known then: those that were, and all that was
/// established on the way outside closed subproofs.
pub open spec fn leaves(
    known: Multiset<Prop>,
    goal: Prop,
    lines: nat,
    after: Multiset<Prop>,
) -> bool
    decreases lines, 0int,
{
    ||| known.contains(goal) && after == known
    ||| lines >= 1 && exists|x: Prop|
        !#[trigger] known.contains(x) && (offered(known, x) || rewritten_from(known, x)) && leaves(
            known.insert(x),
            goal,
            (lines - 1) as nat,
            after,
        )
    ||| lines >= 2 && after == joined_by(known, goal) && (goal matches Prop::Implies(a, c)
        && derivable(known.insert(*a), *c, (lines - 2) as nat))
    ||| lines >= 2 && after == joined_by(known, goal) && goal != Prop::Contradiction && derivable(
        known.insert(p_not(goal)),
        Prop::Contradiction,
        (lines - 2) as nat,
    )
    ||| lines >= 1 && exists|s: Prop, mid: Multiset<Prop>|
        #[trigger] serves(s, goal) && #[trigger] known.subset_of(mid) && leaves(
            known,
            s,
            (lines - 1) as nat,
            mid,
        ) && after == joined_by(mid, goal)
    ||| lines >= 1 && (goal matches Prop::And(l, r) && exists|
        i: nat,
        mid: Multiset<Prop>,
        end: Multiset<Prop>,
    |
        #[trigger] spare(i, lines) && #[trigger] known.subset_of(mid) && #[trigger] mid.subset_of(
            end,
        ) && leaves(known, *l, i, mid) && leaves(mid, *r, (lines - 1 - i) as nat, end) && after
            == joined_by(end, goal))
}

/// Whether `goal` can be derived from known formulas in at most `lines` lines.
pub open spec fn derivable(known: Multiset<Prop>, goal: Prop, lines: nat) -> bool
    decreases lines, 1int,
{
    exists|after: Multiset<Prop>| #[trigger]
        known.subset_of(after) && leaves(known, goal, lines, after)
}

/// How a derivation goes: what it does last, or first where that is a rule or a rewrite.
pub enum Manner {
    Known,
    Move(Prop),
    Conditional(Prop, Prop),
    Indirect,
    Served(Prop, Multiset<Prop>),
    Joined(Prop, Prop, nat, Multiset<Prop>, Multiset<Prop>),
}

/// Whether a derivation goes in the given manner.
pub open spec fn goes(
    known: Multiset<Prop>,
    goal: Prop,
    lines: nat,
    after: Multiset<Prop>,
    how: Manner,
) -> bool {
    match how {
        Manner::Known => known.contains(goal) && after == known,
        Manner::Move(x) => lines >= 1 && !known.contains(x) && (offered(known, x)
            || rewritten_from(known, x)) && leaves(
            known.insert(x),
            goal,
            (lines - 1) as nat,
            after,
        ),
        Manner::Conditional(a, c) => lines >= 2 && after == joined_by(known, goal) && goal
            == Prop::Implies(Box::new(a), Box::new(c)) && derivable(
            known.insert(a),
            c,
            (lines - 2) as nat,
        ),
        Manner::Indirect => lines >= 2 && after == joined_by(known, goal) && goal
            != Prop::Contradiction && derivable(
            known.insert(p_not(goal)),
            Prop::Contradiction,
            (lines - 2) as nat,
        ),
        Manner::Served(s, mid) => lines >= 1 && serves(s, goal) && known.subset_of(mid) && leaves(
            known,
            s,
            (lines - 1) as nat,
            mid,
        ) && after == joined_by(mid, goal),
        Manner::Joined(l, r, i, mid, end) => goal == Prop::And(Box::new(l), Box::new(r)) && spare(
            i,
            lines,
        ) && known.subset_of(mid) && mid.subset_of(end) && leaves(known, l, i, mid) && leaves(
            mid,
            r,
            (lines - 1 - i) as nat,
            end,
        ) && after == joined_by(end, goal),
    }
}

/// Every derivation goes in some manner.
pub proof fn lemma_manner(
    known: Multiset<Prop>,
    goal: Prop,
    lines: nat,
    after: Multiset<Prop>,
) -> (how: Manner)
    requires
        leaves(known, goal, lines, after),
    ensures
        goes(known, goal, lines, after, how),
{
    if known.contains(goal) && after == known {
        Manner::Known
    } else if lines >= 1 && exists|x: Prop|
        !#[trigger] known.contains(x) && (offered(known, x) || rewritten_from(known, x)) && leaves(
            known.insert(x),
            goal,
            (lines - 1) as nat,
            after,
        ) {
        let x = choose|x: Prop|
            !#[trigger] known.contains(x) && (offered(known, x) || rewritten_from(known, x))
                && leaves(known.insert(x), goal, (lines - 1) as nat, after);
        Manner::Move(x)
    } else if lines >= 2 && after == joined_by(known, goal) && (goal matches Prop::Implies(a, c)
        && derivable(known.insert(*a), *c, (lines - 2) as nat)) {
        match goal {
            Prop::Implies(a, c) => Manner::Conditional(*a, *c),
            _ => Manner::Known,
        }
    } else if lines >= 2 && after == joined_by(known, goal) && goal != Prop::Contradiction
        && derivable(known.insert(p_not(goal)), Prop::Contradiction, (lines - 2) as nat) {
        Manner::Indirect
    } else if lines >= 1 && exists|s: Prop, mid: Multiset<Prop>|
        #[trigger] serves(s, goal) && #[trigger] known.subset_of(mid) && leaves(
            known,
            s,
            (lines - 1) as nat,
            mid,
        ) && after == joined_by(mid, goal) {
        let (s, mid) = choose|s: Prop, mid: Multiset<Prop>|
            #[trigger] serves(s, goal) && #[trigger] known.subset_of(mid) && leaves(
                known,
                s,
                (lines - 1) as nat,
                mid,
            ) && after == joined_by(mid, goal);
        Manner::Served(s, mid)
    } else {
        match goal {
            Prop::And(l, r) => {
                let (i, mid, end) = choose|i: nat, mid: Multiset<Prop>, end: Multiset<Prop>|
                    #[trigger] spare(i, lines) && #[trigger] known.subset_of(mid)
                        && #[trigger] mid.subset_of(end) && leaves(known, *l, i, mid) && leaves(
                        mid,
                        *r,
                        (lines - 1 - i) as nat,
                        end,
                    ) && after == joined_by(end, goal);
                Manner::Joined(*l, *r, i, mid, end)
            },
            _ => Manner::Known,
        }
    }
}

/// A derivation keeps what was known and establishes its goal.
pub proof fn lemma_leaves(known: Multiset<Prop>, goal: Prop, lines: nat, after: Multiset<Prop>)
    requires
        leaves(known, goal, lines, after),
    ensures
        known.subset_of(after),
        after.contains(goal),
    decreases lines,
{
    broadcast use vstd::multiset::group_multiset_axioms;

    match lemma_manner(known, goal, lines, after) {
        Manner::Move(x) => {
            lemma_leaves(known.insert(x), goal, (lines - 1) as nat, after);
            assert forall|y: Prop| known.count(y) <= after.count(y) by {
                assert(known.insert(x).count(y) <= after.count(y));
            }
        },
        Manner::Served(s, mid) => {
            lemma_joined_keeps(known, mid, goal);
        },
        Manner::Joined(l, r, i, mid, end) => {
            assert(known.subset_of(end)) by {
                assert forall|y: Prop| known.count(y) <= end.count(y) by {
                    assert(known.count(y) <= mid.count(y) && mid.count(y) <= end.count(y));
                }
            }
            lemma_joined_keeps(known, end, goal);
        },
        _ => {
            lemma_joined_keeps(known, known, goal);
        },
    }
}

/// Joining a formula keeps what is there.
pub proof fn lemma_joined_keeps(known: Multiset<Prop>, more: Multiset<Prop>, x: Prop)
    requires
        known.subset_of(more),
    ensures
        known.subset_of(joined_by(more, x)),
        joined_by(more, x).contains(x),
{
    broadcast use vstd::multiset::group_multiset_axioms;

    assert forall|y: Prop| known.count(y) <= joined_by(more, x).count(y) by {
        assert(known.count(y) <= more.count(y));
    }
}

/// A collection that holds another and one formula more that the other does not.
pub proof fn lemma_insert_within(known: Multiset<Prop>, more: Multiset<Prop>, x: Prop)
    requires
        known.subset_of(more),
        !known.contains(x),
        more.contains(x),
    ensures
        known.insert(x).subset_of(more),
{
    broadcast use vstd::multiset::group_multiset_axioms;

    assert forall|y: Prop| known.insert(x).count(y) <= more.count(y) by {
        assert(known.count(y) <= more.count(y));
    }
}

/// What is offered, or is one rewrite away, stays so when more is known.
pub proof fn lemma_offered_more(known: Multiset<Prop>, more: Multiset<Prop>, x: Prop)
    requires
        known.subset_of(more),
        offered(known, x) || rewritten_from(known, x),
    ensures
        offered(more, x) || rewritten_from(more, x),
{
    broadcast use vstd::multiset::group_multiset_axioms;

    if offered(known, x) {
        let (rule, f, g, h) = choose|rule: MoveRule, f: Prop, g: Prop, h: Prop|
            #![trigger rule.gives(f, g, h).contains(x), taken(rule, f, g, h)]
            rule.gives(f, g, h).contains(x) && taken(rule, f, g, h).subset_of(known);
        assert(taken(rule, f, g, h).subset_of(more)) by {
            assert forall|y: Prop| taken(rule, f, g, h).count(y) <= more.count(y) by {
                assert(taken(rule, f, g, h).count(y) <= known.count(y));
                assert(known.count(y) <= more.count(y));
            }
        }
        assert(offered(more, x));
    } else {
        let (f, rule) = choose|f: Prop, rule: EquivalenceRule|
            known.contains(f) && #[trigger] rewrites(f).contains((x, rule));
        assert(known.count(f) <= more.count(f));
        assert(rewritten_from(more, x));
    }
}

/// What is offered, or is one rewrite away, is true where all that is known is.
pub proof fn lemma_offered_true(known: Multiset<Prop>, x: Prop, v: Valuation)
    requires
        offered(known, x) || rewritten_from(known, x),
        known_true(known, v),
    ensures
        eval(x, v),
{
    broadcast use vstd::multiset::group_multiset_axioms;

    if offered(known, x) {
        let (rule, f, g, h) = choose|rule: MoveRule, f: Prop, g: Prop, h: Prop|
            #![trigger rule.gives(f, g, h).contains(x), taken(rule, f, g, h)]
            rule.gives(f, g, h).contains(x) && taken(rule, f, g, h).subset_of(known);
        let t = taken(rule, f, g, h);
        assert(t.count(f) <= known.count(f));
        assert(known.contains(f));
        if rule.arity() >= 2 {
            assert(t.count(g) <= known.count(g));
            assert(known.contains(g));
        }
        if rule.arity() == 3 {
            assert(t.count(h) <= known.count(h));
            assert(known.contains(h));
        }
        law_rules_sound(rule, f, g, h, x, v);
    } else {
        let (f, rule) = choose|f: Prop, rule: EquivalenceRule|
            known.contains(f) && #[trigger] rewrites(f).contains((x, rule));
        law_rewrites_equivalent(f, x, rule);
        assert(eval(f, v) == eval(x, v));
    }
}

/// With more lines and more known formulas a derivation leaves no less.
proof fn lemma_leaves_monotone(
    known: Multiset<Prop>,
    more: Multiset<Prop>,
    goal: Prop,
    lines: nat,
    greater: nat,
    after: Multiset<Prop>,
) -> (left: Multiset<Prop>)
    requires
        leaves(known, goal, lines, after),
        known.subset_of(more),
        lines <= greater,
    ensures
        leaves(more, goal, greater, left),
        more.subset_of(left),
        after.subset_of(left),
    decreases lines, 0int,
{
    broadcast use vstd::multiset::group_multiset_axioms;

    match lemma_manner(known, goal, lines, after) {
        Manner::Known => {
            assert(known.count(goal) <= more.count(goal));
            more
        },
        Manner::Move(x) => {
            if more.contains(x) {
                lemma_insert_within(known, more, x);
                lemma_leaves_monotone(
                    known.insert(x),
                    more,
                    goal,
                    (lines - 1) as nat,
                    greater,
                    after,
                )
            } else {
                lemma_insert_subset(known, more, x);
                let left = lemma_leaves_monotone(
                    known.insert(x),
                    more.insert(x),
                    goal,
                    (lines - 1) as nat,
                    (greater - 1) as nat,
                    after,
                );
                lemma_offered_more(known, more, x);
                assert(!more.contains(x));
                assert(leaves(more, goal, greater, left));
                lemma_leaves(more, goal, greater, left);
                left
            }
        },
        Manner::Conditional(a, c) => {
            lemma_insert_subset(known, more, a);
            law_derivable_monotone(
                known.insert(a),
                more.insert(a),
                c,
                (lines - 2) as nat,
                (greater - 2) as nat,
            );
            lemma_joined_subset(known, more, goal);
            lemma_joined_keeps(more, more, goal);
            joined_by(more, goal)
        },
        Manner::Indirect => {
            lemma_insert_subset(known, more, p_not(goal));
            law_derivable_monotone(
                known.insert(p_not(goal)),
                more.insert(p_not(goal)),
                Prop::Contradiction,
                (lines - 2) as nat,
                (greater - 2) as nat,
            );
            lemma_joined_subset(known, more, goal);
            lemma_joined_keeps(more, more, goal);
            joined_by(more, goal)
        },
        Manner::Served(s, mid) => {
            let left = lemma_leaves_monotone(
                known,
                more,
                s,
                (lines - 1) as nat,
                (greater - 1) as nat,
                mid,
            );
            lemma_joined_subset(mid, left, goal);
            lemma_joined_keeps(more, left, goal);
            assert(serves(s, goal) && more.subset_of(left));
            joined_by(left, goal)
        },
        Manner::Joined(l, r, i, mid, end) => {
            let m = lemma_leaves_monotone(known, more, l, i, i, mid);
            let e = lemma_leaves_monotone(
                mid,
                m,
                r,
                (lines - 1 - i) as nat,
                (greater - 1 - i) as nat,
                end,
            );
            lemma_joined_subset(end, e, goal);
            assert(more.subset_of(e)) by {
                assert forall|y: Prop| more.count(y) <= e.count(y) by {
                    assert(more.count(y) <= m.count(y) && m.count(y) <= e.count(y));
                }
            }
            lemma_joined_keeps(more, e, goal);
            assert(spare(i, greater) && more.subset_of(m) && m.subset_of(e));
            joined_by(e, goal)
        },
    }
}

/// More lines and more known formulas do no harm.
pub proof fn law_derivable_monotone(
    known: Multiset<Prop>,
    more: Multiset<Prop>,
    goal: Prop,
    lines: nat,
    greater: nat,
)
    requires
        derivable(known, goal, lines),
        known.subset_of(more),
        lines <= greater,
    ensures
        derivable(more, goal, greater),
    decreases lines, 1int,
{
    let after = choose|after: Multiset<Prop>| #[trigger]
        known.subset_of(after) && leaves(known, goal, lines, after);
    let left = lemma_leaves_monotone(known, more, goal, lines, greater, after);
    assert(more.subset_of(left) && leaves(more, goal, greater, left));
}

/// Adding the same formula keeps one collection within the other.
pub proof fn lemma_insert_subset(known: Multiset<Prop>, more: Multiset<Prop>, x: Prop)
    requires
        known.subset_of(more),
    ensures
        known.insert(x).subset_of(more.insert(x)),
{
    broadcast use vstd::multiset::group_multiset_axioms;

    assert forall|y: Prop| known.insert(x).count(y) <= more.insert(x).count(y) by {
        assert(known.count(y) <= more.count(y));
    }
}

/// Joining the same formula keeps one collection within the other.
pub proof fn lemma_joined_subset(known: Multiset<Prop>, more: Multiset<Prop>, x: Prop)
    requires
        known.subset_of(more),
    ensures
        joined_by(known, x).subset_of(joined_by(more, x)),
{
    broadcast use vstd::multiset::group_multiset_axioms;

    assert forall|y: Prop| joined_by(known, x).count(y) <= joined_by(more, x).count(y) by {
        assert(known.count(y) <= more.count(y));
        assert(known.count(x) <= more.count(x));
    }
}

/// Whether all known formulas are true.
pub open spec fn known_true(known: Multiset<Prop>, v: Valuation) -> bool {
    forall|f: Prop| #[trigger] known.contains(f) ==> eval(f, v)
}

/// All that a derivation leaves is true wherever all that is known is.
pub proof fn law_leaves_sound(
    known: Multiset<Prop>,
    goal: Prop,
    lines: nat,
    after: Multiset<Prop>,
    v: Valuation,
)
    requires
        leaves(known, goal, lines, after),
        known_true(known, v),
    ensures
        known_true(after, v),
    decreases lines, 0int,
{
    match lemma_manner(known, goal, lines, after) {
        Manner::Known => {},
        Manner::Move(x) => {
            lemma_offered_true(known, x, v);
            lemma_known_insert(known, x, v);
            law_leaves_sound(known.insert(x), goal, (lines - 1) as nat, after, v);
        },
        Manner::Conditional(a, c) => {
            if eval(a, v) {
                lemma_known_insert(known, a, v);
                law_derivable_sound(known.insert(a), c, (lines - 2) as nat, v);
            }
            lemma_known_insert(known, goal, v);
        },
        Manner::Indirect => {
            if !eval(goal, v) {
                assert(eval(p_not(goal), v));
                lemma_known_insert(known, p_not(goal), v);
                law_derivable_sound(
                    known.insert(p_not(goal)),
                    Prop::Contradiction,
                    (lines - 2) as nat,
                    v,
                );
            }
            lemma_known_insert(known, goal, v);
        },
        Manner::Served(s, mid) => {
            law_leaves_sound(known, s, (lines - 1) as nat, mid, v);
            lemma_leaves(known, s, (lines - 1) as nat, mid);
            assert(eval(s, v));
            if exists|rule: EquivalenceRule| #[trigger] rewrites(goal).contains((s, rule)) {
                let rule = choose|rule: EquivalenceRule| #[trigger]
                    rewrites(goal).contains((s, rule));
                law_rewrites_equivalent(goal, s, rule);
                assert(eval(goal, v) == eval(s, v));
            }
            lemma_known_insert(mid, goal, v);
        },
        Manner::Joined(l, r, i, mid, end) => {
            law_leaves_sound(known, l, i, mid, v);
            law_leaves_sound(mid, r, (lines - 1 - i) as nat, end, v);
            lemma_leaves(known, l, i, mid);
            lemma_leaves(mid, r, (lines - 1 - i) as nat, end);
            assert(eval(l, v));
            assert(eval(r, v));
            lemma_known_insert(end, goal, v);
        },
    }
}

/// What can be derived is true wherever all that is known is.
pub proof fn law_derivable_sound(known: Multiset<Prop>, goal: Prop, lines: nat, v: Valuation)
    requires
        derivable(known, goal, lines),
        known_true(known, v),
    ensures
        eval(goal, v),
    decreases lines, 1int,
{
    let after = choose|after: Multiset<Prop>| #[trigger]
        known.subset_of(after) && leaves(known, goal, lines, after);
    law_leaves_sound(known, goal, lines, after, v);
    lemma_leaves(known, goal, lines, after);
}

/// One true formula more.
pub proof fn lemma_known_insert(known: Multiset<Prop>, x: Prop, v: Valuation)
    requires
        known_true(known, v),
        eval(x, v),
    ensures
        known_true(known.insert(x), v),
{
    broadcast use vstd::multiset::group_multiset_axioms;

    assert forall|f: Prop| #[trigger] known.insert(x).contains(f) implies eval(f, v) by {
        if f != x {
            assert(known.contains(f));
        }
    }
}

} // verus!
