//! What the search comes upon: a second account of what can be derived, which follows the
//! stages of the search.
//!
//! It differs from the first in the conjunction only. There the search looks for the left
//! half and then for the right half from it, or else establishes by itself a subgoal on
//! the way to the left half, with the conjunction still to come. Together these miss no
//! derivation: in one that shares what the left half has established, the first line is
//! either a rule or a rewrite, which may come before the conjunction is taken up, or it
//! establishes such a subgoal.

use vstd::multiset::Multiset;
use vstd::prelude::*;

use super::derivation::{
    derivable, joined_by, known_true, leaves, lemma_insert_subset, lemma_insert_within,
    lemma_joined_subset, lemma_known_insert, lemma_leaves, lemma_manner, lemma_offered_more,
    lemma_offered_true, offered, rewritten_from, serves, spare, Manner,
};
use super::search::halves;
use crate::models::formula::{eval, p_and, p_not, Prop, Valuation};
use crate::models::rewriting::{law_rewrites_equivalent, law_rewrites_symmetric, rewrites};
use crate::models::rules::equivalence::EquivalenceRule;

verus! {

/// Whether `w` is a subgoal of `z`: a part of it, or a rewrite.
pub open spec fn child(z: Prop, w: Prop) -> bool {
    ||| halves(z) matches Some((a, b)) && (w == a || w == b)
    ||| exists|rule: EquivalenceRule| #[trigger] rewrites(z).contains((w, rule))
}

/// Whether `y` lies `d` steps below `z`.
pub open spec fn below(z: Prop, y: Prop, d: nat) -> bool
    decreases d,
{
    if d == 0 {
        y == z
    } else {
        exists|w: Prop| #[trigger] child(z, w) && below(w, y, (d - 1) as nat)
    }
}

/// A subgoal of what lies below lies one step further below.
pub proof fn lemma_below_child(z: Prop, y: Prop, d: nat, w: Prop)
    requires
        below(z, y, d),
        child(y, w),
    ensures
        below(z, w, d + 1),
    decreases d,
{
    if d == 0 {
        assert(below(w, w, 0));
        assert(child(z, w) && below(w, w, (0 + 1 - 1) as nat));
    } else {
        let x = choose|x: Prop| #[trigger] child(z, x) && below(x, y, (d - 1) as nat);
        lemma_below_child(x, y, (d - 1) as nat, w);
        assert(child(z, x) && below(x, w, (d + 1 - 1) as nat));
    }
}

/// Whether addition or conjunction states `y` in one line.
pub open spec fn closes_now(known: Multiset<Prop>, y: Prop) -> bool {
    match y {
        Prop::Or(a, b) => known.contains(*a) || known.contains(*b),
        Prop::And(a, b) => known.contains(*a) && known.contains(*b),
        _ => false,
    }
}

/// Whether a subproof with `k` lines inside, for a subgoal `d` steps below, leaves enough
/// of `lines` lines for what is to come.
pub open spec fn room(k: nat, d: nat, lines: nat) -> bool {
    k + d + 3 <= lines
}

/// Whether the search establishes the subgoal `y`, `d` steps below the left half of the
/// conjunction `goal`, and then the conjunction, in at most `lines` lines.
pub open spec fn attained(
    known: Multiset<Prop>,
    goal: Prop,
    lines: nat,
    y: Prop,
    d: nat,
) -> bool
    decreases lines, 0int,
{
    &&& d >= 1
    &&& d + 2 <= lines
    &&& !known.contains(y)
    &&& {
        ||| closes_now(known, y) && findable(known.insert(y), goal, (lines - 1) as nat)
        ||| exists|k: nat| #[trigger]
            room(k, d, lines) && (y matches Prop::Implies(a, c) && findable(
                known.insert(*a),
                *c,
                k,
            )) && findable(known.insert(y), goal, (lines - 2 - k) as nat)
        ||| y != Prop::Contradiction && exists|k: nat| #[trigger]
            room(k, d, lines) && findable(known.insert(p_not(y)), Prop::Contradiction, k)
                && findable(known.insert(y), goal, (lines - 2 - k) as nat)
    }
}

/// Whether the search comes upon `goal` from known formulas in at most `lines` lines.
pub open spec fn findable(known: Multiset<Prop>, goal: Prop, lines: nat) -> bool
    decreases lines, 1int,
{
    ||| known.contains(goal)
    ||| lines >= 1 && exists|x: Prop|
        !#[trigger] known.contains(x) && (offered(known, x) || rewritten_from(known, x))
            && findable(known.insert(x), goal, (lines - 1) as nat)
    ||| lines >= 2 && (goal matches Prop::Implies(a, c) && findable(
        known.insert(*a),
        *c,
        (lines - 2) as nat,
    ))
    ||| lines >= 1 && (goal matches Prop::Or(l, r) && (findable(known, *l, (lines - 1) as nat)
        || findable(known, *r, (lines - 1) as nat)))
    ||| lines >= 1 && (goal matches Prop::And(l, r) && exists|i: nat|
        #[trigger] spare(i, lines) && findable(known, *l, i) && findable(
            joined_by(known, *l),
            *r,
            (lines - 1 - i) as nat,
        ))
    ||| lines >= 2 && goal != Prop::Contradiction && findable(
        known.insert(p_not(goal)),
        Prop::Contradiction,
        (lines - 2) as nat,
    )
    ||| lines >= 2 && exists|g: Prop, rule: EquivalenceRule|
        #[trigger] rewrites(goal).contains((g, rule)) && findable(known, g, (lines - 1) as nat)
    ||| goal matches Prop::And(l, r) && exists|y: Prop, d: nat| #[trigger]
        below(*l, y, d) && attained(known, goal, lines, y, d)
}

/// More lines and more known formulas do no harm.
pub proof fn lemma_findable_monotone(
    known: Multiset<Prop>,
    more: Multiset<Prop>,
    goal: Prop,
    lines: nat,
    greater: nat,
)
    requires
        findable(known, goal, lines),
        known.subset_of(more),
        lines <= greater,
    ensures
        findable(more, goal, greater),
    decreases lines, 1int,
{
    broadcast use vstd::multiset::group_multiset_axioms;

    if known.contains(goal) {
        assert(known.count(goal) <= more.count(goal));
    } else if lines >= 1 && exists|x: Prop|
        !#[trigger] known.contains(x) && (offered(known, x) || rewritten_from(known, x))
            && findable(known.insert(x), goal, (lines - 1) as nat) {
        let x = choose|x: Prop|
            !#[trigger] known.contains(x) && (offered(known, x) || rewritten_from(known, x))
                && findable(known.insert(x), goal, (lines - 1) as nat);
        if more.contains(x) {
            assert(known.insert(x).subset_of(more)) by {
                assert forall|y: Prop| known.insert(x).count(y) <= more.count(y) by {
                    assert(known.count(y) <= more.count(y));
                }
            }
            lemma_findable_monotone(known.insert(x), more, goal, (lines - 1) as nat, greater);
        } else {
            assert(known.insert(x).subset_of(more.insert(x))) by {
                assert forall|y: Prop| known.insert(x).count(y) <= more.insert(x).count(y) by {
                    assert(known.count(y) <= more.count(y));
                }
            }
            lemma_findable_monotone(
                known.insert(x),
                more.insert(x),
                goal,
                (lines - 1) as nat,
                (greater - 1) as nat,
            );
            lemma_offered_more(known, more, x);
            assert(!more.contains(x));
        }
    } else if lines >= 2 && (goal matches Prop::Implies(a, c) && findable(
        known.insert(*a),
        *c,
        (lines - 2) as nat,
    )) {
        match goal {
            Prop::Implies(a, c) => {
                lemma_insert_subset(known, more, *a);
                lemma_findable_monotone(
                    known.insert(*a),
                    more.insert(*a),
                    *c,
                    (lines - 2) as nat,
                    (greater - 2) as nat,
                );
            },
            _ => {},
        }
    } else if lines >= 1 && (goal matches Prop::Or(l, r) && (findable(
        known,
        *l,
        (lines - 1) as nat,
    ) || findable(known, *r, (lines - 1) as nat))) {
        match goal {
            Prop::Or(l, r) => {
                if findable(known, *l, (lines - 1) as nat) {
                    lemma_findable_monotone(
                        known,
                        more,
                        *l,
                        (lines - 1) as nat,
                        (greater - 1) as nat,
                    );
                } else {
                    lemma_findable_monotone(
                        known,
                        more,
                        *r,
                        (lines - 1) as nat,
                        (greater - 1) as nat,
                    );
                }
            },
            _ => {},
        }
    } else if lines >= 1 && (goal matches Prop::And(l, r) && exists|i: nat|
        #[trigger] spare(i, lines) && findable(known, *l, i) && findable(
            joined_by(known, *l),
            *r,
            (lines - 1 - i) as nat,
        )) {
        match goal {
            Prop::And(l, r) => {
                let i = choose|i: nat|
                    #[trigger] spare(i, lines) && findable(known, *l, i) && findable(
                        joined_by(known, *l),
                        *r,
                        (lines - 1 - i) as nat,
                    );
                lemma_findable_monotone(known, more, *l, i, i);
                lemma_joined_subset(known, more, *l);
                lemma_findable_monotone(
                    joined_by(known, *l),
                    joined_by(more, *l),
                    *r,
                    (lines - 1 - i) as nat,
                    (greater - 1 - i) as nat,
                );
                assert(spare(i, greater));
            },
            _ => {},
        }
    } else if lines >= 2 && goal != Prop::Contradiction && findable(
        known.insert(p_not(goal)),
        Prop::Contradiction,
        (lines - 2) as nat,
    ) {
        lemma_insert_subset(known, more, p_not(goal));
        lemma_findable_monotone(
            known.insert(p_not(goal)),
            more.insert(p_not(goal)),
            Prop::Contradiction,
            (lines - 2) as nat,
            (greater - 2) as nat,
        );
    } else if goal matches Prop::And(l, r) && exists|y: Prop, d: nat| #[trigger]
        below(*l, y, d) && attained(known, goal, lines, y, d) {
        match goal {
            Prop::And(l, r) => {
                let (y, d) = choose|y: Prop, d: nat| #[trigger]
                    below(*l, y, d) && attained(known, goal, lines, y, d);
                lemma_attained_monotone(known, more, goal, lines, greater, y, d);
                if !findable(more, goal, greater) {
                    assert(below(*l, y, d) && attained(more, goal, greater, y, d));
                }
            },
            _ => {},
        }
    } else {
        let (g, rule) = choose|g: Prop, rule: EquivalenceRule|
            #[trigger] rewrites(goal).contains((g, rule)) && findable(
                known,
                g,
                (lines - 1) as nat,
            );
        lemma_findable_monotone(known, more, g, (lines - 1) as nat, (greater - 1) as nat);
        assert(rewrites(goal).contains((g, rule)));
    }
}

/// [`lemma_findable_monotone`] for a subgoal that is established first.
proof fn lemma_attained_monotone(
    known: Multiset<Prop>,
    more: Multiset<Prop>,
    goal: Prop,
    lines: nat,
    greater: nat,
    y: Prop,
    d: nat,
)
    requires
        attained(known, goal, lines, y, d),
        known.subset_of(more),
        lines <= greater,
    ensures
        attained(more, goal, greater, y, d) || findable(more, goal, greater),
    decreases lines, 0int,
{
    broadcast use vstd::multiset::group_multiset_axioms;

    lemma_insert_subset(known, more, y);
    if more.contains(y) {
        lemma_insert_within(known, more, y);
    }
    let next = if more.contains(y) {
        more
    } else {
        more.insert(y)
    };
    if closes_now(known, y) && findable(known.insert(y), goal, (lines - 1) as nat) {
        assert(closes_now(more, y)) by {
            match y {
                Prop::Or(a, b) => {
                    assert(known.count(*a) <= more.count(*a));
                    assert(known.count(*b) <= more.count(*b));
                },
                Prop::And(a, b) => {
                    assert(known.count(*a) <= more.count(*a));
                    assert(known.count(*b) <= more.count(*b));
                },
                _ => {},
            }
        }
        let left = if more.contains(y) {
            greater
        } else {
            (greater - 1) as nat
        };
        lemma_findable_monotone(known.insert(y), next, goal, (lines - 1) as nat, left);
    } else if exists|k: nat| #[trigger]
        room(k, d, lines) && (y matches Prop::Implies(a, c) && findable(
            known.insert(*a),
            *c,
            k,
        )) && findable(known.insert(y), goal, (lines - 2 - k) as nat) {
        let k = choose|k: nat| #[trigger]
            room(k, d, lines) && (y matches Prop::Implies(a, c) && findable(
                known.insert(*a),
                *c,
                k,
            )) && findable(known.insert(y), goal, (lines - 2 - k) as nat);
        match y {
            Prop::Implies(a, c) => {
                lemma_insert_subset(known, more, *a);
                lemma_findable_monotone(known.insert(*a), more.insert(*a), *c, k, k);
            },
            _ => {},
        }
        let left = if more.contains(y) {
            greater
        } else {
            (greater - 2 - k) as nat
        };
        lemma_findable_monotone(known.insert(y), next, goal, (lines - 2 - k) as nat, left);
        assert(room(k, d, greater));
    } else {
        let k = choose|k: nat| #[trigger]
            room(k, d, lines) && findable(known.insert(p_not(y)), Prop::Contradiction, k)
                && findable(known.insert(y), goal, (lines - 2 - k) as nat);
        lemma_insert_subset(known, more, p_not(y));
        lemma_findable_monotone(
            known.insert(p_not(y)),
            more.insert(p_not(y)),
            Prop::Contradiction,
            k,
            k,
        );
        let left = if more.contains(y) {
            greater
        } else {
            (greater - 2 - k) as nat
        };
        lemma_findable_monotone(known.insert(y), next, goal, (lines - 2 - k) as nat, left);
        assert(room(k, d, greater));
    }
}

/// What the search comes upon is true wherever all that is known is.
pub proof fn lemma_findable_sound(known: Multiset<Prop>, goal: Prop, lines: nat, v: Valuation)
    requires
        findable(known, goal, lines),
        known_true(known, v),
    ensures
        eval(goal, v),
    decreases lines, 1int,
{
    broadcast use vstd::multiset::group_multiset_axioms;

    if known.contains(goal) {
    } else if lines >= 1 && exists|x: Prop|
        !#[trigger] known.contains(x) && (offered(known, x) || rewritten_from(known, x))
            && findable(known.insert(x), goal, (lines - 1) as nat) {
        let x = choose|x: Prop|
            !#[trigger] known.contains(x) && (offered(known, x) || rewritten_from(known, x))
                && findable(known.insert(x), goal, (lines - 1) as nat);
        lemma_offered_true(known, x, v);
        lemma_known_insert(known, x, v);
        lemma_findable_sound(known.insert(x), goal, (lines - 1) as nat, v);
    } else if lines >= 2 && (goal matches Prop::Implies(a, c) && findable(
        known.insert(*a),
        *c,
        (lines - 2) as nat,
    )) {
        match goal {
            Prop::Implies(a, c) => {
                if eval(*a, v) {
                    lemma_known_insert(known, *a, v);
                    lemma_findable_sound(known.insert(*a), *c, (lines - 2) as nat, v);
                }
            },
            _ => {},
        }
    } else if lines >= 1 && (goal matches Prop::Or(l, r) && (findable(
        known,
        *l,
        (lines - 1) as nat,
    ) || findable(known, *r, (lines - 1) as nat))) {
        match goal {
            Prop::Or(l, r) => {
                if findable(known, *l, (lines - 1) as nat) {
                    lemma_findable_sound(known, *l, (lines - 1) as nat, v);
                } else {
                    lemma_findable_sound(known, *r, (lines - 1) as nat, v);
                }
            },
            _ => {},
        }
    } else if lines >= 1 && (goal matches Prop::And(l, r) && exists|i: nat|
        #[trigger] spare(i, lines) && findable(known, *l, i) && findable(
            joined_by(known, *l),
            *r,
            (lines - 1 - i) as nat,
        )) {
        match goal {
            Prop::And(l, r) => {
                let i = choose|i: nat|
                    #[trigger] spare(i, lines) && findable(known, *l, i) && findable(
                        joined_by(known, *l),
                        *r,
                        (lines - 1 - i) as nat,
                    );
                lemma_findable_sound(known, *l, i, v);
                lemma_known_insert(known, *l, v);
                lemma_findable_sound(joined_by(known, *l), *r, (lines - 1 - i) as nat, v);
            },
            _ => {},
        }
    } else if lines >= 2 && goal != Prop::Contradiction && findable(
        known.insert(p_not(goal)),
        Prop::Contradiction,
        (lines - 2) as nat,
    ) {
        if !eval(goal, v) {
            assert(eval(p_not(goal), v));
            lemma_known_insert(known, p_not(goal), v);
            lemma_findable_sound(
                known.insert(p_not(goal)),
                Prop::Contradiction,
                (lines - 2) as nat,
                v,
            );
        }
    } else if goal matches Prop::And(l, r) && exists|y: Prop, d: nat| #[trigger]
        below(*l, y, d) && attained(known, goal, lines, y, d) {
        match goal {
            Prop::And(l, r) => {
                let (y, d) = choose|y: Prop, d: nat| #[trigger]
                    below(*l, y, d) && attained(known, goal, lines, y, d);
                lemma_attained_sound(known, goal, lines, y, d, v);
            },
            _ => {},
        }
    } else {
        let (g, rule) = choose|g: Prop, rule: EquivalenceRule|
            #[trigger] rewrites(goal).contains((g, rule)) && findable(
                known,
                g,
                (lines - 1) as nat,
            );
        lemma_findable_sound(known, g, (lines - 1) as nat, v);
        law_rewrites_equivalent(goal, g, rule);
        assert(eval(goal, v) == eval(g, v));
    }
}

/// [`lemma_findable_sound`] for a subgoal that is established first.
proof fn lemma_attained_sound(
    known: Multiset<Prop>,
    goal: Prop,
    lines: nat,
    y: Prop,
    d: nat,
    v: Valuation,
)
    requires
        attained(known, goal, lines, y, d),
        known_true(known, v),
    ensures
        eval(goal, v),
    decreases lines, 0int,
{
    broadcast use vstd::multiset::group_multiset_axioms;

    if closes_now(known, y) && findable(known.insert(y), goal, (lines - 1) as nat) {
        assert(eval(y, v));
        lemma_known_insert(known, y, v);
        lemma_findable_sound(known.insert(y), goal, (lines - 1) as nat, v);
    } else if exists|k: nat| #[trigger]
        room(k, d, lines) && (y matches Prop::Implies(a, c) && findable(
            known.insert(*a),
            *c,
            k,
        )) && findable(known.insert(y), goal, (lines - 2 - k) as nat) {
        let k = choose|k: nat| #[trigger]
            room(k, d, lines) && (y matches Prop::Implies(a, c) && findable(
                known.insert(*a),
                *c,
                k,
            )) && findable(known.insert(y), goal, (lines - 2 - k) as nat);
        match y {
            Prop::Implies(a, c) => {
                if eval(*a, v) {
                    lemma_known_insert(known, *a, v);
                    lemma_findable_sound(known.insert(*a), *c, k, v);
                }
            },
            _ => {},
        }
        lemma_known_insert(known, y, v);
        lemma_findable_sound(known.insert(y), goal, (lines - 2 - k) as nat, v);
    } else {
        let k = choose|k: nat| #[trigger]
            room(k, d, lines) && findable(known.insert(p_not(y)), Prop::Contradiction, k)
                && findable(known.insert(y), goal, (lines - 2 - k) as nat);
        if !eval(y, v) {
            assert(eval(p_not(y), v));
            lemma_known_insert(known, p_not(y), v);
            lemma_findable_sound(known.insert(p_not(y)), Prop::Contradiction, k, v);
        }
        lemma_known_insert(known, y, v);
        lemma_findable_sound(known.insert(y), goal, (lines - 2 - k) as nat, v);
    }
}

/// What can be derived, the search comes upon in as many lines.
pub proof fn law_derivable_findable(known: Multiset<Prop>, goal: Prop, lines: nat)
    requires
        derivable(known, goal, lines),
    ensures
        findable(known, goal, lines),
    decreases lines, 2int,
{
    let after = choose|after: Multiset<Prop>| #[trigger]
        known.subset_of(after) && leaves(known, goal, lines, after);
    lemma_leaves_findable(known, goal, lines, after);
}

/// [`law_derivable_findable`] for a derivation.
proof fn lemma_leaves_findable(
    known: Multiset<Prop>,
    goal: Prop,
    lines: nat,
    after: Multiset<Prop>,
)
    requires
        leaves(known, goal, lines, after),
    ensures
        findable(known, goal, lines),
    decreases lines, 1int,
{
    broadcast use vstd::multiset::group_multiset_axioms;

    match lemma_manner(known, goal, lines, after) {
        Manner::Known => {},
        Manner::Move(x) => {
            lemma_leaves_findable(known.insert(x), goal, (lines - 1) as nat, after);
            assert(!known.contains(x));
        },
        Manner::Conditional(a, c) => {
            law_derivable_findable(known.insert(a), c, (lines - 2) as nat);
        },
        Manner::Indirect => {
            law_derivable_findable(
                known.insert(p_not(goal)),
                Prop::Contradiction,
                (lines - 2) as nat,
            );
        },
        Manner::Served(s, mid) => {
            lemma_leaves_findable(known, s, (lines - 1) as nat, mid);
            lemma_served(known, s, goal, lines);
        },
        Manner::Joined(l, r, i, mid, end) => {
            let j = (lines - 1 - i) as nat;
            lemma_leaves_findable(mid, r, j, end);
            lemma_left_half(known, l, r, i, mid, j);
        },
    }
}

/// From a subgoal that the search comes upon, one line leads to the goal.
proof fn lemma_served(known: Multiset<Prop>, s: Prop, goal: Prop, lines: nat)
    requires
        lines >= 1,
        serves(s, goal),
        findable(known, s, (lines - 1) as nat),
    ensures
        findable(known, goal, lines),
{
    if goal matches Prop::Or(l, r) && (s == *l || s == *r) {
    } else {
        let rule = choose|rule: EquivalenceRule| #[trigger] rewrites(goal).contains((s, rule));
        assert(rewrites(goal).contains((s, rule)));
        if lines == 1 {
            lemma_no_lines(known, s);
            lemma_rewritten(known, s, goal);
        }
    }
}

/// With no lines the search comes upon what is known and nothing else.
pub proof fn lemma_no_lines(known: Multiset<Prop>, goal: Prop)
    requires
        findable(known, goal, 0),
    ensures
        known.contains(goal),
{
    match goal {
        Prop::And(l, r) => {
            if !known.contains(goal) {
                assert(exists|y: Prop, d: nat| #[trigger]
                    below(*l, y, d) && attained(known, goal, 0, y, d));
                let (y, d) = choose|y: Prop, d: nat| #[trigger]
                    below(*l, y, d) && attained(known, goal, 0, y, d);
                assert(d + 2 <= 0);
            }
        },
        _ => {},
    }
}

/// A formula one rewrite away from a known one takes one line.
proof fn lemma_rewritten(known: Multiset<Prop>, s: Prop, goal: Prop)
    requires
        known.contains(s),
        exists|rule: EquivalenceRule| #[trigger] rewrites(goal).contains((s, rule)),
    ensures
        findable(known, goal, 1),
        !known.contains(goal) ==> rewritten_from(known, goal),
{
    broadcast use vstd::multiset::group_multiset_axioms;

    let rule = choose|rule: EquivalenceRule| #[trigger] rewrites(goal).contains((s, rule));
    law_rewrites_symmetric(goal, s, rule);
    assert(rewritten_from(known, goal));
    if !known.contains(goal) {
        assert(findable(known.insert(goal), goal, 0));
    }
}

/// A derivation of the left half and a right half that the search comes upon from what it
/// leaves.
proof fn lemma_left_half(
    known: Multiset<Prop>,
    l: Prop,
    r: Prop,
    i: nat,
    mid: Multiset<Prop>,
    j: nat,
)
    requires
        leaves(known, l, i, mid),
        findable(mid, r, j),
    ensures
        findable(known, p_and(l, r), i + j + 1),
    decreases i, 0int,
{
    broadcast use vstd::multiset::group_multiset_axioms;

    let goal = p_and(l, r);
    match lemma_manner(known, l, i, mid) {
        Manner::Known => {
            lemma_both_halves(known, l, r, 0, j);
            lemma_findable_monotone(known, known, goal, j + 1, i + j + 1);
        },
        Manner::Move(x) => {
            lemma_left_half(known.insert(x), l, r, (i - 1) as nat, mid, j);
            assert(!known.contains(x));
        },
        Manner::Conditional(a, c) => {
            law_derivable_findable(known.insert(a), c, (i - 2) as nat);
            lemma_both_halves(known, l, r, i, j);
        },
        Manner::Indirect => {
            law_derivable_findable(
                known.insert(p_not(l)),
                Prop::Contradiction,
                (i - 2) as nat,
            );
            lemma_both_halves(known, l, r, i, j);
        },
        Manner::Served(s, before) => {
            lemma_leaves(known, s, (i - 1) as nat, before);
            assert(findable(before, s, 0));
            lemma_served(before, s, l, 1);
            lemma_both_halves(before, l, r, 1, j);
            lemma_serves_child(s, l);
            assert(below(l, l, 0));
            lemma_below_child(l, l, 0, s);
            lemma_climb(known, l, r, s, 1, (i - 1) as nat, before, j + 2);
        },
        Manner::Joined(a, b, k, first, second) => {
            let n = (i - 1 - k) as nat;
            lemma_leaves(known, a, k, first);
            lemma_leaves(first, b, n, second);
            assert(first.count(a) <= second.count(a));
            assert(second.contains(a));
            lemma_both_known(second, a, b);
            lemma_both_halves(second, l, r, 1, j);
            assert(halves(l) == Some((a, b)));
            assert(below(l, l, 0));
            lemma_below_child(l, l, 0, a);
            lemma_below_child(l, l, 0, b);
            lemma_climb(first, l, r, b, 1, n, second, j + 2);
            lemma_climb(known, l, r, a, 1, k, first, j + 2 + n);
        },
    }
}

/// A conjunction of known formulas takes one line.
proof fn lemma_both_known(known: Multiset<Prop>, a: Prop, b: Prop)
    requires
        known.contains(a),
        known.contains(b),
    ensures
        findable(known, p_and(a, b), 1),
{
    assert(spare(0, 1));
    assert(findable(known, a, 0));
    assert(findable(joined_by(known, a), b, 0));
}

/// The two halves of a conjunction in turn.
proof fn lemma_both_halves(known: Multiset<Prop>, l: Prop, r: Prop, i: nat, j: nat)
    requires
        findable(known, l, i),
        findable(joined_by(known, l), r, j),
    ensures
        findable(known, p_and(l, r), i + j + 1),
{
    assert(spare(i, i + j + 1));
    assert((i + j + 1 - 1 - i) as nat == j);
}

/// What serves a goal is a subgoal of it.
proof fn lemma_serves_child(s: Prop, goal: Prop)
    requires
        serves(s, goal),
    ensures
        child(goal, s),
{
    if exists|rule: EquivalenceRule| #[trigger] rewrites(goal).contains((s, rule)) {
        let rule = choose|rule: EquivalenceRule| #[trigger] rewrites(goal).contains((s, rule));
        assert(rewrites(goal).contains((s, rule)));
    }
}

/// A derivation of a subgoal below the left half, where the search comes upon the
/// conjunction from what it leaves.
proof fn lemma_climb(
    known: Multiset<Prop>,
    l: Prop,
    r: Prop,
    g: Prop,
    d: nat,
    i: nat,
    mid: Multiset<Prop>,
    m: nat,
)
    requires
        leaves(known, g, i, mid),
        below(l, g, d),
        d >= 1,
        findable(mid, p_and(l, r), m),
        m >= d + 1,
    ensures
        findable(known, p_and(l, r), m + i),
    decreases i, 0int,
{
    broadcast use vstd::multiset::group_multiset_axioms;

    let goal = p_and(l, r);
    match lemma_manner(known, g, i, mid) {
        Manner::Known => {
            lemma_findable_monotone(known, known, goal, m, m + i);
        },
        Manner::Move(x) => {
            lemma_climb(known.insert(x), l, r, g, d, (i - 1) as nat, mid, m);
            assert(!known.contains(x));
        },
        Manner::Conditional(a, c) => {
            law_derivable_findable(known.insert(a), c, (i - 2) as nat);
            if known.contains(g) {
                lemma_findable_monotone(known, known, goal, m, m + i);
            } else {
                let k = (i - 2) as nat;
                assert(room(k, d, m + i));
                assert((m + i - 2 - k) as nat == m);
                assert(attained(known, goal, m + i, g, d));
                assert(below(l, g, d));
            }
        },
        Manner::Indirect => {
            law_derivable_findable(
                known.insert(p_not(g)),
                Prop::Contradiction,
                (i - 2) as nat,
            );
            if known.contains(g) {
                lemma_findable_monotone(known, known, goal, m, m + i);
            } else {
                let k = (i - 2) as nat;
                assert(room(k, d, m + i));
                assert((m + i - 2 - k) as nat == m);
                assert(attained(known, goal, m + i, g, d));
                assert(below(l, g, d));
            }
        },
        Manner::Served(s, before) => {
            lemma_leaves(known, s, (i - 1) as nat, before);
            assert(findable(before, goal, m + 1)) by {
                if before.contains(g) {
                    lemma_findable_monotone(before, before, goal, m, m + 1);
                } else if g matches Prop::Or(a, b) && (s == *a || s == *b) {
                    lemma_stated(before, l, r, g, d, m);
                } else {
                    lemma_rewritten(before, s, g);
                    assert(!before.contains(g));
                    assert(findable(before.insert(g), goal, (m + 1 - 1) as nat));
                }
            }
            lemma_serves_child(s, g);
            lemma_below_child(l, g, d, s);
            lemma_climb(known, l, r, s, d + 1, (i - 1) as nat, before, m + 1);
        },
        Manner::Joined(a, b, k, first, second) => {
            let n = (i - 1 - k) as nat;
            lemma_leaves(known, a, k, first);
            lemma_leaves(first, b, n, second);
            assert(first.count(a) <= second.count(a));
            assert(second.contains(a));
            assert(findable(second, goal, m + 1)) by {
                if second.contains(g) {
                    lemma_findable_monotone(second, second, goal, m, m + 1);
                } else {
                    lemma_stated(second, l, r, g, d, m);
                }
            }
            assert(halves(g) == Some((a, b)));
            lemma_below_child(l, g, d, a);
            lemma_below_child(l, g, d, b);
            lemma_climb(first, l, r, b, d + 1, n, second, m + 1);
            lemma_climb(known, l, r, a, d + 1, k, first, m + 1 + n);
        },
    }
}

/// A subgoal that one line states.
proof fn lemma_stated(known: Multiset<Prop>, l: Prop, r: Prop, g: Prop, d: nat, m: nat)
    requires
        below(l, g, d),
        d >= 1,
        m >= d + 1,
        !known.contains(g),
        closes_now(known, g),
        findable(known.insert(g), p_and(l, r), m),
    ensures
        findable(known, p_and(l, r), m + 1),
{
    assert((m + 1 - 1) as nat == m);
    assert(attained(known, p_and(l, r), m + 1, g, d));
    assert(below(l, g, d));
}

} // verus!
