//! The lawyer against the philosopher: a certified proof is no longer than any greedy
//! one.

use vstd::multiset::Multiset;
use vstd::prelude::*;

use super::derivation::{
    derivable, joined_by, law_derivable_monotone, leaves, lemma_joined_keeps, lemma_leaves,
    offered, serves, spare, taken,
};
use super::greedy::{attempt, attempt_structural, attempt_subproof, enclosed};
use super::minimal::law_certified_minimal;
use super::moves::{cites, law_moves_exact, leads, moves, Line, MoveRule};
use super::search::{deepen, fresh_ctx, Limits, Verdict};
use crate::models::formula::{first_index, lemma_first_index, p_and, p_not, Prop};
use crate::models::rules::technique::ProofTechnique;

verus! {

/// Whether some line assumes the negation of the contradiction, for an indirect proof of
/// the contradiction itself.
pub open spec fn denies_contradiction(steps: Seq<Line>) -> bool {
    exists|k: int|
        0 <= k < steps.len() && (#[trigger] steps[k]).rule == "AIP"@ && steps[k].formula == p_not(
            Prop::Contradiction,
        )
}

/// Formulas at different positions are known as often as a rule takes them.
proof fn lemma_taken_within(s: Seq<Prop>, rule: MoveRule, i: int, j: int, k: int)
    requires
        0 <= i < s.len(),
        rule.arity() >= 2 ==> 0 <= j < s.len() && j != i,
        rule.arity() == 3 ==> 0 <= k < s.len() && k != i && k != j,
    ensures
        taken(rule, s[i], s[j], s[k]).subset_of(s.to_multiset()),
{
    broadcast use vstd::multiset::group_multiset_axioms;

    let m = s.to_multiset();
    let t = taken(rule, s[i], s[j], s[k]);
    let s1 = s.remove(i);
    let m1 = s1.to_multiset();
    lemma_removed(s, i);
    if rule.arity() == 1 {
        assert forall|y: Prop| t.count(y) <= m.count(y) by {
            assert(m.count(y) == m1.count(y) + (if y == s[i] { 1int } else { 0int }));
        }
    } else {
        let j1 = if j < i {
            j
        } else {
            j - 1
        };
        assert(s1[j1] == s[j]);
        let s2 = s1.remove(j1);
        let m2 = s2.to_multiset();
        lemma_removed(s1, j1);
        if rule.arity() == 2 {
            assert forall|y: Prop| t.count(y) <= m.count(y) by {
                assert(m.count(y) == m1.count(y) + (if y == s[i] { 1int } else { 0int }));
                assert(m1.count(y) == m2.count(y) + (if y == s[j] { 1int } else { 0int }));
            }
        } else {
            let k1 = if k < i {
                k
            } else {
                k - 1
            };
            assert(s1[k1] == s[k]);
            let k2 = if k1 < j1 {
                k1
            } else {
                k1 - 1
            };
            assert(s2[k2] == s[k]);
            lemma_removed(s2, k2);
            let m3 = s2.remove(k2).to_multiset();
            assert forall|y: Prop| t.count(y) <= m.count(y) by {
                assert(m.count(y) == m1.count(y) + (if y == s[i] { 1int } else { 0int }));
                assert(m1.count(y) == m2.count(y) + (if y == s[j] { 1int } else { 0int }));
                assert(m2.count(y) == m3.count(y) + (if y == s[k] { 1int } else { 0int }));
            }
        }
    }
}

/// Without the formula at a position, that formula is counted once less.
proof fn lemma_removed(s: Seq<Prop>, i: int)
    requires
        0 <= i < s.len(),
    ensures
        forall|y: Prop| #[trigger]
            s.to_multiset().count(y) == s.remove(i).to_multiset().count(y) + (if y == s[i] {
                1int
            } else {
                0int
            }),
{
    broadcast use vstd::multiset::group_multiset_axioms;
    broadcast use vstd::seq_lib::group_to_multiset_ensures;

    vstd::seq_lib::to_multiset_remove(s, i);
    assert(s.contains(s[i]));
}

/// The first move leads to something new that a rule offers.
proof fn lemma_move_offered(state: Seq<Prop>, m: Line)
    requires
        moves(state).contains(m),
    ensures
        offered(state.to_multiset(), m.formula),
        !state.contains(m.formula),
{
    law_moves_exact(state, m);
    let (rule, i, j, k) = choose|rule: MoveRule, i: int, j: int, k: int|
        #![trigger leads(state, rule, i, j, k, m.formula)]
        leads(state, rule, i, j, k, m.formula) && m.rule == rule.label() && m.cited == cites(
            rule,
            i,
            j,
            k,
        );
    lemma_taken_within(state, rule, i, j, k);
    let t = taken(rule, state[i], state[j], state[k]);
    assert(rule.gives(state[i], state[j], state[k]).contains(m.formula) && t.subset_of(
        state.to_multiset(),
    ));
}

/// What a greedy attempt finds can be derived in as many lines, unless it denies the
/// contradiction on the way.
pub proof fn law_greedy_derivable(state: Seq<Prop>, goal: Prop, room: nat)
    ensures
        attempt(state, goal, room).found matches Some(steps) ==> denies_contradiction(steps)
            || derivable(state.to_multiset(), goal, steps.len()),
    decreases room, 2int,
{
    broadcast use vstd::seq_lib::group_to_multiset_ensures;

    let ms = moves(state);
    let known = state.to_multiset();
    if state.contains(goal) || room == 0 {
        if state.contains(goal) {
            assert(leaves(known, goal, 0, known));
            assert(known.subset_of(known));
        }
    } else if ms.len() > 0 {
        let m = ms[0];
        let inner = state.push(m.formula);
        law_greedy_derivable(inner, goal, (room - 1) as nat);
        match attempt(inner, goal, (room - 1) as nat).found {
            Some(rest) => {
                let steps = seq![m] + rest;
                assert(attempt(state, goal, room).found == Some(steps));
                if !denies_contradiction(steps) {
                    if denies_contradiction(rest) {
                        let k = choose|k: int|
                            0 <= k < rest.len() && (#[trigger] rest[k]).rule == "AIP"@
                                && rest[k].formula == p_not(Prop::Contradiction);
                        assert(steps[k + 1] == rest[k]);
                    }
                    assert(ms.contains(m));
                    lemma_move_offered(state, m);
                    vstd::seq_lib::to_multiset_build(state, m.formula);
                    assert(!known.contains(m.formula));
                    lemma_after_move(known, m.formula, goal, steps.len());
                }
            },
            None => {},
        }
    } else {
        lemma_structural_derivable(state, goal, room);
    }
}

/// [`law_greedy_derivable`] for the one goal-directed step.
proof fn lemma_structural_derivable(state: Seq<Prop>, goal: Prop, room: nat)
    requires
        !state.contains(goal),
        room > 0,
    ensures
        attempt_structural(state, goal, room).found matches Some(steps) ==> denies_contradiction(
            steps,
        ) || derivable(state.to_multiset(), goal, steps.len()),
    decreases room, 1int,
{
    broadcast use vstd::seq_lib::group_to_multiset_ensures;

    let known = state.to_multiset();
    lemma_subproof_derivable(
        state,
        goal,
        ProofTechnique::IndirectProof,
        p_not(goal),
        Prop::Contradiction,
        room,
    );
    match goal {
        Prop::Implies(a, c) => {
            lemma_subproof_derivable(
                state,
                goal,
                ProofTechnique::ConditionalProof,
                *a,
                *c,
                room,
            );
        },
        Prop::Or(l, r) => {
            lemma_first_index(state, *l);
            lemma_first_index(state, *r);
            if first_index(state, *l) is Some {
                lemma_add_known(known, *l, goal);
            } else if first_index(state, *r) is Some {
                lemma_add_known(known, *r, goal);
            }
        },
        Prop::And(l, r) => {
            lemma_first_index(state, *l);
            lemma_first_index(state, *r);
            if first_index(state, *l) is Some && first_index(state, *r) is Some {
                lemma_join_known(known, *l, *r);
            }
        },
        _ => {},
    }
    match attempt_structural(state, goal, room).found {
        Some(steps) => {
            if !denies_contradiction(steps) && !derivable(known, goal, steps.len()) {
                assert(leaves(known, goal, steps.len(), joined_by(known, goal)));
                lemma_joined_keeps(known, known, goal);
                assert(known.subset_of(joined_by(known, goal)));
            }
        },
        None => {},
    }
}

/// From a formula that a rule offers a derivation goes on.
proof fn lemma_after_move(known: Multiset<Prop>, x: Prop, goal: Prop, lines: nat)
    requires
        lines >= 1,
        !known.contains(x),
        offered(known, x),
        derivable(known.insert(x), goal, (lines - 1) as nat),
    ensures
        derivable(known, goal, lines),
{
    let after = choose|after: Multiset<Prop>| #[trigger]
        known.insert(x).subset_of(after) && leaves(
            known.insert(x),
            goal,
            (lines - 1) as nat,
            after,
        );
    assert(!known.contains(x));
    assert(leaves(known, goal, lines, after));
    lemma_leaves(known, goal, lines, after);
    assert(known.subset_of(after));
}

/// A disjunction with a known side takes one line.
proof fn lemma_add_known(known: Multiset<Prop>, side: Prop, goal: Prop)
    requires
        known.contains(side),
        goal matches Prop::Or(l, r) && (side == *l || side == *r),
    ensures
        derivable(known, goal, 1),
{
    let after = joined_by(known, goal);
    assert(serves(side, goal));
    assert(known.subset_of(known));
    assert(leaves(known, side, 0, known));
    assert(leaves(known, goal, 1, after));
    lemma_joined_keeps(known, known, goal);
    assert(known.subset_of(after));
}

/// A conjunction of known formulas takes one line.
proof fn lemma_join_known(known: Multiset<Prop>, l: Prop, r: Prop)
    requires
        known.contains(l),
        known.contains(r),
    ensures
        derivable(known, p_and(l, r), 1),
{
    let goal = p_and(l, r);
    let after = joined_by(known, goal);
    assert(spare(0, 1));
    assert(known.subset_of(known));
    assert(leaves(known, l, 0, known));
    assert(leaves(known, r, 0, known));
    assert((1 - 1 - 0) as nat == 0);
    assert(leaves(known, goal, 1, after));
    lemma_joined_keeps(known, known, goal);
    assert(known.subset_of(after));
}

/// [`law_greedy_derivable`] for a subproof: where it succeeds, what it derives inside can
/// be derived from what is known and the assumption.
proof fn lemma_subproof_derivable(
    state: Seq<Prop>,
    goal: Prop,
    t: ProofTechnique,
    assumption: Prop,
    target: Prop,
    room: nat,
)
    ensures
        attempt_subproof(state, goal, t, assumption, target, room).found matches Some(steps) ==> {
            ||| denies_contradiction(steps)
            ||| steps.len() >= 2 && derivable(
                state.to_multiset().insert(assumption),
                target,
                (steps.len() - 2) as nat,
            ) && (t == ProofTechnique::IndirectProof ==> assumption != p_not(Prop::Contradiction))
        },
    decreases room, 0int,
{
    if room >= 2 {
        let inner = state.push(assumption);
        law_greedy_derivable(inner, target, (room - 2) as nat);
        match attempt(inner, target, (room - 2) as nat).found {
            Some(inside) => {
                let steps = enclosed(state, t, assumption, inside, goal);
                if !denies_contradiction(steps) {
                    if denies_contradiction(inside) {
                        let k = choose|k: int|
                            0 <= k < inside.len() && (#[trigger] inside[k]).rule == "AIP"@
                                && inside[k].formula == p_not(Prop::Contradiction);
                        assert(steps[k + 1] == inside[k]);
                    }
                    assert(steps[0] == Line {
                        formula: assumption,
                        rule: t.assumption_name(),
                        cited: seq![],
                    });
                    vstd::seq_lib::to_multiset_build(state, assumption);
                }
            },
            None => {},
        }
    }
}

/// A certified proof is no longer than any greedy one, and where the search ends with
/// nothing cut short and nothing found, every greedy proof is longer than the bound. An
/// indirect proof of the contradiction itself is no move of the search, so a greedy proof
/// that has one is left out.
pub proof fn law_certified_beats_greedy(
    lim: Limits,
    premises: Seq<Prop>,
    goal: Prop,
    max: nat,
    room: nat,
)
    ensures
        ({
            let (v, c, _) = deepen(lim, premises, goal, 1, max, fresh_ctx());
            attempt(premises, goal, room).found matches Some(greedy) ==> !denies_contradiction(
                greedy,
            ) && !c.truncated ==> match v {
                Verdict::Found(steps) => steps.len() <= greedy.len(),
                Verdict::Nothing => max > 0 ==> greedy.len() > max,
                Verdict::Exceeded => true,
            }
        }),
{
    law_certified_minimal(lim, premises, goal, max);
    law_greedy_derivable(premises, goal, room);
    let known = premises.to_multiset();
    match attempt(premises, goal, room).found {
        Some(greedy) => {
            if !denies_contradiction(greedy) {
                assert(derivable(known, goal, greedy.len()));
                if greedy.len() <= max {
                    law_derivable_monotone(known, known, goal, greedy.len(), max);
                }
            }
        },
        None => {},
    }
}

} // verus!
