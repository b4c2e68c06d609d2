//! What the bounded search owes whatever its cap on rewrites is: every depth up to the
//! bound is searched, and what can be derived without rewrites of known formulas is found.

use vstd::multiset::Multiset;
use vstd::prelude::*;

use super::bank::plausible;
use super::derivation::{
    joined_by, lemma_insert_subset, lemma_joined_subset, lemma_offered_more, offered, spare,
};
use super::findable::{findable, lemma_findable_sound};
use super::found::{law_optimal_proves, law_search_proves};
use super::minimal::{lemma_goal_candidate, lemma_left_half_known, lemma_offered_move};
use super::moves::{moves, Line};
use super::search::{
    closing_line, deduped, deepen, expand, expand_goal, expand_goal_rewrites, expand_indirect,
    expand_rewrites, fresh_ctx, goal_rewrites, halves, key, noted, remembered, search, selected,
    share, share_below, share_closing, share_conditional, share_list, share_parts, share_subproof,
    state_rewrites, try_conj, try_goals, try_moves, try_shape, try_side, try_subproof, Ctx, Key,
    Limits, Verdict,
};
use super::sizes::lemma_deduped_len;
use super::splice::grown;
use crate::models::formula::{all_true, eval, first_index, p_implies, p_not, Prop, Valuation};
use crate::models::rewriting::rewrites;
use crate::models::rules::equivalence::EquivalenceRule;
use crate::models::rules::technique::ProofTechnique;

verus! {

/// Whether the search from the context at a position finds nothing, and leads to the next.
pub open spec fn found_nothing(
    lim: Limits,
    premises: Seq<Prop>,
    goal: Prop,
    depth: nat,
    cs: Seq<Ctx>,
    i: int,
) -> bool {
    search(lim, premises, goal, (depth + i) as nat, cs[i]) == (Verdict::Nothing, cs[i + 1])
}

/// Whether iterative deepening that ends in nothing has searched every depth: some
/// contexts, the first one given, lead from each depth to the next, and the search from
/// each of them finds nothing.
pub open spec fn searched_through(
    lim: Limits,
    premises: Seq<Prop>,
    goal: Prop,
    depth: nat,
    max: nat,
    ctx: Ctx,
    cs: Seq<Ctx>,
) -> bool {
    &&& cs.len() == if depth <= max {
        max - depth + 2
    } else {
        1
    }
    &&& cs[0] == ctx
    &&& forall|i: int|
        0 <= i < cs.len() - 1 ==> #[trigger] found_nothing(lim, premises, goal, depth, cs, i)
}

/// Where nothing is found within the bound, every depth up to the bound was searched and
/// nothing was found there: no depth is left out, whatever was cut short.
pub proof fn law_every_depth_searched(
    lim: Limits,
    premises: Seq<Prop>,
    goal: Prop,
    depth: nat,
    max: nat,
    ctx: Ctx,
) -> (cs: Seq<Ctx>)
    requires
        deepen(lim, premises, goal, depth, max, ctx).0 is Nothing,
    ensures
        searched_through(lim, premises, goal, depth, max, ctx, cs),
        cs.last() == deepen(lim, premises, goal, depth, max, ctx).1,
    decreases max + 1 - depth,
{
    if depth > max {
        seq![ctx]
    } else {
        let r = search(lim, premises, goal, depth, ctx);
        let rest = law_every_depth_searched(lim, premises, goal, depth + 1, max, r.1);
        let cs = seq![ctx] + rest;
        assert forall|i: int| 0 <= i < cs.len() - 1 implies #[trigger] found_nothing(
            lim,
            premises,
            goal,
            depth,
            cs,
            i,
        ) by {
            if i > 0 {
                assert(found_nothing(lim, premises, goal, depth + 1, rest, i - 1));
                assert(cs[i] == rest[i - 1]);
                assert(cs[i + 1] == rest[i]);
                assert((depth + 1 + (i - 1)) as nat == (depth + i) as nat);
            } else {
                assert(cs[1] == rest[0]);
            }
        }
        assert(cs.last() == rest.last());
        cs
    }
}

/// Whether `goal` can be derived from known formulas in at most `lines` lines with no
/// rewrite of a known formula: by rules, conditional and indirect proofs, addition,
/// conjunction, and rewrites of goals that have at most `cap` of them.
pub open spec fn reached(cap: nat, known: Multiset<Prop>, goal: Prop, lines: nat) -> bool
    decreases lines,
{
    ||| known.contains(goal)
    ||| lines >= 1 && exists|x: Prop|
        !#[trigger] known.contains(x) && offered(known, x) && reached(
            cap,
            known.insert(x),
            goal,
            (lines - 1) as nat,
        )
    ||| lines >= 2 && (goal matches Prop::Implies(a, c) && reached(
        cap,
        known.insert(*a),
        *c,
        (lines - 2) as nat,
    ))
    ||| lines >= 1 && (goal matches Prop::Or(l, r) && (reached(cap, known, *l, (lines - 1) as nat)
        || reached(cap, known, *r, (lines - 1) as nat)))
    ||| lines >= 1 && (goal matches Prop::And(l, r) && exists|i: nat|
        #[trigger] spare(i, lines) && reached(cap, known, *l, i) && reached(
            cap,
            joined_by(known, *l),
            *r,
            (lines - 1 - i) as nat,
        ))
    ||| lines >= 2 && goal != Prop::Contradiction && reached(
        cap,
        known.insert(p_not(goal)),
        Prop::Contradiction,
        (lines - 2) as nat,
    )
    ||| lines >= 2 && rewrites(goal).len() <= cap && exists|g: Prop, rule: EquivalenceRule|
        #[trigger] rewrites(goal).contains((g, rule)) && reached(
            cap,
            known,
            g,
            (lines - 1) as nat,
        )
}

/// What is reached is among what the whole search can come upon.
proof fn lemma_reached_findable(cap: nat, known: Multiset<Prop>, goal: Prop, lines: nat)
    requires
        reached(cap, known, goal, lines),
    ensures
        findable(known, goal, lines),
    decreases lines,
{
    if known.contains(goal) {
    } else if lines >= 1 && exists|x: Prop|
        !#[trigger] known.contains(x) && offered(known, x) && reached(
            cap,
            known.insert(x),
            goal,
            (lines - 1) as nat,
        ) {
        let x = choose|x: Prop|
            !#[trigger] known.contains(x) && offered(known, x) && reached(
                cap,
                known.insert(x),
                goal,
                (lines - 1) as nat,
            );
        lemma_reached_findable(cap, known.insert(x), goal, (lines - 1) as nat);
        assert(!known.contains(x));
    } else if lines >= 2 && rewrites(goal).len() <= cap && exists|g: Prop, rule: EquivalenceRule|
        #[trigger] rewrites(goal).contains((g, rule)) && reached(
            cap,
            known,
            g,
            (lines - 1) as nat,
        ) {
        let (g, rule) = choose|g: Prop, rule: EquivalenceRule|
            #[trigger] rewrites(goal).contains((g, rule)) && reached(
                cap,
                known,
                g,
                (lines - 1) as nat,
            );
        lemma_reached_findable(cap, known, g, (lines - 1) as nat);
        assert(rewrites(goal).contains((g, rule)));
    } else if lines >= 2 && goal != Prop::Contradiction && reached(
        cap,
        known.insert(p_not(goal)),
        Prop::Contradiction,
        (lines - 2) as nat,
    ) {
        lemma_reached_findable(
            cap,
            known.insert(p_not(goal)),
            Prop::Contradiction,
            (lines - 2) as nat,
        );
    } else {
        match goal {
            Prop::Implies(a, c) => {
                lemma_reached_findable(cap, known.insert(*a), *c, (lines - 2) as nat);
            },
            Prop::Or(l, r) => {
                if reached(cap, known, *l, (lines - 1) as nat) {
                    lemma_reached_findable(cap, known, *l, (lines - 1) as nat);
                } else {
                    lemma_reached_findable(cap, known, *r, (lines - 1) as nat);
                }
            },
            Prop::And(l, r) => {
                let i = choose|i: nat|
                    #[trigger] spare(i, lines) && reached(cap, known, *l, i) && reached(
                        cap,
                        joined_by(known, *l),
                        *r,
                        (lines - 1 - i) as nat,
                    );
                lemma_reached_findable(cap, known, *l, i);
                lemma_reached_findable(cap, joined_by(known, *l), *r, (lines - 1 - i) as nat);
                assert(spare(i, lines));
            },
            _ => {},
        }
    }
}

/// More lines and more known formulas do no harm.
pub proof fn law_reached_monotone(
    cap: nat,
    known: Multiset<Prop>,
    more: Multiset<Prop>,
    goal: Prop,
    lines: nat,
    greater: nat,
)
    requires
        reached(cap, known, goal, lines),
        known.subset_of(more),
        lines <= greater,
    ensures
        reached(cap, more, goal, greater),
    decreases lines,
{
    broadcast use vstd::multiset::group_multiset_axioms;

    if known.contains(goal) {
        assert(known.count(goal) <= more.count(goal));
    } else if lines >= 1 && exists|x: Prop|
        !#[trigger] known.contains(x) && offered(known, x) && reached(
            cap,
            known.insert(x),
            goal,
            (lines - 1) as nat,
        ) {
        let x = choose|x: Prop|
            !#[trigger] known.contains(x) && offered(known, x) && reached(
                cap,
                known.insert(x),
                goal,
                (lines - 1) as nat,
            );
        if more.contains(x) {
            assert(known.insert(x).subset_of(more)) by {
                assert forall|y: Prop| known.insert(x).count(y) <= more.count(y) by {
                    assert(known.count(y) <= more.count(y));
                }
            }
            law_reached_monotone(cap, known.insert(x), more, goal, (lines - 1) as nat, greater);
        } else {
            lemma_insert_subset(known, more, x);
            law_reached_monotone(
                cap,
                known.insert(x),
                more.insert(x),
                goal,
                (lines - 1) as nat,
                (greater - 1) as nat,
            );
            lemma_offered_more(known, more, x);
            assert(!more.contains(x));
        }
    } else if lines >= 2 && rewrites(goal).len() <= cap && exists|g: Prop, rule: EquivalenceRule|
        #[trigger] rewrites(goal).contains((g, rule)) && reached(
            cap,
            known,
            g,
            (lines - 1) as nat,
        ) {
        let (g, rule) = choose|g: Prop, rule: EquivalenceRule|
            #[trigger] rewrites(goal).contains((g, rule)) && reached(
                cap,
                known,
                g,
                (lines - 1) as nat,
            );
        law_reached_monotone(cap, known, more, g, (lines - 1) as nat, (greater - 1) as nat);
        assert(rewrites(goal).contains((g, rule)));
    } else if lines >= 2 && goal != Prop::Contradiction && reached(
        cap,
        known.insert(p_not(goal)),
        Prop::Contradiction,
        (lines - 2) as nat,
    ) {
        lemma_insert_subset(known, more, p_not(goal));
        law_reached_monotone(
            cap,
            known.insert(p_not(goal)),
            more.insert(p_not(goal)),
            Prop::Contradiction,
            (lines - 2) as nat,
            (greater - 2) as nat,
        );
    } else {
        match goal {
            Prop::Implies(a, c) => {
                lemma_insert_subset(known, more, *a);
                law_reached_monotone(
                    cap,
                    known.insert(*a),
                    more.insert(*a),
                    *c,
                    (lines - 2) as nat,
                    (greater - 2) as nat,
                );
            },
            Prop::Or(l, r) => {
                let side = if reached(cap, known, *l, (lines - 1) as nat) {
                    *l
                } else {
                    *r
                };
                law_reached_monotone(
                    cap,
                    known,
                    more,
                    side,
                    (lines - 1) as nat,
                    (greater - 1) as nat,
                );
            },
            Prop::And(l, r) => {
                let i = choose|i: nat|
                    #[trigger] spare(i, lines) && reached(cap, known, *l, i) && reached(
                        cap,
                        joined_by(known, *l),
                        *r,
                        (lines - 1 - i) as nat,
                    );
                law_reached_monotone(cap, known, more, *l, i, i);
                lemma_joined_subset(known, more, *l);
                law_reached_monotone(
                    cap,
                    joined_by(known, *l),
                    joined_by(more, *l),
                    *r,
                    (lines - 1 - i) as nat,
                    (greater - 1 - i) as nat,
                );
                assert(spare(i, greater));
            },
            _ => {},
        }
    }
}

/// What does not follow from a list of formulas is not reached from it.
proof fn lemma_implausible(cap: nat, state: Seq<Prop>, goal: Prop, lines: nat)
    requires
        !plausible(state, goal),
    ensures
        !reached(cap, state.to_multiset(), goal, lines),
{
    broadcast use vstd::seq_lib::group_to_multiset_ensures;

    if reached(cap, state.to_multiset(), goal, lines) {
        lemma_reached_findable(cap, state.to_multiset(), goal, lines);
        assert forall|v: Valuation| #[trigger] all_true(state, v) implies eval(goal, v) by {
            assert forall|f: Prop| #[trigger] state.to_multiset().contains(f) implies eval(
                f,
                v,
            ) by {
                assert(state.contains(f));
                let i = choose|i: int| 0 <= i < state.len() && state[i] == f;
                assert(eval(state[i], v));
            }
            lemma_findable_sound(state.to_multiset(), goal, lines, v);
        }
    }
}

/// Whether nothing that is remembered as failed can be reached.
pub open spec fn memo_true(cap: nat, memo: Map<Key, nat>) -> bool {
    forall|k: Key| #[trigger] memo.contains_key(k) ==> !reached(cap, k.0, k.1, memo[k])
}

/// Whether a stage of the search has kept the memory true, and has failed only if
/// `hopeless` holds, unless too much was visited.
pub open spec fn diligent(cap: nat, before: Ctx, r: (Verdict, Ctx), hopeless: bool) -> bool {
    memo_true(cap, before.memo) && !(r.0 is Exceeded) ==> memo_true(cap, r.1.memo) && (
    r.0 is Nothing ==> hopeless)
}

/// A failed search shows that its goal cannot be reached in that many lines, whether or
/// not a list was cut short.
pub proof fn law_search_diligent(lim: Limits, state: Seq<Prop>, goal: Prop, budget: nat, ctx: Ctx)
    ensures
        diligent(
            lim.cap,
            ctx,
            search(lim, state, goal, budget, ctx),
            !reached(lim.cap, state.to_multiset(), goal, budget),
        ),
    decreases budget, 3int, 0int, 0int, 0int,
{
    broadcast use vstd::seq_lib::group_to_multiset_ensures;

    let k = key(state, goal);
    let r = search(lim, state, goal, budget, ctx);
    if state.contains(goal) || budget == 0 {
    } else if ctx.memo.contains_key(k) && budget <= ctx.memo[k] {
        if memo_true(lim.cap, ctx.memo) && reached(lim.cap, k.0, goal, budget) {
            law_reached_monotone(lim.cap, k.0, k.0, goal, budget, ctx.memo[k]);
        }
    } else if !plausible(state, goal) {
        lemma_implausible(lim.cap, state, goal, budget);
        lemma_implausible(lim.cap, state, goal, usize::MAX as nat);
        if memo_true(lim.cap, ctx.memo) {
            assert forall|j: Key| #[trigger] r.1.memo.contains_key(j) implies !reached(
                lim.cap,
                j.0,
                j.1,
                r.1.memo[j],
            ) by {
                if j != k {
                    assert(ctx.memo.contains_key(j));
                }
            }
        }
    } else if ctx.nodes >= lim.max_nodes {
    } else {
        lemma_expand_diligent(lim, state, goal, budget, Ctx { nodes: ctx.nodes + 1, ..ctx });
    }
}

/// [`law_search_diligent`] for an expansion.
#[verifier::rlimit(60)]
proof fn lemma_expand_diligent(lim: Limits, state: Seq<Prop>, goal: Prop, budget: nat, ctx: Ctx)
    requires
        budget > 0,
        !state.contains(goal),
    ensures
        diligent(
            lim.cap,
            ctx,
            expand(lim, state, goal, budget, ctx),
            !reached(lim.cap, state.to_multiset(), goal, budget),
        ),
    decreases budget, 2int, 5int, 0int, 0int,
{
    let ms = deduped(moves(state));
    lemma_moves_diligent(lim, state, goal, budget, ms, ctx);
    let r1 = try_moves(lim, state, goal, budget, ms, ctx);
    let c1 = r1.1;
    let e1 = expand_goal(lim, state, goal, budget, c1);
    lemma_shape_diligent(lim, state, goal, budget, c1);
    let r2 = try_shape(lim, state, goal, budget, c1);
    let c2 = r2.1;
    let e2 = expand_indirect(lim, state, goal, budget, c2);
    lemma_subproof_diligent(
        lim,
        state,
        goal,
        ProofTechnique::IndirectProof,
        p_not(goal),
        Prop::Contradiction,
        budget,
        c2,
    );
    let r3 = try_subproof(
        lim,
        state,
        goal,
        ProofTechnique::IndirectProof,
        p_not(goal),
        Prop::Contradiction,
        budget,
        c2,
    );
    let c3 = if goal == Prop::Contradiction {
        c2
    } else {
        r3.1
    };
    let e3 = expand_rewrites(lim, state, goal, budget, c3);
    let cands = state_rewrites(state);
    let fwd = selected(cands, lim.cap);
    let n3 = noted(c3, cands, lim.cap);
    lemma_moves_diligent(lim, state, goal, budget, fwd, n3);
    let r4 = try_moves(lim, state, goal, budget, fwd, n3);
    let c4 = r4.1;
    let e4 = expand_goal_rewrites(lim, state, goal, budget, c4);
    let back = goal_rewrites(goal);
    let bwd = selected(back, lim.cap);
    let n4 = noted(c4, back, lim.cap);
    lemma_goals_diligent(lim, state, goal, budget, bwd, n4);
    let r5 = try_goals(lim, state, goal, budget, bwd, n4);
    let e = expand(lim, state, goal, budget, ctx);
    assert(e == if r1.0 is Nothing {
        e1
    } else {
        r1
    });
    assert(e1 == if r2.0 is Nothing {
        e2
    } else {
        r2
    });
    assert(e2 == if goal == Prop::Contradiction || r3.0 is Nothing {
        e3
    } else {
        r3
    });
    assert(e3 == if r4.0 is Nothing {
        e4
    } else {
        r4
    });
    let c5 = if budget < 2 {
        c4
    } else {
        r5.1
    };
    assert(e4 == if budget < 2 || r5.0 is Nothing {
        (Verdict::Nothing, remembered(c5, key(state, goal), budget))
    } else {
        r5
    });
    if memo_true(lim.cap, ctx.memo) && e.0 is Nothing {
        lemma_stages(lim, state, goal, budget);
        lemma_remembered(lim.cap, c5, key(state, goal), budget);
    }
}

/// Remembering a failure that is one keeps the memory true.
proof fn lemma_remembered(cap: nat, ctx: Ctx, k: Key, budget: nat)
    requires
        memo_true(cap, ctx.memo),
        !reached(cap, k.0, k.1, budget),
    ensures
        memo_true(cap, remembered(ctx, k, budget).memo),
{
    let after = remembered(ctx, k, budget);
    assert forall|j: Key| #[trigger] after.memo.contains_key(j) implies !reached(
        cap,
        j.0,
        j.1,
        after.memo[j],
    ) by {
        if j != k {
            assert(ctx.memo.contains_key(j));
        }
    }
}

/// Whether a line leads to where the goal cannot be reached.
spec fn dead_end(cap: nat, state: Seq<Prop>, goal: Prop, budget: nat, l: Line) -> bool {
    !reached(cap, state.to_multiset().insert(l.formula), goal, (budget - 1) as nat)
}

/// Whether a candidate for the goal cannot be reached.
spec fn dead_goal(cap: nat, state: Seq<Prop>, budget: nat, l: Line) -> bool {
    !reached(cap, state.to_multiset(), l.formula, (budget - 1) as nat)
}

/// Where every stage fails, nothing is left to reach the goal by.
proof fn lemma_stages(lim: Limits, state: Seq<Prop>, goal: Prop, budget: nat)
    requires
        budget > 0,
        !state.contains(goal),
        forall|l: Line|
            #[trigger] deduped(moves(state)).contains(l) ==> dead_end(
                lim.cap,
                state,
                goal,
                budget,
                l,
            ),
        forall|l: Line|
            budget >= 2 && #[trigger] selected(goal_rewrites(goal), lim.cap).contains(l)
                ==> dead_goal(lim.cap, state, budget, l),
        shape_fails(lim.cap, state, goal, budget),
        goal != Prop::Contradiction ==> indirect_fails(lim.cap, state, goal, budget),
    ensures
        !reached(lim.cap, state.to_multiset(), goal, budget),
{
    broadcast use vstd::seq_lib::group_to_multiset_ensures;

    let cap = lim.cap;
    let known = state.to_multiset();
    assert(!known.contains(goal));
    if reached(cap, known, goal, budget) {
        if exists|x: Prop|
            !#[trigger] known.contains(x) && offered(known, x) && reached(
                cap,
                known.insert(x),
                goal,
                (budget - 1) as nat,
            ) {
            let x = choose|x: Prop|
                !#[trigger] known.contains(x) && offered(known, x) && reached(
                    cap,
                    known.insert(x),
                    goal,
                    (budget - 1) as nat,
                );
            assert(!state.contains(x));
            lemma_offered_move(state, x);
            let m = choose|m: Line|
                #[trigger] deduped(moves(state)).contains(m) && m.formula == x;
            assert(dead_end(cap, state, goal, budget, m));
        } else if budget >= 2 && rewrites(goal).len() <= cap && exists|
            g: Prop,
            rule: EquivalenceRule,
        | #[trigger] rewrites(goal).contains((g, rule)) && reached(
            cap,
            known,
            g,
            (budget - 1) as nat,
        ) {
            let (g, rule) = choose|g: Prop, rule: EquivalenceRule|
                #[trigger] rewrites(goal).contains((g, rule)) && reached(
                    cap,
                    known,
                    g,
                    (budget - 1) as nat,
                );
            lemma_deduped_len(goal_rewrites(goal));
            lemma_goal_candidate(goal, g, rule, cap);
            let m = choose|m: Line|
                #[trigger] selected(goal_rewrites(goal), cap).contains(m) && m.formula == g;
            assert(dead_goal(cap, state, budget, m));
        } else {
            match goal {
                Prop::And(l, r) => {
                    let i = choose|i: nat|
                        #[trigger] spare(i, budget) && reached(cap, known, *l, i) && reached(
                            cap,
                            joined_by(known, *l),
                            *r,
                            (budget - 1 - i) as nat,
                        );
                    assert(half_fails(cap, state, *l, *r, budget, i));
                },
                _ => {},
            }
        }
    }
}

/// Whether a conjunction cannot be reached with `i` lines for its left half.
spec fn half_fails(cap: nat, state: Seq<Prop>, l: Prop, r: Prop, budget: nat, i: nat) -> bool {
    !reached(cap, state.to_multiset(), l, i) || !reached(
        cap,
        joined_by(state.to_multiset(), l),
        r,
        (budget - 1 - i) as nat,
    )
}

/// Whether the goal cannot be reached by the step that its shape calls for.
spec fn shape_fails(cap: nat, state: Seq<Prop>, goal: Prop, budget: nat) -> bool {
    let known = state.to_multiset();
    match goal {
        Prop::Implies(a, c) => budget >= 2 ==> !reached(
            cap,
            known.insert(*a),
            *c,
            (budget - 2) as nat,
        ),
        Prop::Or(l, r) => !reached(cap, known, *l, (budget - 1) as nat) && !reached(
            cap,
            known,
            *r,
            (budget - 1) as nat,
        ),
        Prop::And(l, r) => forall|i: nat|
            i < budget ==> #[trigger] half_fails(cap, state, *l, *r, budget, i),
        _ => true,
    }
}

/// Whether the goal cannot be reached by an indirect proof.
spec fn indirect_fails(cap: nat, state: Seq<Prop>, goal: Prop, budget: nat) -> bool {
    budget >= 2 ==> !reached(
        cap,
        state.to_multiset().insert(p_not(goal)),
        Prop::Contradiction,
        (budget - 2) as nat,
    )
}

/// [`law_search_diligent`] for steps tried in turn.
proof fn lemma_moves_diligent(
    lim: Limits,
    state: Seq<Prop>,
    goal: Prop,
    budget: nat,
    ms: Seq<Line>,
    ctx: Ctx,
)
    requires
        budget > 0,
    ensures
        diligent(
            lim.cap,
            ctx,
            try_moves(lim, state, goal, budget, ms, ctx),
            forall|l: Line|
                #[trigger] ms.contains(l) ==> dead_end(lim.cap, state, goal, budget, l),
        ),
    decreases budget, 1int, ms.len(), 0int, 0int,
{
    if ms.len() > 0 {
        let m = ms[0];
        let rest = ms.drop_first();
        law_search_diligent(lim, state.push(m.formula), goal, (budget - 1) as nat, ctx);
        let r = search(lim, state.push(m.formula), goal, (budget - 1) as nat, ctx);
        if r.0 is Nothing {
            lemma_moves_diligent(lim, state, goal, budget, rest, r.1);
            vstd::seq_lib::to_multiset_build(state, m.formula);
            assert forall|l: Line| #[trigger] ms.contains(l) implies l == m || rest.contains(
                l,
            ) by {
                let i = choose|i: int| 0 <= i < ms.len() && ms[i] == l;
                if i > 0 {
                    assert(rest[i - 1] == l);
                }
            }
        }
    }
}

/// [`law_search_diligent`] for other goals tried in turn.
proof fn lemma_goals_diligent(
    lim: Limits,
    state: Seq<Prop>,
    goal: Prop,
    budget: nat,
    cands: Seq<Line>,
    ctx: Ctx,
)
    requires
        budget > 0,
    ensures
        diligent(
            lim.cap,
            ctx,
            try_goals(lim, state, goal, budget, cands, ctx),
            forall|l: Line|
                #[trigger] cands.contains(l) ==> dead_goal(lim.cap, state, budget, l),
        ),
    decreases budget, 1int, cands.len(), 0int, 0int,
{
    if cands.len() > 0 {
        let m = cands[0];
        let rest = cands.drop_first();
        law_search_diligent(lim, state, m.formula, (budget - 1) as nat, ctx);
        let r = search(lim, state, m.formula, (budget - 1) as nat, ctx);
        if r.0 is Nothing {
            lemma_goals_diligent(lim, state, goal, budget, rest, r.1);
            assert forall|l: Line| #[trigger] cands.contains(l) implies l == m || rest.contains(
                l,
            ) by {
                let i = choose|i: int| 0 <= i < cands.len() && cands[i] == l;
                if i > 0 {
                    assert(rest[i - 1] == l);
                }
            }
        }
    }
}

/// [`law_search_diligent`] for a subproof.
proof fn lemma_subproof_diligent(
    lim: Limits,
    state: Seq<Prop>,
    goal: Prop,
    t: ProofTechnique,
    assumption: Prop,
    target: Prop,
    budget: nat,
    ctx: Ctx,
)
    ensures
        diligent(
            lim.cap,
            ctx,
            try_subproof(lim, state, goal, t, assumption, target, budget, ctx),
            budget >= 2 ==> !reached(
                lim.cap,
                state.to_multiset().insert(assumption),
                target,
                (budget - 2) as nat,
            ),
        ),
    decreases budget, 1int, 0int, 0int, 0int,
{
    if budget >= 2 {
        law_search_diligent(lim, state.push(assumption), target, (budget - 2) as nat, ctx);
        vstd::seq_lib::to_multiset_build(state, assumption);
    }
}

/// [`law_search_diligent`] for the step that the shape of the goal calls for.
proof fn lemma_shape_diligent(lim: Limits, state: Seq<Prop>, goal: Prop, budget: nat, ctx: Ctx)
    requires
        budget > 0,
    ensures
        diligent(
            lim.cap,
            ctx,
            try_shape(lim, state, goal, budget, ctx),
            shape_fails(lim.cap, state, goal, budget),
        ),
    decreases budget, 2int, 0int, 0int, 0int,
{
    match goal {
        Prop::Implies(a, c) => {
            lemma_subproof_diligent(
                lim,
                state,
                goal,
                ProofTechnique::ConditionalProof,
                *a,
                *c,
                budget,
                ctx,
            );
        },
        Prop::Or(l, r) => {
            if first_index(state, *l) is None && first_index(state, *r) is None {
                law_search_diligent(lim, state, *l, (budget - 1) as nat, ctx);
                let c1 = try_side(lim, state, goal, *l, budget, ctx).1;
                law_search_diligent(lim, state, *r, (budget - 1) as nat, c1);
            }
        },
        Prop::And(l, r) => {
            lemma_conj_diligent(lim, state, goal, *l, *r, budget, 0, ctx);
            let res = try_conj(lim, state, goal, *l, *r, budget, 0, ctx);
            if memo_true(lim.cap, ctx.memo) && res.0 is Nothing {
                assert forall|i: nat| i < budget implies #[trigger] half_fails(
                    lim.cap,
                    state,
                    *l,
                    *r,
                    budget,
                    i,
                ) by {
                    lemma_half(lim.cap, state, *l, *r, budget, i);
                }
            }
            if res.0 is Nothing {
                lemma_below_diligent(lim, state, goal, *l, 0, budget, res.1);
            }
        },
        _ => {},
    }
}

/// Whether the sweep failed with `left` lines for the left half: either that half cannot
/// be reached so, or it was found in `n` lines and the rest is too little for the other.
spec fn sweep_fails(cap: nat, state: Seq<Prop>, l: Prop, r: Prop, budget: nat, left: nat) -> bool {
    ||| !reached(cap, state.to_multiset(), l, left)
    ||| exists|n: nat|
        n <= left && n < budget && !#[trigger] reached(
            cap,
            joined_by(state.to_multiset(), l),
            r,
            (budget - 1 - n) as nat,
        )
}

/// Where the sweep failed throughout, no division of the lines works.
proof fn lemma_half(cap: nat, state: Seq<Prop>, l: Prop, r: Prop, budget: nat, i: nat)
    requires
        i < budget,
        forall|left: nat|
            left < budget ==> #[trigger] sweep_fails(cap, state, l, r, budget, left),
    ensures
        half_fails(cap, state, l, r, budget, i),
{
    let known = state.to_multiset();
    let both = joined_by(known, l);
    assert(sweep_fails(cap, state, l, r, budget, i));
    if reached(cap, known, l, i) && reached(cap, both, r, (budget - 1 - i) as nat) {
        let n = choose|n: nat|
            n <= i && n < budget && !#[trigger] reached(cap, both, r, (budget - 1 - n) as nat);
        law_reached_monotone(
            cap,
            both,
            both,
            r,
            (budget - 1 - i) as nat,
            (budget - 1 - n) as nat,
        );
    }
}

/// [`law_search_diligent`] for a conjunction.
proof fn lemma_conj_diligent(
    lim: Limits,
    state: Seq<Prop>,
    goal: Prop,
    l: Prop,
    r: Prop,
    budget: nat,
    left: nat,
    ctx: Ctx,
)
    ensures
        diligent(
            lim.cap,
            ctx,
            try_conj(lim, state, goal, l, r, budget, left, ctx),
            forall|k: nat|
                left <= k < budget ==> #[trigger] sweep_fails(lim.cap, state, l, r, budget, k),
        ),
    decreases budget, 1int, budget - left, 0int, 0int,
{
    let cap = lim.cap;
    if left < budget {
        law_search_diligent(lim, state, l, left, ctx);
        law_search_proves(lim, state, l, left, ctx);
        let r1 = search(lim, state, l, left, ctx);
        match r1.0 {
            Verdict::Exceeded => {},
            Verdict::Nothing => {
                lemma_conj_diligent(lim, state, goal, l, r, budget, left + 1, r1.1);
                let res = try_conj(lim, state, goal, l, r, budget, left + 1, r1.1);
                if memo_true(cap, ctx.memo) && res.0 is Nothing {
                    assert(sweep_fails(cap, state, l, r, budget, left));
                }
            },
            Verdict::Found(ls) => {
                let after = grown(state, ls);
                let rest = (budget - 1 - ls.len()) as nat;
                law_search_diligent(lim, after, r, rest, r1.1);
                let r2 = search(lim, after, r, rest, r1.1);
                if r2.0 is Nothing {
                    lemma_conj_diligent(lim, state, goal, l, r, budget, left + 1, r2.1);
                    let res = try_conj(lim, state, goal, l, r, budget, left + 1, r2.1);
                    if memo_true(cap, ctx.memo) && res.0 is Nothing {
                        let both = joined_by(state.to_multiset(), l);
                        if reached(cap, both, r, rest) {
                            lemma_left_half_known(state, l, left, ls);
                            law_reached_monotone(cap, both, after.to_multiset(), r, rest, rest);
                        }
                        assert(!reached(cap, both, r, (budget - 1 - ls.len()) as nat));
                        assert(sweep_fails(cap, state, l, r, budget, left));
                    }
                }
            },
        }
    }
}

/// [`law_search_diligent`] for the subgoals below one.
proof fn lemma_below_diligent(
    lim: Limits,
    state: Seq<Prop>,
    goal: Prop,
    y: Prop,
    e: nat,
    budget: nat,
    ctx: Ctx,
)
    ensures
        diligent(lim.cap, ctx, share_below(lim, state, goal, y, e, budget, ctx), true),
    decreases budget, 1int, budget - e, 2int, 0int,
{
    if !ctx.truncated && e + 3 <= budget {
        match halves(y) {
            Some((a, b)) => {
                lemma_share_diligent(lim, state, goal, a, e + 1, budget, ctx);
                let first = share(lim, state, goal, a, e + 1, budget, ctx);
                lemma_share_diligent(lim, state, goal, b, e + 1, budget, first.1);
            },
            None => {},
        }
        let parts = share_parts(lim, state, goal, y, e, budget, ctx);
        let cands = goal_rewrites(y);
        let n = noted(parts.1, cands, lim.cap);
        lemma_list_diligent(lim, state, goal, selected(cands, lim.cap), e, budget, n);
    }
}

/// [`law_search_diligent`] for subgoals tried in turn.
proof fn lemma_list_diligent(
    lim: Limits,
    state: Seq<Prop>,
    goal: Prop,
    cands: Seq<Line>,
    e: nat,
    budget: nat,
    ctx: Ctx,
)
    ensures
        diligent(lim.cap, ctx, share_list(lim, state, goal, cands, e, budget, ctx), true),
    decreases budget, 1int, budget - e, 1int, cands.len(),
{
    if cands.len() > 0 && e + 3 <= budget {
        lemma_share_diligent(lim, state, goal, cands[0].formula, e + 1, budget, ctx);
        let r = share(lim, state, goal, cands[0].formula, e + 1, budget, ctx);
        if r.0 is Nothing {
            lemma_list_diligent(lim, state, goal, cands.drop_first(), e, budget, r.1);
        }
    }
}

/// [`law_search_diligent`] for a subgoal that is established first.
proof fn lemma_share_diligent(
    lim: Limits,
    state: Seq<Prop>,
    goal: Prop,
    y: Prop,
    e: nat,
    budget: nat,
    ctx: Ctx,
)
    ensures
        diligent(lim.cap, ctx, share(lim, state, goal, y, e, budget, ctx), true),
    decreases budget, 1int, budget - e, 4int, 0int,
{
    if !ctx.truncated && e + 2 <= budget {
        lemma_closing_diligent(lim, state, goal, y, e, budget, ctx);
        let closed = share_closing(lim, state, goal, y, e, budget, ctx);
        lemma_below_diligent(lim, state, goal, y, e, budget, closed.1);
    }
}

/// [`law_search_diligent`] for the cheapest way to establish a subgoal.
proof fn lemma_closing_diligent(
    lim: Limits,
    state: Seq<Prop>,
    goal: Prop,
    y: Prop,
    e: nat,
    budget: nat,
    ctx: Ctx,
)
    requires
        budget > 0,
    ensures
        diligent(lim.cap, ctx, share_closing(lim, state, goal, y, e, budget, ctx), true),
    decreases budget, 1int, budget - e, 3int, 0int,
{
    if !state.contains(y) {
        if closing_line(state, y) is Some {
            law_search_diligent(lim, state.push(y), goal, (budget - 1) as nat, ctx);
        } else {
            let first = share_conditional(lim, state, goal, y, e, budget, ctx);
            match y {
                Prop::Implies(a, c) => {
                    lemma_sweep_diligent(
                        lim,
                        state,
                        goal,
                        ProofTechnique::ConditionalProof,
                        *a,
                        *c,
                        y,
                        e,
                        0,
                        budget,
                        ctx,
                    );
                },
                _ => {},
            }
            lemma_sweep_diligent(
                lim,
                state,
                goal,
                ProofTechnique::IndirectProof,
                p_not(y),
                Prop::Contradiction,
                y,
                e,
                0,
                budget,
                first.1,
            );
        }
    }
}

/// [`law_search_diligent`] for subproofs of growing length.
proof fn lemma_sweep_diligent(
    lim: Limits,
    state: Seq<Prop>,
    goal: Prop,
    t: ProofTechnique,
    assumption: Prop,
    target: Prop,
    y: Prop,
    e: nat,
    from: nat,
    budget: nat,
    ctx: Ctx,
)
    ensures
        diligent(
            lim.cap,
            ctx,
            share_subproof(lim, state, goal, t, assumption, target, y, e, from, budget, ctx),
            true,
        ),
    decreases budget, 1int, budget - e, 1int, budget - from,
{
    if from + e + 3 <= budget {
        let inner = state.push(assumption);
        law_search_diligent(lim, inner, target, from, ctx);
        let r = search(lim, inner, target, from, ctx);
        match r.0 {
            Verdict::Exceeded => {},
            Verdict::Nothing => {
                lemma_sweep_diligent(
                    lim,
                    state,
                    goal,
                    t,
                    assumption,
                    target,
                    y,
                    e,
                    from + 1,
                    budget,
                    r.1,
                );
            },
            Verdict::Found(inside) => {
                if inside.len() <= from {
                    let rest = (budget - 2 - inside.len()) as nat;
                    law_search_diligent(lim, state.push(y), goal, rest, r.1);
                }
            },
        }
    }
}

/// [`law_optimal_complete`] from a depth on.
proof fn lemma_deepen_diligent(
    lim: Limits,
    premises: Seq<Prop>,
    goal: Prop,
    depth: nat,
    max: nat,
    ctx: Ctx,
    lines: nat,
)
    requires
        memo_true(lim.cap, ctx.memo),
        reached(lim.cap, premises.to_multiset(), goal, lines),
        1 <= depth,
        depth <= lines <= max || (lines < depth <= max),
    ensures
        ({
            let (v, c, d) = deepen(lim, premises, goal, depth, max, ctx);
            v is Exceeded || (v is Found && d <= if depth <= lines {
                lines
            } else {
                depth
            })
        }),
    decreases max + 1 - depth,
{
    law_search_diligent(lim, premises, goal, depth, ctx);
    let r = search(lim, premises, goal, depth, ctx);
    if r.0 is Nothing {
        if depth >= lines {
            law_reached_monotone(
                lim.cap,
                premises.to_multiset(),
                premises.to_multiset(),
                goal,
                lines,
                depth,
            );
        }
        lemma_deepen_diligent(lim, premises, goal, depth + 1, max, r.1, lines);
    }
}

/// What can be reached is proved, whatever the cap on rewrites is and whatever was cut
/// short: a goal that can be derived from the premises in so many lines, within the bound,
/// with no rewrite of a known formula, is proved in no more lines than that, unless more
/// nodes are visited than allowed.
pub proof fn law_optimal_complete(
    lim: Limits,
    premises: Seq<Prop>,
    goal: Prop,
    max: nat,
    lines: nat,
)
    requires
        reached(lim.cap, premises.to_multiset(), goal, lines),
        lines <= max,
        max >= 1,
    ensures
        ({
            let (v, _, _) = deepen(lim, premises, goal, 1, max, fresh_ctx());
            v is Exceeded || (v matches Verdict::Found(steps) && steps.len() <= lines)
        }),
{
    broadcast use vstd::seq_lib::group_to_multiset_ensures;

    assert(memo_true(lim.cap, fresh_ctx().memo));
    lemma_deepen_diligent(lim, premises, goal, 1, max, fresh_ctx(), lines);
    law_optimal_proves(lim, premises, goal, 1, max, fresh_ctx());
    if lines == 0 {
        assert(premises.contains(goal));
    }
}

/// `last`, with the formulas of `antecedents` put before it as conditions, the first one
/// outermost.
pub open spec fn conditional_chain(antecedents: Seq<Prop>, last: Prop) -> Prop
    decreases antecedents.len(),
{
    if antecedents.len() == 0 {
        last
    } else {
        p_implies(antecedents[0], conditional_chain(antecedents.drop_first(), last))
    }
}

/// A chain of conditionals is reached by as many conditional proofs.
proof fn lemma_chain_reached(cap: nat, known: Multiset<Prop>, antecedents: Seq<Prop>, last: Prop)
    requires
        known.contains(last) || antecedents.contains(last),
    ensures
        reached(
            cap,
            known,
            conditional_chain(antecedents, last),
            (2 * antecedents.len()) as nat,
        ),
    decreases antecedents.len(),
{
    broadcast use vstd::multiset::group_multiset_axioms;

    if antecedents.len() > 0 {
        let a = antecedents[0];
        let rest = antecedents.drop_first();
        assert(known.insert(a).contains(last) || rest.contains(last)) by {
            if known.contains(last) {
                assert(known.insert(a).count(last) >= known.count(last));
            } else if a != last {
                let i = choose|i: int| 0 <= i < antecedents.len() && antecedents[i] == last;
                assert(rest[i - 1] == last);
            }
        }
        lemma_chain_reached(cap, known.insert(a), rest, last);
        assert((2 * antecedents.len() - 2) as nat == (2 * rest.len()) as nat);
    }
}

/// Nested conditionals are proved: a goal of nested conditionals whose last consequent is
/// one of the antecedents, or a premise, is proved in at most two lines for each of them,
/// wherever the bound allows that many, unless more nodes are visited than allowed.
pub proof fn law_nested_conditionals_proved(
    lim: Limits,
    premises: Seq<Prop>,
    antecedents: Seq<Prop>,
    last: Prop,
    max: nat,
)
    requires
        antecedents.contains(last) || premises.contains(last),
        2 * antecedents.len() <= max,
        max >= 1,
    ensures
        ({
            let goal = conditional_chain(antecedents, last);
            let (v, _, _) = deepen(lim, premises, goal, 1, max, fresh_ctx());
            v is Exceeded || (v matches Verdict::Found(steps) && steps.len() <= 2
                * antecedents.len())
        }),
{
    broadcast use vstd::seq_lib::group_to_multiset_ensures;

    lemma_chain_reached(lim.cap, premises.to_multiset(), antecedents, last);
    law_optimal_complete(
        lim,
        premises,
        conditional_chain(antecedents, last),
        max,
        (2 * antecedents.len()) as nat,
    );
}

/// A search that finds nothing is remembered: the same search, or one with fewer lines, need
/// not be made again.
pub proof fn law_failure_remembered(
    lim: Limits,
    state: Seq<Prop>,
    goal: Prop,
    budget: nat,
    ctx: Ctx,
)
    requires
        search(lim, state, goal, budget, ctx).0 is Nothing,
        1 <= budget <= usize::MAX,
    ensures
        ({
            let after = search(lim, state, goal, budget, ctx).1;
            after.memo.contains_key((state.to_multiset(), goal)) && after.memo[(
                state.to_multiset(),
                goal,
            )] >= budget
        }),
        forall|fewer: nat|
            fewer <= budget ==> #[trigger] search(
                lim,
                state,
                goal,
                fewer,
                search(lim, state, goal, budget, ctx).1,
            ) == (Verdict::Nothing, search(lim, state, goal, budget, ctx).1),
{
    let k = key(state, goal);
    if !(ctx.memo.contains_key(k) && budget <= ctx.memo[k]) && plausible(state, goal) {
        let c0 = Ctx { nodes: ctx.nodes + 1, ..ctx };
        assert(search(lim, state, goal, budget, ctx) == expand(lim, state, goal, budget, c0));
        let c1 = try_moves(lim, state, goal, budget, deduped(moves(state)), c0).1;
        assert(expand(lim, state, goal, budget, c0) == expand_goal(lim, state, goal, budget, c1));
        let c2 = try_shape(lim, state, goal, budget, c1).1;
        assert(expand_goal(lim, state, goal, budget, c1) == expand_indirect(
            lim,
            state,
            goal,
            budget,
            c2,
        ));
        let c3 = if goal == Prop::Contradiction {
            c2
        } else {
            try_subproof(
                lim,
                state,
                goal,
                ProofTechnique::IndirectProof,
                p_not(goal),
                Prop::Contradiction,
                budget,
                c2,
            ).1
        };
        assert(expand_indirect(lim, state, goal, budget, c2) == expand_rewrites(
            lim,
            state,
            goal,
            budget,
            c3,
        ));
        let cands = state_rewrites(state);
        let c4 = try_moves(
            lim,
            state,
            goal,
            budget,
            selected(cands, lim.cap),
            noted(c3, cands, lim.cap),
        ).1;
        assert(expand_rewrites(lim, state, goal, budget, c3) == expand_goal_rewrites(
            lim,
            state,
            goal,
            budget,
            c4,
        ));
    }
    let after = search(lim, state, goal, budget, ctx).1;
    assert forall|fewer: nat| fewer <= budget implies #[trigger] search(
        lim,
        state,
        goal,
        fewer,
        after,
    ) == (Verdict::Nothing, after) by {}
}

} // verus!
