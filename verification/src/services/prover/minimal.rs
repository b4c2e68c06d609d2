//! Why a certified proof is minimal: what a search that was nowhere cut short does not
//! find cannot be derived in that many lines.

use vstd::prelude::*;

use super::bank::plausible;
use super::derivation::{derivable, joined_by, offered, rewritten_from, spare, taken};
use super::findable::{
    attained, below, child, closes_now, findable, law_derivable_findable,
    lemma_findable_monotone, lemma_findable_sound, lemma_no_lines, room,
};
use super::found::{law_search_proves, proves};
use super::greedy::results;
use super::moves::{cites, law_moves_exact, leads, moves};
use super::moves::{Line, MoveRule};
use super::search::{
    closing_line, deduped, deepen, expand, expand_goal, expand_goal_rewrites, expand_indirect,
    expand_rewrites, fresh_ctx, goal_rewrites, halves, key, lemma_by_size_from,
    lemma_rewrite_lines, noted, remembered, rewrite_lines, search, selected, share, share_below,
    share_closing, share_conditional, share_list, share_parts, share_subproof, state_rewrites,
    try_conj, try_goals, try_moves, try_shape, try_side, try_subproof, Ctx, Key, Limits, Verdict,
};
use super::splice::{grown, lemma_open_upto, open_positions};
use super::transcript::{formulas_at, lemma_end_citable};
use crate::models::formula::{all_true, eval, first_index, lemma_first_index, p_not};
use crate::models::formula::{Prop, Valuation};
use crate::models::lists::{lemma_in_pushed, lemma_joined_upto};
use crate::models::rewriting::rewrites;
use crate::models::rules::equivalence::EquivalenceRule;
use crate::models::rules::technique::ProofTechnique;

verus! {

/// What does not follow from a list of formulas cannot be come upon from it.
proof fn lemma_implausible(state: Seq<Prop>, goal: Prop, lines: nat)
    requires
        !plausible(state, goal),
    ensures
        !findable(state.to_multiset(), goal, lines),
{
    broadcast use vstd::seq_lib::group_to_multiset_ensures;

    if findable(state.to_multiset(), goal, lines) {
        assert forall|v: Valuation| #[trigger] all_true(state, v) implies eval(goal, v) by {
            assert forall|f: Prop| #[trigger] state.to_multiset().contains(f) implies eval(
                f,
                v,
            ) by {
                assert(state.contains(f));
                let i = choose|i: int| 0 <= i < state.len() && state[i] == f;
                assert(eval(state[i], v));
            }
            lemma_findable_sound(state.to_multiset(), goal, lines, v);
        }
    }
}

/// Formulas counted among those of a list stand at different positions of it.
proof fn lemma_positions(s: Seq<Prop>, rule: MoveRule, f: Prop, g: Prop, h: Prop) -> (r: (
    int,
    int,
    int,
))
    requires
        taken(rule, f, g, h).subset_of(s.to_multiset()),
    ensures
        0 <= r.0 < s.len(),
        s[r.0] == f,
        rule.arity() >= 2 ==> 0 <= r.1 < s.len() && r.1 != r.0 && s[r.1] == g,
        rule.arity() == 3 ==> 0 <= r.2 < s.len() && r.2 != r.0 && r.2 != r.1 && s[r.2] == h,
{
    broadcast use vstd::multiset::group_multiset_axioms;
    broadcast use vstd::seq_lib::group_to_multiset_ensures;

    let m = s.to_multiset();
    let t = taken(rule, f, g, h);
    assert(t.count(f) <= m.count(f));
    assert(s.contains(f));
    let i = choose|i: int| 0 <= i < s.len() && s[i] == f;
    if rule.arity() == 1 {
        (i, 0, 0)
    } else {
        let s1 = s.remove(i);
        let m1 = s1.to_multiset();
        vstd::seq_lib::to_multiset_remove(s, i);
        assert(m1 == m.remove(f));
        assert(t.count(g) <= m.count(g));
        assert(m1.count(g) > 0) by {
            if g == f {
                assert(t.count(g) >= 2);
            }
        }
        assert(s1.contains(g));
        let j1 = choose|j: int| 0 <= j < s1.len() && s1[j] == g;
        let j = if j1 < i {
            j1
        } else {
            j1 + 1
        };
        assert(s[j] == g);
        if rule.arity() == 2 {
            (i, j, 0)
        } else {
            let s2 = s1.remove(j1);
            let m2 = s2.to_multiset();
            vstd::seq_lib::to_multiset_remove(s1, j1);
            assert(m2 == m1.remove(g));
            assert(t.count(h) <= m.count(h));
            assert(m2.count(h) > 0) by {
                assert(m2.count(h) == m.count(h) - (if h == f {
                    1int
                } else {
                    0int
                }) - (if h == g {
                    1int
                } else {
                    0int
                }));
                assert(t.count(h) == 1 + (if h == f {
                    1int
                } else {
                    0int
                }) + (if h == g {
                    1int
                } else {
                    0int
                }));
            }
            assert(s2.contains(h));
            let k2 = choose|k: int| 0 <= k < s2.len() && s2[k] == h;
            let k1 = if k2 < j1 {
                k2
            } else {
                k2 + 1
            };
            assert(s1[k1] == h);
            let k = if k1 < i {
                k1
            } else {
                k1 + 1
            };
            assert(s[k] == h);
            (i, j, k)
        }
    }
}

/// Every formula of a list of lines is that of a line kept once.
pub proof fn lemma_deduped_results(s: Seq<Line>, l: Line)
    requires
        s.contains(l),
    ensures
        exists|m: Line| #[trigger] deduped(s).contains(m) && m.formula == l.formula,
    decreases s.len(),
{
    let t = s.drop_last();
    let x = s.last();
    assert(s =~= t.push(x));
    lemma_in_pushed(t, x, l);
    let before = deduped(t);
    if t.contains(l) {
        lemma_deduped_results(t, l);
        let m = choose|m: Line| #[trigger] before.contains(m) && m.formula == l.formula;
        lemma_in_pushed(before, x, m);
        assert(deduped(s).contains(m));
    } else if results(before).contains(x.formula) {
        let i = choose|i: int| 0 <= i < results(before).len() && results(before)[i] == x.formula;
        assert(before[i].formula == x.formula);
        assert(deduped(s).contains(before[i]));
    } else {
        lemma_in_pushed(before, x, x);
        assert(deduped(s).contains(x));
    }
}

/// A formula that is offered is that of a forward move.
pub proof fn lemma_offered_move(state: Seq<Prop>, x: Prop)
    requires
        offered(state.to_multiset(), x),
        !state.contains(x),
    ensures
        exists|m: Line| #[trigger] deduped(moves(state)).contains(m) && m.formula == x,
{
    let (rule, f, g, h) = choose|rule: MoveRule, f: Prop, g: Prop, h: Prop|
        #![trigger rule.gives(f, g, h).contains(x), taken(rule, f, g, h)]
        rule.gives(f, g, h).contains(x) && taken(rule, f, g, h).subset_of(state.to_multiset());
    let (i, j, k) = lemma_positions(state, rule, f, g, h);
    let m = Line { formula: x, rule: rule.label(), cited: cites(rule, i, j, k) };
    assert(rule.gives(state[i], state[j], state[k]) == rule.gives(f, g, h));
    assert(leads(state, rule, i, j, k, m.formula));
    law_moves_exact(state, m);
    lemma_deduped_results(moves(state), m);
}

/// A formula that a rewrite leads to is that of a candidate, where none was left out.
proof fn lemma_rewritten_candidate(state: Seq<Prop>, x: Prop, cap: nat)
    requires
        rewritten_from(state.to_multiset(), x),
        !state.contains(x),
        deduped(state_rewrites(state)).len() <= cap,
    ensures
        exists|m: Line|
            #[trigger] selected(state_rewrites(state), cap).contains(m) && m.formula == x,
{
    broadcast use vstd::seq_lib::group_to_multiset_ensures;

    let (f, rule) = choose|f: Prop, rule: EquivalenceRule|
        state.to_multiset().contains(f) && #[trigger] rewrites(f).contains((x, rule));
    assert(state.contains(f));
    let i = choose|i: int| 0 <= i < state.len() && state[i] == f;
    let l = Line { formula: x, rule: rule.short_name(), cited: seq![i] };
    let rs = rewrites(f);
    let k = choose|k: int| 0 <= k < rs.len() && rs[k] == (x, rule);
    assert(rs[k].0 == l.formula && rs[k].1.short_name() == l.rule);
    lemma_rewrite_lines(state, rs, i, l);
    let fs = |i: int| rewrite_lines(state, rewrites(state[i]), i);
    lemma_joined_upto(state.len() as int, fs, l);
    assert(fs(i).contains(l));
    lemma_deduped_results(state_rewrites(state), l);
    let m = choose|m: Line|
        #[trigger] deduped(state_rewrites(state)).contains(m) && m.formula == l.formula;
    lemma_by_size_from(deduped(state_rewrites(state)), m);
    assert(selected(state_rewrites(state), cap).contains(m));
}

/// A goal one rewrite away is that of a candidate, where none was left out.
pub proof fn lemma_goal_candidate(goal: Prop, g: Prop, rule: EquivalenceRule, cap: nat)
    requires
        rewrites(goal).contains((g, rule)),
        deduped(goal_rewrites(goal)).len() <= cap,
    ensures
        exists|m: Line|
            #[trigger] selected(goal_rewrites(goal), cap).contains(m) && m.formula == g,
{
    let rs = rewrites(goal);
    let k = choose|k: int| 0 <= k < rs.len() && rs[k] == (g, rule);
    let l = goal_rewrites(goal)[k];
    assert(goal_rewrites(goal).contains(l));
    lemma_deduped_results(goal_rewrites(goal), l);
    let m = choose|m: Line|
        #[trigger] deduped(goal_rewrites(goal)).contains(m) && m.formula == l.formula;
    lemma_by_size_from(deduped(goal_rewrites(goal)), m);
    assert(selected(goal_rewrites(goal), cap).contains(m));
}

/// Whether nothing that is remembered as failed can be come upon.
pub open spec fn memo_ok(memo: Map<Key, nat>) -> bool {
    forall|k: Key| #[trigger] memo.contains_key(k) ==> !findable(k.0, k.1, memo[k])
}

/// Whether a stage of the search has kept the memory right, and has failed only if
/// `hopeless` holds. Nothing is said where a list was cut short or too much was visited.
pub open spec fn certain(before: Ctx, r: (Verdict, Ctx), hopeless: bool) -> bool {
    &&& before.truncated ==> r.1.truncated
    &&& memo_ok(before.memo) && !r.1.truncated && !(r.0 is Exceeded) ==> memo_ok(r.1.memo) && (
    r.0 is Nothing ==> hopeless)
}

/// A failed search that was nowhere cut short shows that its goal cannot be come upon in
/// that many lines.
pub proof fn law_search_certain(lim: Limits, state: Seq<Prop>, goal: Prop, budget: nat, ctx: Ctx)
    ensures
        certain(
            ctx,
            search(lim, state, goal, budget, ctx),
            !findable(state.to_multiset(), goal, budget),
        ),
    decreases budget, 3int, 0int, 0int, 0int,
{
    broadcast use vstd::seq_lib::group_to_multiset_ensures;

    let k = key(state, goal);
    let r = search(lim, state, goal, budget, ctx);
    if state.contains(goal) {
    } else if budget == 0 {
        if findable(state.to_multiset(), goal, 0) {
            lemma_no_lines(state.to_multiset(), goal);
        }
    } else if ctx.memo.contains_key(k) && budget <= ctx.memo[k] {
        if memo_ok(ctx.memo) && findable(k.0, goal, budget) {
            lemma_findable_monotone(k.0, k.0, goal, budget, ctx.memo[k]);
        }
    } else if !plausible(state, goal) {
        lemma_implausible(state, goal, budget);
        lemma_implausible(state, goal, usize::MAX as nat);
        if memo_ok(ctx.memo) {
            assert forall|j: Key| #[trigger] r.1.memo.contains_key(j) implies !findable(
                j.0,
                j.1,
                r.1.memo[j],
            ) by {
                if j != k {
                    assert(ctx.memo.contains_key(j));
                }
            }
        }
    } else if ctx.nodes >= lim.max_nodes {
    } else {
        lemma_expand_certain(lim, state, goal, budget, Ctx { nodes: ctx.nodes + 1, ..ctx });
    }
}

/// [`law_search_certain`] for an expansion.
#[verifier::rlimit(60)]
proof fn lemma_expand_certain(lim: Limits, state: Seq<Prop>, goal: Prop, budget: nat, ctx: Ctx)
    requires
        budget > 0,
        !state.contains(goal),
    ensures
        certain(
            ctx,
            expand(lim, state, goal, budget, ctx),
            !findable(state.to_multiset(), goal, budget),
        ),
    decreases budget, 2int, 5int, 0int, 0int,
{
    let known = state.to_multiset();
    let ms = deduped(moves(state));
    lemma_moves_certain(lim, state, goal, budget, ms, ctx);
    let r1 = try_moves(lim, state, goal, budget, ms, ctx);
    let c1 = r1.1;
    let e1 = expand_goal(lim, state, goal, budget, c1);
    lemma_shape_certain(lim, state, goal, budget, c1);
    let r2 = try_shape(lim, state, goal, budget, c1);
    let c2 = r2.1;
    let e2 = expand_indirect(lim, state, goal, budget, c2);
    lemma_subproof_certain(
        lim,
        state,
        goal,
        ProofTechnique::IndirectProof,
        p_not(goal),
        Prop::Contradiction,
        budget,
        c2,
    );
    let r3 = try_subproof(
        lim,
        state,
        goal,
        ProofTechnique::IndirectProof,
        p_not(goal),
        Prop::Contradiction,
        budget,
        c2,
    );
    let c3 = if goal == Prop::Contradiction {
        c2
    } else {
        r3.1
    };
    let e3 = expand_rewrites(lim, state, goal, budget, c3);
    let cands = state_rewrites(state);
    let fwd = selected(cands, lim.cap);
    let n3 = noted(c3, cands, lim.cap);
    lemma_moves_certain(lim, state, goal, budget, fwd, n3);
    let r4 = try_moves(lim, state, goal, budget, fwd, n3);
    let c4 = r4.1;
    let e4 = expand_goal_rewrites(lim, state, goal, budget, c4);
    let back = goal_rewrites(goal);
    let bwd = selected(back, lim.cap);
    let n4 = noted(c4, back, lim.cap);
    lemma_goals_certain(lim, state, goal, budget, bwd, n4);
    let r5 = try_goals(lim, state, goal, budget, bwd, n4);
    let e = expand(lim, state, goal, budget, ctx);
    assert(e == if r1.0 is Nothing {
        e1
    } else {
        r1
    });
    assert(e1 == if r2.0 is Nothing {
        e2
    } else {
        r2
    });
    assert(e2 == if goal == Prop::Contradiction || r3.0 is Nothing {
        e3
    } else {
        r3
    });
    assert(e3 == if r4.0 is Nothing {
        e4
    } else {
        r4
    });
    let c5 = if budget < 2 {
        c4
    } else {
        r5.1
    };
    assert(e4 == if budget < 2 || r5.0 is Nothing {
        (Verdict::Nothing, remembered(c5, key(state, goal), budget))
    } else {
        r5
    });
    if memo_ok(ctx.memo) && !e.1.truncated && e.0 is Nothing {
        assert(!n3.truncated);
        lemma_stages(lim, state, goal, budget);
        lemma_remembered(c5, key(state, goal), budget);
    }
}

/// Remembering a failure that is one keeps the memory right.
proof fn lemma_remembered(ctx: Ctx, k: Key, budget: nat)
    requires
        memo_ok(ctx.memo),
        !findable(k.0, k.1, budget),
    ensures
        memo_ok(remembered(ctx, k, budget).memo),
        remembered(ctx, k, budget).truncated == ctx.truncated,
{
    let after = remembered(ctx, k, budget);
    assert forall|j: Key| #[trigger] after.memo.contains_key(j) implies !findable(
        j.0,
        j.1,
        after.memo[j],
    ) by {
        if j != k {
            assert(ctx.memo.contains_key(j));
        }
    }
}

/// Whether a line leads to where the goal cannot be come upon.
spec fn dead_end(state: Seq<Prop>, goal: Prop, budget: nat, l: Line) -> bool {
    !findable(state.to_multiset().insert(l.formula), goal, (budget - 1) as nat)
}

/// Whether a candidate for the goal cannot be come upon.
spec fn dead_goal(state: Seq<Prop>, budget: nat, l: Line) -> bool {
    !findable(state.to_multiset(), l.formula, (budget - 1) as nat)
}

/// Where every stage fails, nothing is left to come upon the goal by.
proof fn lemma_stages(lim: Limits, state: Seq<Prop>, goal: Prop, budget: nat)
    requires
        budget > 0,
        !state.contains(goal),
        deduped(state_rewrites(state)).len() <= lim.cap,
        budget >= 2 ==> deduped(goal_rewrites(goal)).len() <= lim.cap,
        forall|l: Line|
            #[trigger] deduped(moves(state)).contains(l) ==> dead_end(state, goal, budget, l),
        forall|l: Line|
            #[trigger] selected(state_rewrites(state), lim.cap).contains(l) ==> dead_end(
                state,
                goal,
                budget,
                l,
            ),
        forall|l: Line|
            budget >= 2 && #[trigger] selected(goal_rewrites(goal), lim.cap).contains(l)
                ==> dead_goal(state, budget, l),
        shape_fails(state, goal, budget),
        goal != Prop::Contradiction ==> indirect_fails(state, goal, budget),
    ensures
        !findable(state.to_multiset(), goal, budget),
{
    broadcast use vstd::seq_lib::group_to_multiset_ensures;

    let known = state.to_multiset();
    assert(!known.contains(goal));
    if exists|x: Prop|
        !#[trigger] known.contains(x) && (offered(known, x) || rewritten_from(known, x))
            && findable(known.insert(x), goal, (budget - 1) as nat) {
        let x = choose|x: Prop|
            !#[trigger] known.contains(x) && (offered(known, x) || rewritten_from(known, x))
                && findable(known.insert(x), goal, (budget - 1) as nat);
        assert(!state.contains(x));
        if offered(known, x) {
            lemma_offered_move(state, x);
            let m = choose|m: Line|
                #[trigger] deduped(moves(state)).contains(m) && m.formula == x;
            assert(dead_end(state, goal, budget, m));
        } else {
            lemma_rewritten_candidate(state, x, lim.cap);
            let m = choose|m: Line|
                #[trigger] selected(state_rewrites(state), lim.cap).contains(m) && m.formula == x;
            assert(dead_end(state, goal, budget, m));
        }
    } else if budget >= 2 && exists|g: Prop, rule: EquivalenceRule|
        #[trigger] rewrites(goal).contains((g, rule)) && findable(known, g, (budget - 1) as nat) {
        let (g, rule) = choose|g: Prop, rule: EquivalenceRule|
            #[trigger] rewrites(goal).contains((g, rule)) && findable(
                known,
                g,
                (budget - 1) as nat,
            );
        lemma_goal_candidate(goal, g, rule, lim.cap);
        let m = choose|m: Line|
            #[trigger] selected(goal_rewrites(goal), lim.cap).contains(m) && m.formula == g;
        assert(dead_goal(state, budget, m));
    } else if goal is And && findable(known, goal, budget) {
        match goal {
            Prop::And(l, r) => {
                if exists|i: nat|
                    #[trigger] spare(i, budget) && findable(known, *l, i) && findable(
                        joined_by(known, *l),
                        *r,
                        (budget - 1 - i) as nat,
                    ) {
                    let i = choose|i: nat|
                        #[trigger] spare(i, budget) && findable(known, *l, i) && findable(
                            joined_by(known, *l),
                            *r,
                            (budget - 1 - i) as nat,
                        );
                    assert(half_fails(state, *l, *r, budget, i));
                } else {
                    let (y, d) = choose|y: Prop, d: nat| #[trigger]
                        below(*l, y, d) && attained(known, goal, budget, y, d);
                    assert(below(*l, y, d));
                    assert(d >= 1);
                }
            },
            _ => {},
        }
    }
}

/// Whether a conjunction cannot be come upon with `i` lines for its left half.
spec fn half_fails(state: Seq<Prop>, l: Prop, r: Prop, budget: nat, i: nat) -> bool {
    !findable(state.to_multiset(), l, i) || !findable(
        joined_by(state.to_multiset(), l),
        r,
        (budget - 1 - i) as nat,
    )
}

/// Whether the goal cannot be come upon by the step that its shape calls for.
spec fn shape_fails(state: Seq<Prop>, goal: Prop, budget: nat) -> bool {
    let known = state.to_multiset();
    match goal {
        Prop::Implies(a, c) => budget >= 2 ==> !findable(
            known.insert(*a),
            *c,
            (budget - 2) as nat,
        ),
        Prop::Or(l, r) => !findable(known, *l, (budget - 1) as nat) && !findable(
            known,
            *r,
            (budget - 1) as nat,
        ),
        Prop::And(l, r) => (forall|i: nat|
            i < budget ==> #[trigger] half_fails(state, *l, *r, budget, i)) && none_below(
            state,
            goal,
            *l,
            0,
            budget,
        ),
        _ => true,
    }
}

/// Whether establishing what lies below `y` first does not help, `y` being `e` steps below
/// the left half.
spec fn none_below(state: Seq<Prop>, goal: Prop, y: Prop, e: nat, budget: nat) -> bool {
    forall|x: Prop, d: nat| #[trigger]
        below(y, x, d) && d >= 1 ==> !attained(state.to_multiset(), goal, budget, x, e + d)
}

/// Whether neither establishing `y` first helps nor anything below it.
spec fn none_from(state: Seq<Prop>, goal: Prop, y: Prop, e: nat, budget: nat) -> bool {
    !attained(state.to_multiset(), goal, budget, y, e) && none_below(state, goal, y, e, budget)
}

/// Whether the goal cannot be come upon by an indirect proof.
spec fn indirect_fails(state: Seq<Prop>, goal: Prop, budget: nat) -> bool {
    budget >= 2 ==> !findable(
        state.to_multiset().insert(p_not(goal)),
        Prop::Contradiction,
        (budget - 2) as nat,
    )
}

/// [`law_search_certain`] for steps tried in turn.
proof fn lemma_moves_certain(
    lim: Limits,
    state: Seq<Prop>,
    goal: Prop,
    budget: nat,
    ms: Seq<Line>,
    ctx: Ctx,
)
    requires
        budget > 0,
    ensures
        certain(
            ctx,
            try_moves(lim, state, goal, budget, ms, ctx),
            forall|l: Line| #[trigger] ms.contains(l) ==> dead_end(state, goal, budget, l),
        ),
    decreases budget, 1int, ms.len(), 0int, 0int,
{
    broadcast use vstd::seq_lib::group_to_multiset_ensures;

    if ms.len() > 0 {
        let m = ms[0];
        let rest = ms.drop_first();
        law_search_certain(lim, state.push(m.formula), goal, (budget - 1) as nat, ctx);
        let r = search(lim, state.push(m.formula), goal, (budget - 1) as nat, ctx);
        if r.0 is Nothing {
            lemma_moves_certain(lim, state, goal, budget, rest, r.1);
            vstd::seq_lib::to_multiset_build(state, m.formula);
            assert forall|l: Line| #[trigger] ms.contains(l) implies l == m || rest.contains(
                l,
            ) by {
                let i = choose|i: int| 0 <= i < ms.len() && ms[i] == l;
                if i > 0 {
                    assert(rest[i - 1] == l);
                }
            }
        }
    }
}

/// [`law_search_certain`] for other goals tried in turn.
proof fn lemma_goals_certain(
    lim: Limits,
    state: Seq<Prop>,
    goal: Prop,
    budget: nat,
    cands: Seq<Line>,
    ctx: Ctx,
)
    requires
        budget > 0,
    ensures
        certain(
            ctx,
            try_goals(lim, state, goal, budget, cands, ctx),
            forall|l: Line| #[trigger] cands.contains(l) ==> dead_goal(state, budget, l),
        ),
    decreases budget, 1int, cands.len(), 0int, 0int,
{
    if cands.len() > 0 {
        let m = cands[0];
        let rest = cands.drop_first();
        law_search_certain(lim, state, m.formula, (budget - 1) as nat, ctx);
        let r = search(lim, state, m.formula, (budget - 1) as nat, ctx);
        if r.0 is Nothing {
            lemma_goals_certain(lim, state, goal, budget, rest, r.1);
            assert forall|l: Line| #[trigger] cands.contains(l) implies l == m || rest.contains(
                l,
            ) by {
                let i = choose|i: int| 0 <= i < cands.len() && cands[i] == l;
                if i > 0 {
                    assert(rest[i - 1] == l);
                }
            }
        }
    }
}

/// [`law_search_certain`] for a subproof.
proof fn lemma_subproof_certain(
    lim: Limits,
    state: Seq<Prop>,
    goal: Prop,
    t: ProofTechnique,
    assumption: Prop,
    target: Prop,
    budget: nat,
    ctx: Ctx,
)
    ensures
        certain(
            ctx,
            try_subproof(lim, state, goal, t, assumption, target, budget, ctx),
            budget >= 2 ==> !findable(
                state.to_multiset().insert(assumption),
                target,
                (budget - 2) as nat,
            ),
        ),
    decreases budget, 1int, 0int, 0int, 0int,
{
    if budget >= 2 {
        law_search_certain(lim, state.push(assumption), target, (budget - 2) as nat, ctx);
        vstd::seq_lib::to_multiset_build(state, assumption);
    }
}

/// [`law_search_certain`] for one side of a disjunction.
proof fn lemma_side_certain(
    lim: Limits,
    state: Seq<Prop>,
    goal: Prop,
    side: Prop,
    budget: nat,
    ctx: Ctx,
)
    requires
        budget > 0,
    ensures
        certain(
            ctx,
            try_side(lim, state, goal, side, budget, ctx),
            !findable(state.to_multiset(), side, (budget - 1) as nat),
        ),
    decreases budget, 1int, 0int, 0int, 0int,
{
    law_search_certain(lim, state, side, (budget - 1) as nat, ctx);
}

/// [`law_search_certain`] for the step that the shape of the goal calls for.
proof fn lemma_shape_certain(lim: Limits, state: Seq<Prop>, goal: Prop, budget: nat, ctx: Ctx)
    requires
        budget > 0,
    ensures
        certain(
            ctx,
            try_shape(lim, state, goal, budget, ctx),
            shape_fails(state, goal, budget),
        ),
    decreases budget, 2int, 0int, 0int, 0int,
{
    match goal {
        Prop::Implies(a, c) => {
            lemma_subproof_certain(
                lim,
                state,
                goal,
                ProofTechnique::ConditionalProof,
                *a,
                *c,
                budget,
                ctx,
            );
        },
        Prop::Or(l, r) => {
            if first_index(state, *l) is None && first_index(state, *r) is None {
                lemma_side_certain(lim, state, goal, *l, budget, ctx);
                let c1 = try_side(lim, state, goal, *l, budget, ctx).1;
                lemma_side_certain(lim, state, goal, *r, budget, c1);
            }
        },
        Prop::And(l, r) => {
            lemma_conj_certain(lim, state, goal, *l, *r, budget, 0, ctx);
            let res = try_conj(lim, state, goal, *l, *r, budget, 0, ctx);
            if memo_ok(ctx.memo) && !res.1.truncated && res.0 is Nothing {
                assert forall|i: nat| i < budget implies #[trigger] half_fails(
                    state,
                    *l,
                    *r,
                    budget,
                    i,
                ) by {
                    lemma_half(state, *l, *r, budget, i);
                }
            }
            if res.0 is Nothing {
                lemma_below_certain(lim, state, goal, *l, 0, budget, res.1);
            }
        },
        _ => {},
    }
}

/// Whether the sweep failed with `left` lines for the left half: either that half cannot
/// be come upon so, or it was found in `n` lines and the rest is too little for the other.
spec fn sweep_fails(state: Seq<Prop>, l: Prop, r: Prop, budget: nat, left: nat) -> bool {
    ||| !findable(state.to_multiset(), l, left)
    ||| exists|n: nat|
        n <= left && n < budget && !#[trigger] findable(
            joined_by(state.to_multiset(), l),
            r,
            (budget - 1 - n) as nat,
        )
}

/// Where the sweep failed throughout, no division of the lines works.
proof fn lemma_half(state: Seq<Prop>, l: Prop, r: Prop, budget: nat, i: nat)
    requires
        i < budget,
        forall|left: nat|
            left < budget ==> #[trigger] sweep_fails(state, l, r, budget, left),
    ensures
        half_fails(state, l, r, budget, i),
{
    let known = state.to_multiset();
    let both = joined_by(known, l);
    assert(sweep_fails(state, l, r, budget, i));
    if findable(known, l, i) && findable(both, r, (budget - 1 - i) as nat) {
        let n = choose|n: nat|
            n <= i && n < budget && !#[trigger] findable(both, r, (budget - 1 - n) as nat);
        lemma_findable_monotone(both, both, r, (budget - 1 - i) as nat, (budget - 1 - n) as nat);
    }
}

/// [`law_search_certain`] for a conjunction.
proof fn lemma_conj_certain(
    lim: Limits,
    state: Seq<Prop>,
    goal: Prop,
    l: Prop,
    r: Prop,
    budget: nat,
    left: nat,
    ctx: Ctx,
)
    ensures
        certain(
            ctx,
            try_conj(lim, state, goal, l, r, budget, left, ctx),
            forall|k: nat|
                left <= k < budget ==> #[trigger] sweep_fails(state, l, r, budget, k),
        ),
    decreases budget, 1int, budget - left, 0int, 0int,
{
    if left < budget {
        law_search_certain(lim, state, l, left, ctx);
        law_search_proves(lim, state, l, left, ctx);
        let r1 = search(lim, state, l, left, ctx);
        match r1.0 {
            Verdict::Exceeded => {},
            Verdict::Nothing => {
                lemma_conj_certain(lim, state, goal, l, r, budget, left + 1, r1.1);
                let res = try_conj(lim, state, goal, l, r, budget, left + 1, r1.1);
                if memo_ok(ctx.memo) && !res.1.truncated && res.0 is Nothing {
                    assert(sweep_fails(state, l, r, budget, left));
                }
            },
            Verdict::Found(ls) => {
                let after = grown(state, ls);
                let rest = (budget - 1 - ls.len()) as nat;
                law_search_certain(lim, after, r, rest, r1.1);
                let r2 = search(lim, after, r, rest, r1.1);
                if r2.0 is Nothing {
                    lemma_conj_certain(lim, state, goal, l, r, budget, left + 1, r2.1);
                    let res = try_conj(lim, state, goal, l, r, budget, left + 1, r2.1);
                    if memo_ok(ctx.memo) && !res.1.truncated && res.0 is Nothing {
                        let both = joined_by(state.to_multiset(), l);
                        if findable(both, r, rest) {
                            lemma_left_half_known(state, l, left, ls);
                            lemma_findable_monotone(both, after.to_multiset(), r, rest, rest);
                        }
                        assert(!findable(both, r, (budget - 1 - ls.len()) as nat));
                        assert(sweep_fails(state, l, r, budget, left));
                    }
                }
            },
        }
    }
}

/// After a proof of the left half, the left half is known.
pub proof fn lemma_left_half_known(state: Seq<Prop>, l: Prop, budget: nat, ls: Seq<Line>)
    requires
        proves(state, l, budget, ls),
    ensures
        joined_by(state.to_multiset(), l).subset_of(grown(state, ls).to_multiset()),
{
    broadcast use vstd::multiset::group_multiset_axioms;
    broadcast use vstd::seq_lib::group_to_multiset_ensures;

    let known = state.to_multiset();
    let at = open_positions(state, ls);
    let fs = formulas_at(state, ls, at);
    lemma_grown(state, fs);
    if !known.contains(l) {
        let end = state.len() + ls.len() - 1;
        lemma_open_upto(state, ls, ls.len() as int);
        lemma_end_citable(state, ls, end);
        assert(at.contains(end));
        let i = choose|i: int| 0 <= i < at.len() && at[i] == end;
        assert(fs[i] == l);
        assert(grown(state, ls)[state.len() + i] == l);
        assert(grown(state, ls).contains(l));
        assert forall|y: Prop| joined_by(known, l).count(y) <= grown(
            state,
            ls,
        ).to_multiset().count(y) by {
            assert(known.count(y) <= grown(state, ls).to_multiset().count(y));
            if y == l {
                assert(grown(state, ls).to_multiset().contains(l));
            }
        }
    }
}

/// A longer list counts no formula less often.
proof fn lemma_grown(a: Seq<Prop>, b: Seq<Prop>)
    ensures
        a.to_multiset().subset_of((a + b).to_multiset()),
    decreases b.len(),
{
    broadcast use vstd::multiset::group_multiset_axioms;

    if b.len() == 0 {
        assert(a + b =~= a);
    } else {
        let t = b.drop_last();
        lemma_grown(a, t);
        assert(a + b =~= (a + t).push(b.last()));
        vstd::seq_lib::to_multiset_build(a + t, b.last());
        assert forall|y: Prop| a.to_multiset().count(y) <= (a + b).to_multiset().count(y) by {
            assert(a.to_multiset().count(y) <= (a + t).to_multiset().count(y));
        }
    }
}

/// [`law_search_certain`] for the subgoals below one.
proof fn lemma_below_certain(
    lim: Limits,
    state: Seq<Prop>,
    goal: Prop,
    y: Prop,
    e: nat,
    budget: nat,
    ctx: Ctx,
)
    ensures
        certain(
            ctx,
            share_below(lim, state, goal, y, e, budget, ctx),
            none_below(state, goal, y, e, budget),
        ),
    decreases budget, 1int, budget - e, 2int, 0int,
{
    if !ctx.truncated && e + 3 <= budget {
        match halves(y) {
            Some((a, b)) => {
                lemma_share_certain(lim, state, goal, a, e + 1, budget, ctx);
                let first = share(lim, state, goal, a, e + 1, budget, ctx);
                lemma_share_certain(lim, state, goal, b, e + 1, budget, first.1);
            },
            None => {},
        }
        let parts = share_parts(lim, state, goal, y, e, budget, ctx);
        let cands = goal_rewrites(y);
        let n = noted(parts.1, cands, lim.cap);
        lemma_list_certain(lim, state, goal, selected(cands, lim.cap), e, budget, n);
        let r = share_below(lim, state, goal, y, e, budget, ctx);
        if memo_ok(ctx.memo) && !r.1.truncated && r.0 is Nothing {
            assert(parts.0 is Nothing);
            assert(!n.truncated);
            assert forall|x: Prop, d: nat| #[trigger] below(y, x, d) && d >= 1 implies !attained(
                state.to_multiset(),
                goal,
                budget,
                x,
                e + d,
            ) by {
                let w = choose|w: Prop| #[trigger] child(y, w) && below(w, x, (d - 1) as nat);
                assert(none_from(state, goal, w, e + 1, budget)) by {
                    if exists|rule: EquivalenceRule| #[trigger] rewrites(y).contains((w, rule)) {
                        let rule = choose|rule: EquivalenceRule| #[trigger]
                            rewrites(y).contains((w, rule));
                        lemma_goal_candidate(y, w, rule, lim.cap);
                        let m = choose|m: Line|
                            #[trigger] selected(goal_rewrites(y), lim.cap).contains(m)
                                && m.formula == w;
                        assert(none_at(state, goal, m, e, budget));
                    }
                }
                if d == 1 {
                    assert(w == x);
                } else {
                    assert(below(w, x, (d - 1) as nat));
                    assert((e + 1) + (d - 1) as nat == e + d);
                }
            }
        }
    }
}

/// Whether a candidate as a subgoal does not help.
spec fn none_at(state: Seq<Prop>, goal: Prop, l: Line, e: nat, budget: nat) -> bool {
    none_from(state, goal, l.formula, e + 1, budget)
}

/// [`law_search_certain`] for subgoals tried in turn.
proof fn lemma_list_certain(
    lim: Limits,
    state: Seq<Prop>,
    goal: Prop,
    cands: Seq<Line>,
    e: nat,
    budget: nat,
    ctx: Ctx,
)
    requires
        e + 3 <= budget,
    ensures
        certain(
            ctx,
            share_list(lim, state, goal, cands, e, budget, ctx),
            forall|l: Line| #[trigger] cands.contains(l) ==> none_at(state, goal, l, e, budget),
        ),
    decreases budget, 1int, budget - e, 1int, cands.len(),
{
    if cands.len() > 0 {
        let m = cands[0];
        let rest = cands.drop_first();
        lemma_share_certain(lim, state, goal, m.formula, e + 1, budget, ctx);
        let r = share(lim, state, goal, m.formula, e + 1, budget, ctx);
        if r.0 is Nothing {
            lemma_list_certain(lim, state, goal, rest, e, budget, r.1);
            assert forall|l: Line| #[trigger] cands.contains(l) implies l == m || rest.contains(
                l,
            ) by {
                let i = choose|i: int| 0 <= i < cands.len() && cands[i] == l;
                if i > 0 {
                    assert(rest[i - 1] == l);
                }
            }
        }
    }
}

/// [`law_search_certain`] for a subgoal that is established first.
proof fn lemma_share_certain(
    lim: Limits,
    state: Seq<Prop>,
    goal: Prop,
    y: Prop,
    e: nat,
    budget: nat,
    ctx: Ctx,
)
    ensures
        certain(
            ctx,
            share(lim, state, goal, y, e, budget, ctx),
            none_from(state, goal, y, e, budget),
        ),
    decreases budget, 1int, budget - e, 4int, 0int,
{
    if !ctx.truncated && e + 2 <= budget {
        lemma_closing_certain(lim, state, goal, y, e, budget, ctx);
        let closed = share_closing(lim, state, goal, y, e, budget, ctx);
        lemma_below_certain(lim, state, goal, y, e, budget, closed.1);
    }
}

/// [`law_search_certain`] for the cheapest way to establish a subgoal.
proof fn lemma_closing_certain(
    lim: Limits,
    state: Seq<Prop>,
    goal: Prop,
    y: Prop,
    e: nat,
    budget: nat,
    ctx: Ctx,
)
    requires
        budget > 0,
    ensures
        certain(
            ctx,
            share_closing(lim, state, goal, y, e, budget, ctx),
            !attained(state.to_multiset(), goal, budget, y, e),
        ),
    decreases budget, 1int, budget - e, 3int, 0int,
{
    broadcast use vstd::seq_lib::group_to_multiset_ensures;

    let known = state.to_multiset();
    if !state.contains(y) {
        vstd::seq_lib::to_multiset_build(state, y);
        let next = known.insert(y);
        lemma_closes_now(state, y);
        if closing_line(state, y) is Some {
            law_search_certain(lim, state.push(y), goal, (budget - 1) as nat, ctx);
            let r = share_closing(lim, state, goal, y, e, budget, ctx);
            if memo_ok(ctx.memo) && !r.1.truncated && r.0 is Nothing {
                assert forall|k: nat| #[trigger] room(k, e, budget) implies !findable(
                    next,
                    goal,
                    (budget - 2 - k) as nat,
                ) by {
                    if findable(next, goal, (budget - 2 - k) as nat) {
                        lemma_findable_monotone(
                            next,
                            next,
                            goal,
                            (budget - 2 - k) as nat,
                            (budget - 1) as nat,
                        );
                    }
                }
                lemma_not_attained(state, goal, y, e, budget);
            }
        } else {
            let first = share_conditional(lim, state, goal, y, e, budget, ctx);
            match y {
                Prop::Implies(a, c) => {
                    lemma_sweep_certain(
                        lim,
                        state,
                        goal,
                        ProofTechnique::ConditionalProof,
                        *a,
                        *c,
                        y,
                        e,
                        0,
                        budget,
                        ctx,
                    );
                },
                _ => {},
            }
            lemma_sweep_certain(
                lim,
                state,
                goal,
                ProofTechnique::IndirectProof,
                p_not(y),
                Prop::Contradiction,
                y,
                e,
                0,
                budget,
                first.1,
            );
            let r = share_closing(lim, state, goal, y, e, budget, ctx);
            if memo_ok(ctx.memo) && !r.1.truncated && r.0 is Nothing {
                lemma_not_attained(state, goal, y, e, budget);
            }
        }
    }
}

/// A line states a formula at once exactly where its parts are known.
proof fn lemma_closes_now(state: Seq<Prop>, y: Prop)
    ensures
        closing_line(state, y) is Some <==> closes_now(state.to_multiset(), y),
{
    broadcast use vstd::seq_lib::group_to_multiset_ensures;

    match halves(y) {
        Some((a, b)) => {
            lemma_first_index(state, a);
            lemma_first_index(state, b);
        },
        None => {},
    }
}

/// Whether a subproof from `assumption` to `target` with `k` lines inside, which leaves `y`,
/// does not help.
spec fn sub_fails(
    state: Seq<Prop>,
    goal: Prop,
    assumption: Prop,
    target: Prop,
    y: Prop,
    k: nat,
    budget: nat,
) -> bool {
    !findable(state.to_multiset().insert(assumption), target, k) || !findable(
        state.to_multiset().insert(y),
        goal,
        (budget - 2 - k) as nat,
    )
}

/// Where no way to establish a subgoal helps, it is not attained.
proof fn lemma_not_attained(state: Seq<Prop>, goal: Prop, y: Prop, e: nat, budget: nat)
    requires
        budget > 0,
        closes_now(state.to_multiset(), y) ==> !findable(
            state.to_multiset().insert(y),
            goal,
            (budget - 1) as nat,
        ),
        y matches Prop::Implies(a, c) ==> forall|k: nat| #[trigger]
            room(k, e, budget) ==> sub_fails(state, goal, *a, *c, y, k, budget),
        y != Prop::Contradiction ==> forall|k: nat| #[trigger]
            room(k, e, budget) ==> sub_fails(
                state,
                goal,
                p_not(y),
                Prop::Contradiction,
                y,
                k,
                budget,
            ),
    ensures
        !attained(state.to_multiset(), goal, budget, y, e),
{
}

/// [`law_search_certain`] for subproofs of growing length.
proof fn lemma_sweep_certain(
    lim: Limits,
    state: Seq<Prop>,
    goal: Prop,
    t: ProofTechnique,
    assumption: Prop,
    target: Prop,
    y: Prop,
    e: nat,
    from: nat,
    budget: nat,
    ctx: Ctx,
)
    ensures
        certain(
            ctx,
            share_subproof(lim, state, goal, t, assumption, target, y, e, from, budget, ctx),
            forall|k: nat| #[trigger]
                room(k, e, budget) && k >= from ==> sub_fails(
                    state,
                    goal,
                    assumption,
                    target,
                    y,
                    k,
                    budget,
                ),
        ),
    decreases budget, 1int, budget - e, 1int, budget - from,
{
    if from + e + 3 <= budget {
        let inner = state.push(assumption);
        let next = state.to_multiset().insert(y);
        vstd::seq_lib::to_multiset_build(state, assumption);
        vstd::seq_lib::to_multiset_build(state, y);
        law_search_certain(lim, inner, target, from, ctx);
        law_search_proves(lim, inner, target, from, ctx);
        let r = search(lim, inner, target, from, ctx);
        match r.0 {
            Verdict::Exceeded => {},
            Verdict::Nothing => {
                lemma_sweep_certain(
                    lim,
                    state,
                    goal,
                    t,
                    assumption,
                    target,
                    y,
                    e,
                    from + 1,
                    budget,
                    r.1,
                );
            },
            Verdict::Found(inside) => {
                let rest = (budget - 2 - inside.len()) as nat;
                law_search_certain(lim, state.push(y), goal, rest, r.1);
                let r2 = search(lim, state.push(y), goal, rest, r.1);
                if memo_ok(ctx.memo) && !r2.1.truncated && r2.0 is Nothing {
                    assert forall|k: nat| #[trigger]
                        room(k, e, budget) && k >= from implies sub_fails(
                        state,
                        goal,
                        assumption,
                        target,
                        y,
                        k,
                        budget,
                    ) by {
                        if findable(next, goal, (budget - 2 - k) as nat) {
                            lemma_findable_monotone(
                                next,
                                next,
                                goal,
                                (budget - 2 - k) as nat,
                                rest,
                            );
                        }
                    }
                }
            },
        }
    }
}

/// A proof that iterative deepening finds with nothing cut short is minimal: its goal
/// cannot be derived from the premises in fewer lines. Where it finds none up to the
/// bound, the goal cannot be derived within the bound.
pub proof fn law_certified_minimal(lim: Limits, premises: Seq<Prop>, goal: Prop, max: nat)
    ensures
        ({
            let (v, c, _) = deepen(lim, premises, goal, 1, max, fresh_ctx());
            !c.truncated ==> match v {
                Verdict::Found(steps) => forall|lines: nat|
                    lines < steps.len() ==> !#[trigger] derivable(
                        premises.to_multiset(),
                        goal,
                        lines,
                    ),
                Verdict::Nothing => max > 0 ==> !derivable(premises.to_multiset(), goal, max),
                Verdict::Exceeded => true,
            }
        }),
{
    let known = premises.to_multiset();
    assert(memo_ok(fresh_ctx().memo));
    lemma_deepen_certain(lim, premises, goal, 1, max, fresh_ctx());
    let (v, c, _) = deepen(lim, premises, goal, 1, max, fresh_ctx());
    if !c.truncated {
        match v {
            Verdict::Found(steps) => {
                assert forall|lines: nat| lines < steps.len() implies !#[trigger] derivable(
                    known,
                    goal,
                    lines,
                ) by {
                    if derivable(known, goal, lines) {
                        law_derivable_findable(known, goal, lines);
                    }
                }
            },
            Verdict::Nothing => {
                if derivable(known, goal, max) {
                    law_derivable_findable(known, goal, max);
                }
            },
            Verdict::Exceeded => {},
        }
    }
}

/// [`law_certified_minimal`] from a depth on.
proof fn lemma_deepen_certain(
    lim: Limits,
    premises: Seq<Prop>,
    goal: Prop,
    depth: nat,
    max: nat,
    ctx: Ctx,
)
    requires
        depth >= 1,
        !ctx.truncated ==> memo_ok(ctx.memo),
        !ctx.truncated && depth >= 2 ==> !findable(
            premises.to_multiset(),
            goal,
            (depth - 1) as nat,
        ),
    ensures
        ({
            let (v, c, _) = deepen(lim, premises, goal, depth, max, ctx);
            &&& ctx.truncated ==> c.truncated
            &&& !c.truncated ==> match v {
                Verdict::Found(steps) => forall|lines: nat|
                    lines < steps.len() ==> !#[trigger] findable(
                        premises.to_multiset(),
                        goal,
                        lines,
                    ),
                Verdict::Nothing => max >= depth || depth >= 2 ==> !findable(
                    premises.to_multiset(),
                    goal,
                    if max >= depth {
                        max
                    } else {
                        (depth - 1) as nat
                    },
                ),
                Verdict::Exceeded => true,
            }
        }),
    decreases max + 1 - depth,
{
    broadcast use vstd::seq_lib::group_to_multiset_ensures;

    if depth <= max {
        let known = premises.to_multiset();
        law_search_certain(lim, premises, goal, depth, ctx);
        law_search_proves(lim, premises, goal, depth, ctx);
        let r = search(lim, premises, goal, depth, ctx);
        match r.0 {
            Verdict::Nothing => {
                lemma_deepen_certain(lim, premises, goal, depth + 1, max, r.1);
            },
            Verdict::Found(steps) => {
                if !r.1.truncated {
                    assert forall|lines: nat| lines < steps.len() implies !#[trigger] findable(
                        known,
                        goal,
                        lines,
                    ) by {
                        if findable(known, goal, lines) {
                            if lines == 0 {
                                lemma_no_lines(known, goal);
                                assert(premises.contains(goal));
                            } else {
                                lemma_findable_monotone(
                                    known,
                                    known,
                                    goal,
                                    lines,
                                    (depth - 1) as nat,
                                );
                            }
                        }
                    }
                }
            },
            Verdict::Exceeded => {},
        }
    }
}

} // verus!
