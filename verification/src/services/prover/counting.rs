//! What a search does to what it carries along: it counts the nodes that it visits,
//! stops at the first one over the cap, and never takes back that a list was cut short.

use vstd::prelude::*;

use super::bank::plausible;
use super::moves::{moves, Line};
use super::search::{
    closing_line, deduped, deepen, expand, expand_goal, expand_goal_rewrites, expand_indirect,
    expand_rewrites, goal_rewrites, halves, key, noted, search, selected, share, share_below,
    share_closing, share_conditional, share_list, share_parts, share_subproof, state_rewrites,
    try_conj, try_goals, try_moves, try_shape, try_side, try_subproof, Ctx, Limits, Verdict,
};
use super::splice::grown;
use crate::models::formula::{first_index, p_not, Prop};
use crate::models::rules::technique::ProofTechnique;

verus! {

/// Whether a stage of a search has counted right: no fewer nodes than before, more than
/// the cap exactly where it was exceeded, and a list that was cut short stays noted.
pub open spec fn counted(lim: Limits, before: Ctx, r: (Verdict, Ctx)) -> bool {
    &&& before.nodes <= r.1.nodes
    &&& before.truncated ==> r.1.truncated
    &&& r.0 is Exceeded ==> r.1.nodes == lim.max_nodes + 1
    &&& !(r.0 is Exceeded) ==> r.1.nodes <= lim.max_nodes
}

/// A search counts right, and a goal that is known costs it nothing.
pub proof fn law_search_counts(lim: Limits, state: Seq<Prop>, goal: Prop, budget: nat, ctx: Ctx)
    requires
        ctx.nodes <= lim.max_nodes,
    ensures
        counted(lim, ctx, search(lim, state, goal, budget, ctx)),
        state.contains(goal) ==> search(lim, state, goal, budget, ctx) == (
            Verdict::Found(seq![]),
            ctx,
        ),
    decreases budget, 3int, 0int, 0int, 0int,
{
    let k = key(state, goal);
    if state.contains(goal) || budget == 0 || (ctx.memo.contains_key(k) && budget <= ctx.memo[k])
        || !plausible(state, goal) || ctx.nodes >= lim.max_nodes {
    } else {
        lemma_expand_counts(lim, state, goal, budget, Ctx { nodes: ctx.nodes + 1, ..ctx });
    }
}

/// [`law_search_counts`] for an expansion.
proof fn lemma_expand_counts(lim: Limits, state: Seq<Prop>, goal: Prop, budget: nat, ctx: Ctx)
    requires
        budget > 0,
        ctx.nodes <= lim.max_nodes,
    ensures
        counted(lim, ctx, expand(lim, state, goal, budget, ctx)),
    decreases budget, 2int, 5int, 0int, 0int,
{
    let ms = deduped(moves(state));
    lemma_moves_count(lim, state, goal, budget, ms, ctx);
    let r1 = try_moves(lim, state, goal, budget, ms, ctx);
    if r1.0 is Nothing {
        let c1 = r1.1;
        lemma_shape_counts(lim, state, goal, budget, c1);
        let r2 = try_shape(lim, state, goal, budget, c1);
        assert(expand(lim, state, goal, budget, ctx) == expand_goal(lim, state, goal, budget, c1));
        if r2.0 is Nothing {
            let c2 = r2.1;
            let indirect = try_subproof(
                lim,
                state,
                goal,
                ProofTechnique::IndirectProof,
                p_not(goal),
                Prop::Contradiction,
                budget,
                c2,
            );
            lemma_subproof_counts(
                lim,
                state,
                goal,
                ProofTechnique::IndirectProof,
                p_not(goal),
                Prop::Contradiction,
                budget,
                c2,
            );
            assert(expand_goal(lim, state, goal, budget, c1) == expand_indirect(
                lim,
                state,
                goal,
                budget,
                c2,
            ));
            if goal == Prop::Contradiction {
                lemma_rewrites_count(lim, state, goal, budget, c2);
            } else if indirect.0 is Nothing {
                lemma_rewrites_count(lim, state, goal, budget, indirect.1);
            }
        }
    }
}

/// [`law_search_counts`] for the stages from the rewrites of known formulas on.
proof fn lemma_rewrites_count(lim: Limits, state: Seq<Prop>, goal: Prop, budget: nat, ctx: Ctx)
    requires
        budget > 0,
        ctx.nodes <= lim.max_nodes,
    ensures
        counted(lim, ctx, expand_rewrites(lim, state, goal, budget, ctx)),
    decreases budget, 2int, 2int, 0int, 0int,
{
    let cands = state_rewrites(state);
    let fwd = selected(cands, lim.cap);
    let n = noted(ctx, cands, lim.cap);
    lemma_moves_count(lim, state, goal, budget, fwd, n);
    let r = try_moves(lim, state, goal, budget, fwd, n);
    if r.0 is Nothing {
        let back = goal_rewrites(goal);
        let bwd = selected(back, lim.cap);
        let m = noted(r.1, back, lim.cap);
        lemma_goals_count(lim, state, goal, budget, bwd, m);
        assert(expand_rewrites(lim, state, goal, budget, ctx) == expand_goal_rewrites(
            lim,
            state,
            goal,
            budget,
            r.1,
        ));
    }
}

/// [`law_search_counts`] for steps tried in turn.
proof fn lemma_moves_count(
    lim: Limits,
    state: Seq<Prop>,
    goal: Prop,
    budget: nat,
    ms: Seq<Line>,
    ctx: Ctx,
)
    requires
        ctx.nodes <= lim.max_nodes,
    ensures
        counted(lim, ctx, try_moves(lim, state, goal, budget, ms, ctx)),
    decreases budget, 1int, ms.len(), 0int, 0int,
{
    if ms.len() > 0 && budget > 0 {
        let inner = state.push(ms[0].formula);
        law_search_counts(lim, inner, goal, (budget - 1) as nat, ctx);
        let r = search(lim, inner, goal, (budget - 1) as nat, ctx);
        if r.0 is Nothing {
            lemma_moves_count(lim, state, goal, budget, ms.drop_first(), r.1);
        }
    }
}

/// [`law_search_counts`] for other goals tried in turn.
proof fn lemma_goals_count(
    lim: Limits,
    state: Seq<Prop>,
    goal: Prop,
    budget: nat,
    cands: Seq<Line>,
    ctx: Ctx,
)
    requires
        ctx.nodes <= lim.max_nodes,
    ensures
        counted(lim, ctx, try_goals(lim, state, goal, budget, cands, ctx)),
    decreases budget, 1int, cands.len(), 0int, 0int,
{
    if cands.len() > 0 && budget > 0 {
        law_search_counts(lim, state, cands[0].formula, (budget - 1) as nat, ctx);
        let r = search(lim, state, cands[0].formula, (budget - 1) as nat, ctx);
        if r.0 is Nothing {
            lemma_goals_count(lim, state, goal, budget, cands.drop_first(), r.1);
        }
    }
}

/// [`law_search_counts`] for a subproof.
proof fn lemma_subproof_counts(
    lim: Limits,
    state: Seq<Prop>,
    goal: Prop,
    t: ProofTechnique,
    assumption: Prop,
    target: Prop,
    budget: nat,
    ctx: Ctx,
)
    requires
        ctx.nodes <= lim.max_nodes,
    ensures
        counted(lim, ctx, try_subproof(lim, state, goal, t, assumption, target, budget, ctx)),
    decreases budget, 1int, 0int, 0int, 0int,
{
    if budget >= 2 {
        law_search_counts(lim, state.push(assumption), target, (budget - 2) as nat, ctx);
    }
}

/// [`law_search_counts`] for one side of a disjunction.
proof fn lemma_side_counts(
    lim: Limits,
    state: Seq<Prop>,
    goal: Prop,
    side: Prop,
    budget: nat,
    ctx: Ctx,
)
    requires
        ctx.nodes <= lim.max_nodes,
    ensures
        counted(lim, ctx, try_side(lim, state, goal, side, budget, ctx)),
    decreases budget, 1int, 0int, 0int, 0int,
{
    if budget > 0 {
        law_search_counts(lim, state, side, (budget - 1) as nat, ctx);
    }
}

/// [`law_search_counts`] for the step that the shape of the goal calls for.
proof fn lemma_shape_counts(lim: Limits, state: Seq<Prop>, goal: Prop, budget: nat, ctx: Ctx)
    requires
        ctx.nodes <= lim.max_nodes,
    ensures
        counted(lim, ctx, try_shape(lim, state, goal, budget, ctx)),
    decreases budget, 2int, 0int, 0int, 0int,
{
    if budget > 0 {
        match goal {
            Prop::Implies(a, c) => {
                lemma_subproof_counts(
                    lim,
                    state,
                    goal,
                    ProofTechnique::ConditionalProof,
                    *a,
                    *c,
                    budget,
                    ctx,
                );
            },
            Prop::Or(l, r) => {
                if first_index(state, *l) is None && first_index(state, *r) is None {
                    lemma_side_counts(lim, state, goal, *l, budget, ctx);
                    let first = try_side(lim, state, goal, *l, budget, ctx);
                    if first.0 is Nothing {
                        lemma_side_counts(lim, state, goal, *r, budget, first.1);
                    }
                }
            },
            Prop::And(l, r) => {
                lemma_conj_counts(lim, state, goal, *l, *r, budget, 0, ctx);
                let halved = try_conj(lim, state, goal, *l, *r, budget, 0, ctx);
                if halved.0 is Nothing {
                    lemma_below_counts(lim, state, goal, *l, 0, budget, halved.1);
                }
            },
            _ => {},
        }
    }
}

/// [`law_search_counts`] for a conjunction.
proof fn lemma_conj_counts(
    lim: Limits,
    state: Seq<Prop>,
    goal: Prop,
    l: Prop,
    r: Prop,
    budget: nat,
    left: nat,
    ctx: Ctx,
)
    requires
        ctx.nodes <= lim.max_nodes,
    ensures
        counted(lim, ctx, try_conj(lim, state, goal, l, r, budget, left, ctx)),
    decreases budget, 1int, budget - left, 0int, 0int,
{
    if left < budget {
        law_search_counts(lim, state, l, left, ctx);
        let r1 = search(lim, state, l, left, ctx);
        match r1.0 {
            Verdict::Exceeded => {},
            Verdict::Nothing => {
                lemma_conj_counts(lim, state, goal, l, r, budget, left + 1, r1.1);
            },
            Verdict::Found(ls) => {
                if ls.len() >= budget {
                    lemma_conj_counts(lim, state, goal, l, r, budget, left + 1, r1.1);
                } else {
                    let after = grown(state, ls);
                    let rest = (budget - 1 - ls.len()) as nat;
                    law_search_counts(lim, after, r, rest, r1.1);
                    let r2 = search(lim, after, r, rest, r1.1);
                    if r2.0 is Nothing {
                        lemma_conj_counts(lim, state, goal, l, r, budget, left + 1, r2.1);
                    }
                }
            },
        }
    }
}

/// [`law_search_counts`] for the subgoals below one.
proof fn lemma_below_counts(
    lim: Limits,
    state: Seq<Prop>,
    goal: Prop,
    y: Prop,
    d: nat,
    budget: nat,
    ctx: Ctx,
)
    requires
        ctx.nodes <= lim.max_nodes,
    ensures
        counted(lim, ctx, share_below(lim, state, goal, y, d, budget, ctx)),
    decreases budget, 1int, budget - d, 2int, 0int,
{
    if !ctx.truncated && d + 3 <= budget {
        let parts = share_parts(lim, state, goal, y, d, budget, ctx);
        match halves(y) {
            Some((a, b)) => {
                lemma_share_counts(lim, state, goal, a, d + 1, budget, ctx);
                let first = share(lim, state, goal, a, d + 1, budget, ctx);
                if first.0 is Nothing {
                    lemma_share_counts(lim, state, goal, b, d + 1, budget, first.1);
                }
            },
            None => {},
        }
        if parts.0 is Nothing {
            let cands = goal_rewrites(y);
            lemma_list_counts(
                lim,
                state,
                goal,
                selected(cands, lim.cap),
                d,
                budget,
                noted(parts.1, cands, lim.cap),
            );
        }
    }
}

/// [`law_search_counts`] for subgoals tried in turn.
proof fn lemma_list_counts(
    lim: Limits,
    state: Seq<Prop>,
    goal: Prop,
    cands: Seq<Line>,
    d: nat,
    budget: nat,
    ctx: Ctx,
)
    requires
        ctx.nodes <= lim.max_nodes,
    ensures
        counted(lim, ctx, share_list(lim, state, goal, cands, d, budget, ctx)),
    decreases budget, 1int, budget - d, 1int, cands.len(),
{
    if cands.len() > 0 && d + 3 <= budget {
        lemma_share_counts(lim, state, goal, cands[0].formula, d + 1, budget, ctx);
        let first = share(lim, state, goal, cands[0].formula, d + 1, budget, ctx);
        if first.0 is Nothing {
            lemma_list_counts(lim, state, goal, cands.drop_first(), d, budget, first.1);
        }
    }
}

/// [`law_search_counts`] for a subgoal.
proof fn lemma_share_counts(
    lim: Limits,
    state: Seq<Prop>,
    goal: Prop,
    y: Prop,
    d: nat,
    budget: nat,
    ctx: Ctx,
)
    requires
        ctx.nodes <= lim.max_nodes,
    ensures
        counted(lim, ctx, share(lim, state, goal, y, d, budget, ctx)),
    decreases budget, 1int, budget - d, 4int, 0int,
{
    if !ctx.truncated && d + 2 <= budget {
        let closed = share_closing(lim, state, goal, y, d, budget, ctx);
        if !state.contains(y) {
            if closing_line(state, y) is Some {
                law_search_counts(lim, state.push(y), goal, (budget - 1) as nat, ctx);
            } else {
                lemma_shared_subproof_counts(lim, state, goal, y, d, budget, ctx);
            }
        }
        if closed.0 is Nothing {
            lemma_below_counts(lim, state, goal, y, d, budget, closed.1);
        }
    }
}

/// [`law_search_counts`] for the subproofs of a subgoal.
proof fn lemma_shared_subproof_counts(
    lim: Limits,
    state: Seq<Prop>,
    goal: Prop,
    y: Prop,
    d: nat,
    budget: nat,
    ctx: Ctx,
)
    requires
        ctx.nodes <= lim.max_nodes,
        !state.contains(y),
        closing_line(state, y) is None,
    ensures
        counted(lim, ctx, share_closing(lim, state, goal, y, d, budget, ctx)),
    decreases budget, 1int, budget - d, 3int, 0int,
{
    let first = share_conditional(lim, state, goal, y, d, budget, ctx);
    match y {
        Prop::Implies(a, c) => {
            lemma_sweep_counts(
                lim,
                state,
                goal,
                ProofTechnique::ConditionalProof,
                *a,
                *c,
                y,
                d,
                0,
                budget,
                ctx,
            );
        },
        _ => {},
    }
    if first.0 is Nothing {
        lemma_sweep_counts(
            lim,
            state,
            goal,
            ProofTechnique::IndirectProof,
            p_not(y),
            Prop::Contradiction,
            y,
            d,
            0,
            budget,
            first.1,
        );
    }
}

/// [`law_search_counts`] for subproofs of growing length.
proof fn lemma_sweep_counts(
    lim: Limits,
    state: Seq<Prop>,
    goal: Prop,
    t: ProofTechnique,
    assumption: Prop,
    target: Prop,
    y: Prop,
    d: nat,
    k: nat,
    budget: nat,
    ctx: Ctx,
)
    requires
        ctx.nodes <= lim.max_nodes,
    ensures
        counted(
            lim,
            ctx,
            share_subproof(lim, state, goal, t, assumption, target, y, d, k, budget, ctx),
        ),
    decreases budget, 1int, budget - d, 1int, budget - k,
{
    if k + d + 3 <= budget {
        let inner = state.push(assumption);
        law_search_counts(lim, inner, target, k, ctx);
        let r = search(lim, inner, target, k, ctx);
        match r.0 {
            Verdict::Exceeded => {},
            Verdict::Nothing => {
                lemma_sweep_counts(
                    lim,
                    state,
                    goal,
                    t,
                    assumption,
                    target,
                    y,
                    d,
                    k + 1,
                    budget,
                    r.1,
                );
            },
            Verdict::Found(inside) => {
                if inside.len() <= k {
                    let rest = (budget - 2 - inside.len()) as nat;
                    law_search_counts(lim, state.push(y), goal, rest, r.1);
                }
            },
        }
    }
}

/// Iterative deepening visits no more nodes than the cap over all depths together, or
/// stops at the first one too many.
pub proof fn law_deepen_counts(
    lim: Limits,
    premises: Seq<Prop>,
    goal: Prop,
    depth: nat,
    max: nat,
    ctx: Ctx,
)
    requires
        ctx.nodes <= lim.max_nodes,
    ensures
        ({
            let (v, c, _) = deepen(lim, premises, goal, depth, max, ctx);
            counted(lim, ctx, (v, c))
        }),
    decreases max + 1 - depth,
{
    if depth <= max {
        law_search_counts(lim, premises, goal, depth, ctx);
        let r = search(lim, premises, goal, depth, ctx);
        if r.0 is Nothing {
            law_deepen_counts(lim, premises, goal, depth + 1, max, r.1);
        }
    }
}

} // verus!
