//! Bounded search, as a value: what the optimal prover does at every node.
//!
//! At a node the search tries, in this order: every forward move; the step that the shape
//! of the goal calls for (a conditional proof, addition, or conjunction); an indirect
//! proof; every one-step rewrite of a known formula; and every one-step rewrite of the
//! goal. Rewrites are taken smallest first and capped in number.
//!
//! A conjunction is looked for in two ways. First each half is proved, the right one from
//! all that may be cited after the proof of the left one. If that fails, a subgoal on the
//! way to the left half is established by itself, so that the right half may use it
//! however the left half comes by it.
//!
//! What failed is remembered by the known formulas, in any order, and the goal.

use vstd::multiset::Multiset;
use vstd::prelude::*;

use super::bank::{is_near, plausible};
use super::greedy::results;
use super::moves::{moves, Line};
use super::splice::{grown, moved_to, open_positions, spliced};
use crate::models::formula::{first_index, p_not, Prop};
use crate::models::lists::{joined_upto, lemma_in_pushed, lemma_joined_empty, lemma_joined_upto};
use crate::models::numbers::clamped;
use crate::models::rewriting::{law_rewrites_symmetric, rewrites, Rewrite};
use crate::models::rules::equivalence::EquivalenceRule;
use crate::models::rules::technique::ProofTechnique;
use crate::models::text::byte_size;

verus! {

/// The bounds of a search: how many nodes it may visit, and how many rewrites it takes
/// at each in each direction.
pub struct Limits {
    pub max_nodes: nat,
    pub cap: nat,
}

/// What a failure is remembered by.
pub type Key = (Multiset<Prop>, Prop);

/// What a search carries along: the nodes visited, whether a list of rewrites was cut
/// short, and for each failure the greatest number of lines with which it failed.
pub struct Ctx {
    pub nodes: nat,
    pub truncated: bool,
    pub memo: Map<Key, nat>,
}

/// What a search ends with: a list of steps, none within the bounds, or too many nodes.
pub enum Verdict {
    Found(Seq<Line>),
    Nothing,
    Exceeded,
}

/// What a state and a goal are remembered by.
pub open spec fn key(state: Seq<Prop>, goal: Prop) -> Key {
    (state.to_multiset(), goal)
}

/// Those of `s` whose formula no earlier one has.
pub open spec fn deduped(s: Seq<Line>) -> Seq<Line>
    decreases s.len(),
{
    if s.len() == 0 {
        seq![]
    } else {
        let before = deduped(s.drop_last());
        if results(before).contains(s.last().formula) {
            before
        } else {
            before.push(s.last())
        }
    }
}

/// The size by which rewrites are ordered: the bytes of the text.
pub open spec fn line_size(l: Line) -> usize {
    clamped(byte_size(l.formula))
}

/// Those of `s` with the given size.
pub open spec fn of_size(s: Seq<Line>, size: int) -> Seq<Line>
    decreases s.len(),
{
    if s.len() == 0 {
        seq![]
    } else {
        let before = of_size(s.drop_last(), size);
        if line_size(s.last()) == size {
            before.push(s.last())
        } else {
            before
        }
    }
}

/// `s` with smaller formulas before greater ones, and the order kept among equals.
pub open spec fn by_size(s: Seq<Line>) -> Seq<Line> {
    joined_upto(usize::MAX + 1, |size: int| of_size(s, size))
}

/// The rewrites `rs` of the formula at position `i` to formulas that `state` does not
/// hold, as lines.
pub open spec fn rewrite_lines(state: Seq<Prop>, rs: Seq<Rewrite>, i: int) -> Seq<Line>
    decreases rs.len(),
{
    if rs.len() == 0 {
        seq![]
    } else {
        let before = rewrite_lines(state, rs.drop_last(), i);
        if state.contains(rs.last().0) {
            before
        } else {
            before.push(
                Line { formula: rs.last().0, rule: rs.last().1.short_name(), cited: seq![i] },
            )
        }
    }
}

/// Every one-step rewrite of a formula of `state`.
pub open spec fn state_rewrites(state: Seq<Prop>) -> Seq<Line> {
    joined_upto(state.len() as int, |i: int| rewrite_lines(state, rewrites(state[i]), i))
}

/// Every one-step rewrite of the goal; what it cites is settled later.
pub open spec fn goal_rewrites(goal: Prop) -> Seq<Line> {
    Seq::new(
        rewrites(goal).len(),
        |i: int|
            Line {
                formula: rewrites(goal)[i].0,
                rule: rewrites(goal)[i].1.short_name(),
                cited: seq![],
            },
    )
}

/// Each formula of `s` once, the smallest first, and no more than `cap`.
pub open spec fn selected(s: Seq<Line>, cap: nat) -> Seq<Line> {
    let all = by_size(deduped(s));
    if deduped(s).len() > cap {
        all.take(cap as int)
    } else {
        all
    }
}

/// `ctx`, with the cutting short of a list noted.
pub open spec fn noted(ctx: Ctx, s: Seq<Line>, cap: nat) -> Ctx {
    Ctx { truncated: ctx.truncated || deduped(s).len() > cap, ..ctx }
}

/// `ctx`, with a failure remembered.
pub open spec fn remembered(ctx: Ctx, k: Key, budget: nat) -> Ctx {
    if ctx.memo.contains_key(k) && ctx.memo[k] >= budget {
        ctx
    } else {
        Ctx { memo: ctx.memo.insert(k, budget), ..ctx }
    }
}

/// The position of the line that establishes `target` after `steps`: the last of them,
/// or, if there are none, where the state has it.
pub open spec fn established(state: Seq<Prop>, steps: Seq<Line>, target: Prop) -> int {
    if steps.len() == 0 {
        match first_index(state, target) {
            Some(i) => i,
            None => 0,
        }
    } else {
        state.len() + steps.len() - 1
    }
}

/// `inside` as a subproof, closed with the line that establishes `target`.
pub open spec fn subproof(
    state: Seq<Prop>,
    t: ProofTechnique,
    assumption: Prop,
    inside: Seq<Line>,
    target: Prop,
    conclusion: Prop,
) -> Seq<Line> {
    let open = Line { formula: assumption, rule: t.assumption_name(), cited: seq![] };
    let close = Line {
        formula: conclusion,
        rule: t.short_name(),
        cited: seq![
            state.len() as int,
            established(state.push(assumption), inside, target),
        ],
    };
    seq![open] + inside + seq![close]
}

/// Searches for `goal` from `state` in at most `budget` lines.
pub open spec fn search(lim: Limits, state: Seq<Prop>, goal: Prop, budget: nat, ctx: Ctx) -> (
    Verdict,
    Ctx,
)
    decreases budget, 3int, 0int, 0int, 0int,
{
    let k = key(state, goal);
    if state.contains(goal) {
        (Verdict::Found(seq![]), ctx)
    } else if budget == 0 {
        (Verdict::Nothing, ctx)
    } else if ctx.memo.contains_key(k) && budget <= ctx.memo[k] {
        (Verdict::Nothing, ctx)
    } else if !plausible(state, goal) {
        (Verdict::Nothing, Ctx { memo: ctx.memo.insert(k, usize::MAX as nat), ..ctx })
    } else if ctx.nodes >= lim.max_nodes {
        (Verdict::Exceeded, Ctx { nodes: ctx.nodes + 1, ..ctx })
    } else {
        expand(lim, state, goal, budget, Ctx { nodes: ctx.nodes + 1, ..ctx })
    }
}

/// The stages of a node, in order.
pub open spec fn expand(lim: Limits, state: Seq<Prop>, goal: Prop, budget: nat, ctx: Ctx) -> (
    Verdict,
    Ctx,
)
    decreases budget, 2int, 5int, 0int, 0int,
{
    match try_moves(lim, state, goal, budget, deduped(moves(state)), ctx) {
        (Verdict::Nothing, c1) => expand_goal(lim, state, goal, budget, c1),
        other => other,
    }
}

/// The stages of a node from the shape of the goal on.
pub open spec fn expand_goal(lim: Limits, state: Seq<Prop>, goal: Prop, budget: nat, ctx: Ctx) -> (
    Verdict,
    Ctx,
)
    decreases budget, 2int, 4int, 0int, 0int,
{
    match try_shape(lim, state, goal, budget, ctx) {
        (Verdict::Nothing, c1) => expand_indirect(lim, state, goal, budget, c1),
        other => other,
    }
}

/// The stages of a node from the indirect proof on.
pub open spec fn expand_indirect(
    lim: Limits,
    state: Seq<Prop>,
    goal: Prop,
    budget: nat,
    ctx: Ctx,
) -> (Verdict, Ctx)
    decreases budget, 2int, 3int, 0int, 0int,
{
    if goal == Prop::Contradiction {
        expand_rewrites(lim, state, goal, budget, ctx)
    } else {
        match try_subproof(
            lim,
            state,
            goal,
            ProofTechnique::IndirectProof,
            p_not(goal),
            Prop::Contradiction,
            budget,
            ctx,
        ) {
            (Verdict::Nothing, c1) => expand_rewrites(lim, state, goal, budget, c1),
            other => other,
        }
    }
}

/// The stages of a node from the rewrites of known formulas on.
pub open spec fn expand_rewrites(
    lim: Limits,
    state: Seq<Prop>,
    goal: Prop,
    budget: nat,
    ctx: Ctx,
) -> (Verdict, Ctx)
    decreases budget, 2int, 2int, 0int, 0int,
{
    let cands = state_rewrites(state);
    match try_moves(
        lim,
        state,
        goal,
        budget,
        selected(cands, lim.cap),
        noted(ctx, cands, lim.cap),
    ) {
        (Verdict::Nothing, c1) => expand_goal_rewrites(lim, state, goal, budget, c1),
        other => other,
    }
}

/// The last stage of a node: the rewrites of the goal, where two lines are left for
/// them. What fails to the end is remembered.
pub open spec fn expand_goal_rewrites(
    lim: Limits,
    state: Seq<Prop>,
    goal: Prop,
    budget: nat,
    ctx: Ctx,
) -> (Verdict, Ctx)
    decreases budget, 2int, 1int, 0int, 0int,
{
    let cands = goal_rewrites(goal);
    if budget < 2 {
        (Verdict::Nothing, remembered(ctx, key(state, goal), budget))
    } else {
        match try_goals(
            lim,
            state,
            goal,
            budget,
            selected(cands, lim.cap),
            noted(ctx, cands, lim.cap),
        ) {
            (Verdict::Nothing, c1) => (
                Verdict::Nothing,
                remembered(c1, key(state, goal), budget),
            ),
            other => other,
        }
    }
}

/// Tries the steps `ms`, each with the search going on from what it adds.
pub open spec fn try_moves(
    lim: Limits,
    state: Seq<Prop>,
    goal: Prop,
    budget: nat,
    ms: Seq<Line>,
    ctx: Ctx,
) -> (Verdict, Ctx)
    decreases budget, 1int, ms.len(), 0int, 0int,
{
    if ms.len() == 0 || budget == 0 {
        (Verdict::Nothing, ctx)
    } else {
        match search(lim, state.push(ms[0].formula), goal, (budget - 1) as nat, ctx) {
            (Verdict::Found(steps), c1) => (Verdict::Found(seq![ms[0]] + steps), c1),
            (Verdict::Nothing, c1) => try_moves(lim, state, goal, budget, ms.drop_first(), c1),
            (Verdict::Exceeded, c1) => (Verdict::Exceeded, c1),
        }
    }
}

/// Tries other goals, each one rewrite away from `goal`.
pub open spec fn try_goals(
    lim: Limits,
    state: Seq<Prop>,
    goal: Prop,
    budget: nat,
    cands: Seq<Line>,
    ctx: Ctx,
) -> (Verdict, Ctx)
    decreases budget, 1int, cands.len(), 0int, 0int,
{
    if cands.len() == 0 || budget == 0 {
        (Verdict::Nothing, ctx)
    } else {
        let c = cands[0];
        match search(lim, state, c.formula, (budget - 1) as nat, ctx) {
            (Verdict::Found(steps), c1) => (
                Verdict::Found(
                    steps.push(
                        Line {
                            formula: goal,
                            rule: c.rule,
                            cited: seq![established(state, steps, c.formula)],
                        },
                    ),
                ),
                c1,
            ),
            (Verdict::Nothing, c1) => try_goals(
                lim,
                state,
                goal,
                budget,
                cands.drop_first(),
                c1,
            ),
            (Verdict::Exceeded, c1) => (Verdict::Exceeded, c1),
        }
    }
}

/// Tries the step that the shape of the goal calls for.
pub open spec fn try_shape(lim: Limits, state: Seq<Prop>, goal: Prop, budget: nat, ctx: Ctx) -> (
    Verdict,
    Ctx,
)
    decreases budget, 2int, 0int, 0int, 0int,
{
    if budget == 0 {
        (Verdict::Nothing, ctx)
    } else {
        match goal {
            Prop::Implies(a, c) => try_subproof(
                lim,
                state,
                goal,
                ProofTechnique::ConditionalProof,
                *a,
                *c,
                budget,
                ctx,
            ),
            Prop::Or(l, r) => match (first_index(state, *l), first_index(state, *r)) {
                (Some(i), _) => (
                    Verdict::Found(seq![Line { formula: goal, rule: "Add"@, cited: seq![i] }]),
                    ctx,
                ),
                (None, Some(i)) => (
                    Verdict::Found(seq![Line { formula: goal, rule: "Add"@, cited: seq![i] }]),
                    ctx,
                ),
                (None, None) => match try_side(lim, state, goal, *l, budget, ctx) {
                    (Verdict::Nothing, c1) => try_side(lim, state, goal, *r, budget, c1),
                    other => other,
                },
            },
            Prop::And(l, r) => match try_conj(lim, state, goal, *l, *r, budget, 0, ctx) {
                (Verdict::Nothing, c1) => share_below(lim, state, goal, *l, 0, budget, c1),
                other => other,
            },
            _ => (Verdict::Nothing, ctx),
        }
    }
}

/// Tries a subproof that assumes `assumption`, derives `target` and discharges to `goal`.
pub open spec fn try_subproof(
    lim: Limits,
    state: Seq<Prop>,
    goal: Prop,
    t: ProofTechnique,
    assumption: Prop,
    target: Prop,
    budget: nat,
    ctx: Ctx,
) -> (Verdict, Ctx)
    decreases budget, 1int, 0int, 0int, 0int,
{
    if budget < 2 {
        (Verdict::Nothing, ctx)
    } else {
        match search(lim, state.push(assumption), target, (budget - 2) as nat, ctx) {
            (Verdict::Found(inside), c1) => (
                Verdict::Found(subproof(state, t, assumption, inside, target, goal)),
                c1,
            ),
            other => other,
        }
    }
}

/// Tries to prove one side of a disjunction, and then the disjunction by addition.
pub open spec fn try_side(
    lim: Limits,
    state: Seq<Prop>,
    goal: Prop,
    side: Prop,
    budget: nat,
    ctx: Ctx,
) -> (Verdict, Ctx)
    decreases budget, 1int, 0int, 0int, 0int,
{
    if budget == 0 {
        (Verdict::Nothing, ctx)
    } else {
        match search(lim, state, side, (budget - 1) as nat, ctx) {
            (Verdict::Found(steps), c1) => (
                Verdict::Found(
                    steps.push(
                        Line {
                            formula: goal,
                            rule: "Add"@,
                            cited: seq![established(state, steps, side)],
                        },
                    ),
                ),
                c1,
            ),
            other => other,
        }
    }
}

/// Tries to prove both sides of a conjunction, giving the left side `left` lines, then
/// one more, and so on. The right side is searched for from all that may be cited after
/// the proof of the left side, and its lines are renumbered to follow that proof.
pub open spec fn try_conj(
    lim: Limits,
    state: Seq<Prop>,
    goal: Prop,
    l: Prop,
    r: Prop,
    budget: nat,
    left: nat,
    ctx: Ctx,
) -> (Verdict, Ctx)
    decreases budget, 1int, budget - left, 0int, 0int,
{
    if left >= budget {
        (Verdict::Nothing, ctx)
    } else {
        match search(lim, state, l, left, ctx) {
            (Verdict::Exceeded, c1) => (Verdict::Exceeded, c1),
            (Verdict::Nothing, c1) => try_conj(lim, state, goal, l, r, budget, left + 1, c1),
            (Verdict::Found(ls), c1) => {
                let after = grown(state, ls);
                if ls.len() >= budget {
                    try_conj(lim, state, goal, l, r, budget, left + 1, c1)
                } else {
                    match search(lim, after, r, (budget - 1 - ls.len()) as nat, c1) {
                        (Verdict::Exceeded, c2) => (Verdict::Exceeded, c2),
                        (Verdict::Nothing, c2) => try_conj(
                            lim,
                            state,
                            goal,
                            l,
                            r,
                            budget,
                            left + 1,
                            c2,
                        ),
                        (Verdict::Found(rs), c2) => (
                            Verdict::Found(
                                spliced(state, ls, rs).push(
                                    Line {
                                        formula: goal,
                                        rule: "Conj"@,
                                        cited: seq![
                                            established(state, ls, l),
                                            moved_to(
                                                state.len() as int,
                                                open_positions(state, ls),
                                                ls.len() as int,
                                                established(after, rs, r),
                                            ),
                                        ],
                                    },
                                ),
                            ),
                            c2,
                        ),
                    }
                }
            },
        }
    }
}

/// The line that states `y` where its parts are known: addition or conjunction.
pub open spec fn closing_line(state: Seq<Prop>, y: Prop) -> Option<Line> {
    match y {
        Prop::Or(a, b) => match (first_index(state, *a), first_index(state, *b)) {
            (Some(i), _) => Some(Line { formula: y, rule: "Add"@, cited: seq![i] }),
            (None, Some(i)) => Some(Line { formula: y, rule: "Add"@, cited: seq![i] }),
            (None, None) => None,
        },
        Prop::And(a, b) => match (first_index(state, *a), first_index(state, *b)) {
            (Some(i), Some(j)) => Some(Line { formula: y, rule: "Conj"@, cited: seq![i, j] }),
            _ => None,
        },
        _ => None,
    }
}

/// Tries the subgoals that lie below `y`, which is `d` steps below the left half of the
/// conjunction `goal`: its parts, and its rewrites. Each is established first, if it can
/// be, so that both halves may use it. Where a list was cut short this is left out, since
/// nothing is certified any more.
pub open spec fn share_below(
    lim: Limits,
    state: Seq<Prop>,
    goal: Prop,
    y: Prop,
    d: nat,
    budget: nat,
    ctx: Ctx,
) -> (Verdict, Ctx)
    decreases budget, 1int, budget - d, 2int, 0int,
{
    if ctx.truncated || d + 3 > budget {
        (Verdict::Nothing, ctx)
    } else {
        match share_parts(lim, state, goal, y, d, budget, ctx) {
            (Verdict::Nothing, c1) => {
                let cands = goal_rewrites(y);
                share_list(
                    lim,
                    state,
                    goal,
                    selected(cands, lim.cap),
                    d,
                    budget,
                    noted(c1, cands, lim.cap),
                )
            },
            other => other,
        }
    }
}

/// Tries the two parts of a disjunction or a conjunction in turn.
pub open spec fn share_parts(
    lim: Limits,
    state: Seq<Prop>,
    goal: Prop,
    y: Prop,
    d: nat,
    budget: nat,
    ctx: Ctx,
) -> (Verdict, Ctx)
    decreases budget, 1int, budget - d, 1int, 0int,
{
    if d + 3 > budget {
        (Verdict::Nothing, ctx)
    } else {
        match halves(y) {
            Some((a, b)) => match share(lim, state, goal, a, d + 1, budget, ctx) {
                (Verdict::Nothing, c1) => share(lim, state, goal, b, d + 1, budget, c1),
                other => other,
            },
            None => (Verdict::Nothing, ctx),
        }
    }
}

/// The two parts of a disjunction or a conjunction.
pub open spec fn halves(y: Prop) -> Option<(Prop, Prop)> {
    match y {
        Prop::Or(a, b) => Some((*a, *b)),
        Prop::And(a, b) => Some((*a, *b)),
        _ => None,
    }
}

/// Tries some subgoals in turn.
pub open spec fn share_list(
    lim: Limits,
    state: Seq<Prop>,
    goal: Prop,
    cands: Seq<Line>,
    d: nat,
    budget: nat,
    ctx: Ctx,
) -> (Verdict, Ctx)
    decreases budget, 1int, budget - d, 1int, cands.len(),
{
    if cands.len() == 0 || d + 3 > budget {
        (Verdict::Nothing, ctx)
    } else {
        match share(lim, state, goal, cands[0].formula, d + 1, budget, ctx) {
            (Verdict::Nothing, c1) => share_list(
                lim,
                state,
                goal,
                cands.drop_first(),
                d,
                budget,
                c1,
            ),
            other => other,
        }
    }
}

/// Tries to establish the subgoal `y`, and then the subgoals below it.
pub open spec fn share(
    lim: Limits,
    state: Seq<Prop>,
    goal: Prop,
    y: Prop,
    d: nat,
    budget: nat,
    ctx: Ctx,
) -> (Verdict, Ctx)
    decreases budget, 1int, budget - d, 4int, 0int,
{
    if ctx.truncated || d + 2 > budget {
        (Verdict::Nothing, ctx)
    } else {
        match share_closing(lim, state, goal, y, d, budget, ctx) {
            (Verdict::Nothing, c1) => share_below(lim, state, goal, y, d, budget, c1),
            other => other,
        }
    }
}

/// Tries to establish the subgoal `y` in the cheapest way, and goes on to `goal` from
/// there.
pub open spec fn share_closing(
    lim: Limits,
    state: Seq<Prop>,
    goal: Prop,
    y: Prop,
    d: nat,
    budget: nat,
    ctx: Ctx,
) -> (Verdict, Ctx)
    decreases budget, 1int, budget - d, 3int, 0int,
{
    if state.contains(y) || budget == 0 {
        (Verdict::Nothing, ctx)
    } else {
        match closing_line(state, y) {
            Some(line) => match search(lim, state.push(y), goal, (budget - 1) as nat, ctx) {
                (Verdict::Found(steps), c1) => (Verdict::Found(seq![line] + steps), c1),
                other => other,
            },
            None => match share_conditional(lim, state, goal, y, d, budget, ctx) {
                (Verdict::Nothing, c1) => if y == Prop::Contradiction {
                    (Verdict::Nothing, c1)
                } else {
                    share_subproof(
                        lim,
                        state,
                        goal,
                        ProofTechnique::IndirectProof,
                        p_not(y),
                        Prop::Contradiction,
                        y,
                        d,
                        0,
                        budget,
                        c1,
                    )
                },
                other => other,
            },
        }
    }
}

/// Tries a conditional proof of the subgoal `y`.
pub open spec fn share_conditional(
    lim: Limits,
    state: Seq<Prop>,
    goal: Prop,
    y: Prop,
    d: nat,
    budget: nat,
    ctx: Ctx,
) -> (Verdict, Ctx)
    decreases budget, 1int, budget - d, 2int, 0int,
{
    match y {
        Prop::Implies(a, c) => share_subproof(
            lim,
            state,
            goal,
            ProofTechnique::ConditionalProof,
            *a,
            *c,
            y,
            d,
            0,
            budget,
            ctx,
        ),
        _ => (Verdict::Nothing, ctx),
    }
}

/// Tries a subproof of the subgoal `y`, with `k` lines inside, then one more, and so on.
/// From the first one found the search goes on to `goal`.
pub open spec fn share_subproof(
    lim: Limits,
    state: Seq<Prop>,
    goal: Prop,
    t: ProofTechnique,
    assumption: Prop,
    target: Prop,
    y: Prop,
    d: nat,
    k: nat,
    budget: nat,
    ctx: Ctx,
) -> (Verdict, Ctx)
    decreases budget, 1int, budget - d, 1int, budget - k,
{
    if k + d + 3 > budget {
        (Verdict::Nothing, ctx)
    } else {
        match search(lim, state.push(assumption), target, k, ctx) {
            (Verdict::Exceeded, c1) => (Verdict::Exceeded, c1),
            (Verdict::Nothing, c1) => share_subproof(
                lim,
                state,
                goal,
                t,
                assumption,
                target,
                y,
                d,
                k + 1,
                budget,
                c1,
            ),
            (Verdict::Found(inside), c1) => {
                let sub = subproof(state, t, assumption, inside, target, y);
                if inside.len() > k {
                    (Verdict::Nothing, c1)
                } else {
                    match search(
                        lim,
                        state.push(y),
                        goal,
                        (budget - 2 - inside.len()) as nat,
                        c1,
                    ) {
                        (Verdict::Found(steps), c2) => (
                            Verdict::Found(spliced(state, sub, steps)),
                            c2,
                        ),
                        other => other,
                    }
                }
            },
        }
    }
}

/// Iterative deepening: searches with `depth` lines, then one more, up to `max`. The
/// number of lines with which the search ended comes along.
pub open spec fn deepen(
    lim: Limits,
    premises: Seq<Prop>,
    goal: Prop,
    depth: nat,
    max: nat,
    ctx: Ctx,
) -> (Verdict, Ctx, nat)
    decreases max + 1 - depth,
{
    if depth > max {
        (Verdict::Nothing, ctx, depth)
    } else {
        match search(lim, premises, goal, depth, ctx) {
            (Verdict::Nothing, c1) => deepen(lim, premises, goal, depth + 1, max, c1),
            (v, c1) => (v, c1, depth),
        }
    }
}

/// Nothing visited, nothing cut short, nothing remembered.
pub open spec fn fresh_ctx() -> Ctx {
    Ctx { nodes: 0, truncated: false, memo: Map::empty() }
}

/// Those of a size, with one line more.
proof fn lemma_sizes_push(s: Seq<Line>, l: Line, n: int)
    requires
        0 <= n,
    ensures
        joined_upto(n, |k: int| of_size(s.push(l), k)).len() == joined_upto(
            n,
            |k: int| of_size(s, k),
        ).len() + (if line_size(l) < n {
            1int
        } else {
            0int
        }),
    decreases n,
{
    let f = |k: int| of_size(s.push(l), k);
    let g = |k: int| of_size(s, k);
    if n > 0 {
        lemma_sizes_push(s, l, n - 1);
        assert(s.push(l).drop_last() =~= s);
        assert(f(n - 1) == of_size(s.push(l), n - 1));
        assert(g(n - 1) == of_size(s, n - 1));
    }
}

/// Ordering by size up to a bound loses nothing that is smaller.
pub proof fn lemma_sizes_count(s: Seq<Line>, n: int)
    requires
        0 <= n,
        forall|i: int| 0 <= i < s.len() ==> line_size(#[trigger] s[i]) < n,
    ensures
        joined_upto(n, |k: int| of_size(s, k)).len() == s.len(),
    decreases s.len(),
{
    let f = |k: int| of_size(s, k);
    if s.len() == 0 {
        assert forall|k: int| 0 <= k < n implies (#[trigger] f(k)).len() == 0 by {}
        lemma_joined_empty(n, f);
    } else {
        let t = s.drop_last();
        assert(s =~= t.push(s.last()));
        assert forall|i: int| 0 <= i < t.len() implies line_size(#[trigger] t[i]) < n by {
            assert(t[i] == s[i]);
        }
        lemma_sizes_count(t, n);
        lemma_sizes_push(t, s.last(), n);
        assert(line_size(s[s.len() - 1]) < n);
    }
}

/// Ordering by size up to a bound gives a beginning of the whole order.
pub proof fn lemma_sizes_prefix(s: Seq<Line>, n: int, m: int)
    requires
        0 <= n <= m,
    ensures
        ({
            let f = |k: int| of_size(s, k);
            &&& joined_upto(n, f).len() <= joined_upto(m, f).len()
            &&& joined_upto(m, f).take(joined_upto(n, f).len() as int) == joined_upto(n, f)
        }),
    decreases m - n,
{
    let f = |k: int| of_size(s, k);
    if n < m {
        lemma_sizes_prefix(s, n, m - 1);
        let a = joined_upto(n, f);
        let b = joined_upto(m - 1, f);
        let c = joined_upto(m, f);
        assert(c == b + f(m - 1));
        assert(c.take(a.len() as int) =~= b.take(a.len() as int));
    } else {
        assert(joined_upto(n, f).take(joined_upto(n, f).len() as int) =~= joined_upto(n, f));
    }
}

/// Every line that is kept was there.
pub proof fn lemma_deduped_from(s: Seq<Line>, l: Line)
    requires
        deduped(s).contains(l),
    ensures
        s.contains(l),
    decreases s.len(),
{
    if s.len() > 0 {
        let t = s.drop_last();
        assert(s =~= t.push(s.last()));
        lemma_in_pushed(t, s.last(), l);
        lemma_in_pushed(deduped(t), s.last(), l);
        if deduped(t).contains(l) {
            lemma_deduped_from(t, l);
        }
    }
}

/// What has a size was there.
pub proof fn lemma_of_size_from(s: Seq<Line>, size: int, l: Line)
    ensures
        of_size(s, size).contains(l) <==> s.contains(l) && line_size(l) == size,
    decreases s.len(),
{
    if s.len() > 0 {
        let t = s.drop_last();
        assert(s =~= t.push(s.last()));
        lemma_in_pushed(t, s.last(), l);
        lemma_in_pushed(of_size(t, size), s.last(), l);
        lemma_of_size_from(t, size, l);
    }
}

/// Ordering by size keeps what is there.
pub proof fn lemma_by_size_from(s: Seq<Line>, l: Line)
    ensures
        by_size(s).contains(l) <==> s.contains(l),
{
    let f = |size: int| of_size(s, size);
    lemma_joined_upto(usize::MAX + 1, f, l);
    if by_size(s).contains(l) {
        let k = choose|k: int| 0 <= k < usize::MAX + 1 && #[trigger] f(k).contains(l);
        lemma_of_size_from(s, k, l);
    }
    if s.contains(l) {
        lemma_of_size_from(s, line_size(l) as int, l);
        assert(f(line_size(l) as int).contains(l));
    }
}

/// What is selected was there.
pub proof fn lemma_selected_from(s: Seq<Line>, cap: nat, l: Line)
    requires
        selected(s, cap).contains(l),
    ensures
        s.contains(l),
{
    let all = by_size(deduped(s));
    lemma_by_size_len(deduped(s));
    let i = choose|i: int| 0 <= i < selected(s, cap).len() && selected(s, cap)[i] == l;
    assert(all[i] == l);
    assert(all.contains(l));
    lemma_by_size_from(deduped(s), l);
    lemma_deduped_from(s, l);
}

/// Ordering by size loses nothing.
pub proof fn lemma_by_size_len(s: Seq<Line>)
    ensures
        by_size(s).len() == s.len(),
{
    assert forall|i: int| 0 <= i < s.len() implies line_size(#[trigger] s[i]) < usize::MAX + 1 by {}
    lemma_sizes_count(s, usize::MAX + 1);
}

/// What a rewrite line comes from.
pub proof fn lemma_rewrite_lines(state: Seq<Prop>, rs: Seq<Rewrite>, i: int, l: Line)
    ensures
        rewrite_lines(state, rs, i).contains(l) <==> l.cited == seq![i] && !state.contains(l.formula)
            && exists|k: int|
            0 <= k < rs.len() && (#[trigger] rs[k]).0 == l.formula && rs[k].1.short_name() == l.rule,
    decreases rs.len(),
{
    if rs.len() > 0 {
        let t = rs.drop_last();
        let x = rs.last();
        lemma_rewrite_lines(state, t, i, l);
        let line = Line { formula: x.0, rule: x.1.short_name(), cited: seq![i] };
        lemma_in_pushed(rewrite_lines(state, t, i), line, l);
        if exists|k: int|
            0 <= k < t.len() && (#[trigger] t[k]).0 == l.formula && t[k].1.short_name() == l.rule {
            let k = choose|k: int|
                0 <= k < t.len() && (#[trigger] t[k]).0 == l.formula && t[k].1.short_name()
                    == l.rule;
            assert(rs[k] == t[k]);
        }
        if exists|k: int|
            0 <= k < rs.len() && (#[trigger] rs[k]).0 == l.formula && rs[k].1.short_name()
                == l.rule {
            let k = choose|k: int|
                0 <= k < rs.len() && (#[trigger] rs[k]).0 == l.formula && rs[k].1.short_name()
                    == l.rule;
            if k < t.len() {
                assert(rs[k] == t[k]);
            } else {
                assert(rs[k] == x);
            }
        }
        assert(rs[rs.len() - 1] == x);
    }
}

/// What a line among the rewrites of a state comes from.
pub proof fn lemma_state_rewrites(state: Seq<Prop>, l: Line)
    requires
        state_rewrites(state).contains(l),
    ensures
        !state.contains(l.formula),
        exists|i: int, rule: EquivalenceRule|
            0 <= i < state.len() && l.cited == seq![i] && l.rule == rule.short_name()
                && #[trigger] rewrites(state[i]).contains((l.formula, rule)),
{
    let f = |i: int| rewrite_lines(state, rewrites(state[i]), i);
    lemma_joined_upto(state.len() as int, f, l);
    let i = choose|i: int| 0 <= i < state.len() && #[trigger] f(i).contains(l);
    let rs = rewrites(state[i]);
    lemma_rewrite_lines(state, rs, i, l);
    let k = choose|k: int|
        0 <= k < rs.len() && (#[trigger] rs[k]).0 == l.formula && rs[k].1.short_name() == l.rule;
    assert(rs[k] == (l.formula, rs[k].1));
    assert(rs.contains((l.formula, rs[k].1)));
}

/// Where no formula of the state is one rewrite away from the goal, no rewrite of the
/// state is the goal.
pub proof fn lemma_far(state: Seq<Prop>, goal: Prop, cap: nat)
    requires
        !is_near(goal, state),
    ensures
        forall|j: int|
            0 <= j < selected(state_rewrites(state), cap).len() ==> (#[trigger] selected(
                state_rewrites(state),
                cap,
            )[j]).formula != goal,
{
    let all = state_rewrites(state);
    assert forall|j: int| 0 <= j < selected(all, cap).len() implies (#[trigger] selected(
        all,
        cap,
    )[j]).formula != goal by {
        let l = selected(all, cap)[j];
        assert(selected(all, cap).contains(l));
        lemma_selected_from(all, cap, l);
        lemma_state_rewrites(state, l);
        let (i, rule) = choose|i: int, rule: EquivalenceRule|
            0 <= i < state.len() && l.cited == seq![i] && l.rule == rule.short_name()
                && #[trigger] rewrites(state[i]).contains((l.formula, rule));
        if l.formula == goal {
            law_rewrites_symmetric(state[i], goal, rule);
            assert(rewrites(goal).contains((state[i], rule)));
        }
    }
}

} // verus!
