//! What a search finds is a valid proof: every line is justified by lines that may be
//! cited there, every subproof is closed, the last line is the goal, and there are no
//! more lines than allowed.

use vstd::prelude::*;

use super::bank::plausible;
use super::moves::{cites, law_moves_exact, law_moves_sound, leads, moves};
use super::moves::{Line, MoveRule};
use super::search::{
    closing_line, deduped, deepen, established, expand, expand_goal, expand_goal_rewrites,
    expand_indirect, expand_rewrites, goal_rewrites, halves, key, lemma_deduped_from,
    lemma_selected_from, lemma_state_rewrites, noted, search, selected, share, share_below,
    share_closing, share_conditional, share_list, share_parts, share_subproof, state_rewrites,
    subproof, try_conj, try_goals, try_moves, try_shape, try_side, try_subproof, Ctx, Limits,
    Verdict,
};
use super::splice::{
    grown, lemma_moved_before, lemma_open_upto, lemma_splice, lemma_spliced_citable,
    lemma_spliced_kept, lemma_valid_spliced, moved_to, open_positions, open_upto, renumbered,
    spliced,
};
use super::transcript::{
    all_justified, built, citable, closes, follows_directly, formula_at, formulas_at, is_assumption,
    is_discharge, law_valid_sound, lemma_end_citable, lemma_labels, lemma_prefix, lemma_shift,
    lemma_valid_direct, lemma_valid_push, lemma_valid_subproof, moved, rewritten, valid,
};
use crate::models::formula::{
    all_true, entails, eval, first_index, lemma_first_index, p_and, p_not, Prop, Valuation,
};
use crate::models::lists::lemma_in_pushed;
use crate::models::rewriting::{law_rewrites_symmetric, rewrites};
use crate::models::rules::equivalence::EquivalenceRule;
use crate::models::rules::technique::{discharge, ProofTechnique};

verus! {

/// Whether the line at `n` closes a subproof: it cites an assumption and what was derived
/// from it, and states what these discharge to.
pub open spec fn closes_subproof(
    premises: Seq<Prop>,
    steps: Seq<Line>,
    n: int,
    t: ProofTechnique,
) -> bool {
    let line = steps[n - premises.len()];
    &&& line.rule == t.short_name()
    &&& line.cited.len() == 2
    &&& premises.len() <= line.cited[0] < n
    &&& 0 <= line.cited[1] < n
    &&& steps[line.cited[0] - premises.len()].rule == t.assumption_name()
    &&& discharge(
        t,
        formula_at(premises, steps, line.cited[0]),
        formula_at(premises, steps, line.cited[1]),
    ) == Some(line.formula)
}

/// Whether a line that closes a subproof cites what it discharges.
pub open spec fn closing_fits(premises: Seq<Prop>, steps: Seq<Line>, n: int) -> bool {
    is_discharge(steps[n - premises.len()]) ==> closes_subproof(
        premises,
        steps,
        n,
        ProofTechnique::ConditionalProof,
    ) || closes_subproof(premises, steps, n, ProofTechnique::IndirectProof)
}

/// Whether all lines that close subproofs cite what they discharge.
pub open spec fn closings_fit(premises: Seq<Prop>, steps: Seq<Line>) -> bool {
    forall|n: int|
        premises.len() <= n < premises.len() + steps.len() ==> #[trigger] closing_fits(
            premises,
            steps,
            n,
        )
}

/// Whether `steps` is what a search for `goal` in `budget` lines should find.
pub open spec fn proves(state: Seq<Prop>, goal: Prop, budget: nat, steps: Seq<Line>) -> bool {
    &&& steps.len() <= budget
    &&& steps.len() == 0 <==> state.contains(goal)
    &&& steps.len() > 0 ==> steps.last().formula == goal
    &&& valid(state, steps)
    &&& closings_fit(state, steps)
}

/// Closing lines still fit when others follow.
proof fn lemma_fit_prefix(premises: Seq<Prop>, a: Seq<Line>, b: Seq<Line>, n: int)
    requires
        closing_fits(premises, a, n),
        premises.len() <= n < premises.len() + a.len(),
    ensures
        closing_fits(premises, a + b, n),
{
    let all = a + b;
    let k = premises.len() as int;
    let line = a[n - k];
    assert(all[n - k] == line);
    lemma_prefix(premises, a, b);
    if is_discharge(line) {
        assert(all[line.cited[0] - k] == a[line.cited[0] - k]);
        assert(formula_at(premises, a, line.cited[0]) == formula_at(premises, all, line.cited[0]));
        assert(formula_at(premises, a, line.cited[1]) == formula_at(premises, all, line.cited[1]));
    }
}

/// Closing lines still fit when the last premise becomes a first line.
proof fn lemma_fit_first(premises: Seq<Prop>, first: Line, rest: Seq<Line>, n: int)
    requires
        !is_discharge(first),
        closing_fits(premises.push(first.formula), rest, n),
        premises.len() < n <= premises.len() + rest.len(),
    ensures
        closing_fits(premises, seq![first] + rest, n),
{
    let inner = premises.push(first.formula);
    let all = seq![first] + rest;
    let k = premises.len() as int;
    let line = rest[n - k - 1];
    assert(all =~= seq![first] + rest + Seq::<Line>::empty());
    assert(all[n - k] == line);
    lemma_shift(premises, first, rest, seq![]);
    if is_discharge(line) {
        assert(all[line.cited[0] - k] == rest[line.cited[0] - k - 1]);
        assert(formula_at(inner, rest, line.cited[0]) == formula_at(premises, all, line.cited[0]));
        assert(formula_at(inner, rest, line.cited[1]) == formula_at(premises, all, line.cited[1]));
    }
}

/// Closing lines still fit when they are renumbered to follow other lines.
proof fn lemma_fit_spliced(premises: Seq<Prop>, steps: Seq<Line>, more: Seq<Line>)
    requires
        valid(premises, steps),
        closings_fit(premises, steps),
        valid(grown(premises, steps), more),
        closings_fit(grown(premises, steps), more),
    ensures
        closings_fit(premises, spliced(premises, steps, more)),
{
    let b = premises.len() as int;
    let at = open_positions(premises, steps);
    let p = steps.len() as int;
    let inner = grown(premises, steps);
    let m = inner.len() as int;
    let all = spliced(premises, steps, more);
    let tail = Seq::new(more.len(), |i: int| renumbered(b, at, p, more[i]));
    assert(all == steps + tail);
    lemma_open_upto(premises, steps, p);
    lemma_splice(premises, steps, more);
    assert forall|n1: int| b <= n1 < b + all.len() implies #[trigger] closing_fits(
        premises,
        all,
        n1,
    ) by {
        if n1 < b + p {
            assert(closing_fits(premises, steps, n1));
            lemma_fit_prefix(premises, steps, tail, n1);
        } else {
            let n = n1 - b - p + m;
            assert(closing_fits(inner, more, n));
            let line = more[n - m];
            assert(all[n1 - b] == renumbered(b, at, p, line));
            if is_discharge(line) {
                let s = line.cited[0];
                assert(renumbered(b, at, p, line).cited[0] == s - m + b + p);
                assert(all[s - m + p] == renumbered(b, at, p, more[s - m]));
                assert(formula_at(inner, more, s) == formula_at(premises, all, s - m + b + p));
                assert(formula_at(inner, more, line.cited[1]) == formula_at(
                    premises,
                    all,
                    moved_to(b, at, p, line.cited[1]),
                ));
                lemma_moved_before(premises, steps, line.cited[1], n);
            }
        }
    }
}

/// The rules that need no subproof are named otherwise than those that do.
proof fn lemma_rewrite_labels(rule: EquivalenceRule)
    ensures
        rule.short_name() != "ACP"@,
        rule.short_name() != "AIP"@,
        rule.short_name() != "CP"@,
        rule.short_name() != "IP"@,
{
    reveal_strlit("ACP");
    reveal_strlit("AIP");
    reveal_strlit("CP");
    reveal_strlit("IP");
    reveal_strlit("DN");
    reveal_strlit("DeM");
    reveal_strlit("Comm");
    reveal_strlit("Assoc");
    reveal_strlit("Dist");
    reveal_strlit("Contra");
    reveal_strlit("Impl");
    reveal_strlit("Exp");
    reveal_strlit("Taut");
    reveal_strlit("Equiv");
    assert("ACP"@[0] == 'A' && "AIP"@[0] == 'A');
    assert("CP"@[0] == 'C' && "IP"@[0] == 'I');
    match rule {
        EquivalenceRule::DoubleNegation => {
            assert("DN"@[0] == 'D');
        },
        EquivalenceRule::DeMorgan => {
            assert("DeM"@[0] == 'D');
        },
        EquivalenceRule::Exportation => {
            assert("Exp"@[0] == 'E');
        },
        _ => {
            assert(rule.short_name().len() > 3);
        },
    }
}

/// A line that follows directly opens and closes no subproof.
proof fn lemma_direct_plain(line: Line, fs: Seq<Prop>)
    requires
        follows_directly(line, fs),
    ensures
        !is_discharge(line),
        !is_assumption(line),
{
    lemma_labels(MoveRule::Simp);
    if moved(line, fs) {
        let rule = choose|rule: MoveRule|
            line.rule == rule.label() && fs.len() == rule.arity() && #[trigger] rule.gives(
                fs[0],
                fs[1],
                fs[2],
            ).contains(line.formula);
        lemma_labels(rule);
    } else if !built(line, fs) {
        let rule = choose|rule: EquivalenceRule|
            line.rule == rule.short_name() && #[trigger] rewrites(fs[0]).contains(
                (line.formula, rule),
            );
        lemma_rewrite_labels(rule);
    }
}

/// A proof with one line more that follows directly from what may be cited at its end.
proof fn lemma_push_proves(
    state: Seq<Prop>,
    steps: Seq<Line>,
    last: Line,
    goal: Prop,
    budget: nat,
)
    requires
        !state.contains(goal),
        valid(state, steps),
        closings_fit(state, steps),
        steps.len() < budget,
        last.formula == goal,
        forall|i: int|
            0 <= i < last.cited.len() ==> citable(
                state,
                steps,
                (state.len() + steps.len()) as int,
                #[trigger] last.cited[i],
            ),
        follows_directly(last, formulas_at(state, steps, last.cited)),
    ensures
        proves(state, goal, budget, steps.push(last)),
{
    let all = steps.push(last);
    lemma_direct_plain(last, formulas_at(state, steps, last.cited));
    lemma_valid_push(state, steps, last);
    assert(all =~= steps + seq![last]);
    assert forall|n: int| state.len() <= n < state.len() + all.len() implies #[trigger] closing_fits(
        state,
        all,
        n,
    ) by {
        if n < state.len() + steps.len() {
            assert(closing_fits(state, steps, n));
            lemma_fit_prefix(state, steps, seq![last], n);
        } else {
            assert(all[n - state.len()] == last);
        }
    }
}

/// Whether a line follows directly from formulas of the state.
spec fn is_direct(state: Seq<Prop>, line: Line) -> bool {
    &&& forall|i: int| 0 <= i < line.cited.len() ==> 0 <= #[trigger] line.cited[i] < state.len()
    &&& follows_directly(line, formulas_at(state, seq![line], line.cited))
}

/// A line that follows directly, and a proof that goes on from it.
proof fn lemma_first_proves(
    state: Seq<Prop>,
    m: Line,
    steps: Seq<Line>,
    goal: Prop,
    budget: nat,
)
    requires
        !state.contains(goal),
        is_direct(state, m),
        proves(state.push(m.formula), goal, budget, steps),
    ensures
        proves(state, goal, budget + 1, seq![m] + steps),
{
    let inner = state.push(m.formula);
    let all = seq![m] + steps;
    lemma_direct_plain(m, formulas_at(state, seq![m], m.cited));
    assert(formulas_at(state, seq![m], m.cited) =~= formulas_at(state, all, m.cited));
    lemma_valid_direct(state, m, steps);
    assert forall|n: int| state.len() <= n < state.len() + all.len() implies #[trigger] closing_fits(
        state,
        all,
        n,
    ) by {
        if n == state.len() {
            assert(all[0] == m);
        } else {
            assert(closing_fits(inner, steps, n));
            lemma_fit_first(state, m, steps, n);
        }
    }
    if steps.len() > 0 {
        assert(all.last() == steps.last());
    } else {
        assert(all.last() == m);
        lemma_in_pushed(state, m.formula, goal);
    }
}

/// Every forward move follows directly.
proof fn lemma_move_direct(state: Seq<Prop>, m: Line)
    requires
        moves(state).contains(m),
    ensures
        is_direct(state, m),
{
    law_moves_sound(state, m);
    law_moves_exact(state, m);
    let (rule, i, j, k) = choose|rule: MoveRule, i: int, j: int, k: int|
        #![trigger leads(state, rule, i, j, k, m.formula)]
        leads(state, rule, i, j, k, m.formula) && m.rule == rule.label() && m.cited == cites(
            rule,
            i,
            j,
            k,
        );
    let fs = formulas_at(state, seq![m], m.cited);
    assert(rule.gives(fs[0], fs[1], fs[2]).contains(m.formula)) by {
        assert(fs[0] == state[i]);
        if rule.arity() >= 2 {
            assert(fs[1] == state[j]);
        }
        if rule.arity() == 3 {
            assert(fs[2] == state[k]);
        }
    }
    assert(moved(m, fs));
}

/// Every rewrite of a formula of the state follows directly.
proof fn lemma_rewrite_direct(state: Seq<Prop>, l: Line)
    requires
        state_rewrites(state).contains(l),
    ensures
        is_direct(state, l),
{
    lemma_state_rewrites(state, l);
    let (i, rule) = choose|i: int, rule: EquivalenceRule|
        0 <= i < state.len() && l.cited == seq![i] && l.rule == rule.short_name()
            && #[trigger] rewrites(state[i]).contains((l.formula, rule));
    let fs = formulas_at(state, seq![l], l.cited);
    assert(fs[0] == state[i]);
    assert(rewritten(l, fs[0]));
}

/// Where a goal is established, it stands, and may be cited.
pub proof fn lemma_established(state: Seq<Prop>, steps: Seq<Line>, target: Prop)
    requires
        all_justified(state, steps),
        steps.len() == 0 <==> state.contains(target),
        steps.len() > 0 ==> steps.last().formula == target,
    ensures
        ({
            let at = established(state, steps, target);
            &&& 0 <= at < state.len() || at == state.len() + steps.len() - 1
            &&& 0 <= at
            &&& formula_at(state, steps, at) == target
            &&& citable(state, steps, (state.len() + steps.len()) as int, at)
        }),
{
    lemma_first_index(state, target);
    lemma_end_citable(state, steps, established(state, steps, target));
}

/// What a search finds proves its goal: it keeps to its budget, is empty exactly where the
/// goal was known, ends with the goal, and is valid, with every subproof closed by a line
/// that cites what it discharges.
pub proof fn law_search_proves(lim: Limits, state: Seq<Prop>, goal: Prop, budget: nat, ctx: Ctx)
    ensures
        search(lim, state, goal, budget, ctx).0 matches Verdict::Found(steps) ==> proves(
            state,
            goal,
            budget,
            steps,
        ),
    decreases budget, 3int, 0int, 0int, 0int,
{
    let k = key(state, goal);
    if state.contains(goal) || budget == 0 || (ctx.memo.contains_key(k) && budget <= ctx.memo[k])
        || !plausible(state, goal) || ctx.nodes >= lim.max_nodes {
    } else {
        let c0 = Ctx { nodes: ctx.nodes + 1, ..ctx };
        let ms = deduped(moves(state));
        assert forall|i: int| 0 <= i < ms.len() implies is_direct(state, #[trigger] ms[i]) by {
            assert(ms.contains(ms[i]));
            lemma_deduped_from(moves(state), ms[i]);
            lemma_move_direct(state, ms[i]);
        }
        lemma_moves_prove(lim, state, goal, budget, ms, c0);
        let r1 = try_moves(lim, state, goal, budget, ms, c0);
        if r1.0 is Nothing {
            let c1 = r1.1;
            lemma_shape_proves(lim, state, goal, budget, c1);
            let r2 = try_shape(lim, state, goal, budget, c1);
            if r2.0 is Nothing {
                let c2 = r2.1;
                let c3 = if goal == Prop::Contradiction {
                    c2
                } else {
                    lemma_subproof_proves(
                        lim,
                        state,
                        goal,
                        ProofTechnique::IndirectProof,
                        p_not(goal),
                        Prop::Contradiction,
                        budget,
                        c2,
                    );
                    try_subproof(
                        lim,
                        state,
                        goal,
                        ProofTechnique::IndirectProof,
                        p_not(goal),
                        Prop::Contradiction,
                        budget,
                        c2,
                    ).1
                };
                let cands = state_rewrites(state);
                let fwd = selected(cands, lim.cap);
                assert forall|i: int| 0 <= i < fwd.len() implies is_direct(
                    state,
                    #[trigger] fwd[i],
                ) by {
                    assert(fwd.contains(fwd[i]));
                    lemma_selected_from(cands, lim.cap, fwd[i]);
                    lemma_rewrite_direct(state, fwd[i]);
                }
                lemma_moves_prove(lim, state, goal, budget, fwd, noted(c3, cands, lim.cap));
                let r4 = try_moves(
                    lim,
                    state,
                    goal,
                    budget,
                    fwd,
                    noted(c3, cands, lim.cap),
                );
                let back = goal_rewrites(goal);
                let bwd = selected(back, lim.cap);
                assert forall|i: int| 0 <= i < bwd.len() implies #[trigger] leads_back(
                    goal,
                    bwd[i],
                ) by {
                    assert(bwd.contains(bwd[i]));
                    lemma_selected_from(back, lim.cap, bwd[i]);
                    let j = choose|j: int| 0 <= j < back.len() && back[j] == bwd[i];
                    assert(rewrites(goal)[j] == (bwd[i].formula, rewrites(goal)[j].1));
                    assert(rewrites(goal).contains((bwd[i].formula, rewrites(goal)[j].1)));
                }
                lemma_goals_prove(lim, state, goal, budget, bwd, noted(r4.1, back, lim.cap));
            }
        }
        assert(expand(lim, state, goal, budget, c0) == search(lim, state, goal, budget, ctx));
        lemma_expand_found(lim, state, goal, budget, c0);
    }
}

/// Whether a candidate is one rewrite away from the goal, by its rule.
spec fn leads_back(goal: Prop, cand: Line) -> bool {
    exists|rule: EquivalenceRule|
        cand.rule == rule.short_name() && #[trigger] rewrites(goal).contains((cand.formula, rule))
}

/// What an expansion finds, one of its stages has found.
proof fn lemma_expand_found(lim: Limits, state: Seq<Prop>, goal: Prop, budget: nat, ctx: Ctx)
    ensures
        ({
            let r1 = try_moves(lim, state, goal, budget, deduped(moves(state)), ctx);
            let r2 = try_shape(lim, state, goal, budget, r1.1);
            let r3 = try_subproof(
                lim,
                state,
                goal,
                ProofTechnique::IndirectProof,
                p_not(goal),
                Prop::Contradiction,
                budget,
                r2.1,
            );
            let c3 = if goal == Prop::Contradiction {
                r2.1
            } else {
                r3.1
            };
            let cands = state_rewrites(state);
            let r4 = try_moves(
                lim,
                state,
                goal,
                budget,
                selected(cands, lim.cap),
                noted(c3, cands, lim.cap),
            );
            let back = goal_rewrites(goal);
            let r5 = try_goals(
                lim,
                state,
                goal,
                budget,
                selected(back, lim.cap),
                noted(r4.1, back, lim.cap),
            );
            let e = expand(lim, state, goal, budget, ctx).0;
            e is Found ==> {
                ||| e == r1.0
                ||| r1.0 is Nothing && e == r2.0
                ||| r1.0 is Nothing && r2.0 is Nothing && goal != Prop::Contradiction && e == r3.0
                ||| r1.0 is Nothing && r2.0 is Nothing && e == r4.0
                ||| r1.0 is Nothing && r2.0 is Nothing && budget >= 2 && e == r5.0
            }
        }),
{
    let r1 = try_moves(lim, state, goal, budget, deduped(moves(state)), ctx);
    let e1 = expand_goal(lim, state, goal, budget, r1.1);
    let r2 = try_shape(lim, state, goal, budget, r1.1);
    let e2 = expand_indirect(lim, state, goal, budget, r2.1);
    let r3 = try_subproof(
        lim,
        state,
        goal,
        ProofTechnique::IndirectProof,
        p_not(goal),
        Prop::Contradiction,
        budget,
        r2.1,
    );
    let c3 = if goal == Prop::Contradiction {
        r2.1
    } else {
        r3.1
    };
    let e3 = expand_rewrites(lim, state, goal, budget, c3);
    let cands = state_rewrites(state);
    let r4 = try_moves(
        lim,
        state,
        goal,
        budget,
        selected(cands, lim.cap),
        noted(c3, cands, lim.cap),
    );
    let e4 = expand_goal_rewrites(lim, state, goal, budget, r4.1);
    assert(e4.0 is Found ==> budget >= 2);
    assert(e3.0 is Found ==> e3.0 == r4.0 || e3.0 == e4.0);
    assert(e2.0 is Found ==> goal != Prop::Contradiction && e2.0 == r3.0 || e2.0 == e3.0);
    assert(e1.0 is Found ==> e1.0 == r2.0 || r2.0 is Nothing && e1.0 == e2.0);
}

/// [`law_search_proves`] for steps tried in turn.
proof fn lemma_moves_prove(
    lim: Limits,
    state: Seq<Prop>,
    goal: Prop,
    budget: nat,
    ms: Seq<Line>,
    ctx: Ctx,
)
    requires
        !state.contains(goal),
        forall|i: int| 0 <= i < ms.len() ==> is_direct(state, #[trigger] ms[i]),
    ensures
        try_moves(lim, state, goal, budget, ms, ctx).0 matches Verdict::Found(steps) ==> proves(
            state,
            goal,
            budget,
            steps,
        ),
    decreases budget, 1int, ms.len(), 0int, 0int,
{
    if ms.len() > 0 && budget > 0 {
        let m = ms[0];
        let inner = state.push(m.formula);
        law_search_proves(lim, inner, goal, (budget - 1) as nat, ctx);
        let r = search(lim, inner, goal, (budget - 1) as nat, ctx);
        match r.0 {
            Verdict::Found(steps) => {
                assert(is_direct(state, m));
                lemma_first_proves(state, m, steps, goal, (budget - 1) as nat);
            },
            Verdict::Nothing => {
                let rest = ms.drop_first();
                assert forall|i: int| 0 <= i < rest.len() implies is_direct(
                    state,
                    #[trigger] rest[i],
                ) by {
                    assert(rest[i] == ms[i + 1]);
                }
                lemma_moves_prove(lim, state, goal, budget, rest, r.1);
            },
            Verdict::Exceeded => {},
        }
    }
}

/// [`law_search_proves`] for other goals tried in turn.
proof fn lemma_goals_prove(
    lim: Limits,
    state: Seq<Prop>,
    goal: Prop,
    budget: nat,
    cands: Seq<Line>,
    ctx: Ctx,
)
    requires
        !state.contains(goal),
        forall|i: int| 0 <= i < cands.len() ==> #[trigger] leads_back(goal, cands[i]),
    ensures
        try_goals(lim, state, goal, budget, cands, ctx).0 matches Verdict::Found(steps) ==> proves(
            state,
            goal,
            budget,
            steps,
        ),
    decreases budget, 1int, cands.len(), 0int, 0int,
{
    if cands.len() > 0 && budget > 0 {
        let c = cands[0];
        law_search_proves(lim, state, c.formula, (budget - 1) as nat, ctx);
        let r = search(lim, state, c.formula, (budget - 1) as nat, ctx);
        match r.0 {
            Verdict::Found(steps) => {
                let at = established(state, steps, c.formula);
                let last = Line { formula: goal, rule: c.rule, cited: seq![at] };
                lemma_established(state, steps, c.formula);
                assert(leads_back(goal, cands[0]));
                let rule = choose|rule: EquivalenceRule|
                    c.rule == rule.short_name() && #[trigger] rewrites(goal).contains(
                        (c.formula, rule),
                    );
                law_rewrites_symmetric(goal, c.formula, rule);
                let fs = formulas_at(state, steps, last.cited);
                assert(fs[0] == c.formula);
                assert(rewritten(last, fs[0]));
                lemma_push_proves(state, steps, last, goal, budget);
            },
            Verdict::Nothing => {
                let rest = cands.drop_first();
                assert forall|i: int| 0 <= i < rest.len() implies #[trigger] leads_back(
                    goal,
                    rest[i],
                ) by {
                    assert(rest[i] == cands[i + 1]);
                    assert(leads_back(goal, cands[i + 1]));
                }
                lemma_goals_prove(lim, state, goal, budget, rest, r.1);
            },
            Verdict::Exceeded => {},
        }
    }
}

/// [`law_search_proves`] for a subproof.
proof fn lemma_subproof_proves(
    lim: Limits,
    state: Seq<Prop>,
    goal: Prop,
    t: ProofTechnique,
    assumption: Prop,
    target: Prop,
    budget: nat,
    ctx: Ctx,
)
    requires
        !state.contains(goal),
        discharge(t, assumption, target) == Some(goal),
    ensures
        try_subproof(lim, state, goal, t, assumption, target, budget, ctx).0 matches Verdict::Found(
            steps,
        ) ==> proves(state, goal, budget, steps),
    decreases budget, 1int, 0int, 0int, 0int,
{
    if budget >= 2 {
        let inner = state.push(assumption);
        law_search_proves(lim, inner, target, (budget - 2) as nat, ctx);
        match search(lim, inner, target, (budget - 2) as nat, ctx).0 {
            Verdict::Found(inside) => {
                let open = Line { formula: assumption, rule: t.assumption_name(), cited: seq![] };
                let at = established(inner, inside, target);
                let close = Line {
                    formula: goal,
                    rule: t.short_name(),
                    cited: seq![state.len() as int, at],
                };
                lemma_closed_proves(state, t, assumption, target, inside, goal, budget);
                assert((seq![open] + inside).push(close) =~= subproof(
                    state,
                    t,
                    assumption,
                    inside,
                    target,
                    goal,
                ));
            },
            _ => {},
        }
    }
}

/// A subproof around a proof of what is to be discharged.
pub proof fn lemma_closed_proves(
    state: Seq<Prop>,
    t: ProofTechnique,
    assumption: Prop,
    target: Prop,
    inside: Seq<Line>,
    goal: Prop,
    budget: nat,
)
    requires
        !state.contains(goal),
        discharge(t, assumption, target) == Some(goal),
        budget >= 2,
        proves(state.push(assumption), target, (budget - 2) as nat, inside),
    ensures
        proves(state, goal, budget, subproof(state, t, assumption, inside, target, goal)),
{
    let inner = state.push(assumption);
    let b = state.len() as int;
    let open = Line { formula: assumption, rule: t.assumption_name(), cited: seq![] };
    let at = established(inner, inside, target);
    let close = Line { formula: goal, rule: t.short_name(), cited: seq![b, at] };
    let front = seq![open] + inside;
    let all = seq![open] + inside + seq![close];
    lemma_established(inner, inside, target);
    lemma_labels(MoveRule::Simp);
    lemma_valid_subproof(state, t, assumption, inside, close, at);
    lemma_shift(state, open, inside, seq![close]);
    assert forall|n: int| b <= n < b + all.len() implies #[trigger] closing_fits(state, all, n) by {
        if n == b {
            assert(all[0] == open);
        } else if n < b + front.len() {
            assert(closing_fits(inner, inside, n));
            lemma_fit_first(state, open, inside, n);
            lemma_fit_prefix(state, front, seq![close], n);
        } else {
            assert(all[n - b] == close);
            assert(all[0] == open);
            assert(formula_at(inner, inside, at) == formula_at(state, all, at));
            assert(closes_subproof(state, all, n, t));
        }
    }
    assert(all.last() == close);
}

/// [`law_search_proves`] for one side of a disjunction.
proof fn lemma_side_proves(
    lim: Limits,
    state: Seq<Prop>,
    goal: Prop,
    side: Prop,
    budget: nat,
    ctx: Ctx,
)
    requires
        !state.contains(goal),
        goal matches Prop::Or(l, r) && (side == *l || side == *r),
    ensures
        try_side(lim, state, goal, side, budget, ctx).0 matches Verdict::Found(steps) ==> proves(
            state,
            goal,
            budget,
            steps,
        ),
    decreases budget, 1int, 0int, 0int, 0int,
{
    if budget > 0 {
        law_search_proves(lim, state, side, (budget - 1) as nat, ctx);
        match search(lim, state, side, (budget - 1) as nat, ctx).0 {
            Verdict::Found(steps) => {
                let at = established(state, steps, side);
                let last = Line { formula: goal, rule: "Add"@, cited: seq![at] };
                lemma_established(state, steps, side);
                let fs = formulas_at(state, steps, last.cited);
                assert(fs[0] == side);
                assert(built(last, fs));
                lemma_push_proves(state, steps, last, goal, budget);
            },
            _ => {},
        }
    }
}

/// [`law_search_proves`] for the step that the shape of the goal calls for.
proof fn lemma_shape_proves(lim: Limits, state: Seq<Prop>, goal: Prop, budget: nat, ctx: Ctx)
    requires
        !state.contains(goal),
    ensures
        try_shape(lim, state, goal, budget, ctx).0 matches Verdict::Found(steps) ==> proves(
            state,
            goal,
            budget,
            steps,
        ),
    decreases budget, 2int, 0int, 0int, 0int,
{
    if budget > 0 {
        match goal {
            Prop::Implies(a, c) => {
                lemma_subproof_proves(
                    lim,
                    state,
                    goal,
                    ProofTechnique::ConditionalProof,
                    *a,
                    *c,
                    budget,
                    ctx,
                );
            },
            Prop::Or(l, r) => {
                lemma_first_index(state, *l);
                lemma_first_index(state, *r);
                if first_index(state, *l) is None && first_index(state, *r) is None {
                    lemma_side_proves(lim, state, goal, *l, budget, ctx);
                    let c1 = try_side(lim, state, goal, *l, budget, ctx).1;
                    lemma_side_proves(lim, state, goal, *r, budget, c1);
                } else {
                    let at = match first_index(state, *l) {
                        Some(i) => i,
                        None => first_index(state, *r)->0,
                    };
                    let line = Line { formula: goal, rule: "Add"@, cited: seq![at] };
                    let none = Seq::<Line>::empty();
                    let fs = formulas_at(state, none, line.cited);
                    assert(fs[0] == state[at]);
                    assert(built(line, fs));
                    lemma_end_citable(state, none, at);
                    lemma_push_proves(state, none, line, goal, budget);
                    assert(none.push(line) =~= seq![line]);
                    assert(try_shape(lim, state, goal, budget, ctx).0 == Verdict::Found(
                        seq![line],
                    ));
                }
            },
            Prop::And(l, r) => {
                lemma_conj_proves(lim, state, goal, *l, *r, budget, 0, ctx);
                let halved = try_conj(lim, state, goal, *l, *r, budget, 0, ctx);
                lemma_below_proves(lim, state, goal, *l, 0, budget, halved.1);
            },
            _ => {},
        }
    }
}

/// [`law_search_proves`] for a conjunction.
proof fn lemma_conj_proves(
    lim: Limits,
    state: Seq<Prop>,
    goal: Prop,
    l: Prop,
    r: Prop,
    budget: nat,
    left: nat,
    ctx: Ctx,
)
    requires
        !state.contains(goal),
        goal == p_and(l, r),
    ensures
        try_conj(lim, state, goal, l, r, budget, left, ctx).0 matches Verdict::Found(steps)
            ==> proves(state, goal, budget, steps),
    decreases budget, 1int, budget - left, 0int, 0int,
{
    if left < budget {
        law_search_proves(lim, state, l, left, ctx);
        let r1 = search(lim, state, l, left, ctx);
        match r1.0 {
            Verdict::Exceeded => {},
            Verdict::Nothing => {
                lemma_conj_proves(lim, state, goal, l, r, budget, left + 1, r1.1);
            },
            Verdict::Found(ls) => {
                if ls.len() >= budget {
                    lemma_conj_proves(lim, state, goal, l, r, budget, left + 1, r1.1);
                } else {
                    let after = grown(state, ls);
                    let rest = (budget - 1 - ls.len()) as nat;
                    law_search_proves(lim, after, r, rest, r1.1);
                    let r2 = search(lim, after, r, rest, r1.1);
                    match r2.0 {
                        Verdict::Exceeded => {},
                        Verdict::Nothing => {
                            lemma_conj_proves(lim, state, goal, l, r, budget, left + 1, r2.1);
                        },
                        Verdict::Found(rs) => {
                            lemma_joined_proves(state, l, r, ls, rs, goal, budget);
                        },
                    }
                }
            },
        }
    }
}

/// Proofs of both sides of a conjunction, the second going on from the first.
proof fn lemma_joined_proves(
    state: Seq<Prop>,
    l: Prop,
    r: Prop,
    ls: Seq<Line>,
    rs: Seq<Line>,
    goal: Prop,
    budget: nat,
)
    requires
        !state.contains(goal),
        goal == p_and(l, r),
        ls.len() < budget,
        proves(state, l, budget, ls),
        proves(grown(state, ls), r, (budget - 1 - ls.len()) as nat, rs),
    ensures
        ({
            let ra = moved_to(
                state.len() as int,
                open_positions(state, ls),
                ls.len() as int,
                established(grown(state, ls), rs, r),
            );
            let la = established(state, ls, l);
            let last = Line { formula: goal, rule: "Conj"@, cited: seq![la, ra] };
            proves(state, goal, budget, spliced(state, ls, rs).push(last))
        }),
{
    let after = grown(state, ls);
    let front = spliced(state, ls, rs);
    let la = established(state, ls, l);
    let ra = established(after, rs, r);
    let ra1 = moved_to(state.len() as int, open_positions(state, ls), ls.len() as int, ra);
    let last = Line { formula: goal, rule: "Conj"@, cited: seq![la, ra1] };
    lemma_valid_spliced(state, ls, rs);
    lemma_fit_spliced(state, ls, rs);
    lemma_established(state, ls, l);
    lemma_established(after, rs, r);
    lemma_spliced_kept(state, ls, rs, la);
    lemma_spliced_citable(state, ls, rs, ra);
    let fs = formulas_at(state, front, last.cited);
    assert(fs[0] == l);
    assert(fs[1] == r);
    assert(built(last, fs));
    lemma_push_proves(state, front, last, goal, budget);
}

/// After a subproof only the line that closes it may be cited.
pub proof fn lemma_subproof_grown(
    state: Seq<Prop>,
    t: ProofTechnique,
    assumption: Prop,
    inside: Seq<Line>,
    target: Prop,
    y: Prop,
)
    requires
        all_justified(state, subproof(state, t, assumption, inside, target, y)),
    ensures
        grown(state, subproof(state, t, assumption, inside, target, y)) == state.push(y),
        open_positions(state, subproof(state, t, assumption, inside, target, y)) == seq![
            state.len() + inside.len() + 1int,
        ],
{
    let sub = subproof(state, t, assumption, inside, target, y);
    let b = state.len() as int;
    let last = sub.len() - 1;
    lemma_subproof_closed(state, t, assumption, inside, target, y, last as int);
    lemma_end_citable(state, sub, b + last);
    assert(open_positions(state, sub) =~= seq![b + last]);
    assert(sub[last as int].formula == y);
    assert(grown(state, sub) =~= state.push(y));
}

/// No line of a subproof but its last is open after it.
proof fn lemma_subproof_closed(
    state: Seq<Prop>,
    t: ProofTechnique,
    assumption: Prop,
    inside: Seq<Line>,
    target: Prop,
    y: Prop,
    n: int,
)
    requires
        0 <= n < subproof(state, t, assumption, inside, target, y).len(),
    ensures
        open_upto(state, subproof(state, t, assumption, inside, target, y), n).len() == 0,
    decreases n,
{
    let sub = subproof(state, t, assumption, inside, target, y);
    if n > 0 {
        lemma_subproof_closed(state, t, assumption, inside, target, y, n - 1);
        let b = state.len() as int;
        let last = b + sub.len() - 1;
        lemma_labels(MoveRule::Simp);
        assert(sub[last - b].cited[0] == b);
        assert(closes(state, sub, last, b + n - 1));
    }
}

/// A subproof of a subgoal, and a proof that goes on from it.
proof fn lemma_shared_proves(
    state: Seq<Prop>,
    t: ProofTechnique,
    assumption: Prop,
    target: Prop,
    inside: Seq<Line>,
    y: Prop,
    steps: Seq<Line>,
    goal: Prop,
    budget: nat,
)
    requires
        !state.contains(goal),
        !state.contains(y),
        discharge(t, assumption, target) == Some(y),
        proves(state.push(assumption), target, inside.len(), inside),
        inside.len() + 2 <= budget,
        proves(state.push(y), goal, (budget - 2 - inside.len()) as nat, steps),
    ensures
        proves(
            state,
            goal,
            budget,
            spliced(state, subproof(state, t, assumption, inside, target, y), steps),
        ),
{
    let sub = subproof(state, t, assumption, inside, target, y);
    lemma_closed_proves(state, t, assumption, target, inside, y, inside.len() + 2);
    lemma_subproof_grown(state, t, assumption, inside, target, y);
    lemma_valid_spliced(state, sub, steps);
    lemma_fit_spliced(state, sub, steps);
    let all = spliced(state, sub, steps);
    if steps.len() > 0 {
        assert(all.last().formula == steps.last().formula);
    } else {
        assert(all =~= sub);
        lemma_in_pushed(state, y, goal);
    }
}

/// A line that states a formula whose parts are known follows directly.
proof fn lemma_closing_direct(state: Seq<Prop>, y: Prop)
    ensures
        closing_line(state, y) matches Some(line) ==> is_direct(state, line) && line.formula == y,
{
    match closing_line(state, y) {
        Some(line) => {
            let fs = formulas_at(state, seq![line], line.cited);
            match y {
                Prop::Or(a, b) => {
                    lemma_first_index(state, *a);
                    lemma_first_index(state, *b);
                    assert(fs[0] == state[line.cited[0]]);
                },
                Prop::And(a, b) => {
                    lemma_first_index(state, *a);
                    lemma_first_index(state, *b);
                    assert(fs[0] == state[line.cited[0]]);
                    assert(fs[1] == state[line.cited[1]]);
                },
                _ => {},
            }
            assert(built(line, fs));
        },
        None => {},
    }
}

/// [`law_search_proves`] for the subgoals below one.
proof fn lemma_below_proves(
    lim: Limits,
    state: Seq<Prop>,
    goal: Prop,
    y: Prop,
    d: nat,
    budget: nat,
    ctx: Ctx,
)
    requires
        !state.contains(goal),
    ensures
        share_below(lim, state, goal, y, d, budget, ctx).0 matches Verdict::Found(steps) ==> proves(
            state,
            goal,
            budget,
            steps,
        ),
    decreases budget, 1int, budget - d, 2int, 0int,
{
    if !ctx.truncated && d + 3 <= budget {
        match halves(y) {
            Some((a, b)) => {
                lemma_share_proves(lim, state, goal, a, d + 1, budget, ctx);
                let first = share(lim, state, goal, a, d + 1, budget, ctx);
                lemma_share_proves(lim, state, goal, b, d + 1, budget, first.1);
            },
            None => {},
        }
        let parts = share_parts(lim, state, goal, y, d, budget, ctx);
        let cands = goal_rewrites(y);
        lemma_list_proves(
            lim,
            state,
            goal,
            selected(cands, lim.cap),
            d,
            budget,
            noted(parts.1, cands, lim.cap),
        );
    }
}

/// [`law_search_proves`] for subgoals tried in turn.
proof fn lemma_list_proves(
    lim: Limits,
    state: Seq<Prop>,
    goal: Prop,
    cands: Seq<Line>,
    d: nat,
    budget: nat,
    ctx: Ctx,
)
    requires
        !state.contains(goal),
    ensures
        share_list(lim, state, goal, cands, d, budget, ctx).0 matches Verdict::Found(steps)
            ==> proves(state, goal, budget, steps),
    decreases budget, 1int, budget - d, 1int, cands.len(),
{
    if cands.len() > 0 && d + 3 <= budget {
        lemma_share_proves(lim, state, goal, cands[0].formula, d + 1, budget, ctx);
        let first = share(lim, state, goal, cands[0].formula, d + 1, budget, ctx);
        lemma_list_proves(lim, state, goal, cands.drop_first(), d, budget, first.1);
    }
}

/// [`law_search_proves`] for a subgoal that is established first.
proof fn lemma_share_proves(
    lim: Limits,
    state: Seq<Prop>,
    goal: Prop,
    y: Prop,
    d: nat,
    budget: nat,
    ctx: Ctx,
)
    requires
        !state.contains(goal),
    ensures
        share(lim, state, goal, y, d, budget, ctx).0 matches Verdict::Found(steps) ==> proves(
            state,
            goal,
            budget,
            steps,
        ),
    decreases budget, 1int, budget - d, 4int, 0int,
{
    if !ctx.truncated && d + 2 <= budget {
        let closed = share_closing(lim, state, goal, y, d, budget, ctx);
        if !state.contains(y) {
            lemma_closing_direct(state, y);
            match closing_line(state, y) {
                Some(line) => {
                    law_search_proves(lim, state.push(y), goal, (budget - 1) as nat, ctx);
                    match search(lim, state.push(y), goal, (budget - 1) as nat, ctx).0 {
                        Verdict::Found(steps) => {
                            lemma_first_proves(state, line, steps, goal, (budget - 1) as nat);
                        },
                        _ => {},
                    }
                },
                None => {
                    let first = share_conditional(lim, state, goal, y, d, budget, ctx);
                    match y {
                        Prop::Implies(a, c) => {
                            lemma_sweep_proves(
                                lim,
                                state,
                                goal,
                                ProofTechnique::ConditionalProof,
                                *a,
                                *c,
                                y,
                                d,
                                0,
                                budget,
                                ctx,
                            );
                        },
                        _ => {},
                    }
                    lemma_sweep_proves(
                        lim,
                        state,
                        goal,
                        ProofTechnique::IndirectProof,
                        p_not(y),
                        Prop::Contradiction,
                        y,
                        d,
                        0,
                        budget,
                        first.1,
                    );
                },
            }
        }
        lemma_below_proves(lim, state, goal, y, d, budget, closed.1);
    }
}

/// [`law_search_proves`] for subproofs of growing length.
proof fn lemma_sweep_proves(
    lim: Limits,
    state: Seq<Prop>,
    goal: Prop,
    t: ProofTechnique,
    assumption: Prop,
    target: Prop,
    y: Prop,
    d: nat,
    k: nat,
    budget: nat,
    ctx: Ctx,
)
    requires
        !state.contains(goal),
        !state.contains(y),
        discharge(t, assumption, target) == Some(y),
    ensures
        share_subproof(
            lim,
            state,
            goal,
            t,
            assumption,
            target,
            y,
            d,
            k,
            budget,
            ctx,
        ).0 matches Verdict::Found(steps) ==> proves(state, goal, budget, steps),
    decreases budget, 1int, budget - d, 1int, budget - k,
{
    if k + d + 3 <= budget {
        let inner = state.push(assumption);
        law_search_proves(lim, inner, target, k, ctx);
        let r = search(lim, inner, target, k, ctx);
        match r.0 {
            Verdict::Exceeded => {},
            Verdict::Nothing => {
                lemma_sweep_proves(
                    lim,
                    state,
                    goal,
                    t,
                    assumption,
                    target,
                    y,
                    d,
                    k + 1,
                    budget,
                    r.1,
                );
            },
            Verdict::Found(inside) => {
                let rest = (budget - 2 - inside.len()) as nat;
                law_search_proves(lim, state.push(y), goal, rest, r.1);
                match search(lim, state.push(y), goal, rest, r.1).0 {
                    Verdict::Found(steps) => {
                        lemma_shared_proves(
                            state,
                            t,
                            assumption,
                            target,
                            inside,
                            y,
                            steps,
                            goal,
                            budget,
                        );
                    },
                    _ => {},
                }
            },
        }
    }
}

/// What iterative deepening finds proves its goal, in no more lines than the depth that it
/// was found at.
pub proof fn law_optimal_proves(
    lim: Limits,
    premises: Seq<Prop>,
    goal: Prop,
    depth: nat,
    max: nat,
    ctx: Ctx,
)
    ensures
        ({
            let (v, _, d) = deepen(lim, premises, goal, depth, max, ctx);
            v matches Verdict::Found(steps) ==> depth <= d <= max && proves(
                premises,
                goal,
                d,
                steps,
            )
        }),
    decreases max + 1 - depth,
{
    if depth <= max {
        law_search_proves(lim, premises, goal, depth, ctx);
        let r = search(lim, premises, goal, depth, ctx);
        if r.0 is Nothing {
            law_optimal_proves(lim, premises, goal, depth + 1, max, r.1);
        }
    }
}

/// What iterative deepening finds is a valid proof, and its goal follows from the
/// premises.
pub proof fn law_optimal_sound(
    lim: Limits,
    premises: Seq<Prop>,
    goal: Prop,
    depth: nat,
    max: nat,
    ctx: Ctx,
)
    ensures
        deepen(lim, premises, goal, depth, max, ctx).0 matches Verdict::Found(steps) ==> valid(
            premises,
            steps,
        ) && entails(premises, goal),
{
    law_optimal_proves(lim, premises, goal, depth, max, ctx);
    match deepen(lim, premises, goal, depth, max, ctx).0 {
        Verdict::Found(steps) => {
            if steps.len() > 0 {
                law_valid_sound(premises, steps);
            } else {
                let i = choose|i: int| 0 <= i < premises.len() && premises[i] == goal;
                assert forall|v: Valuation| #[trigger] all_true(premises, v) implies eval(
                    goal,
                    v,
                ) by {
                    assert(eval(premises[i], v));
                }
            }
        },
        _ => {},
    }
}

/// A goal that does not follow from the premises is never reached.
pub proof fn law_optimal_refuses(
    lim: Limits,
    premises: Seq<Prop>,
    goal: Prop,
    depth: nat,
    max: nat,
    ctx: Ctx,
)
    requires
        !entails(premises, goal),
    ensures
        !(deepen(lim, premises, goal, depth, max, ctx).0 is Found),
{
    if deepen(lim, premises, goal, depth, max, ctx).0 is Found {
        law_optimal_sound(lim, premises, goal, depth, max, ctx);
    }
}

} // verus!
