//! A search comes to an end: with enough nodes it never gives up, and with a great enough
//! cap no list is ever cut short.

use vstd::prelude::*;

use super::bank::plausible;
use super::derivation::{derivable, law_derivable_monotone};
use super::found::law_search_proves;
use super::minimal::law_certified_minimal;
use super::counting::law_deepen_counts;
use super::moves::{moves, Line};
use super::search::{
    closing_line, deduped, deepen, expand, expand_goal, expand_goal_rewrites, expand_indirect,
    expand_rewrites, fresh_ctx, goal_rewrites, halves, key, lemma_deduped_from, noted, remembered,
    search, selected, share, share_below, share_closing, share_conditional, share_list,
    share_parts, share_subproof, state_rewrites, subproof, try_conj, try_goals, try_moves,
    try_shape, try_side, try_subproof, Ctx, Limits, Verdict,
};
use super::sizes::{
    grown_weight, lemma_deduped_len, lemma_goal_rewrite_count, lemma_grown_weight,
    lemma_move_count, lemma_moves_weight, lemma_selected_size, lemma_state_rewrite_count,
    lines_within, move_bound, once_grown, rewrite_bound, weight, weights_within,
};
use super::splice::{grown, lemma_open_upto, open_positions, spliced};
use super::transcript::formulas_at;
use crate::models::formula::{first_index, p_not, Prop};
use crate::models::rules::technique::ProofTechnique;

verus! {

/// What a search keeps to: how many nodes it adds, from which cap on it cuts no list short,
/// and how much the formulas of what it finds weigh.
pub struct Margin {
    pub nodes: nat,
    pub cut: nat,
    pub out: nat,
}

/// Whether a stage of a search keeps to a margin.
pub open spec fn mild(cap: nat, q: Margin, before: Ctx, r: (Verdict, Ctx)) -> bool {
    &&& r.1.nodes <= before.nodes + q.nodes
    &&& r.0 matches Verdict::Found(steps) ==> lines_within(steps, q.out)
    &&& cap >= q.cut && !before.truncated ==> !r.1.truncated
}

/// Whether every search from at most `len` formulas of weight `w`, in at most `b` lines,
/// keeps to a margin.
pub open spec fn tame(cap: nat, len: nat, w: nat, b: nat, q: Margin) -> bool {
    forall|lim: Limits, state: Seq<Prop>, goal: Prop, budget: nat, ctx: Ctx|
        lim.cap == cap && state.len() <= len && weights_within(state, w) && weight(goal) <= w
            && budget <= b ==> mild(cap, q, ctx, #[trigger] search(lim, state, goal, budget, ctx))
}

/// What a search of so many lines rests on: what is known of searches of one line less.
pub struct Frame {
    pub cap: nat,
    pub len: nat,
    pub weight: nat,
    pub budget: nat,
    pub out1: nat,
    pub nodes: nat,
    pub cut: nat,
    pub out: nat,
}

impl Frame {
    /// How many formulas there can be.
    pub open spec fn long(self) -> nat {
        self.len + self.budget + 2
    }

    /// How much formulas can weigh before anything is found.
    pub open spec fn wide(self) -> nat {
        grown_weight(self.weight, self.budget + 2)
    }

    /// How much formulas can weigh after something is found.
    pub open spec fn wider(self) -> nat {
        self.wide() + self.out1
    }

    /// What is known of searches of one line less.
    pub open spec fn ready(self) -> bool {
        &&& self.budget >= 1
        &&& tame(
            self.cap,
            self.long(),
            self.wide(),
            (self.budget - 1) as nat,
            Margin { nodes: self.nodes, cut: self.cut, out: self.out1 },
        )
        &&& tame(
            self.cap,
            self.long(),
            self.wider(),
            (self.budget - 1) as nat,
            Margin { nodes: self.nodes, cut: self.cut, out: self.out },
        )
        &&& self.cut >= rewrite_bound(self.len, self.wider())
        &&& self.out >= self.wider()
    }

    /// Whether a stage keeps to the margin with so many nodes.
    pub open spec fn keeps(self, nodes: nat, before: Ctx, r: (Verdict, Ctx)) -> bool {
        mild(self.cap, Margin { nodes, cut: self.cut, out: self.out }, before, r)
    }

    /// How many nodes establishing a subgoal takes at most.
    pub open spec fn closing(self) -> nat {
        2 * ((self.budget + 1) * self.nodes)
    }

    /// How many nodes the step that the shape of a goal calls for takes at most.
    pub open spec fn shape(self) -> nat {
        2 * self.nodes + self.budget * (2 * self.nodes) + (2 + self.cap) * shared_nodes(
            self.closing(),
            self.cap,
            self.budget,
        )
    }

    /// How many nodes a search takes at most.
    pub open spec fn total(self) -> nat {
        1 + move_bound(self.len) * self.nodes + self.shape() + self.nodes + self.cap * self.nodes
            + self.cap * self.nodes
    }
}

/// How many nodes a subgoal and the subgoals up to `k` steps below it take at most, where
/// each takes `each`.
pub open spec fn shared_nodes(each: nat, cap: nat, k: nat) -> nat
    decreases k,
{
    if k == 0 {
        0
    } else {
        each + (2 + cap) * shared_nodes(each, cap, (k - 1) as nat)
    }
}

/// More steps below take more nodes.
proof fn lemma_shared_nodes(each: nat, cap: nat, j: nat, k: nat)
    requires
        j <= k,
    ensures
        shared_nodes(each, cap, j) <= shared_nodes(each, cap, k),
        (2 + cap) * shared_nodes(each, cap, j) <= (2 + cap) * shared_nodes(each, cap, k),
    decreases j, k,
{
    if j > 0 {
        lemma_shared_nodes(each, cap, (j - 1) as nat, (k - 1) as nat);
    }
    let x = shared_nodes(each, cap, j);
    let y = shared_nodes(each, cap, k);
    assert((2 + cap) * x <= (2 + cap) * y) by (nonlinear_arith)
        requires
            x <= y,
            0 <= cap,
    ;
}

/// A greater margin is kept as well.
proof fn lemma_tame_wider(cap: nat, len: nat, w: nat, b: nat, q: Margin, m: Margin)
    requires
        tame(cap, len, w, b, q),
        q.nodes <= m.nodes,
        q.cut <= m.cut,
        q.out <= m.out,
    ensures
        tame(cap, len, w, b, m),
{
    assert forall|lim: Limits, state: Seq<Prop>, goal: Prop, budget: nat, ctx: Ctx|
        lim.cap == cap && state.len() <= len && weights_within(state, w) && weight(goal) <= w
            && budget <= b implies mild(
        cap,
        m,
        ctx,
        #[trigger] search(lim, state, goal, budget, ctx),
    ) by {
        assert(mild(cap, q, ctx, search(lim, state, goal, budget, ctx)));
    }
}

/// A search of one line less keeps to the margin.
proof fn lemma_call(f: Frame, lim: Limits, state: Seq<Prop>, goal: Prop, budget: nat, ctx: Ctx)
    requires
        f.ready(),
        lim.cap == f.cap,
        state.len() <= f.long(),
        weights_within(state, f.wider()),
        weight(goal) <= f.wider(),
        budget < f.budget,
    ensures
        f.keeps(f.nodes, ctx, search(lim, state, goal, budget, ctx)),
        search(lim, state, goal, budget, ctx).0 matches Verdict::Found(steps) ==> steps.len()
            <= budget,
{
    law_search_proves(lim, state, goal, budget, ctx);
}

/// One formula more.
proof fn lemma_pushed(state: Seq<Prop>, x: Prop, w: nat)
    requires
        weights_within(state, w),
        weight(x) <= w,
    ensures
        weights_within(state.push(x), w),
{
}

/// Steps tried in turn keep to the margin.
proof fn lemma_moves_tame(
    f: Frame,
    lim: Limits,
    state: Seq<Prop>,
    goal: Prop,
    budget: nat,
    ms: Seq<Line>,
    ctx: Ctx,
)
    requires
        f.ready(),
        lim.cap == f.cap,
        state.len() < f.long(),
        weights_within(state, f.wider()),
        weight(goal) <= f.wider(),
        lines_within(ms, f.wider()),
        0 < budget <= f.budget,
    ensures
        f.keeps(ms.len() * f.nodes, ctx, try_moves(lim, state, goal, budget, ms, ctx)),
    decreases ms.len(),
{
    if ms.len() > 0 {
        let m = ms[0];
        let rest = ms.drop_first();
        lemma_pushed(state, m.formula, f.wider());
        lemma_call(f, lim, state.push(m.formula), goal, (budget - 1) as nat, ctx);
        let r = search(lim, state.push(m.formula), goal, (budget - 1) as nat, ctx);
        assert(lines_within(rest, f.wider())) by {
            assert forall|i: int| 0 <= i < rest.len() implies weight((#[trigger] rest[i]).formula)
                <= f.wider() by {
                assert(rest[i] == ms[i + 1]);
            }
        }
        lemma_moves_tame(f, lim, state, goal, budget, rest, r.1);
        let a = ms.len() as int;
        let n = f.nodes as int;
        assert(n + (a - 1) * n == a * n) by (nonlinear_arith);
        assert(n <= a * n) by (nonlinear_arith)
            requires
                a >= 1,
                n >= 0,
        ;
        match r.0 {
            Verdict::Found(steps) => {
                lemma_led(m, steps, f.out);
            },
            _ => {},
        }
    } else {
        assert(ms.len() * f.nodes == 0) by (nonlinear_arith)
            requires
                ms.len() == 0,
        ;
    }
}

/// Lines after another one.
proof fn lemma_led(m: Line, steps: Seq<Line>, w: nat)
    requires
        weight(m.formula) <= w,
        lines_within(steps, w),
    ensures
        lines_within(seq![m] + steps, w),
{
    let all = seq![m] + steps;
    assert forall|i: int| 0 <= i < all.len() implies weight((#[trigger] all[i]).formula) <= w by {
        if i > 0 {
            assert(all[i] == steps[i - 1]);
        }
    }
}

/// Other goals tried in turn keep to the margin.
proof fn lemma_goals_tame(
    f: Frame,
    lim: Limits,
    state: Seq<Prop>,
    goal: Prop,
    budget: nat,
    cands: Seq<Line>,
    ctx: Ctx,
)
    requires
        f.ready(),
        lim.cap == f.cap,
        state.len() <= f.long(),
        weights_within(state, f.wider()),
        weight(goal) <= f.wider(),
        lines_within(cands, f.wider()),
        0 < budget <= f.budget,
    ensures
        f.keeps(cands.len() * f.nodes, ctx, try_goals(lim, state, goal, budget, cands, ctx)),
    decreases cands.len(),
{
    if cands.len() > 0 {
        let m = cands[0];
        let rest = cands.drop_first();
        lemma_call(f, lim, state, m.formula, (budget - 1) as nat, ctx);
        let r = search(lim, state, m.formula, (budget - 1) as nat, ctx);
        assert(lines_within(rest, f.wider())) by {
            assert forall|i: int| 0 <= i < rest.len() implies weight((#[trigger] rest[i]).formula)
                <= f.wider() by {
                assert(rest[i] == cands[i + 1]);
            }
        }
        lemma_goals_tame(f, lim, state, goal, budget, rest, r.1);
        let a = cands.len() as int;
        let n = f.nodes as int;
        assert(n + (a - 1) * n == a * n) by (nonlinear_arith);
        assert(n <= a * n) by (nonlinear_arith)
            requires
                a >= 1,
                n >= 0,
        ;
    } else {
        assert(cands.len() * f.nodes == 0) by (nonlinear_arith)
            requires
                cands.len() == 0,
        ;
    }
}

/// A subproof keeps to the margin.
proof fn lemma_subproof_tame(
    f: Frame,
    lim: Limits,
    state: Seq<Prop>,
    goal: Prop,
    t: ProofTechnique,
    assumption: Prop,
    target: Prop,
    budget: nat,
    ctx: Ctx,
)
    requires
        f.ready(),
        lim.cap == f.cap,
        state.len() < f.long(),
        weights_within(state, f.wider()),
        weight(goal) <= f.wider(),
        weight(assumption) <= f.wider(),
        weight(target) <= f.wider(),
        budget <= f.budget,
    ensures
        f.keeps(
            f.nodes,
            ctx,
            try_subproof(lim, state, goal, t, assumption, target, budget, ctx),
        ),
{
    if budget >= 2 {
        lemma_pushed(state, assumption, f.wider());
        lemma_call(f, lim, state.push(assumption), target, (budget - 2) as nat, ctx);
        let r = search(lim, state.push(assumption), target, (budget - 2) as nat, ctx);
        match r.0 {
            Verdict::Found(inside) => {
                lemma_enclosed(state, t, assumption, inside, target, goal, f.out);
            },
            _ => {},
        }
    }
}

/// The lines of a subproof.
proof fn lemma_enclosed(
    state: Seq<Prop>,
    t: ProofTechnique,
    assumption: Prop,
    inside: Seq<Line>,
    target: Prop,
    conclusion: Prop,
    w: nat,
)
    requires
        weight(assumption) <= w,
        weight(conclusion) <= w,
        lines_within(inside, w),
    ensures
        lines_within(subproof(state, t, assumption, inside, target, conclusion), w),
{
    let all = subproof(state, t, assumption, inside, target, conclusion);
    assert forall|i: int| 0 <= i < all.len() implies weight((#[trigger] all[i]).formula) <= w by {
        if 0 < i < all.len() - 1 {
            assert(all[i] == inside[i - 1]);
        }
    }
}

/// What is known after a proof.
proof fn lemma_after(state: Seq<Prop>, ls: Seq<Line>, w: nat)
    requires
        weights_within(state, w),
        lines_within(ls, w),
    ensures
        weights_within(grown(state, ls), w),
        grown(state, ls).len() <= state.len() + ls.len(),
{
    let at = open_positions(state, ls);
    lemma_open_upto(state, ls, ls.len() as int);
    let fs = formulas_at(state, ls, at);
    let all = grown(state, ls);
    assert forall|i: int| 0 <= i < all.len() implies weight(#[trigger] all[i]) <= w by {
        if i < state.len() {
            assert(all[i] == state[i]);
        } else {
            let c = at[i - state.len()];
            assert(all[i] == ls[c - state.len()].formula);
        }
    }
}

/// The lines of two proofs, one after the other.
proof fn lemma_spliced_weight(state: Seq<Prop>, ls: Seq<Line>, rs: Seq<Line>, w: nat)
    requires
        lines_within(ls, w),
        lines_within(rs, w),
    ensures
        lines_within(spliced(state, ls, rs), w),
{
    let all = spliced(state, ls, rs);
    assert forall|i: int| 0 <= i < all.len() implies weight((#[trigger] all[i]).formula) <= w by {
        if i < ls.len() {
            assert(all[i] == ls[i]);
        } else {
            assert(all[i].formula == rs[i - ls.len()].formula);
        }
    }
}

/// A conjunction keeps to the margin.
proof fn lemma_conj_tame(
    f: Frame,
    lim: Limits,
    state: Seq<Prop>,
    goal: Prop,
    l: Prop,
    r: Prop,
    budget: nat,
    left: nat,
    ctx: Ctx,
)
    requires
        f.ready(),
        lim.cap == f.cap,
        state.len() <= f.len,
        weights_within(state, f.wide()),
        weight(goal) <= f.wide(),
        weight(l) <= f.wide(),
        weight(r) <= f.wide(),
        budget <= f.budget,
        left <= budget,
    ensures
        f.keeps(
            ((budget - left) * (2 * f.nodes)) as nat,
            ctx,
            try_conj(lim, state, goal, l, r, budget, left, ctx),
        ),
    decreases budget - left,
{
    let n = 2 * f.nodes;
    let k = budget - left;
    assert(0 <= k * n) by (nonlinear_arith)
        requires
            0 <= k,
            0 <= n,
    ;
    if left < budget {
        assert(k * n == n + (k - 1) * n) by (nonlinear_arith);
        assert(0 <= (k - 1) * n) by (nonlinear_arith)
            requires
                1 <= k,
                0 <= n,
        ;
        assert(weights_within(state, f.wider()));
        lemma_call(f, lim, state, l, left, ctx);
        let r1 = search(lim, state, l, left, ctx);
        assert(mild(
            f.cap,
            Margin { nodes: f.nodes, cut: f.cut, out: f.out1 },
            ctx,
            r1,
        ));
        match r1.0 {
            Verdict::Exceeded => {},
            Verdict::Nothing => {
                lemma_conj_tame(f, lim, state, goal, l, r, budget, left + 1, r1.1);
            },
            Verdict::Found(ls) => {
                let after = grown(state, ls);
                lemma_after(state, ls, f.wider());
                let rest = (budget - 1 - ls.len()) as nat;
                lemma_call(f, lim, after, r, rest, r1.1);
                let r2 = search(lim, after, r, rest, r1.1);
                match r2.0 {
                    Verdict::Exceeded => {},
                    Verdict::Nothing => {
                        lemma_conj_tame(f, lim, state, goal, l, r, budget, left + 1, r2.1);
                    },
                    Verdict::Found(rs) => {
                        lemma_spliced_weight(state, ls, rs, f.out);
                    },
                }
            },
        }
    }
}

/// Where a subgoal stands: it is `d` steps below the left half of a conjunction, and has
/// grown no more than in so many steps.
spec fn lies(f: Frame, lim: Limits, state: Seq<Prop>, goal: Prop, y: Prop, d: nat, budget: nat) -> bool {
    &&& f.ready()
    &&& lim.cap == f.cap
    &&& state.len() <= f.len
    &&& weights_within(state, f.weight)
    &&& weight(goal) <= f.weight
    &&& weight(y) <= grown_weight(f.weight, d)
    &&& d <= budget <= f.budget
}

/// What holds of a subgoal.
proof fn lemma_lies(
    f: Frame,
    lim: Limits,
    state: Seq<Prop>,
    goal: Prop,
    y: Prop,
    d: nat,
    budget: nat,
)
    requires
        lies(f, lim, state, goal, y, d, budget),
    ensures
        weight(y) + 1 <= f.wide(),
        f.weight <= f.wide(),
        once_grown(weight(y)) <= grown_weight(f.weight, d + 1) <= f.wide(),
        weights_within(state, f.wide()),
        weights_within(state, f.wider()),
{
    lemma_grown_weight(f.weight, d, f.budget + 2);
    lemma_grown_weight(f.weight, d, d + 1);
    lemma_grown_weight(f.weight, d + 1, f.budget + 2);
}

/// The subgoals below one keep to the margin.
proof fn lemma_below_tame(
    f: Frame,
    lim: Limits,
    state: Seq<Prop>,
    goal: Prop,
    y: Prop,
    d: nat,
    budget: nat,
    ctx: Ctx,
)
    requires
        lies(f, lim, state, goal, y, d, budget),
        d < budget,
    ensures
        f.keeps(
            (2 + f.cap) * shared_nodes(f.closing(), f.cap, (budget - d - 1) as nat),
            ctx,
            share_below(lim, state, goal, y, d, budget, ctx),
        ),
    decreases budget - d, 2int, 0int,
{
    let each = shared_nodes(f.closing(), f.cap, (budget - d - 1) as nat);
    let c = f.cap;
    assert((2 + c) * each == 2 * each + c * each) by (nonlinear_arith);
    assert(0 <= c * each) by (nonlinear_arith);
    if !ctx.truncated && d + 3 <= budget {
        lemma_lies(f, lim, state, goal, y, d, budget);
        match halves(y) {
            Some((a, b)) => {
                assert(weight(a) <= weight(y) && weight(b) <= weight(y));
                lemma_share_tame(f, lim, state, goal, a, d + 1, budget, ctx);
                let first = share(lim, state, goal, a, d + 1, budget, ctx);
                lemma_share_tame(f, lim, state, goal, b, d + 1, budget, first.1);
            },
            None => {},
        }
        let parts = share_parts(lim, state, goal, y, d, budget, ctx);
        assert(f.keeps(2 * each, ctx, parts));
        let cands = goal_rewrites(y);
        lemma_goal_rewrite_count(y, f.len, weight(y));
        lemma_selected_size(cands, lim.cap, once_grown(weight(y)));
        let w = weight(y);
        assert(rewrite_bound(f.len, w) <= rewrite_bound(f.len, f.wider())) by (nonlinear_arith)
            requires
                w <= f.wider(),
                rewrite_bound(f.len, w) == (f.len + 1) * (30 * w),
                rewrite_bound(f.len, f.wider()) == (f.len + 1) * (30 * f.wider()),
        ;
        let n = noted(parts.1, cands, lim.cap);
        let list = selected(cands, lim.cap);
        lemma_list_tame(f, lim, state, goal, y, list, d, budget, n);
        let m = list.len() as int;
        assert(m * each <= c * each) by (nonlinear_arith)
            requires
                m <= c,
                0 <= each,
        ;
    }
}

/// Subgoals tried in turn keep to the margin.
proof fn lemma_list_tame(
    f: Frame,
    lim: Limits,
    state: Seq<Prop>,
    goal: Prop,
    y: Prop,
    cands: Seq<Line>,
    d: nat,
    budget: nat,
    ctx: Ctx,
)
    requires
        lies(f, lim, state, goal, y, d, budget),
        d < budget,
        lines_within(cands, grown_weight(f.weight, d + 1)),
    ensures
        f.keeps(
            cands.len() * shared_nodes(f.closing(), f.cap, (budget - d - 1) as nat),
            ctx,
            share_list(lim, state, goal, cands, d, budget, ctx),
        ),
    decreases budget - d, 1int, cands.len(),
{
    let each = shared_nodes(f.closing(), f.cap, (budget - d - 1) as nat) as int;
    let a = cands.len() as int;
    assert(0 <= a * each) by (nonlinear_arith)
        requires
            0 <= a,
            0 <= each,
    ;
    if cands.len() > 0 && d + 3 <= budget {
        let rest = cands.drop_first();
        lemma_share_tame(f, lim, state, goal, cands[0].formula, d + 1, budget, ctx);
        let r = share(lim, state, goal, cands[0].formula, d + 1, budget, ctx);
        assert(lines_within(rest, grown_weight(f.weight, d + 1))) by {
            assert forall|i: int| 0 <= i < rest.len() implies weight((#[trigger] rest[i]).formula)
                <= grown_weight(f.weight, d + 1) by {
                assert(rest[i] == cands[i + 1]);
            }
        }
        lemma_list_tame(f, lim, state, goal, y, rest, d, budget, r.1);
        assert(each + (a - 1) * each == a * each) by (nonlinear_arith);
        assert(0 <= (a - 1) * each) by (nonlinear_arith)
            requires
                1 <= a,
                0 <= each,
        ;
    }
}

/// A subgoal and those below it keep to the margin.
proof fn lemma_share_tame(
    f: Frame,
    lim: Limits,
    state: Seq<Prop>,
    goal: Prop,
    y: Prop,
    d: nat,
    budget: nat,
    ctx: Ctx,
)
    requires
        lies(f, lim, state, goal, y, d, budget),
    ensures
        f.keeps(
            shared_nodes(f.closing(), f.cap, (budget - d) as nat),
            ctx,
            share(lim, state, goal, y, d, budget, ctx),
        ),
    decreases budget - d, 4int, 0int,
{
    if !ctx.truncated && d + 2 <= budget {
        lemma_closing_tame(f, lim, state, goal, y, d, budget, ctx);
        let closed = share_closing(lim, state, goal, y, d, budget, ctx);
        lemma_below_tame(f, lim, state, goal, y, d, budget, closed.1);
        let c = f.cap;
        let each = shared_nodes(f.closing(), f.cap, (budget - d - 1) as nat);
        assert(0 <= (2 + c) * each) by (nonlinear_arith);
    }
}

/// Establishing a subgoal keeps to the margin.
proof fn lemma_closing_tame(
    f: Frame,
    lim: Limits,
    state: Seq<Prop>,
    goal: Prop,
    y: Prop,
    d: nat,
    budget: nat,
    ctx: Ctx,
)
    requires
        lies(f, lim, state, goal, y, d, budget),
        budget > 0,
    ensures
        f.keeps(f.closing(), ctx, share_closing(lim, state, goal, y, d, budget, ctx)),
    decreases budget - d, 3int, 0int,
{
    lemma_lies(f, lim, state, goal, y, d, budget);
    let n = f.nodes as int;
    let b = f.budget as int;
    let k = budget as int;
    assert(0 <= n <= (b + 1) * n) by (nonlinear_arith)
        requires
            0 <= b,
            0 <= n,
    ;
    assert(0 <= (k + 1) * n <= (b + 1) * n) by (nonlinear_arith)
        requires
            0 <= k <= b,
            0 <= n,
    ;
    if !state.contains(y) {
        if closing_line(state, y) is Some {
            lemma_pushed(state, y, f.wider());
            lemma_call(f, lim, state.push(y), goal, (budget - 1) as nat, ctx);
            let r = search(lim, state.push(y), goal, (budget - 1) as nat, ctx);
            match r.0 {
                Verdict::Found(steps) => {
                    lemma_led(closing_line(state, y)->0, steps, f.out);
                },
                _ => {},
            }
        } else {
            let first = share_conditional(lim, state, goal, y, d, budget, ctx);
            match y {
                Prop::Implies(a, c) => {
                    lemma_sweep_tame(
                        f,
                        lim,
                        state,
                        goal,
                        ProofTechnique::ConditionalProof,
                        *a,
                        *c,
                        y,
                        d,
                        0,
                        budget,
                        ctx,
                    );
                },
                _ => {},
            }
            lemma_sweep_tame(
                f,
                lim,
                state,
                goal,
                ProofTechnique::IndirectProof,
                p_not(y),
                Prop::Contradiction,
                y,
                d,
                0,
                budget,
                first.1,
            );
        }
    }
}

/// Subproofs of growing length keep to the margin.
proof fn lemma_sweep_tame(
    f: Frame,
    lim: Limits,
    state: Seq<Prop>,
    goal: Prop,
    t: ProofTechnique,
    assumption: Prop,
    target: Prop,
    y: Prop,
    d: nat,
    from: nat,
    budget: nat,
    ctx: Ctx,
)
    requires
        lies(f, lim, state, goal, y, d, budget),
        weight(assumption) <= f.wide(),
        weight(target) <= f.wide(),
        from <= budget + 1,
    ensures
        f.keeps(
            ((budget + 1 - from) * f.nodes) as nat,
            ctx,
            share_subproof(lim, state, goal, t, assumption, target, y, d, from, budget, ctx),
        ),
    decreases budget - d, 1int, budget + 1 - from,
{
    let n = f.nodes as int;
    let k = budget + 1 - from;
    assert(0 <= k * n) by (nonlinear_arith)
        requires
            0 <= k,
            0 <= n,
    ;
    if from + d + 3 <= budget {
        lemma_lies(f, lim, state, goal, y, d, budget);
        assert(n + (k - 1) * n == k * n) by (nonlinear_arith);
        assert(n <= (k - 1) * n) by (nonlinear_arith)
            requires
                k >= 2,
                0 <= n,
        ;
        let inner = state.push(assumption);
        lemma_pushed(state, assumption, f.wider());
        lemma_pushed(state, y, f.wider());
        lemma_call(f, lim, inner, target, from, ctx);
        let r = search(lim, inner, target, from, ctx);
        match r.0 {
            Verdict::Exceeded => {},
            Verdict::Nothing => {
                lemma_sweep_tame(
                    f,
                    lim,
                    state,
                    goal,
                    t,
                    assumption,
                    target,
                    y,
                    d,
                    from + 1,
                    budget,
                    r.1,
                );
            },
            Verdict::Found(inside) => {
                let sub = subproof(state, t, assumption, inside, target, y);
                let rest = (budget - 2 - inside.len()) as nat;
                lemma_call(f, lim, state.push(y), goal, rest, r.1);
                let r2 = search(lim, state.push(y), goal, rest, r.1);
                match r2.0 {
                    Verdict::Found(steps) => {
                        lemma_enclosed(state, t, assumption, inside, target, y, f.out);
                        lemma_spliced_weight(state, sub, steps, f.out);
                    },
                    _ => {},
                }
            },
        }
    }
}

/// The step that the shape of the goal calls for keeps to the margin.
proof fn lemma_shape_tame(
    f: Frame,
    lim: Limits,
    state: Seq<Prop>,
    goal: Prop,
    budget: nat,
    ctx: Ctx,
)
    requires
        f.ready(),
        lim.cap == f.cap,
        state.len() <= f.len,
        weights_within(state, f.weight),
        weight(goal) <= f.weight,
        0 < budget <= f.budget,
    ensures
        f.keeps(f.shape(), ctx, try_shape(lim, state, goal, budget, ctx)),
{
    lemma_grown_weight(f.weight, 0, f.budget + 2);
    assert(weights_within(state, f.wide()));
    assert(weights_within(state, f.wider()));
    let n = f.nodes as int;
    let b = f.budget as int;
    let k = budget as int;
    let c = f.cap as int;
    let s = shared_nodes(f.closing(), f.cap, f.budget) as int;
    assert(0 <= k * (2 * n) <= b * (2 * n)) by (nonlinear_arith)
        requires
            0 <= k <= b,
            0 <= n,
    ;
    assert(0 <= (2 + c) * s) by (nonlinear_arith)
        requires
            0 <= c,
            0 <= s,
    ;
    match goal {
        Prop::Implies(x, y) => {
            lemma_subproof_tame(
                f,
                lim,
                state,
                goal,
                ProofTechnique::ConditionalProof,
                *x,
                *y,
                budget,
                ctx,
            );
        },
        Prop::Or(l, r) => {
            if first_index(state, *l) is None && first_index(state, *r) is None {
                lemma_side_tame(f, lim, state, goal, *l, budget, ctx);
                let c1 = try_side(lim, state, goal, *l, budget, ctx).1;
                lemma_side_tame(f, lim, state, goal, *r, budget, c1);
            }
        },
        Prop::And(l, r) => {
            lemma_conj_tame(f, lim, state, goal, *l, *r, budget, 0, ctx);
            let res = try_conj(lim, state, goal, *l, *r, budget, 0, ctx);
            if res.0 is Nothing {
                lemma_below_tame(f, lim, state, goal, *l, 0, budget, res.1);
                lemma_shared_nodes(f.closing(), f.cap, (budget - 1) as nat, f.budget);
            }
        },
        _ => {},
    }
}

/// One side of a disjunction keeps to the margin.
proof fn lemma_side_tame(
    f: Frame,
    lim: Limits,
    state: Seq<Prop>,
    goal: Prop,
    side: Prop,
    budget: nat,
    ctx: Ctx,
)
    requires
        f.ready(),
        lim.cap == f.cap,
        state.len() <= f.long(),
        weights_within(state, f.wider()),
        weight(goal) <= f.wider(),
        weight(side) <= f.wider(),
        0 < budget <= f.budget,
    ensures
        f.keeps(f.nodes, ctx, try_side(lim, state, goal, side, budget, ctx)),
{
    lemma_call(f, lim, state, side, (budget - 1) as nat, ctx);
}

/// An expansion keeps to the margin.
#[verifier::rlimit(60)]
proof fn lemma_expand_tame(
    f: Frame,
    lim: Limits,
    state: Seq<Prop>,
    goal: Prop,
    budget: nat,
    ctx: Ctx,
)
    requires
        f.ready(),
        lim.cap == f.cap,
        state.len() <= f.len,
        weights_within(state, f.weight),
        weight(goal) <= f.weight,
        0 < budget <= f.budget,
    ensures
        f.keeps((f.total() - 1) as nat, ctx, expand(lim, state, goal, budget, ctx)),
{
    lemma_grown_weight(f.weight, 0, f.budget + 2);
    lemma_grown_weight(f.weight, 0, 1);
    lemma_grown_weight(f.weight, 1, f.budget + 2);
    assert(grown_weight(f.weight, 1) == once_grown(f.weight)) by {
        reveal_with_fuel(grown_weight, 2);
    }
    assert(weights_within(state, f.wider()));
    let n = f.nodes as int;
    let c = f.cap as int;
    let ms = deduped(moves(state));
    lemma_moves_weight(state, f.weight);
    lemma_move_count(state, f.len);
    lemma_deduped_len(moves(state));
    assert(lines_within(ms, f.wider())) by {
        assert forall|i: int| 0 <= i < ms.len() implies weight((#[trigger] ms[i]).formula)
            <= f.wider() by {
            assert(ms.contains(ms[i]));
            lemma_deduped_from(moves(state), ms[i]);
            let j = choose|j: int| 0 <= j < moves(state).len() && moves(state)[j] == ms[i];
            assert(weight(moves(state)[j].formula) <= once_grown(f.weight));
        }
    }
    lemma_moves_tame(f, lim, state, goal, budget, ms, ctx);
    let m = ms.len() as int;
    let mb = move_bound(f.len) as int;
    assert(m * n <= mb * n) by (nonlinear_arith)
        requires
            m <= mb,
            0 <= n,
    ;
    let r1 = try_moves(lim, state, goal, budget, ms, ctx);
    let c1 = r1.1;
    let e1 = expand_goal(lim, state, goal, budget, c1);
    lemma_shape_tame(f, lim, state, goal, budget, c1);
    let r2 = try_shape(lim, state, goal, budget, c1);
    let c2 = r2.1;
    let e2 = expand_indirect(lim, state, goal, budget, c2);
    lemma_subproof_tame(
        f,
        lim,
        state,
        goal,
        ProofTechnique::IndirectProof,
        p_not(goal),
        Prop::Contradiction,
        budget,
        c2,
    );
    let r3 = try_subproof(
        lim,
        state,
        goal,
        ProofTechnique::IndirectProof,
        p_not(goal),
        Prop::Contradiction,
        budget,
        c2,
    );
    let c3 = if goal == Prop::Contradiction {
        c2
    } else {
        r3.1
    };
    let e3 = expand_rewrites(lim, state, goal, budget, c3);
    let cands = state_rewrites(state);
    lemma_state_rewrite_count(state, f.len, f.weight);
    lemma_selected_size(cands, lim.cap, once_grown(f.weight));
    lemma_goal_rewrite_count(goal, f.len, f.weight);
    lemma_selected_size(goal_rewrites(goal), lim.cap, once_grown(f.weight));
    assert(rewrite_bound(f.len, f.weight) <= rewrite_bound(f.len, f.wider())) by (nonlinear_arith)
        requires
            f.weight <= f.wider(),
            rewrite_bound(f.len, f.weight) == (f.len + 1) * (30 * f.weight),
            rewrite_bound(f.len, f.wider()) == (f.len + 1) * (30 * f.wider()),
    ;
    let fwd = selected(cands, lim.cap);
    let n3 = noted(c3, cands, lim.cap);
    lemma_moves_tame(f, lim, state, goal, budget, fwd, n3);
    let r4 = try_moves(lim, state, goal, budget, fwd, n3);
    let c4 = r4.1;
    let e4 = expand_goal_rewrites(lim, state, goal, budget, c4);
    let back = goal_rewrites(goal);
    let bwd = selected(back, lim.cap);
    let n4 = noted(c4, back, lim.cap);
    lemma_goals_tame(f, lim, state, goal, budget, bwd, n4);
    let r5 = try_goals(lim, state, goal, budget, bwd, n4);
    let a = fwd.len() as int;
    let b = bwd.len() as int;
    assert(0 <= a * n <= c * n) by (nonlinear_arith)
        requires
            0 <= a <= c,
            0 <= n,
    ;
    assert(0 <= b * n <= c * n) by (nonlinear_arith)
        requires
            0 <= b <= c,
            0 <= n,
    ;
    assert(0 <= m * n) by (nonlinear_arith)
        requires
            0 <= m,
            0 <= n,
    ;
    let e = expand(lim, state, goal, budget, ctx);
    assert(e == if r1.0 is Nothing {
        e1
    } else {
        r1
    });
    assert(e1 == if r2.0 is Nothing {
        e2
    } else {
        r2
    });
    assert(e2 == if goal == Prop::Contradiction || r3.0 is Nothing {
        e3
    } else {
        r3
    });
    assert(e3 == if r4.0 is Nothing {
        e4
    } else {
        r4
    });
    let c5 = if budget < 2 {
        c4
    } else {
        r5.1
    };
    assert(e4 == if budget < 2 || r5.0 is Nothing {
        (Verdict::Nothing, remembered(c5, key(state, goal), budget))
    } else {
        r5
    });
    assert(remembered(c5, key(state, goal), budget).nodes == c5.nodes);
    assert(remembered(c5, key(state, goal), budget).truncated == c5.truncated);
}

/// Searches keep to a margin if those of one line less do.
proof fn lemma_tame_step(f: Frame)
    requires
        f.ready(),
    ensures
        tame(
            f.cap,
            f.len,
            f.weight,
            f.budget,
            Margin { nodes: f.total(), cut: f.cut, out: f.out },
        ),
{
    let q = Margin { nodes: f.total(), cut: f.cut, out: f.out };
    assert forall|lim: Limits, state: Seq<Prop>, goal: Prop, budget: nat, ctx: Ctx|
        lim.cap == f.cap && state.len() <= f.len && weights_within(state, f.weight) && weight(goal)
            <= f.weight && budget <= f.budget implies mild(
        f.cap,
        q,
        ctx,
        #[trigger] search(lim, state, goal, budget, ctx),
    ) by {
        let k = key(state, goal);
        if state.contains(goal) || budget == 0 || (ctx.memo.contains_key(k) && budget
            <= ctx.memo[k]) || !plausible(state, goal) || ctx.nodes >= lim.max_nodes {
        } else {
            lemma_expand_tame(
                f,
                lim,
                state,
                goal,
                budget,
                Ctx { nodes: ctx.nodes + 1, ..ctx },
            );
        }
    }
}

/// A margin that searches from at most `len` formulas of weight `w` in at most `b` lines
/// keep to.
pub open spec fn margin(cap: nat, len: nat, w: nat, b: nat) -> Margin
    decreases b,
{
    if b == 0 {
        Margin { nodes: 0, cut: 0, out: 0 }
    } else {
        let long = len + b + 2;
        let wide = grown_weight(w, b + 2);
        let m1 = margin(cap, long, wide, (b - 1) as nat);
        let wider = wide + m1.out;
        let m2 = margin(cap, long, wider, (b - 1) as nat);
        let f = Frame {
            cap,
            len,
            weight: w,
            budget: b,
            out1: m1.out,
            nodes: m1.nodes + m2.nodes,
            cut: m1.cut + m2.cut + rewrite_bound(len, wider),
            out: m2.out + wider,
        };
        Margin { nodes: f.total(), cut: f.cut, out: f.out }
    }
}

/// Every search keeps to its margin.
pub proof fn lemma_tame(cap: nat, len: nat, w: nat, b: nat)
    ensures
        tame(cap, len, w, b, margin(cap, len, w, b)),
    decreases b,
{
    if b > 0 {
        let long = len + b + 2;
        let wide = grown_weight(w, b + 2);
        let m1 = margin(cap, long, wide, (b - 1) as nat);
        let wider = wide + m1.out;
        let m2 = margin(cap, long, wider, (b - 1) as nat);
        let f = Frame {
            cap,
            len,
            weight: w,
            budget: b,
            out1: m1.out,
            nodes: m1.nodes + m2.nodes,
            cut: m1.cut + m2.cut + rewrite_bound(len, wider),
            out: m2.out + wider,
        };
        lemma_tame(cap, long, wide, (b - 1) as nat);
        lemma_tame(cap, long, wider, (b - 1) as nat);
        assert(rewrite_bound(len, wider) >= 0);
        lemma_tame_wider(
            cap,
            long,
            wide,
            (b - 1) as nat,
            m1,
            Margin { nodes: f.nodes, cut: f.cut, out: f.out1 },
        );
        lemma_tame_wider(
            cap,
            long,
            wider,
            (b - 1) as nat,
            m2,
            Margin { nodes: f.nodes, cut: f.cut, out: f.out },
        );
        assert(f.wider() == wider);
        assert(f.ready());
        lemma_tame_step(f);
    }
}

/// From which cap on no list is cut short does not rest on the cap.
proof fn lemma_margin_cap(c1: nat, c2: nat, len: nat, w: nat, b: nat)
    ensures
        margin(c1, len, w, b).cut == margin(c2, len, w, b).cut,
        margin(c1, len, w, b).out == margin(c2, len, w, b).out,
    decreases b,
{
    if b > 0 {
        let long = len + b + 2;
        let wide = grown_weight(w, b + 2);
        lemma_margin_cap(c1, c2, long, wide, (b - 1) as nat);
        let wider = wide + margin(c1, long, wide, (b - 1) as nat).out;
        lemma_margin_cap(c1, c2, long, wider, (b - 1) as nat);
    }
}

/// Iterative deepening keeps to the margin at every depth.
proof fn lemma_deepen_tame(
    lim: Limits,
    premises: Seq<Prop>,
    goal: Prop,
    depth: nat,
    max: nat,
    ctx: Ctx,
    len: nat,
    w: nat,
)
    requires
        premises.len() <= len,
        weights_within(premises, w),
        weight(goal) <= w,
        depth <= max + 1,
    ensures
        ({
            let (v, c, _) = deepen(lim, premises, goal, depth, max, ctx);
            let q = margin(lim.cap, len, w, max);
            &&& c.nodes <= ctx.nodes + (max + 1 - depth) * q.nodes
            &&& lim.cap >= q.cut && !ctx.truncated ==> !c.truncated
        }),
    decreases max + 1 - depth,
{
    let q = margin(lim.cap, len, w, max);
    let n = q.nodes as int;
    let k = max + 1 - depth;
    assert(0 <= k * n) by (nonlinear_arith)
        requires
            0 <= k,
            0 <= n,
    ;
    if depth <= max {
        lemma_tame(lim.cap, len, w, max);
        let r = search(lim, premises, goal, depth, ctx);
        assert(mild(lim.cap, q, ctx, r));
        assert(n + (k - 1) * n == k * n) by (nonlinear_arith);
        assert(0 <= (k - 1) * n) by (nonlinear_arith)
            requires
                1 <= k,
                0 <= n,
        ;
        if r.0 is Nothing {
            lemma_deepen_tame(lim, premises, goal, depth + 1, max, r.1, len, w);
        }
    }
}

/// The search comes to an end: for so many premises of no more than so much weight, and so
/// many lines, there is a number of nodes with which it never gives up.
pub proof fn law_search_ends(cap: nat, len: nat, w: nat, max: nat) -> (enough: nat)
    ensures
        forall|nodes: nat, premises: Seq<Prop>, goal: Prop|
            nodes >= enough && premises.len() <= len && weights_within(premises, w) && weight(goal)
                <= w ==> !((#[trigger] deepen(
                Limits { max_nodes: nodes, cap },
                premises,
                goal,
                1,
                max,
                fresh_ctx(),
            )).0 is Exceeded),
{
    let q = margin(cap, len, w, max);
    let n = q.nodes as int;
    assert(0 <= max * n) by (nonlinear_arith)
        requires
            0 <= n,
    ;
    let enough = (max * n) as nat;
    assert forall|nodes: nat, premises: Seq<Prop>, goal: Prop|
        nodes >= enough && premises.len() <= len && weights_within(premises, w) && weight(goal)
            <= w implies !((#[trigger] deepen(
        Limits { max_nodes: nodes, cap },
        premises,
        goal,
        1,
        max,
        fresh_ctx(),
    )).0 is Exceeded) by {
        let lim = Limits { max_nodes: nodes, cap };
        lemma_deepen_tame(lim, premises, goal, 1, max, fresh_ctx(), len, w);
        law_deepen_counts(lim, premises, goal, 1, max, fresh_ctx());
    }
    enough
}

/// A list is cut short only where it is long: for so many premises of no more than so much
/// weight, and so many lines, there is a cap from which on nothing is ever cut short.
pub proof fn law_nothing_cut_short(len: nat, w: nat, max: nat) -> (enough: nat)
    ensures
        forall|lim: Limits, premises: Seq<Prop>, goal: Prop|
            lim.cap >= enough && premises.len() <= len && weights_within(premises, w) && weight(
                goal,
            ) <= w ==> !(#[trigger] deepen(lim, premises, goal, 1, max, fresh_ctx())).1.truncated,
{
    let enough = margin(0, len, w, max).cut;
    assert forall|lim: Limits, premises: Seq<Prop>, goal: Prop|
        lim.cap >= enough && premises.len() <= len && weights_within(premises, w) && weight(goal)
            <= w implies !(#[trigger] deepen(
        lim,
        premises,
        goal,
        1,
        max,
        fresh_ctx(),
    )).1.truncated by {
        lemma_margin_cap(0, lim.cap, len, w, max);
        lemma_deepen_tame(lim, premises, goal, 1, max, fresh_ctx(), len, w);
    }
    enough
}

/// With a great enough cap and enough nodes the search decides: whatever can be derived
/// within the bound is proved, in as few lines as it can be derived in at all, and
/// certified.
pub proof fn law_search_decides(premises: Seq<Prop>, goal: Prop, max: nat) -> (enough: nat)
    requires
        max >= 1,
    ensures
        forall|cap: nat| cap >= enough ==> #[trigger] decides(cap, premises, goal, max),
{
    let w = heaviest(premises, weight(goal));
    lemma_heaviest(premises, weight(goal));
    let enough = law_nothing_cut_short(premises.len(), w, max);
    assert forall|cap: nat| cap >= enough implies #[trigger] decides(
        cap,
        premises,
        goal,
        max,
    ) by {
        let most = law_search_ends(cap, premises.len(), w, max);
        assert forall|nodes: nat| nodes >= most implies #[trigger] decides_with(
            nodes,
            cap,
            premises,
            goal,
            max,
        ) by {
            let lim = Limits { max_nodes: nodes, cap };
            let end = deepen(lim, premises, goal, 1, max, fresh_ctx());
            assert(!end.1.truncated);
            assert(!(end.0 is Exceeded));
            law_certified_minimal(lim, premises, goal, max);
            assert forall|lines: nat|
                lines <= max && #[trigger] derivable(
                    premises.to_multiset(),
                    goal,
                    lines,
                ) implies end.0 matches Verdict::Found(steps) && steps.len() <= lines by {
                if end.0 is Nothing {
                    law_derivable_monotone(
                        premises.to_multiset(),
                        premises.to_multiset(),
                        goal,
                        lines,
                        max,
                    );
                }
            }
        }
        assert(decides_from(most, cap, premises, goal, max));
    }
    enough
}

/// Whether, with so many nodes and such a cap, what can be derived within the bound is
/// proved in no more lines, and certified.
pub open spec fn decides_with(
    nodes: nat,
    cap: nat,
    premises: Seq<Prop>,
    goal: Prop,
    max: nat,
) -> bool {
    let end = deepen(Limits { max_nodes: nodes, cap }, premises, goal, 1, max, fresh_ctx());
    &&& !(end.0 is Exceeded)
    &&& !end.1.truncated
    &&& forall|lines: nat|
        lines <= max && #[trigger] derivable(premises.to_multiset(), goal, lines) ==> (
        end.0 matches Verdict::Found(steps) && steps.len() <= lines)
}

/// Whether, with such a cap, some number of nodes is enough, and every greater one.
pub open spec fn decides(cap: nat, premises: Seq<Prop>, goal: Prop, max: nat) -> bool {
    exists|most: nat| #[trigger] decides_from(most, cap, premises, goal, max)
}

/// Whether, with such a cap, every number of nodes from `most` on is enough.
pub open spec fn decides_from(
    most: nat,
    cap: nat,
    premises: Seq<Prop>,
    goal: Prop,
    max: nat,
) -> bool {
    forall|nodes: nat|
        nodes >= most ==> #[trigger] decides_with(nodes, cap, premises, goal, max)
}

/// The greatest weight among some formulas, and no less than `least`.
pub open spec fn heaviest(s: Seq<Prop>, least: nat) -> nat
    decreases s.len(),
{
    if s.len() == 0 {
        least
    } else {
        let before = heaviest(s.drop_last(), least);
        if weight(s.last()) > before {
            weight(s.last())
        } else {
            before
        }
    }
}

/// No formula is heavier than the heaviest.
proof fn lemma_heaviest(s: Seq<Prop>, least: nat)
    ensures
        weights_within(s, heaviest(s, least)),
        least <= heaviest(s, least),
    decreases s.len(),
{
    if s.len() > 0 {
        let t = s.drop_last();
        lemma_heaviest(t, least);
        assert forall|i: int| 0 <= i < s.len() implies weight(#[trigger] s[i]) <= heaviest(
            s,
            least,
        ) by {
            if i < t.len() {
                assert(t[i] == s[i]);
            }
        }
    }
}

} // verus!
