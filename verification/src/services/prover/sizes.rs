//! How many steps a state offers, and how much they can make a formula grow.

use vstd::prelude::*;

use super::moves::{
    fresh, law_moves_exact, leads, move_rules, moves, moves_at, moves_by, moves_from,
    moves_from_pair, Line, MoveRule,
};
use super::moves::cites;
use super::search::{
    deduped, goal_rewrites, lemma_by_size_len, lemma_selected_from, lemma_state_rewrites,
    rewrite_lines, selected, state_rewrites,
};
use crate::models::formula::Prop;
use crate::models::lists::joined_upto;
use crate::models::rewriting::{
    changed, lemma_rewrites_cases, lemma_root_rewrites, rewrites, root_rewrites, root_rewrites_by,
    Rewrite,
};
use crate::models::rules::equivalence::{all_equivalence_rules, forms, EquivalenceRule};

verus! {

/// How many atoms, contradictions and connectives a formula has.
pub open spec fn weight(p: Prop) -> nat
    decreases p,
{
    match p {
        Prop::Atom(_) | Prop::Contradiction => 1,
        Prop::Not(a) => 1 + weight(*a),
        Prop::And(a, b) => 1 + weight(*a) + weight(*b),
        Prop::Or(a, b) => 1 + weight(*a) + weight(*b),
        Prop::Implies(a, b) => 1 + weight(*a) + weight(*b),
        Prop::Biconditional(a, b) => 1 + weight(*a) + weight(*b),
    }
}

/// Whether no formula of a list weighs more than `w`.
pub open spec fn weights_within(s: Seq<Prop>, w: nat) -> bool {
    forall|i: int| 0 <= i < s.len() ==> weight(#[trigger] s[i]) <= w
}

/// Whether no formula of some lines weighs more than `w`.
pub open spec fn lines_within(s: Seq<Line>, w: nat) -> bool {
    forall|i: int| 0 <= i < s.len() ==> weight((#[trigger] s[i]).formula) <= w
}

/// What a formula of weight `w` can grow to in one step.
pub open spec fn once_grown(w: nat) -> nat {
    2 * w + 4
}

/// What a formula of weight `w` can grow to in `k` steps.
pub open spec fn grown_weight(w: nat, k: nat) -> nat
    decreases k,
{
    if k == 0 {
        w
    } else {
        once_grown(grown_weight(w, (k - 1) as nat))
    }
}

/// More steps let a formula grow more.
pub proof fn lemma_grown_weight(w: nat, j: nat, k: nat)
    requires
        j <= k,
    ensures
        w <= grown_weight(w, j) <= grown_weight(w, k),
        j < k ==> once_grown(grown_weight(w, j)) <= grown_weight(w, k),
    decreases k,
{
    if j < k {
        lemma_grown_weight(w, j, (k - 1) as nat);
    } else if j > 0 {
        lemma_grown_weight(w, (j - 1) as nat, (j - 1) as nat);
    }
}

/// Lists of bounded length join to a list of bounded length.
proof fn lemma_joined_len<T>(n: int, f: spec_fn(int) -> Seq<T>, c: nat)
    requires
        0 <= n,
        forall|i: int| 0 <= i < n ==> (#[trigger] f(i)).len() <= c,
    ensures
        joined_upto(n, f).len() <= n * c,
    decreases n,
{
    if n > 0 {
        lemma_joined_len(n - 1, f, c);
        assert(f(n - 1).len() <= c);
        assert((n - 1) * c + c == n * c) by (nonlinear_arith);
    } else {
        assert(n * c == 0) by (nonlinear_arith)
            requires
                n == 0,
        ;
    }
}

/// How many moves a state of `n` formulas can offer at most.
pub open spec fn move_bound(n: nat) -> nat {
    9 * (n * ((n + 1) * ((n + 1) * 2)))
}

/// Fresh results are no more than the results.
proof fn lemma_fresh_len(state: Seq<Prop>, rs: Seq<Prop>, rule: Seq<char>, cited: Seq<int>)
    ensures
        fresh(state, rs, rule, cited).len() <= rs.len(),
    decreases rs.len(),
{
    if rs.len() > 0 {
        lemma_fresh_len(state, rs.drop_last(), rule, cited);
    }
}

/// A state offers no more moves than the bound says.
pub proof fn lemma_move_count(state: Seq<Prop>, n: nat)
    requires
        state.len() <= n,
    ensures
        moves(state).len() <= move_bound(n),
{
    let m = state.len() as int;
    let f = |r: int| moves_by(state, move_rules()[r]);
    let pair: nat = (n + 1) * 2;
    let from: nat = (n + 1) * pair;
    let by: nat = n * from;
    assert forall|r: int| 0 <= r < 9 implies (#[trigger] f(r)).len() <= by by {
        let rule = move_rules()[r];
        let g = |i: int| moves_from(state, rule, i);
        assert forall|i: int| 0 <= i < m implies (#[trigger] g(i)).len() <= from by {
            assert forall|j: int, k: int| (#[trigger] moves_at(state, rule, i, j, k)).len() <= 2 by {
                let rs = rule.gives(state[i], state[j], state[k]);
                assert(rs.len() <= 2);
                lemma_fresh_len(state, rs, rule.label(), seq![i]);
                lemma_fresh_len(state, rs, rule.label(), seq![i, j]);
                lemma_fresh_len(state, rs, rule.label(), seq![i, j, k]);
            }
            assert forall|j: int| 0 <= j < m implies (#[trigger] moves_from_pair(
                state,
                rule,
                i,
                j,
            )).len() <= pair by {
                let h = |k: int| moves_at(state, rule, i, j, k);
                assert forall|k: int| 0 <= k < m implies (#[trigger] h(k)).len() <= 2 by {}
                lemma_joined_len(m, h, 2);
                assert(moves_at(state, rule, i, j, 0).len() <= 2);
            }
            let h = |j: int| moves_from_pair(state, rule, i, j);
            lemma_joined_len(m, h, pair);
            assert(m * pair <= from) by (nonlinear_arith)
                requires
                    m <= n + 1,
                    0 <= m,
                    from == (n + 1) * pair,
                    0 <= pair,
            ;
            assert(moves_at(state, rule, i, 0, 0).len() <= 2);
            assert(2 <= from) by (nonlinear_arith)
                requires
                    from == (n + 1) * pair,
                    pair == (n + 1) * 2,
                    0 <= n,
            ;
        }
        lemma_joined_len(m, g, from);
        assert(m * from <= by) by (nonlinear_arith)
            requires
                0 <= m <= n,
                by == n * from,
                0 <= from,
        ;
    }
    lemma_joined_len(9, f, by);
}

/// What a rule gives grows no more than in one step.
proof fn lemma_gives_weight(rule: MoveRule, f: Prop, g: Prop, h: Prop, x: Prop, w: nat)
    requires
        rule.gives(f, g, h).contains(x),
        weight(f) <= w,
        rule.arity() >= 2 ==> weight(g) <= w,
        rule.arity() == 3 ==> weight(h) <= w,
    ensures
        weight(x) <= once_grown(w),
{
    reveal_with_fuel(weight, 4);
}

/// A move makes no formula grow more than in one step.
pub proof fn lemma_moves_weight(state: Seq<Prop>, w: nat)
    requires
        weights_within(state, w),
    ensures
        lines_within(moves(state), once_grown(w)),
{
    let ms = moves(state);
    assert forall|a: int| 0 <= a < ms.len() implies weight((#[trigger] ms[a]).formula)
        <= once_grown(w) by {
        let m = ms[a];
        assert(ms.contains(m));
        law_moves_exact(state, m);
        let (rule, i, j, k) = choose|rule: MoveRule, i: int, j: int, k: int|
            #![trigger leads(state, rule, i, j, k, m.formula)]
            leads(state, rule, i, j, k, m.formula) && m.rule == rule.label() && m.cited == cites(
                rule,
                i,
                j,
                k,
            );
        assert(weight(state[i]) <= w);
        if rule.arity() >= 2 {
            assert(weight(state[j]) <= w);
        }
        if rule.arity() == 3 {
            assert(weight(state[k]) <= w);
        }
        lemma_gives_weight(rule, state[i], state[j], state[k], m.formula, w);
    }
}

/// A rule gives at most three forms, each grown by no more than in one step.
proof fn lemma_forms_size(rule: EquivalenceRule, p: Prop)
    ensures
        forms(rule, p).len() <= 3,
        forall|q: Prop| #[trigger] forms(rule, p).contains(q) ==> weight(q) <= once_grown(
            weight(p),
        ),
{
    reveal_with_fuel(weight, 5);
}

/// Forms that differ are no more than the forms.
proof fn lemma_changed_len(p: Prop, rule: EquivalenceRule, fs: Seq<Prop>)
    ensures
        changed(p, rule, fs).len() <= fs.len(),
    decreases fs.len(),
{
    if fs.len() > 0 {
        lemma_changed_len(p, rule, fs.drop_last());
    }
}

/// The rewrites of a whole formula by some rules are at most three for each.
proof fn lemma_root_by_len(p: Prop, rules: Seq<EquivalenceRule>)
    ensures
        root_rewrites_by(p, rules).len() <= 3 * rules.len(),
    decreases rules.len(),
{
    if rules.len() > 0 {
        lemma_root_by_len(p, rules.drop_last());
        lemma_forms_size(rules.last(), p);
        lemma_changed_len(p, rules.last(), forms(rules.last(), p));
    }
}

/// A formula has at most thirty rewrites for each of its parts.
pub proof fn lemma_rewrite_count(p: Prop)
    ensures
        rewrites(p).len() <= 30 * weight(p),
    decreases p,
{
    lemma_root_by_len(p, all_equivalence_rules());
    assert(root_rewrites(p).len() <= 30);
    match p {
        Prop::Atom(_) | Prop::Contradiction => {},
        Prop::Not(a) => {
            lemma_rewrite_count(*a);
        },
        Prop::And(a, b) | Prop::Or(a, b) | Prop::Implies(a, b) | Prop::Biconditional(a, b) => {
            lemma_rewrite_count(*a);
            lemma_rewrite_count(*b);
        },
    }
}

/// A rewrite makes a formula grow no more than in one step.
pub proof fn lemma_rewrite_weight(p: Prop, q: Prop, rule: EquivalenceRule)
    requires
        rewrites(p).contains((q, rule)),
    ensures
        weight(q) <= once_grown(weight(p)),
    decreases p, 0int,
{
    lemma_rewrites_cases(p, q, rule);
    if root_rewrites(p).contains((q, rule)) {
        lemma_root_rewrites(p, q, rule);
        lemma_forms_size(rule, p);
    } else {
        match p {
            Prop::Atom(_) | Prop::Contradiction => {},
            Prop::Not(a) => {
                lemma_part_weight(*a, rule);
            },
            Prop::And(a, b) | Prop::Or(a, b) | Prop::Implies(a, b) | Prop::Biconditional(a, b) => {
                lemma_part_weight(*a, rule);
                lemma_part_weight(*b, rule);
            },
        }
    }
}

/// [`lemma_rewrite_weight`] for all rewrites of a part.
proof fn lemma_part_weight(a: Prop, rule: EquivalenceRule)
    ensures
        forall|x: Prop| #[trigger] rewrites(a).contains((x, rule)) ==> weight(x) <= once_grown(
            weight(a),
        ),
    decreases a, 1int,
{
    assert forall|x: Prop| #[trigger] rewrites(a).contains((x, rule)) implies weight(x)
        <= once_grown(weight(a)) by {
        lemma_rewrite_weight(a, x, rule);
    }
}

/// Rewrites as lines are no more than the rewrites.
proof fn lemma_rewrite_lines_len(state: Seq<Prop>, rs: Seq<Rewrite>, i: int)
    ensures
        rewrite_lines(state, rs, i).len() <= rs.len(),
    decreases rs.len(),
{
    if rs.len() > 0 {
        lemma_rewrite_lines_len(state, rs.drop_last(), i);
    }
}

/// No more lines are kept than there are.
pub proof fn lemma_deduped_len(s: Seq<Line>)
    ensures
        deduped(s).len() <= s.len(),
    decreases s.len(),
{
    if s.len() > 0 {
        lemma_deduped_len(s.drop_last());
    }
}

/// How many rewrites `n` formulas of weight `w` can have at most.
pub open spec fn rewrite_bound(n: nat, w: nat) -> nat {
    (n + 1) * (30 * w)
}

/// A state has no more rewrites than the bound says, and none of them makes a formula grow
/// more than in one step.
pub proof fn lemma_state_rewrite_count(state: Seq<Prop>, n: nat, w: nat)
    requires
        state.len() <= n,
        weights_within(state, w),
    ensures
        deduped(state_rewrites(state)).len() <= rewrite_bound(n, w),
        lines_within(state_rewrites(state), once_grown(w)),
{
    let f = |i: int| rewrite_lines(state, rewrites(state[i]), i);
    let each: nat = 30 * w;
    assert forall|i: int| 0 <= i < state.len() implies (#[trigger] f(i)).len() <= each by {
        lemma_rewrite_lines_len(state, rewrites(state[i]), i);
        lemma_rewrite_count(state[i]);
        assert(weight(state[i]) <= w);
    }
    lemma_joined_len(state.len() as int, f, each);
    let m = state.len() as int;
    assert(m * each <= rewrite_bound(n, w)) by (nonlinear_arith)
        requires
            0 <= m <= n,
            each == 30 * w,
            rewrite_bound(n, w) == (n + 1) * (30 * w),
            0 <= each,
    ;
    lemma_deduped_len(state_rewrites(state));
    let all = state_rewrites(state);
    assert forall|a: int| 0 <= a < all.len() implies weight((#[trigger] all[a]).formula)
        <= once_grown(w) by {
        let l = all[a];
        assert(all.contains(l));
        lemma_state_rewrites(state, l);
        let (i, rule) = choose|i: int, rule: EquivalenceRule|
            0 <= i < state.len() && l.cited == seq![i] && l.rule == rule.short_name()
                && #[trigger] rewrites(state[i]).contains((l.formula, rule));
        assert(weight(state[i]) <= w);
        lemma_rewrite_weight(state[i], l.formula, rule);
    }
}

/// A goal has no more rewrites than the bound says, and none of them makes it grow more
/// than in one step.
pub proof fn lemma_goal_rewrite_count(goal: Prop, n: nat, w: nat)
    requires
        weight(goal) <= w,
    ensures
        deduped(goal_rewrites(goal)).len() <= rewrite_bound(n, w),
        lines_within(goal_rewrites(goal), once_grown(w)),
{
    lemma_rewrite_count(goal);
    lemma_deduped_len(goal_rewrites(goal));
    assert(30 * w <= rewrite_bound(n, w)) by (nonlinear_arith)
        requires
            rewrite_bound(n, w) == (n + 1) * (30 * w),
            0 <= n,
            0 <= w,
    ;
    let all = goal_rewrites(goal);
    assert forall|a: int| 0 <= a < all.len() implies weight((#[trigger] all[a]).formula)
        <= once_grown(w) by {
        let x = rewrites(goal)[a];
        assert(x == (x.0, x.1));
        assert(rewrites(goal).contains((x.0, x.1)));
        lemma_rewrite_weight(goal, x.0, x.1);
    }
}

/// What is selected is no more than the cap, and weighs no more than what it is selected
/// from.
pub proof fn lemma_selected_size(s: Seq<Line>, cap: nat, w: nat)
    requires
        lines_within(s, w),
    ensures
        selected(s, cap).len() <= cap,
        lines_within(selected(s, cap), w),
{
    lemma_by_size_len(deduped(s));
    let all = selected(s, cap);
    assert forall|a: int| 0 <= a < all.len() implies weight((#[trigger] all[a]).formula) <= w by {
        let l = all[a];
        assert(all.contains(l));
        lemma_selected_from(s, cap, l);
        let i = choose|i: int| 0 <= i < s.len() && s[i] == l;
        assert(weight(s[i].formula) <= w);
    }
}

} // verus!
