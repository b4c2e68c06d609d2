//! What is kept of a list of rewrites: each formula once, the shortest ones, and the first
//! line that gives it.

use vstd::prelude::*;
use vstd::utf8::encode_utf8;

use super::greedy::results;
use super::minimal::lemma_deduped_results;
use super::moves::Line;
use super::search::{
    by_size, deduped, goal_rewrites, lemma_by_size_from, lemma_by_size_len, lemma_deduped_from,
    lemma_of_size_from, lemma_rewrite_lines, line_size, noted, of_size, rewrite_lines, selected,
    state_rewrites, Ctx,
};
use crate::models::formula::Prop;
use crate::models::lists::{lemma_in_pushed, lemma_joined_order, lemma_joined_upto};
use crate::models::rewriting::{law_rewrites_complete, one_step, rewrites};
use crate::models::rules::equivalence::{law_equivalence_names, EquivalenceRule};
use crate::models::text::ascii;

verus! {

/// How many different formulas some lines state.
pub open spec fn kinds(s: Seq<Line>) -> nat {
    results(s).to_set().len()
}

/// Whether a line is the first of a list that states its formula.
pub open spec fn stated_first(s: Seq<Line>, l: Line) -> bool {
    exists|j: int|
        0 <= j < s.len() && #[trigger] s[j] == l && forall|m: int|
            0 <= m < j ==> (#[trigger] s[m]).formula != l.formula
}

/// Whether the text of one formula takes up no more bytes than that of another. All texts
/// too long for a machine number to tell count as equally long.
pub open spec fn no_longer(p: Prop, q: Prop) -> bool {
    ||| encode_utf8(ascii(p)).len() <= encode_utf8(ascii(q)).len()
    ||| encode_utf8(ascii(q)).len() >= usize::MAX
}

/// What is kept of a list of lines states each formula once.
proof fn lemma_deduped_distinct(s: Seq<Line>)
    ensures
        results(deduped(s)).no_duplicates(),
        results(deduped(s)).to_set() == results(s).to_set(),
        deduped(s).len() == kinds(s),
    decreases s.len(),
{
    let d = deduped(s);
    if s.len() > 0 {
        let t = s.drop_last();
        lemma_deduped_distinct(t);
        let before = deduped(t);
        if !results(before).contains(s.last().formula) {
            assert(results(d) =~= results(before).push(s.last().formula));
        }
    }
    assert forall|p: Prop| results(d).to_set().contains(p) <==> results(s).to_set().contains(p) by {
        if results(d).contains(p) {
            let i = choose|i: int| 0 <= i < results(d).len() && results(d)[i] == p;
            assert(d.contains(d[i]));
            lemma_deduped_from(s, d[i]);
            let j = choose|j: int| 0 <= j < s.len() && s[j] == d[i];
            assert(results(s)[j] == p);
        }
        if results(s).contains(p) {
            let j = choose|j: int| 0 <= j < results(s).len() && results(s)[j] == p;
            assert(s.contains(s[j]));
            lemma_deduped_results(s, s[j]);
            let m = choose|m: Line| #[trigger] d.contains(m) && m.formula == s[j].formula;
            let i = choose|i: int| 0 <= i < d.len() && d[i] == m;
            assert(results(d)[i] == p);
        }
    }
    assert(results(d).to_set() =~= results(s).to_set());
    results(d).unique_seq_to_set();
}

/// A line that is kept is the first that states its formula.
proof fn lemma_deduped_first(s: Seq<Line>, l: Line) -> (j: int)
    requires
        deduped(s).contains(l),
    ensures
        0 <= j < s.len(),
        s[j] == l,
        forall|m: int| 0 <= m < j ==> (#[trigger] s[m]).formula != l.formula,
    decreases s.len(),
{
    let t = s.drop_last();
    let x = s.last();
    let before = deduped(t);
    lemma_in_pushed(before, x, l);
    if before.contains(l) {
        let j = lemma_deduped_first(t, l);
        assert forall|m: int| 0 <= m < j implies (#[trigger] s[m]).formula != l.formula by {
            assert(t[m] == s[m]);
        }
        j
    } else {
        lemma_deduped_distinct(t);
        let j = s.len() - 1;
        assert forall|m: int| 0 <= m < j implies (#[trigger] s[m]).formula != l.formula by {
            assert(t[m] == s[m]);
            assert(results(t)[m] == s[m].formula);
            assert(results(t).to_set().contains(s[m].formula));
            assert(results(before).to_set().contains(s[m].formula));
        }
        j
    }
}

/// Sizes are bytes, as far as machine numbers go.
proof fn lemma_line_sizes(a: Line, b: Line)
    requires
        line_size(a) <= line_size(b),
    ensures
        no_longer(a.formula, b.formula),
{
}

/// Ordering by size puts shorter texts first and states each formula as often as before.
proof fn lemma_by_size_order(s: Seq<Line>)
    requires
        results(s).no_duplicates(),
    ensures
        forall|i: int, j: int|
            0 <= i < j < by_size(s).len() ==> line_size(#[trigger] by_size(s)[i]) <= line_size(
                #[trigger] by_size(s)[j],
            ) && by_size(s)[i].formula != by_size(s)[j].formula,
{
    let all = by_size(s);
    lemma_by_size_len(s);
    assert(s.no_duplicates()) by {
        assert forall|i: int, j: int| 0 <= i < s.len() && 0 <= j < s.len() && i != j implies s[i]
            != s[j] by {
            assert(results(s)[i] != results(s)[j]);
        }
    }
    assert forall|l: Line| all.to_set().contains(l) <==> s.to_set().contains(l) by {
        lemma_by_size_from(s, l);
    }
    assert(all.to_set() =~= s.to_set());
    s.unique_seq_to_set();
    all.lemma_no_dup_set_cardinality();
    let f = |size: int| of_size(s, size);
    assert forall|i: int, j: int| 0 <= i < j < all.len() implies line_size(#[trigger] all[i])
        <= line_size(#[trigger] all[j]) && all[i].formula != all[j].formula by {
        let (a, b) = lemma_joined_order(usize::MAX + 1, f, i, j);
        lemma_of_size_from(s, a, all[i]);
        lemma_of_size_from(s, b, all[j]);
        let x = choose|x: int| 0 <= x < s.len() && s[x] == all[i];
        let y = choose|y: int| 0 <= y < s.len() && s[y] == all[j];
        assert(all[i] != all[j]);
        assert(results(s)[x] != results(s)[y]);
    }
}

/// What is selected of a list of lines: as many different formulas as there are, up to the
/// cap, shorter texts before longer ones, each with the first line that states it. What is
/// left out is left out for the cap alone, and is no shorter than anything selected; that
/// something is left out is noted exactly then.
pub proof fn law_selection(ctx: Ctx, s: Seq<Line>, cap: nat)
    ensures
        selected(s, cap).len() == if kinds(s) <= cap {
            kinds(s)
        } else {
            cap
        },
        noted(ctx, s, cap).truncated == (ctx.truncated || kinds(s) > cap),
        noted(ctx, s, cap).nodes == ctx.nodes,
        noted(ctx, s, cap).memo == ctx.memo,
        forall|i: int|
            0 <= i < selected(s, cap).len() ==> stated_first(s, #[trigger] selected(s, cap)[i]),
        forall|i: int, j: int|
            0 <= i < j < selected(s, cap).len() ==> (#[trigger] selected(s, cap)[i]).formula != (
            #[trigger] selected(s, cap)[j]).formula && no_longer(
                selected(s, cap)[i].formula,
                selected(s, cap)[j].formula,
            ),
        forall|m: int, i: int|
            0 <= m < s.len() && !results(selected(s, cap)).contains((#[trigger] s[m]).formula) && 0
                <= i < selected(s, cap).len() ==> no_longer(
                (#[trigger] selected(s, cap)[i]).formula,
                s[m].formula,
            ),
        kinds(s) <= cap ==> forall|m: int|
            0 <= m < s.len() ==> results(selected(s, cap)).contains((#[trigger] s[m]).formula),
{
    let d = deduped(s);
    let all = by_size(d);
    let chosen = selected(s, cap);
    lemma_deduped_distinct(s);
    lemma_by_size_len(d);
    lemma_by_size_order(d);
    assert forall|i: int| 0 <= i < chosen.len() implies stated_first(s, #[trigger] chosen[i]) by {
        assert(all[i] == chosen[i]);
        assert(all.contains(chosen[i]));
        lemma_by_size_from(d, chosen[i]);
        lemma_deduped_first(s, chosen[i]);
    }
    assert forall|i: int, j: int| 0 <= i < j < chosen.len() implies (#[trigger] chosen[i]).formula
        != (#[trigger] chosen[j]).formula && no_longer(chosen[i].formula, chosen[j].formula) by {
        assert(all[i] == chosen[i] && all[j] == chosen[j]);
        lemma_line_sizes(all[i], all[j]);
    }
    assert forall|m: int| 0 <= m < s.len() implies exists|n: int|
        0 <= n < all.len() && (#[trigger] all[n]).formula == (#[trigger] s[m]).formula by {
        assert(s.contains(s[m]));
        lemma_deduped_results(s, s[m]);
        let l = choose|l: Line| #[trigger] d.contains(l) && l.formula == s[m].formula;
        lemma_by_size_from(d, l);
        let n = choose|n: int| 0 <= n < all.len() && all[n] == l;
        assert(all[n].formula == s[m].formula);
    }
    assert forall|m: int, i: int|
        0 <= m < s.len() && !results(chosen).contains((#[trigger] s[m]).formula) && 0 <= i
            < chosen.len() implies no_longer((#[trigger] chosen[i]).formula, s[m].formula) by {
        let n = choose|n: int|
            0 <= n < all.len() && (#[trigger] all[n]).formula == s[m].formula;
        if n < chosen.len() {
            assert(results(chosen)[n] == s[m].formula);
        }
        assert(all[i] == chosen[i]);
        lemma_line_sizes(all[i], all[n]);
    }
    if kinds(s) <= cap {
        assert forall|m: int| 0 <= m < s.len() implies results(chosen).contains(
            (#[trigger] s[m]).formula,
        ) by {
            let n = choose|n: int|
                0 <= n < all.len() && (#[trigger] all[n]).formula == s[m].formula;
            assert(results(chosen)[n] == s[m].formula);
        }
    }
}

/// Every formula one step away from a known one is offered, unless it is known itself, with
/// the rule and the position of the known formula; and every formula one step away from a
/// goal is offered in its place. Nothing else is.
pub proof fn law_rewrites_offered(
    state: Seq<Prop>,
    i: int,
    goal: Prop,
    q: Prop,
    rule: EquivalenceRule,
)
    ensures
        0 <= i < state.len() ==> (state_rewrites(state).contains(
            Line { formula: q, rule: rule.short_name(), cited: seq![i] },
        ) <==> one_step(rule, state[i], q) && !state.contains(q)),
        goal_rewrites(goal).contains(
            Line { formula: q, rule: rule.short_name(), cited: seq![] },
        ) <==> one_step(rule, goal, q),
{
    let f = |k: int| rewrite_lines(state, rewrites(state[k]), k);
    let l = Line { formula: q, rule: rule.short_name(), cited: seq![i] };
    lemma_joined_upto(state.len() as int, f, l);
    if 0 <= i < state.len() {
        let rs = rewrites(state[i]);
        law_rewrites_complete(state[i], q, rule);
        lemma_rewrite_lines(state, rs, i, l);
        if one_step(rule, state[i], q) && !state.contains(q) {
            let k = choose|k: int| 0 <= k < rs.len() && rs[k] == (q, rule);
            assert(rs[k].0 == l.formula && rs[k].1.short_name() == l.rule);
            assert(f(i).contains(l));
        }
        if state_rewrites(state).contains(l) {
            let k = choose|k: int| 0 <= k < state.len() && #[trigger] f(k).contains(l);
            lemma_rewrite_lines(state, rewrites(state[k]), k, l);
            assert(seq![k][0] == k && seq![i][0] == i);
            let m = choose|m: int|
                0 <= m < rs.len() && (#[trigger] rs[m]).0 == l.formula && rs[m].1.short_name()
                    == l.rule;
            law_equivalence_names(rs[m].1, rule);
            assert(rs[m] == (q, rule));
        }
    }
    let gs = rewrites(goal);
    let g = Line { formula: q, rule: rule.short_name(), cited: seq![] };
    law_rewrites_complete(goal, q, rule);
    if one_step(rule, goal, q) {
        let k = choose|k: int| 0 <= k < gs.len() && gs[k] == (q, rule);
        assert(goal_rewrites(goal)[k] == g);
    }
    if goal_rewrites(goal).contains(g) {
        let k = choose|k: int| 0 <= k < goal_rewrites(goal).len() && goal_rewrites(goal)[k] == g;
        law_equivalence_names(gs[k].1, rule);
        assert(gs[k] == (q, rule));
    }
}

} // verus!
