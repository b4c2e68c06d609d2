//! Rewrites as candidates for the next step: each formula once, the smallest first.

use vstd::prelude::*;

use super::bank::{
    extends, ids_within, lemma_picked_extends, list_view, list_within, picked, Bank,
};
use super::greedy::results;
use super::moves::{has_id, lemma_has_id, line_of, lines_of, steps_within, Line, Step};
use super::search::{
    by_size, deduped, goal_rewrites, lemma_sizes_count, lemma_sizes_prefix, line_size, of_size,
    rewrite_lines, state_rewrites,
};
use crate::models::formula::Prop;
use crate::models::lists::{joined_upto, lemma_joined_empty};
use crate::models::rewriting::{rewrites, Rewrite};
use crate::models::rules::equivalence::EquivalenceRule;

use crate::models::lists::positions;

verus! {

/// A rewrite: the number of its result, the rule, and the position of what it rewrites.
#[derive(Clone, Copy)]
pub struct Cand {
    pub id: usize,
    pub rule: EquivalenceRule,
    pub at: usize,
}

/// The line that a candidate stands for; `cites` says whether it cites its position.
pub open spec fn cand_line(props: Seq<Prop>, c: Cand, cites: bool) -> Line {
    Line {
        formula: props[c.id as int],
        rule: c.rule.short_name(),
        cited: if cites {
            seq![c.at as int]
        } else {
            seq![]
        },
    }
}

/// The lines that some candidates stand for.
pub open spec fn cand_lines(props: Seq<Prop>, cs: Seq<Cand>, cites: bool) -> Seq<Line> {
    Seq::new(cs.len(), |i: int| cand_line(props, cs[i], cites))
}

/// Whether all candidates lead to formulas of the bank.
pub open spec fn cands_within(cs: Seq<Cand>, len: int) -> bool {
    forall|i: int| 0 <= i < cs.len() ==> (#[trigger] cs[i]).id < len
}

/// Whether no mark is set.
pub open spec fn all_clear(marks: Seq<bool>) -> bool {
    forall|i: int| 0 <= i < marks.len() ==> !#[trigger] marks[i]
}

/// Whether the results of exactly these candidates are marked.
spec fn marked(marks: Seq<bool>, cs: Seq<Cand>) -> bool {
    &&& forall|k: int|
        0 <= k < cs.len() ==> (#[trigger] cs[k]).id < marks.len() && marks[cs[k].id as int]
    &&& forall|i: int|
        0 <= i < marks.len() && #[trigger] marks[i] ==> exists|k: int|
            0 <= k < cs.len() && (#[trigger] cs[k]).id == i
}

/// Candidates stand for the same lines in a greater bank.
proof fn lemma_cands_extends(old_props: Seq<Prop>, new_props: Seq<Prop>, cs: Seq<Cand>, cites: bool)
    requires
        extends(old_props, new_props),
        cands_within(cs, old_props.len() as int),
    ensures
        cand_lines(old_props, cs, cites) == cand_lines(new_props, cs, cites),
        cands_within(cs, new_props.len() as int),
{
    assert forall|i: int| 0 <= i < cs.len() implies cand_lines(old_props, cs, cites)[i]
        == cand_lines(new_props, cs, cites)[i] by {
        assert(cs[i].id < old_props.len());
    }
    assert(cand_lines(old_props, cs, cites) =~= cand_lines(new_props, cs, cites));
}

/// Makes room for a mark for each formula of the bank.
fn make_room(bank: &Bank, marks: &mut Vec<bool>)
    requires
        bank.wf(),
    ensures
        final(marks)@.len() >= bank.props().len(),
        final(marks)@.len() >= old(marks)@.len(),
        forall|i: int|
            0 <= i < final(marks)@.len() ==> #[trigger] final(marks)@[i] == (if i < old(
                marks,
            )@.len() {
                old(marks)@[i]
            } else {
                false
            }),
{
    let n = bank.len();
    while marks.len() < n
        invariant
            marks@.len() >= old(marks)@.len(),
            forall|i: int|
                0 <= i < marks@.len() ==> #[trigger] marks@[i] == (if i < old(marks)@.len() {
                    old(marks)@[i]
                } else {
                    false
                }),
        decreases n - marks@.len(),
    {
        marks.push(false);
    }
}

/// Clears the marks of these candidates.
fn clear(marks: &mut Vec<bool>, cs: &Vec<Cand>)
    requires
        marked(old(marks)@, cs@),
    ensures
        all_clear(final(marks)@),
        final(marks)@.len() == old(marks)@.len(),
{
    let mut k: usize = 0;
    while k < cs.len()
        invariant
            k <= cs@.len(),
            marks@.len() == old(marks)@.len(),
            marked(old(marks)@, cs@),
            forall|i: int|
                0 <= i < marks@.len() && #[trigger] marks@[i] ==> old(marks)@[i] && forall|j: int|
                    0 <= j < k ==> (#[trigger] cs@[j]).id != i,
        decreases cs@.len() - k,
    {
        assert(cs@[k as int].id < marks@.len());
        let id = cs[k].id;
        marks.set(id, false);
        k = k + 1;
    }
    assert forall|i: int| 0 <= i < marks@.len() implies !#[trigger] marks@[i] by {
        if marks@[i] {
            assert(old(marks)@[i]);
            let j = choose|j: int| 0 <= j < cs@.len() && (#[trigger] cs@[j]).id == i;
            assert(cs@[j].id != i);
        }
    }
}

/// Appends a candidate if no earlier one has its result.
fn push_unseen(
    bank: &Bank,
    marks: &mut Vec<bool>,
    out: &mut Vec<Cand>,
    c: Cand,
    cites: bool,
    Ghost(s): Ghost<Seq<Line>>,
)
    requires
        bank.wf(),
        c.id < bank.props().len(),
        old(marks)@.len() >= bank.props().len(),
        cands_within(old(out)@, bank.props().len() as int),
        marked(old(marks)@, old(out)@),
        cand_lines(bank.props(), old(out)@, cites) == deduped(s),
    ensures
        final(marks)@.len() == old(marks)@.len(),
        cands_within(final(out)@, bank.props().len() as int),
        marked(final(marks)@, final(out)@),
        cand_lines(bank.props(), final(out)@, cites) == deduped(
            s.push(cand_line(bank.props(), c, cites)),
        ),
{
    let ghost props = bank.props();
    let ghost l = cand_line(props, c, cites);
    let ghost before = out@;
    proof {
        bank.lemma_distinct();
        assert(s.push(l).drop_last() =~= s);
        let rs = results(deduped(s));
        if marks@[c.id as int] {
            let k = choose|k: int| 0 <= k < before.len() && (#[trigger] before[k]).id == c.id;
            assert(rs[k] == l.formula);
        }
        if rs.contains(l.formula) {
            let k = choose|k: int| 0 <= k < rs.len() && rs[k] == l.formula;
            assert(before[k].id < props.len());
            assert(props[before[k].id as int] == props[c.id as int]);
            assert(before[k].id == c.id);
        }
    }
    if !marks[c.id] {
        marks.set(c.id, true);
        out.push(c);
        proof {
            assert(cand_lines(props, out@, cites) =~= cand_lines(props, before, cites).push(l));
            assert forall|i: int| 0 <= i < marks@.len() && #[trigger] marks@[i] implies exists|
                k: int,
            |
                0 <= k < out@.len() && (#[trigger] out@[k]).id == i by {
                if i == c.id {
                    assert(out@[before.len() as int].id == i);
                } else {
                    assert(old(marks)@[i]);
                    let k = choose|k: int| 0 <= k < before.len() && (#[trigger] before[k]).id == i;
                    assert(out@[k].id == i);
                }
            }
        }
    }
}

/// The one-step rewrites of the formulas of a state to new formulas, each once.
pub fn state_candidates(bank: &mut Bank, marks: &mut Vec<bool>, state: &Vec<usize>) -> (r: Vec<Cand>)
    requires
        old(bank).wf(),
        ids_within(state@, old(bank).props().len() as int),
        all_clear(old(marks)@),
    ensures
        final(bank).wf(),
        extends(old(bank).props(), final(bank).props()),
        all_clear(final(marks)@),
        cands_within(r@, final(bank).props().len() as int),
        cand_lines(final(bank).props(), r@, true) == deduped(
            state_rewrites(picked(old(bank).props(), state@)),
        ),
{
    let ghost base = bank.props();
    let ghost sv = picked(base, state@);
    let ghost f = |i: int| rewrite_lines(sv, rewrites(sv[i]), i);
    let mut out: Vec<Cand> = Vec::new();
    let mut i: usize = 0;
    assert(cand_lines(bank.props(), out@, true) =~= deduped(joined_upto(0, f)));
    while i < state.len()
        invariant
            i <= state@.len(),
            bank.wf(),
            extends(base, bank.props()),
            ids_within(state@, base.len() as int),
            sv == picked(base, state@),
            f == (|i: int| rewrite_lines(sv, rewrites(sv[i]), i)),
            cands_within(out@, bank.props().len() as int),
            marked(marks@, out@),
            cand_lines(bank.props(), out@, true) == deduped(joined_upto(i as int, f)),
        decreases state@.len() - i,
    {
        let ghost before = bank.props();
        assert(state@[i as int] < base.len());
        let list = bank.rewrites(state[i]);
        make_room(bank, marks);
        let ghost props = bank.props();
        let ghost rs = rewrites(sv[i as int]);
        let ghost done = joined_upto(i as int, f);
        proof {
            lemma_cands_extends(before, props, out@, true);
            lemma_picked_extends(base, props, state@);
            assert(list_view(list@, props) == rs);
            assert(rs.take(0) =~= Seq::<Rewrite>::empty());
            assert(done + rewrite_lines(sv, rs.take(0), i as int) =~= done);
        }
        let mut k: usize = 0;
        while k < list.len()
            invariant
                k <= list@.len(),
                i < state@.len(),
                bank.wf(),
                props == bank.props(),
                marks@.len() >= props.len(),
                ids_within(state@, props.len() as int),
                sv == picked(props, state@),
                list_within(list@, props.len() as int),
                list_view(list@, props) == rs,
                cands_within(out@, props.len() as int),
                marked(marks@, out@),
                cand_lines(props, out@, true) == deduped(
                    done + rewrite_lines(sv, rs.take(k as int), i as int),
                ),
            decreases list@.len() - k,
        {
            let x = list[k].0;
            let rule = list[k].1;
            let ghost had = done + rewrite_lines(sv, rs.take(k as int), i as int);
            let ghost t = rs.take(k as int + 1);
            proof {
                assert(list@[k as int].0 < props.len());
                assert(rs[k as int] == (props[x as int], rule));
                assert(t.drop_last() =~= rs.take(k as int));
                assert(t.last() == rs[k as int]);
                lemma_has_id(*bank, state@, x);
            }
            if !has_id(state, x) {
                let c = Cand { id: x, rule, at: i };
                push_unseen(bank, marks, &mut out, c, true, Ghost(had));
                proof {
                    let l = cand_line(props, c, true);
                    assert(done + rewrite_lines(sv, t, i as int) =~= had.push(l));
                }
            }
            k = k + 1;
        }
        proof {
            assert(list_view(list@, props).len() == list@.len());
            assert(rs.take(rs.len() as int) =~= rs);
            assert(joined_upto(i as int + 1, f) == done + f(i as int));
        }
        i = i + 1;
    }
    clear(marks, &out);
    out
}

/// The one-step rewrites of a goal, each once.
pub fn goal_candidates(bank: &mut Bank, marks: &mut Vec<bool>, goal: usize) -> (r: Vec<Cand>)
    requires
        old(bank).wf(),
        goal < old(bank).props().len(),
        all_clear(old(marks)@),
    ensures
        final(bank).wf(),
        extends(old(bank).props(), final(bank).props()),
        all_clear(final(marks)@),
        cands_within(r@, final(bank).props().len() as int),
        cand_lines(final(bank).props(), r@, false) == deduped(
            goal_rewrites(old(bank).props()[goal as int]),
        ),
{
    let ghost g = bank.props()[goal as int];
    let list = bank.rewrites(goal);
    make_room(bank, marks);
    let ghost props = bank.props();
    let ghost all = goal_rewrites(g);
    let mut out: Vec<Cand> = Vec::new();
    let mut k: usize = 0;
    assert(all.take(0) =~= Seq::<Line>::empty());
    assert(cand_lines(props, out@, false) =~= deduped(all.take(0)));
    while k < list.len()
        invariant
            k <= list@.len(),
            bank.wf(),
            props == bank.props(),
            marks@.len() >= props.len(),
            list_within(list@, props.len() as int),
            list_view(list@, props) == rewrites(g),
            all == goal_rewrites(g),
            cands_within(out@, props.len() as int),
            marked(marks@, out@),
            cand_lines(props, out@, false) == deduped(all.take(k as int)),
        decreases list@.len() - k,
    {
        let x = list[k].0;
        let rule = list[k].1;
        assert(list@[k as int].0 < props.len());
        assert(list_view(list@, props)[k as int] == (props[x as int], rule));
        let c = Cand { id: x, rule, at: 0 };
        push_unseen(bank, marks, &mut out, c, false, Ghost(all.take(k as int)));
        assert(all.take(k as int + 1) =~= all.take(k as int).push(cand_line(props, c, false)));
        k = k + 1;
    }
    assert(list_view(list@, props).len() == list@.len());
    assert(all.take(all.len() as int) =~= all);
    clear(marks, &out);
    out
}

/// Nothing has a size that nothing has.
proof fn lemma_none_of_size(s: Seq<Line>, size: int)
    requires
        forall|i: int| 0 <= i < s.len() ==> line_size(#[trigger] s[i]) > size,
    ensures
        of_size(s, size).len() == 0,
    decreases s.len(),
{
    if s.len() > 0 {
        let t = s.drop_last();
        assert forall|i: int| 0 <= i < t.len() implies line_size(#[trigger] t[i]) > size by {
            assert(t[i] == s[i]);
        }
        lemma_none_of_size(t, size);
        assert(line_size(s[s.len() - 1]) > size);
    }
}

/// A candidate as a step.
fn to_step(c: Cand, cites: bool, Ghost(props): Ghost<Seq<Prop>>) -> (r: Step)
    ensures
        r.id == c.id,
        line_of(props, r) == cand_line(props, c, cites),
{
    let mut cited: Vec<usize> = Vec::new();
    if cites {
        cited.push(c.at);
    }
    proof {
        if cites {
            assert(positions(cited@) =~= seq![c.at as int]);
        } else {
            assert(positions(cited@) =~= Seq::<int>::empty());
        }
    }
    Step { id: c.id, rule: c.rule.abbreviation(), cited }
}

/// The candidates as steps, the smallest first, and no more than `cap`.
pub fn select(bank: &Bank, cs: &Vec<Cand>, cites: bool, cap: usize) -> (r: Vec<Step>)
    requires
        bank.wf(),
        cands_within(cs@, bank.props().len() as int),
    ensures
        steps_within(r@, bank.props().len() as int),
        ({
            let d = cand_lines(bank.props(), cs@, cites);
            lines_of(bank.props(), r@) == if d.len() > cap {
                by_size(d).take(cap as int)
            } else {
                by_size(d)
            }
        }),
{
    let ghost props = bank.props();
    let ghost d = cand_lines(props, cs@, cites);
    let ghost f = |k: int| of_size(d, k);
    let n = cs.len();
    let want = if n > cap {
        cap
    } else {
        n
    };
    let mut sizes: Vec<usize> = Vec::with_capacity(n);
    let mut least: usize = usize::MAX;
    let mut j: usize = 0;
    while j < n
        invariant
            j <= n,
            n == cs@.len(),
            bank.wf(),
            props == bank.props(),
            cands_within(cs@, props.len() as int),
            d == cand_lines(props, cs@, cites),
            sizes@.len() == j,
            forall|i: int|
                0 <= i < j ==> (#[trigger] sizes@[i]) == line_size(d[i]) && sizes@[i] >= least,
        decreases n - j,
    {
        assert(cs@[j as int].id < props.len());
        let size = bank.size(cs[j].id);
        sizes.push(size);
        if size < least {
            least = size;
        }
        j = j + 1;
    }
    let mut out: Vec<Step> = Vec::new();
    let mut k: u128 = least as u128;
    proof {
        assert forall|i: int| 0 <= i < d.len() implies line_size(#[trigger] d[i]) >= least by {
            assert(sizes@[i] == line_size(d[i]));
        }
        assert forall|size: int| 0 <= size < k implies (#[trigger] f(size)).len() == 0 by {
            lemma_none_of_size(d, size);
        }
        lemma_joined_empty(k as int, f);
        assert(lines_of(props, out@) =~= joined_upto(k as int, f));
    }
    while out.len() < want
        invariant
            bank.wf(),
            props == bank.props(),
            cands_within(cs@, props.len() as int),
            d == cand_lines(props, cs@, cites),
            f == (|k: int| of_size(d, k)),
            n == cs@.len(),
            sizes@.len() == n,
            forall|i: int| 0 <= i < n ==> (#[trigger] sizes@[i]) == line_size(d[i]),
            want <= n,
            k <= usize::MAX + 1,
            steps_within(out@, props.len() as int),
            lines_of(props, out@) == joined_upto(k as int, f),
        decreases usize::MAX + 1 - k,
    {
        proof {
            if k == usize::MAX + 1 {
                lemma_sizes_count(d, k as int);
                assert(lines_of(props, out@).len() == out@.len());
            }
        }
        let ghost done = joined_upto(k as int, f);
        let mut i: usize = 0;
        assert(d.take(0) =~= Seq::<Line>::empty());
        assert(done + of_size(d.take(0), k as int) =~= done);
        while i < n
            invariant
                i <= n,
                n == cs@.len(),
                bank.wf(),
                props == bank.props(),
                cands_within(cs@, props.len() as int),
                d == cand_lines(props, cs@, cites),
                sizes@.len() == n,
                forall|i: int| 0 <= i < n ==> (#[trigger] sizes@[i]) == line_size(d[i]),
                steps_within(out@, props.len() as int),
                lines_of(props, out@) == done + of_size(d.take(i as int), k as int),
            decreases n - i,
        {
            assert(cs@[i as int].id < props.len());
            let size = sizes[i];
            let ghost t = d.take(i as int + 1);
            assert(t.drop_last() =~= d.take(i as int));
            assert(t.last() == d[i as int]);
            assert(size == line_size(d[i as int]));
            if size as u128 == k {
                let ghost before = out@;
                let s = to_step(cs[i], cites, Ghost(props));
                out.push(s);
                assert(lines_of(props, out@) =~= lines_of(props, before).push(d[i as int]));
                assert(lines_of(props, out@) =~= done + of_size(t, k as int));
            }
            i = i + 1;
        }
        assert(d.take(d.len() as int) =~= d);
        assert(joined_upto(k as int + 1, f) == done + f(k as int));
        k = k + 1;
    }
    proof {
        lemma_sizes_prefix(d, k as int, usize::MAX + 1);
        lemma_sizes_count(d, usize::MAX + 1);
        assert(lines_of(props, out@).len() == out@.len());
    }
    let ghost full = out@;
    out.truncate(want);
    proof {
        assert(out@ =~= full.take(want as int));
        assert(lines_of(props, out@) =~= lines_of(props, full).take(want as int));
        assert(by_size(d).len() == n);
        assert(lines_of(props, out@) =~= by_size(d).take(want as int)) by {
            let a = lines_of(props, full);
            assert(by_size(d).take(a.len() as int) == a);
            assert forall|i: int| 0 <= i < want implies a[i] == by_size(d)[i] by {
                assert(by_size(d).take(a.len() as int)[i] == a[i]);
            }
        }
        if n <= cap {
            assert(by_size(d).take(n as int) =~= by_size(d));
        }
    }
    out
}

} // verus!
