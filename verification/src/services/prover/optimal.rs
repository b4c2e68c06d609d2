//! Bounded optimal proof search: iterative deepening on line count ("the lawyer").
//!
//! Unlike the greedy philosopher, the lawyer backtracks and searches: for each line
//! budget `d = 1, 2, 3, ...` up to `max_lines` it asks whether a proof of at most `d`
//! lines exists, by full recursive search over every move, and returns the first `d` that
//! succeeds. The module `search` says what a search does at every node.
//!
//! A proof is certified minimal where no list of rewrites was cut short on the way; where
//! one was, the proof is still a proof, but a shorter one may have been missed.

use vstd::prelude::*;

use super::bank::{extends, ids_within, lemma_picked_extends, picked, Bank, Kind};
use super::candidates::{all_clear, cand_lines, goal_candidates, select, state_candidates};
use super::derivation::derivable;
use super::diligence::{law_optimal_complete, reached};
use super::found::{
    law_optimal_proves, law_optimal_sound, law_search_proves, lemma_closed_proves,
    lemma_established, lemma_subproof_grown, proves,
};
use super::greedy::{results, step, step_views, FoundProof, ProofStep};
use super::memo::{id_key, is_sorted, sorted_ids, Memo};
use super::minimal::law_certified_minimal;
use super::moves::{
    bank_moves, has_id, lemma_has_id, lemma_lines_extends, line_of, lines_of, steps_within, Line,
    Step,
};
use super::search::{
    closing_line, deduped, deepen, established, expand, expand_goal, expand_goal_rewrites,
    expand_indirect, expand_rewrites, fresh_ctx, goal_rewrites, key, lemma_far, noted, remembered,
    search, selected, share, share_below, share_closing, share_list, share_subproof, state_rewrites,
    subproof, try_conj, try_goals, try_moves, try_shape, try_side, try_subproof, Ctx, Key, Limits,
    Verdict,
};
use super::splice::{
    grown, lemma_open_upto, moved_to, open_positions, open_upto, renumbered, spliced,
};
use super::transcript::{citable, closes, justified, lemma_looks_back, valid};
use crate::models::formula::{entails, first_index, lemma_first_index, p_not, views};
use crate::models::formula::{Formula, Prop};
use crate::models::lists::{copy_positions, lemma_in_pushed, positions};
use crate::models::rules::technique::{discharge, ProofTechnique};

verus! {

/// Resource bounds for [`optimal_prove`].
#[derive(Debug, Clone, Copy)]
pub struct OptimalConfig {
    /// The greatest line count that the search tries.
    pub max_lines: usize,
    /// How many search nodes may be visited over the whole run, all depths together.
    pub max_nodes: usize,
    /// How many rewrites are taken per state and direction, smallest first; leaving some
    /// out voids the certificate of minimality.
    pub equiv_moves_per_state: usize,
}

impl OptimalConfig {
    /// The bounds on the search itself.
    pub open spec fn limits(self) -> Limits {
        Limits { max_nodes: self.max_nodes as nat, cap: self.equiv_moves_per_state as nat }
    }
}

impl Default for OptimalConfig {
    fn default() -> (r: OptimalConfig)
        ensures
            r == (OptimalConfig {
                max_lines: 12,
                max_nodes: 200_000,
                equiv_moves_per_state: 64,
            }),
    {
        OptimalConfig { max_lines: 12, max_nodes: 200_000, equiv_moves_per_state: 64 }
    }
}

/// The result of a bounded optimal proof attempt.
#[derive(Debug, Clone)]
pub enum OptimalOutcome {
    /// A proof was found; `minimal_proven` certifies that no shorter one was missed.
    Proved { proof: FoundProof, minimal_proven: bool },
    /// Every depth up to `max_lines` was searched, and no proof was found.
    NotProvedWithinBounds,
    /// The node cap was hit before the search reached a verdict.
    Exhausted,
}

/// What a search over a bank ends with.
enum Found {
    Steps(Vec<Step>),
    Nothing,
    Exceeded,
}

impl Found {
    fn is_nothing(&self) -> (r: bool)
        ensures
            r == (self is Nothing),
    {
        match self {
            Found::Nothing => true,
            _ => false,
        }
    }
}

/// Whether a result over a bank is the given verdict.
spec fn is_verdict(props: Seq<Prop>, r: Found, v: Verdict) -> bool {
    match (r, v) {
        (Found::Steps(s), Verdict::Found(l)) => steps_within(s@, props.len() as int) && lines_of(
            props,
            s@,
        ) == l,
        (Found::Nothing, Verdict::Nothing) => true,
        (Found::Exceeded, Verdict::Exceeded) => true,
        _ => false,
    }
}

/// A search under way.
struct Engine {
    bank: Bank,
    memo: Memo,
    marks: Vec<bool>,
    nodes: usize,
    truncated: bool,
    max_nodes: usize,
    cap: usize,
}

/// Steps to different formulas, each the first to its formula.
fn dedup_steps(bank: &Bank, ms: Vec<Step>) -> (r: Vec<Step>)
    requires
        bank.wf(),
        steps_within(ms@, bank.props().len() as int),
    ensures
        steps_within(r@, bank.props().len() as int),
        lines_of(bank.props(), r@) == deduped(lines_of(bank.props(), ms@)),
{
    let ghost props = bank.props();
    let ghost all = lines_of(props, ms@);
    let mut out: Vec<Step> = Vec::new();
    let mut i: usize = 0;
    assert(all.take(0) =~= Seq::<Line>::empty());
    assert(lines_of(props, out@) =~= deduped(all.take(0)));
    proof {
        bank.lemma_distinct();
    }
    while i < ms.len()
        invariant
            i <= ms@.len(),
            props == bank.props(),
            props.no_duplicates(),
            all == lines_of(props, ms@),
            steps_within(ms@, props.len() as int),
            steps_within(out@, props.len() as int),
            lines_of(props, out@) == deduped(all.take(i as int)),
        decreases ms@.len() - i,
    {
        let ghost t = all.take(i as int + 1);
        assert(t.drop_last() =~= all.take(i as int));
        assert(t.last() == line_of(props, ms@[i as int]));
        assert(ms@[i as int].id < props.len());
        let mut seen = false;
        let mut j: usize = 0;
        while j < out.len() && !seen
            invariant
                j <= out@.len(),
                i < ms@.len(),
                seen ==> j < out@.len() && out@[j as int].id == ms@[i as int].id,
                !seen ==> forall|k: int| 0 <= k < j ==> (#[trigger] out@[k]).id != ms@[i as int].id,
            decreases out@.len() - j + (if seen { 0int } else { 1int }),
        {
            if out[j].id == ms[i].id {
                seen = true;
            } else {
                j = j + 1;
            }
        }
        proof {
            let rs = results(deduped(all.take(i as int)));
            if seen {
                assert(rs[j as int] == t.last().formula);
            } else if rs.contains(t.last().formula) {
                let k = choose|k: int| 0 <= k < rs.len() && rs[k] == t.last().formula;
                assert(out@[k].id < props.len());
                assert(props[out@[k].id as int] == props[ms@[i as int].id as int]);
                assert(out@[k].id == ms@[i as int].id);
            }
        }
        if !seen {
            let ghost before = out@;
            let m = Step { id: ms[i].id, rule: ms[i].rule, cited: copy_positions(&ms[i].cited) };
            out.push(m);
            assert(line_of(props, m) == t.last());
            assert(lines_of(props, out@) =~= lines_of(props, before).push(t.last()));
        }
        i = i + 1;
    }
    assert(all.take(all.len() as int) =~= all);
    out
}

/// The first position of a number.
fn position_of(ids: &Vec<usize>, id: usize) -> (r: Option<usize>)
    ensures
        match r {
            Some(i) => i < ids@.len() && ids@[i as int] == id && forall|j: int|
                0 <= j < i ==> ids@[j] != id,
            None => !ids@.contains(id),
        },
{
    let mut i: usize = 0;
    while i < ids.len()
        invariant
            i <= ids@.len(),
            forall|j: int| 0 <= j < i ==> ids@[j] != id,
        decreases ids@.len() - i,
    {
        if ids[i] == id {
            return Some(i);
        }
        i = i + 1;
    }
    None
}

/// The first position of a formula in a state is that of its number.
proof fn lemma_position(bank: Bank, ids: Seq<usize>, id: usize)
    requires
        bank.wf(),
        ids_within(ids, bank.props().len() as int),
        id < bank.props().len(),
    ensures
        ({
            let sv = picked(bank.props(), ids);
            let p = bank.props()[id as int];
            &&& first_index(sv, p) is Some <==> ids.contains(id)
            &&& forall|i: int|
                #![trigger ids[i]]
                0 <= i < ids.len() && ids[i] == id && (forall|j: int| 0 <= j < i ==> ids[j] != id)
                    ==> first_index(sv, p) == Some(i)
        }),
{
    let sv = picked(bank.props(), ids);
    let p = bank.props()[id as int];
    bank.lemma_distinct();
    lemma_first_index(sv, p);
    lemma_has_id(bank, ids, id);
    assert forall|i: int|
        #![trigger ids[i]]
        0 <= i < ids.len() && ids[i] == id && (forall|j: int| 0 <= j < i ==> ids[j] != id) implies first_index(
    sv, p) == Some(i) by {
        assert(sv[i] == p);
        assert(sv.contains(p));
        let k = first_index(sv, p)->0;
        assert(sv[k] == p);
        assert(ids[k] < bank.props().len());
        assert(ids[k] == id);
        if k < i {
            assert(ids[k] != id);
        }
    }
}

/// Appends the numbers of the formulas of some steps.
fn push_ids(ids: &mut Vec<usize>, steps: &Vec<Step>)
    ensures
        final(ids)@ == old(ids)@ + step_ids(steps@),
{
    let ghost all = step_ids(steps@);
    let mut i: usize = 0;
    assert(ids@ + all.take(0) =~= ids@);
    while i < steps.len()
        invariant
            i <= steps@.len(),
            all == step_ids(steps@),
            ids@ == old(ids)@ + all.take(i as int),
        decreases steps@.len() - i,
    {
        ids.push(steps[i].id);
        assert(all.take(i as int + 1) =~= all.take(i as int).push(all[i as int]));
        assert(ids@ =~= old(ids)@ + all.take(i as int + 1));
        i = i + 1;
    }
    assert(all.take(all.len() as int) =~= all);
}

/// The numbers of the formulas of some steps.
spec fn step_ids(steps: Seq<Step>) -> Seq<usize> {
    Seq::new(steps.len(), |i: int| steps[i].id)
}

/// The position of the line that establishes a formula.
fn established_at(bank: &Bank, state: &Vec<usize>, steps: &Vec<Step>, target: usize) -> (r: usize)
    requires
        bank.wf(),
        ids_within(state@, bank.props().len() as int),
        target < bank.props().len(),
    ensures
        r == established(
            picked(bank.props(), state@),
            lines_of(bank.props(), steps@),
            bank.props()[target as int],
        ),
{
    if steps.len() == 0 {
        proof {
            lemma_position(*bank, state@, target);
        }
        match position_of(state, target) {
            Some(i) => i,
            None => 0,
        }
    } else {
        let mut all = copy_positions(state);
        push_ids(&mut all, steps);
        all.len() - 1
    }
}

/// Whether a rule of this name closes a subproof.
fn closes_by(rule: &'static str) -> (r: bool)
    ensures
        r == (rule@ == "CP"@ || rule@ == "IP"@),
{
    proof {
        reveal_strlit("CP");
        reveal_strlit("IP");
    }
    if rule.unicode_len() != 2 {
        return false;
    }
    let first = rule.get_char(0);
    let r = rule.get_char(1) == 'P' && (first == 'C' || first == 'I');
    proof {
        if r && first == 'C' {
            assert(rule@ =~= "CP"@);
        }
        if r && first == 'I' {
            assert(rule@ =~= "IP"@);
        }
        assert("CP"@[0] == 'C' && "CP"@[1] == 'P');
        assert("IP"@[0] == 'I' && "IP"@[1] == 'P');
    }
    r
}

/// Whether position `c` may be cited after some steps.
fn open_after(base: usize, steps: &Vec<Step>, c: usize, state: Ghost<Seq<Prop>>, props: Ghost<
    Seq<Prop>,
>) -> (r: bool)
    requires
        base == state@.len(),
        base + steps@.len() <= usize::MAX,
        c < base + steps@.len(),
        valid(state@, lines_of(props@, steps@)),
    ensures
        r == citable(
            state@,
            lines_of(props@, steps@),
            (state@.len() + steps@.len()) as int,
            c as int,
        ),
{
    let ghost lines = lines_of(props@, steps@);
    let mut k: usize = 0;
    while k < steps.len()
        invariant
            k <= steps@.len(),
            base == state@.len(),
            base + steps@.len() <= usize::MAX,
            lines == lines_of(props@, steps@),
            valid(state@, lines),
            forall|d: int| base <= d < base + k ==> !#[trigger] closes(state@, lines, d, c as int),
        decreases steps@.len() - k,
    {
        proof {
            let d = base + k;
            assert(justified(state@, lines, d as int));
            lemma_looks_back(state@, lines, d as int);
            assert(lines[k as int] == line_of(props@, steps@[k as int]));
        }
        if closes_by(steps[k].rule) {
            let from = steps[k].cited[0];
            assert(lines[k as int].cited[0] == from);
            if from <= c && c < base + k {
                assert(closes(state@, lines, base + k, c as int));
                return false;
            }
        }
        k = k + 1;
    }
    true
}

/// The positions of the steps that may be cited after them, in order.
fn open_list(base: usize, steps: &Vec<Step>, state: Ghost<Seq<Prop>>, props: Ghost<Seq<Prop>>) -> (r:
    Vec<usize>)
    requires
        base == state@.len(),
        base + steps@.len() <= usize::MAX,
        valid(state@, lines_of(props@, steps@)),
    ensures
        positions(r@) == open_positions(state@, lines_of(props@, steps@)),
{
    let ghost lines = lines_of(props@, steps@);
    let mut r: Vec<usize> = Vec::new();
    let mut n: usize = 0;
    assert(positions(r@) =~= open_upto(state@, lines, 0));
    while n < steps.len()
        invariant
            n <= steps@.len(),
            base == state@.len(),
            base + steps@.len() <= usize::MAX,
            lines == lines_of(props@, steps@),
            valid(state@, lines),
            positions(r@) == open_upto(state@, lines, n as int),
        decreases steps@.len() - n,
    {
        let ghost before = r@;
        if open_after(base, steps, base + n, state, props) {
            r.push(base + n);
            assert(positions(r@) =~= positions(before).push(base + n));
        }
        n = n + 1;
    }
    r
}

/// Steps that go on from others, renumbered to follow them.
fn renumber(
    base: usize,
    at: &Vec<usize>,
    lines: usize,
    steps: &Vec<Step>,
    props: Ghost<Seq<Prop>>,
) -> (r: Vec<Step>)
    requires
        base + lines + steps@.len() <= usize::MAX,
        at@.len() <= lines,
        forall|k: int, i: int|
            0 <= k < steps@.len() && 0 <= i < steps@[k].cited@.len() ==> (
            #[trigger] steps@[k].cited@[i]) < base + at@.len() + steps@.len(),
        steps_within(steps@, props@.len() as int),
    ensures
        steps_within(r@, props@.len() as int),
        r@.len() == steps@.len(),
        forall|k: int|
            0 <= k < steps@.len() ==> line_of(props@, #[trigger] r@[k]) == renumbered(
                base as int,
                positions(at@),
                lines as int,
                line_of(props@, steps@[k]),
            ),
{
    let mut r: Vec<Step> = Vec::new();
    let mut k: usize = 0;
    while k < steps.len()
        invariant
            k <= steps@.len(),
            base + lines + steps@.len() <= usize::MAX,
            at@.len() <= lines,
            forall|k: int, i: int|
                0 <= k < steps@.len() && 0 <= i < steps@[k].cited@.len() ==> (
                #[trigger] steps@[k].cited@[i]) < base + at@.len() + steps@.len(),
            steps_within(steps@, props@.len() as int),
            r@.len() == k,
            steps_within(r@, props@.len() as int),
            forall|j: int|
                0 <= j < k ==> line_of(props@, #[trigger] r@[j]) == renumbered(
                    base as int,
                    positions(at@),
                    lines as int,
                    line_of(props@, steps@[j]),
                ),
        decreases steps@.len() - k,
    {
        let mut cited: Vec<usize> = Vec::new();
        let mut i: usize = 0;
        while i < steps[k].cited.len()
            invariant
                k < steps@.len(),
                i <= steps@[k as int].cited@.len(),
                base + lines + steps@.len() <= usize::MAX,
                at@.len() <= lines,
                forall|k: int, i: int|
                    0 <= k < steps@.len() && 0 <= i < steps@[k].cited@.len() ==> (
                    #[trigger] steps@[k].cited@[i]) < base + at@.len() + steps@.len(),
                cited@.len() == i,
                forall|j: int|
                    0 <= j < i ==> (#[trigger] cited@[j]) as int == moved_to(
                        base as int,
                        positions(at@),
                        lines as int,
                        steps@[k as int].cited@[j] as int,
                    ),
            decreases steps@[k as int].cited@.len() - i,
        {
            let c = steps[k].cited[i];
            cited.push(new_position(base, at, lines, c, Ghost(steps@.len() as int)));
            i = i + 1;
        }
        let ghost old_line = line_of(props@, steps@[k as int]);
        assert(steps@[k as int].id < props@.len());
        let new = Step { id: steps[k].id, rule: steps[k].rule, cited };
        assert(line_of(props@, new).cited =~= renumbered(
            base as int,
            positions(at@),
            lines as int,
            old_line,
        ).cited);
        r.push(new);
        k = k + 1;
    }
    r
}

/// Where a position is after renumbering.
fn new_position(base: usize, at: &Vec<usize>, lines: usize, c: usize, more: Ghost<int>) -> (r: usize)
    requires
        base + lines + more@ <= usize::MAX,
        at@.len() <= lines,
        c < base + at@.len() + more@,
    ensures
        r as int == moved_to(base as int, positions(at@), lines as int, c as int),
{
    if c < base {
        c
    } else if c - base < at.len() {
        at[c - base]
    } else {
        c - at.len() + lines
    }
}

/// One number in a list.
fn one(i: usize) -> (r: Vec<usize>)
    ensures
        positions(r@) == seq![i as int],
{
    let mut r: Vec<usize> = Vec::new();
    r.push(i);
    assert(positions(r@) =~= seq![i as int]);
    r
}

/// Two numbers in a list.
fn two(i: usize, j: usize) -> (r: Vec<usize>)
    ensures
        positions(r@) == seq![i as int, j as int],
{
    let mut r: Vec<usize> = Vec::new();
    r.push(i);
    r.push(j);
    assert(positions(r@) =~= seq![i as int, j as int]);
    r
}

/// `steps` with one step more.
fn with_last(steps: Vec<Step>, id: usize, rule: &'static str, cited: Vec<usize>, props: Ghost<Seq<Prop>>) -> (r:
    Vec<Step>)
    requires
        steps_within(steps@, props@.len() as int),
        id < props@.len(),
    ensures
        steps_within(r@, props@.len() as int),
        lines_of(props@, r@) == lines_of(props@, steps@).push(
            Line { formula: props@[id as int], rule: rule@, cited: positions(cited@) },
        ),
{
    let mut r = steps;
    r.push(Step { id, rule, cited });
    assert(lines_of(props@, r@) =~= lines_of(props@, steps@).push(
        Line { formula: props@[id as int], rule: rule@, cited: positions(cited@) },
    ));
    r
}

/// One step, then `steps`.
fn with_first(id: usize, rule: &'static str, cited: Vec<usize>, steps: Vec<Step>, props: Ghost<Seq<Prop>>) -> (r:
    Vec<Step>)
    requires
        steps_within(steps@, props@.len() as int),
        id < props@.len(),
    ensures
        steps_within(r@, props@.len() as int),
        lines_of(props@, r@) == seq![
            Line { formula: props@[id as int], rule: rule@, cited: positions(cited@) },
        ] + lines_of(props@, steps@),
{
    let ghost first = Line { formula: props@[id as int], rule: rule@, cited: positions(cited@) };
    let mut r: Vec<Step> = Vec::new();
    r.push(Step { id, rule, cited });
    let mut rest = steps;
    r.append(&mut rest);
    assert(lines_of(props@, r@) =~= seq![first] + lines_of(props@, steps@));
    r
}

/// Appends the numbers of the formulas of the steps at some positions.
fn push_open(ids: &mut Vec<usize>, at: &Vec<usize>, steps: &Vec<Step>)
    requires
        forall|i: int|
            0 <= i < at@.len() ==> old(ids)@.len() <= #[trigger] at@[i] < old(ids)@.len()
                + steps@.len(),
    ensures
        final(ids)@ == old(ids)@ + Seq::new(
            at@.len(),
            |i: int| steps@[at@[i] - old(ids)@.len()].id,
        ),
{
    let base = ids.len();
    let ghost all = Seq::new(at@.len(), |i: int| steps@[at@[i] - base].id);
    let mut i: usize = 0;
    assert(ids@ + all.take(0) =~= ids@);
    while i < at.len()
        invariant
            i <= at@.len(),
            base == old(ids)@.len(),
            forall|i: int|
                0 <= i < at@.len() ==> base <= #[trigger] at@[i] < base + steps@.len(),
            all == Seq::new(at@.len(), |i: int| steps@[at@[i] - base].id),
            ids@ == old(ids)@ + all.take(i as int),
        decreases at@.len() - i,
    {
        assert(base <= at@[i as int] < base + steps@.len());
        ids.push(steps[at[i] - base].id);
        assert(all.take(i as int + 1) =~= all.take(i as int).push(all[i as int]));
        assert(ids@ =~= old(ids)@ + all.take(i as int + 1));
        i = i + 1;
    }
    assert(all.take(all.len() as int) =~= all);
}

/// The numbers of the formulas that may be cited after some steps.
proof fn lemma_after(
    props: Seq<Prop>,
    ids: Seq<usize>,
    at: Seq<usize>,
    steps: Seq<Step>,
    after: Seq<usize>,
)
    requires
        ids_within(ids, props.len() as int),
        steps_within(steps, props.len() as int),
        positions(at) == open_positions(picked(props, ids), lines_of(props, steps)),
        after == ids + Seq::new(at.len(), |i: int| steps[at[i] - ids.len()].id),
    ensures
        ids_within(after, props.len() as int),
        picked(props, after) == grown(picked(props, ids), lines_of(props, steps)),
{
    let sv = picked(props, ids);
    let lines = lines_of(props, steps);
    lemma_open_upto(sv, lines, lines.len() as int);
    assert forall|i: int| 0 <= i < at.len() implies ids.len() <= #[trigger] at[i] < ids.len()
        + steps.len() by {
        assert(positions(at)[i] == at[i]);
    }
    assert forall|k: int| 0 <= k < after.len() implies (#[trigger] after[k]) < props.len()
        && props[after[k] as int] == grown(sv, lines)[k] by {
        if k < ids.len() {
            assert(ids[k] < props.len());
        } else {
            let c = at[k - ids.len()];
            assert(ids.len() <= c < ids.len() + steps.len());
            assert(steps[c - ids.len()].id < props.len());
            assert(positions(at)[k - ids.len()] == c);
        }
    }
    assert(picked(props, after) =~= grown(sv, lines));
}

/// Some steps, and others that go on from what may be cited after them.
fn splice_steps(
    base: usize,
    at: &Vec<usize>,
    ls: Vec<Step>,
    rs: &Vec<Step>,
    passed: Vec<usize>,
    state: Ghost<Seq<Prop>>,
    props: Ghost<Seq<Prop>>,
) -> (r: Vec<Step>)
    requires
        base == state@.len(),
        passed@.len() == base + ls@.len(),
        steps_within(ls@, props@.len() as int),
        steps_within(rs@, props@.len() as int),
        positions(at@) == open_positions(state@, lines_of(props@, ls@)),
        valid(grown(state@, lines_of(props@, ls@)), lines_of(props@, rs@)),
    ensures
        steps_within(r@, props@.len() as int),
        base + ls@.len() + rs@.len() <= usize::MAX,
        at@.len() <= ls@.len(),
        lines_of(props@, r@) == spliced(
            state@,
            lines_of(props@, ls@),
            lines_of(props@, rs@),
        ),
{
    let ghost ll = lines_of(props@, ls@);
    let ghost rl = lines_of(props@, rs@);
    let ghost after = grown(state@, ll);
    let mut total = passed;
    push_ids(&mut total, rs);
    assert(total.len() == base + ls@.len() + rs@.len());
    proof {
        lemma_open_upto(state@, ll, ll.len() as int);
        assert(positions(at@).len() == at@.len());
        assert forall|k: int, i: int|
            0 <= k < rs@.len() && 0 <= i < rs@[k].cited@.len() implies (
        #[trigger] rs@[k].cited@[i]) < base + at@.len() + rs@.len() by {
            let n = after.len() + k;
            assert(justified(after, rl, n as int));
            lemma_looks_back(after, rl, n as int);
            assert(rl[k] == line_of(props@, rs@[k]));
            assert(rl[k].cited[i] == rs@[k].cited@[i]);
        }
    }
    let lines = ls.len();
    let tail = renumber(base, at, lines, rs, props);
    let mut all = ls;
    let mut more = tail;
    all.append(&mut more);
    proof {
        assert(lines_of(props@, all@) =~= spliced(state@, ll, rl));
        assert forall|k: int| 0 <= k < all@.len() implies (#[trigger] all@[k]).id < props@.len() by {
            if k < ls@.len() {
                assert(all@[k] == ls@[k]);
            } else {
                assert(all@[k] == tail@[k - ls@.len()]);
            }
        }
    }
    all
}

/// Both halves of a conjunction and the line that joins them.
fn joined(
    goal: usize,
    base: usize,
    at: &Vec<usize>,
    ls: Vec<Step>,
    rs: Vec<Step>,
    passed: Vec<usize>,
    l_at: usize,
    r_at: usize,
    state: Ghost<Seq<Prop>>,
    props: Ghost<Seq<Prop>>,
) -> (r: Vec<Step>)
    requires
        goal < props@.len(),
        base == state@.len(),
        passed@.len() == base + ls@.len(),
        steps_within(ls@, props@.len() as int),
        steps_within(rs@, props@.len() as int),
        positions(at@) == open_positions(state@, lines_of(props@, ls@)),
        valid(grown(state@, lines_of(props@, ls@)), lines_of(props@, rs@)),
        r_at < base + at@.len() + rs@.len(),
    ensures
        steps_within(r@, props@.len() as int),
        lines_of(props@, r@) == spliced(
            state@,
            lines_of(props@, ls@),
            lines_of(props@, rs@),
        ).push(
            Line {
                formula: props@[goal as int],
                rule: "Conj"@,
                cited: seq![
                    l_at as int,
                    moved_to(
                        base as int,
                        open_positions(state@, lines_of(props@, ls@)),
                        ls@.len() as int,
                        r_at as int,
                    ),
                ],
            },
        ),
{
    let lines = ls.len();
    let all = splice_steps(base, at, ls, &rs, passed, state, props);
    let at_r = new_position(base, at, lines, r_at, Ghost(rs@.len() as int));
    with_last(all, goal, "Conj", two(l_at, at_r), props)
}

/// At the last line, steps to other formulas than the goal lead nowhere.
proof fn lemma_last_line(
    lim: Limits,
    state: Seq<Prop>,
    goal: Prop,
    ms: Seq<Line>,
    ctx: Ctx,
)
    requires
        !state.contains(goal),
        forall|i: int| 0 <= i < ms.len() ==> (#[trigger] ms[i]).formula != goal,
    ensures
        try_moves(lim, state, goal, 1, ms, ctx) == (Verdict::Nothing, ctx),
    decreases ms.len(),
{
    if ms.len() > 0 {
        let rest = ms.drop_first();
        assert forall|i: int| 0 <= i < rest.len() implies (#[trigger] rest[i]).formula != goal by {
            assert(rest[i] == ms[i + 1]);
        }
        lemma_last_line(lim, state, goal, rest, ctx);
        lemma_in_pushed(state, ms[0].formula, goal);
        assert(ms[0].formula != goal);
        assert(search(lim, state.push(ms[0].formula), goal, 0, ctx) == (Verdict::Nothing, ctx));
    }
}

impl Engine {
    /// What the search carries along.
    spec fn ctx(self) -> Ctx {
        Ctx { nodes: self.nodes as nat, truncated: self.truncated, memo: self.memo.map() }
    }

    /// The bounds of the search.
    spec fn lim(self) -> Limits {
        Limits { max_nodes: self.max_nodes as nat, cap: self.cap as nat }
    }

    /// The search is in order.
    spec fn wf(self) -> bool {
        &&& self.bank.wf()
        &&& self.memo.wf(self.bank.props())
        &&& all_clear(self.marks@)
    }

    /// The formulas of the bank.
    spec fn props(self) -> Seq<Prop> {
        self.bank.props()
    }

    /// The search is in order and knows the state and the goal.
    spec fn ready(self, state: Seq<usize>, goal: usize) -> bool {
        &&& self.wf()
        &&& ids_within(state, self.props().len() as int)
        &&& goal < self.props().len()
    }

    /// Whether `now` is what the search `self` has become, having done what is expected.
    spec fn became(self, now: Engine, r: Found, expected: (Verdict, Ctx)) -> bool {
        &&& now.wf()
        &&& now.lim() == self.lim()
        &&& extends(self.props(), now.props())
        &&& is_verdict(now.props(), r, expected.0)
        &&& !(expected.0 is Exceeded) ==> now.ctx() == expected.1
    }

    /// Searches for the goal from the state in at most `budget` lines.
    fn search(&mut self, state: &mut Vec<usize>, goal: usize, budget: usize) -> (r: Found)
        requires
            old(self).ready(old(state)@, goal),
        ensures
            final(state)@ == old(state)@,
            old(self).became(
                *final(self),
                r,
                search(
                    old(self).lim(),
                    picked(old(self).props(), old(state)@),
                    old(self).props()[goal as int],
                    budget as nat,
                    old(self).ctx(),
                ),
            ),
        decreases budget, 3int, 0int, 0int, 0int,
    {
        let ghost props = self.props();
        let ghost sv = picked(props, state@);
        let ghost g = props[goal as int];
        proof {
            lemma_has_id(self.bank, state@, goal);
        }
        if has_id(state, goal) {
            let none: Vec<Step> = Vec::new();
            assert(lines_of(props, none@) =~= Seq::<Line>::empty());
            return Found::Steps(none);
        }
        if budget == 0 {
            return Found::Nothing;
        }
        let sorted = sorted_ids(&self.bank, state);
        assert(id_key(props, sorted@, goal) == key(sv, g));
        match self.memo.get(&self.bank, &sorted, goal) {
            Some(failed) => {
                if budget <= failed {
                    return Found::Nothing;
                }
            },
            None => {},
        }
        if !self.bank.plausible(state, goal) {
            self.memo.put(&self.bank, sorted, goal, usize::MAX);
            return Found::Nothing;
        }
        if self.nodes >= self.max_nodes {
            return Found::Exceeded;
        }
        self.nodes = self.nodes + 1;
        self.expand(state, goal, budget, sorted)
    }

    /// The stages of a node.
    #[verifier::rlimit(60)]
    fn expand(&mut self, state: &mut Vec<usize>, goal: usize, budget: usize, sorted: Vec<usize>) -> (r:
        Found)
        requires
            old(self).ready(old(state)@, goal),
            budget > 0,
            is_sorted(sorted@),
            ids_within(sorted@, old(self).props().len() as int),
            id_key(old(self).props(), sorted@, goal) == key(
                picked(old(self).props(), old(state)@),
                old(self).props()[goal as int],
            ),
            !picked(old(self).props(), old(state)@).contains(old(self).props()[goal as int]),
        ensures
            final(state)@ == old(state)@,
            old(self).became(
                *final(self),
                r,
                expand(
                    old(self).lim(),
                    picked(old(self).props(), old(state)@),
                    old(self).props()[goal as int],
                    budget as nat,
                    old(self).ctx(),
                ),
            ),
        decreases budget, 2int, 5int, 0int, 0int,
    {
        let ghost props = self.props();
        let ghost lim = self.lim();
        let ghost sv = picked(props, state@);
        let ghost g = props[goal as int];
        let ghost ids = state@;
        let ghost b = budget as nat;
        let ghost c0 = self.ctx();
        let ms = bank_moves(&mut self.bank, state);
        let ghost p1 = self.props();
        proof {
            self.memo.lemma_extends(props, p1);
            lemma_picked_extends(props, p1, ids);
        }
        let ms = dedup_steps(&self.bank, ms);
        let r = self.run_moves(state, goal, budget, &ms);
        if !r.is_nothing() {
            return r;
        }
        let ghost c1 = self.ctx();
        proof {
            lemma_picked_extends(props, self.props(), ids);
            assert(expand(lim, sv, g, b, c0) == expand_goal(lim, sv, g, b, c1));
        }
        let r = self.run_shape(state, goal, budget);
        if !r.is_nothing() {
            return r;
        }
        let ghost c2 = self.ctx();
        proof {
            lemma_picked_extends(props, self.props(), ids);
            assert(expand_goal(lim, sv, g, b, c1) == expand_indirect(lim, sv, g, b, c2));
        }
        let node = self.bank.node(goal);
        let falsum = if let Kind::Contradiction = node.kind { true } else { false };
        if !falsum {
            let r = self.run_indirect(state, goal, budget);
            if !r.is_nothing() {
                return r;
            }
        }
        let ghost c3 = self.ctx();
        let ghost p3 = self.props();
        proof {
            lemma_picked_extends(props, p3, ids);
            assert(expand_indirect(lim, sv, g, b, c2) == expand_rewrites(lim, sv, g, b, c3));
        }
        let r = self.run_state_rewrites(state, goal, budget);
        if !r.is_nothing() {
            return r;
        }
        let ghost c4 = self.ctx();
        proof {
            lemma_picked_extends(props, self.props(), ids);
            assert(expand_rewrites(lim, sv, g, b, c3) == expand_goal_rewrites(lim, sv, g, b, c4));
        }
        if budget >= 2 {
            let r = self.run_goal_rewrites(state, goal, budget);
            if !r.is_nothing() {
                return r;
            }
        }
        proof {
            lemma_picked_extends(props, self.props(), ids);
            lemma_picked_extends(props, self.props(), sorted@);
        }
        self.remember(sorted, goal, budget, Ghost(key(sv, g)));
        Found::Nothing
    }

    /// Remembers a failure.
    fn remember(&mut self, sorted: Vec<usize>, goal: usize, budget: usize, Ghost(k): Ghost<Key>)
        requires
            old(self).wf(),
            is_sorted(sorted@),
            ids_within(sorted@, old(self).props().len() as int),
            goal < old(self).props().len(),
            id_key(old(self).props(), sorted@, goal) == k,
        ensures
            final(self).wf(),
            final(self).lim() == old(self).lim(),
            final(self).props() == old(self).props(),
            final(self).ctx() == remembered(old(self).ctx(), k, budget as nat),
    {
        match self.memo.get(&self.bank, &sorted, goal) {
            Some(failed) => {
                if failed >= budget {
                    return;
                }
            },
            None => {},
        }
        self.memo.put(&self.bank, sorted, goal, budget);
    }

    /// Tries the steps, each with the search going on from what it adds.
    fn run_moves(&mut self, state: &mut Vec<usize>, goal: usize, budget: usize, ms: &Vec<Step>) -> (r:
        Found)
        requires
            old(self).ready(old(state)@, goal),
            steps_within(ms@, old(self).props().len() as int),
            budget > 0,
        ensures
            final(state)@ == old(state)@,
            old(self).became(
                *final(self),
                r,
                try_moves(
                    old(self).lim(),
                    picked(old(self).props(), old(state)@),
                    old(self).props()[goal as int],
                    budget as nat,
                    lines_of(old(self).props(), ms@),
                    old(self).ctx(),
                ),
            ),
        decreases budget, 1int, 1int, 0int, 0int,
    {
        let ghost props = self.props();
        let ghost lim = self.lim();
        let ghost ids = state@;
        let ghost sv = picked(props, ids);
        let ghost g = props[goal as int];
        let ghost ls = lines_of(props, ms@);
        let ghost whole = try_moves(lim, sv, g, budget as nat, ls, self.ctx());
        let mut i: usize = 0;
        assert(ls.skip(0) =~= ls);
        while i < ms.len()
            invariant
                i <= ms@.len(),
                budget > 0,
                state@ == ids,
                self.wf(),
                self.lim() == lim,
                extends(props, self.props()),
                ids_within(ids, props.len() as int),
                goal < props.len(),
                steps_within(ms@, props.len() as int),
                sv == picked(props, ids),
                g == props[goal as int],
                ls == lines_of(props, ms@),
                whole == try_moves(lim, sv, g, budget as nat, ls.skip(i as int), self.ctx()),
                ids == old(state)@,
                props == old(self).props(),
                lim == old(self).lim(),
                whole == try_moves(lim, sv, g, budget as nat, ls, old(self).ctx()),
            decreases ms@.len() - i,
        {
            let ghost now = self.props();
            assert(ms@[i as int].id < props.len());
            let id = ms[i].id;
            state.push(id);
            proof {
                lemma_picked_extends(props, now, ids);
                assert(picked(now, state@) =~= sv.push(ls[i as int].formula));
                assert(ids_within(state@, now.len() as int)) by {
                    assert forall|k: int| 0 <= k < state@.len() implies (#[trigger] state@[k])
                        < now.len() by {
                        if k < ids.len() {
                            assert(ids[k] < props.len());
                        }
                    }
                }
                assert(ls.skip(i as int)[0] == ls[i as int]);
                assert(ls.skip(i as int).drop_first() =~= ls.skip(i as int + 1));
            }
            let r = self.search(state, goal, budget - 1);
            state.pop();
            assert(state@ =~= ids);
            match r {
                Found::Steps(steps) => {
                    let ghost after = self.props();
                    let m = with_first(
                        id,
                        ms[i].rule,
                        copy_positions(&ms[i].cited),
                        steps,
                        Ghost(after),
                    );
                    return Found::Steps(m);
                },
                Found::Exceeded => {
                    return Found::Exceeded;
                },
                Found::Nothing => {},
            }
            i = i + 1;
        }
        Found::Nothing
    }

    /// Tries a subproof.
    fn run_subproof(
        &mut self,
        state: &mut Vec<usize>,
        goal: usize,
        technique: ProofTechnique,
        assumption: usize,
        target: usize,
        budget: usize,
    ) -> (r: Found)
        requires
            old(self).ready(old(state)@, goal),
            assumption < old(self).props().len(),
            target < old(self).props().len(),
        ensures
            final(state)@ == old(state)@,
            old(self).became(
                *final(self),
                r,
                try_subproof(
                    old(self).lim(),
                    picked(old(self).props(), old(state)@),
                    old(self).props()[goal as int],
                    technique,
                    old(self).props()[assumption as int],
                    old(self).props()[target as int],
                    budget as nat,
                    old(self).ctx(),
                ),
            ),
        decreases budget, 1int, 0int, 0int, 0int,
    {
        if budget < 2 {
            return Found::Nothing;
        }
        let ghost props = self.props();
        let ghost ids = state@;
        let ghost sv = picked(props, ids);
        let start = state.len();
        state.push(assumption);
        proof {
            assert(picked(props, state@) =~= sv.push(props[assumption as int]));
            assert(ids_within(state@, props.len() as int)) by {
                assert forall|k: int| 0 <= k < state@.len() implies (#[trigger] state@[k])
                    < props.len() by {
                    if k < ids.len() {
                        assert(ids[k] < props.len());
                    }
                }
            }
        }
        let r = self.search(state, target, budget - 2);
        match r {
            Found::Steps(inside) => {
                let ghost now = self.props();
                let ghost lines = lines_of(now, inside@);
                proof {
                    lemma_picked_extends(props, now, state@);
                }
                let last = established_at(&self.bank, state, &inside, target);
                state.pop();
                assert(state@ =~= ids);
                let none: Vec<usize> = Vec::new();
                assert(positions(none@) =~= Seq::<int>::empty());
                let all = with_first(
                    assumption,
                    technique.assumption_abbreviation(),
                    none,
                    inside,
                    Ghost(now),
                );
                let all = with_last(
                    all,
                    goal,
                    technique.abbreviation(),
                    two(start, last),
                    Ghost(now),
                );
                proof {
                    let a = props[assumption as int];
                    assert(lines_of(now, all@) =~= subproof(
                        sv,
                        technique,
                        a,
                        lines,
                        props[target as int],
                        props[goal as int],
                    ));
                }
                Found::Steps(all)
            },
            other => {
                state.pop();
                assert(state@ =~= ids);
                other
            },
        }
    }

    /// Tries an indirect proof.
    fn run_indirect(&mut self, state: &mut Vec<usize>, goal: usize, budget: usize) -> (r: Found)
        requires
            old(self).ready(old(state)@, goal),
        ensures
            final(state)@ == old(state)@,
            old(self).became(
                *final(self),
                r,
                try_subproof(
                    old(self).lim(),
                    picked(old(self).props(), old(state)@),
                    old(self).props()[goal as int],
                    ProofTechnique::IndirectProof,
                    p_not(old(self).props()[goal as int]),
                    Prop::Contradiction,
                    budget as nat,
                    old(self).ctx(),
                ),
            ),
        decreases budget, 1int, 1int, 0int, 0int,
    {
        let ghost props = self.props();
        let assumption = self.bank.not(goal);
        let ghost p1 = self.props();
        let falsum = self.bank.contradiction();
        proof {
            let p2 = self.props();
            assert(p2[assumption as int] == p1[assumption as int]);
            assert(extends(props, p2));
            self.memo.lemma_extends(props, p2);
            lemma_picked_extends(props, p2, state@);
        }
        self.run_subproof(
            state,
            goal,
            ProofTechnique::IndirectProof,
            assumption,
            falsum,
            budget,
        )
    }

    /// Tries the step that the shape of the goal calls for.
    fn run_shape(&mut self, state: &mut Vec<usize>, goal: usize, budget: usize) -> (r: Found)
        requires
            old(self).ready(old(state)@, goal),
            budget > 0,
        ensures
            final(state)@ == old(state)@,
            old(self).became(
                *final(self),
                r,
                try_shape(
                    old(self).lim(),
                    picked(old(self).props(), old(state)@),
                    old(self).props()[goal as int],
                    budget as nat,
                    old(self).ctx(),
                ),
            ),
        decreases budget, 2int, 0int, 0int, 0int,
    {
        let node = self.bank.node(goal);
        let ghost props = self.props();
        let ghost ids = state@;
        let ghost sv = picked(props, ids);
        match node.kind {
            Kind::Implies => self.run_subproof(
                state,
                goal,
                ProofTechnique::ConditionalProof,
                node.a,
                node.b,
                budget,
            ),
            Kind::Or => {
                proof {
                    lemma_position(self.bank, state@, node.a);
                    lemma_position(self.bank, state@, node.b);
                }
                let known = match position_of(state, node.a) {
                    Some(i) => Some(i),
                    None => position_of(state, node.b),
                };
                match known {
                    Some(i) => {
                        let none: Vec<Step> = Vec::new();
                        let r = with_last(none, goal, "Add", one(i), Ghost(props));
                        assert(lines_of(props, r@) =~= seq![
                            Line {
                                formula: props[goal as int],
                                rule: "Add"@,
                                cited: seq![i as int],
                            },
                        ]);
                        Found::Steps(r)
                    },
                    None => {
                        let r = self.run_side(state, goal, node.a, budget);
                        if !r.is_nothing() {
                            return r;
                        }
                        proof {
                            lemma_picked_extends(props, self.props(), ids);
                        }
                        self.run_side(state, goal, node.b, budget)
                    },
                }
            },
            Kind::And => {
                let r = self.run_conj(state, goal, node.a, node.b, budget);
                if !r.is_nothing() {
                    return r;
                }
                proof {
                    lemma_picked_extends(props, self.props(), ids);
                }
                self.run_below(state, goal, node.a, 0, budget)
            },
            _ => Found::Nothing,
        }
    }

    /// Tries to prove one side of a disjunction.
    fn run_side(&mut self, state: &mut Vec<usize>, goal: usize, side: usize, budget: usize) -> (r:
        Found)
        requires
            old(self).ready(old(state)@, goal),
            side < old(self).props().len(),
            budget > 0,
        ensures
            final(state)@ == old(state)@,
            old(self).became(
                *final(self),
                r,
                try_side(
                    old(self).lim(),
                    picked(old(self).props(), old(state)@),
                    old(self).props()[goal as int],
                    old(self).props()[side as int],
                    budget as nat,
                    old(self).ctx(),
                ),
            ),
        decreases budget, 1int, 0int, 0int, 0int,
    {
        let ghost props = self.props();
        match self.search(state, side, budget - 1) {
            Found::Steps(steps) => {
                let ghost now = self.props();
                proof {
                    lemma_picked_extends(props, now, state@);
                }
                let at = established_at(&self.bank, state, &steps, side);
                Found::Steps(with_last(steps, goal, "Add", one(at), Ghost(now)))
            },
            other => other,
        }
    }

    /// Tries to prove both sides of a conjunction.
    #[verifier::rlimit(60)]
    fn run_conj(&mut self, state: &mut Vec<usize>, goal: usize, l: usize, r: usize, budget: usize) -> (res:
        Found)
        requires
            old(self).ready(old(state)@, goal),
            l < old(self).props().len(),
            r < old(self).props().len(),
        ensures
            final(state)@ == old(state)@,
            old(self).became(
                *final(self),
                res,
                try_conj(
                    old(self).lim(),
                    picked(old(self).props(), old(state)@),
                    old(self).props()[goal as int],
                    old(self).props()[l as int],
                    old(self).props()[r as int],
                    budget as nat,
                    0,
                    old(self).ctx(),
                ),
            ),
        decreases budget, 1int, 1int, 0int, 0int,
    {
        let ghost props = self.props();
        let ghost lim = self.lim();
        let ghost ids = state@;
        let ghost sv = picked(props, ids);
        let ghost g = props[goal as int];
        let ghost lp = props[l as int];
        let ghost rp = props[r as int];
        let ghost whole = try_conj(lim, sv, g, lp, rp, budget as nat, 0, self.ctx());
        let mut left: usize = 0;
        while left < budget
            invariant
                left <= budget,
                state@ == ids,
                self.wf(),
                self.lim() == lim,
                extends(props, self.props()),
                ids_within(ids, props.len() as int),
                goal < props.len(),
                l < props.len(),
                r < props.len(),
                sv == picked(props, ids),
                g == props[goal as int],
                lp == props[l as int],
                rp == props[r as int],
                whole == try_conj(lim, sv, g, lp, rp, budget as nat, left as nat, self.ctx()),
                ids == old(state)@,
                props == old(self).props(),
                lim == old(self).lim(),
                whole == try_conj(lim, sv, g, lp, rp, budget as nat, 0, old(self).ctx()),
            decreases budget - left,
        {
            proof {
                lemma_picked_extends(props, self.props(), ids);
            }
            let ghost c0 = self.ctx();
            match self.search(state, l, left) {
                Found::Exceeded => {
                    return Found::Exceeded;
                },
                Found::Nothing => {},
                Found::Steps(ls) => {
                    let ghost p1 = self.props();
                    let ghost ll = lines_of(p1, ls@);
                    if ls.len() < budget {
                        proof {
                            lemma_picked_extends(props, p1, ids);
                        }
                        let l_at = established_at(&self.bank, state, &ls, l);
                        let mut passed = copy_positions(state);
                        push_ids(&mut passed, &ls);
                        proof {
                            assert(passed.len() == ids.len() + ls@.len());
                            law_search_proves(lim, sv, lp, left as nat, c0);
                        }
                        let at = open_list(state.len(), &ls, Ghost(sv), Ghost(p1));
                        let mut after = copy_positions(state);
                        proof {
                            lemma_open_upto(sv, ll, ll.len() as int);
                            assert forall|i: int| 0 <= i < at@.len() implies ids.len()
                                <= #[trigger] at@[i] < ids.len() + ls@.len() by {
                                assert(positions(at@)[i] == at@[i]);
                            }
                        }
                        push_open(&mut after, &at, &ls);
                        proof {
                            lemma_after(p1, ids, at@, ls@, after@);
                        }
                        let rest = budget - 1 - ls.len();
                        let ghost c1 = self.ctx();
                        match self.search(&mut after, r, rest) {
                            Found::Exceeded => {
                                return Found::Exceeded;
                            },
                            Found::Nothing => {},
                            Found::Steps(rs) => {
                                let ghost p2 = self.props();
                                let ghost rl = lines_of(p2, rs@);
                                proof {
                                    lemma_picked_extends(p1, p2, after@);
                                    lemma_lines_extends(p1, p2, ls@);
                                    law_search_proves(lim, grown(sv, ll), rp, rest as nat, c1);
                                    lemma_established(grown(sv, ll), rl, rp);
                                }
                                let r_at = established_at(&self.bank, &after, &rs, r);
                                return Found::Steps(
                                    joined(
                                        goal,
                                        state.len(),
                                        &at,
                                        ls,
                                        rs,
                                        passed,
                                        l_at,
                                        r_at,
                                        Ghost(sv),
                                        Ghost(p2),
                                    ),
                                );
                            },
                        }
                    }
                },
            }
            left = left + 1;
        }
        Found::Nothing
    }

    /// Tries the subgoals below one.
    fn run_below(&mut self, state: &mut Vec<usize>, goal: usize, y: usize, d: usize, budget: usize) -> (r:
        Found)
        requires
            old(self).ready(old(state)@, goal),
            y < old(self).props().len(),
        ensures
            final(state)@ == old(state)@,
            old(self).became(
                *final(self),
                r,
                share_below(
                    old(self).lim(),
                    picked(old(self).props(), old(state)@),
                    old(self).props()[goal as int],
                    old(self).props()[y as int],
                    d as nat,
                    budget as nat,
                    old(self).ctx(),
                ),
            ),
        decreases budget, 1int, budget - d, 2int, 0int,
    {
        if self.truncated || budget < 3 || d > budget - 3 {
            return Found::Nothing;
        }
        let ghost props = self.props();
        let ghost ids = state@;
        let node = self.bank.node(y);
        let parted = match node.kind {
            Kind::Or => true,
            Kind::And => true,
            _ => false,
        };
        if parted {
            let r = self.run_share(state, goal, node.a, d + 1, budget);
            if !r.is_nothing() {
                return r;
            }
            proof {
                lemma_picked_extends(props, self.props(), ids);
            }
            let r = self.run_share(state, goal, node.b, d + 1, budget);
            if !r.is_nothing() {
                return r;
            }
            proof {
                lemma_picked_extends(props, self.props(), ids);
            }
        }
        self.run_shared_rewrites(state, goal, y, d, budget)
    }

    /// Tries the rewrites of a subgoal as subgoals.
    fn run_shared_rewrites(
        &mut self,
        state: &mut Vec<usize>,
        goal: usize,
        y: usize,
        d: usize,
        budget: usize,
    ) -> (r: Found)
        requires
            old(self).ready(old(state)@, goal),
            y < old(self).props().len(),
            d + 3 <= budget,
        ensures
            final(state)@ == old(state)@,
            ({
                let lim = old(self).lim();
                let cands = goal_rewrites(old(self).props()[y as int]);
                old(self).became(
                    *final(self),
                    r,
                    share_list(
                        lim,
                        picked(old(self).props(), old(state)@),
                        old(self).props()[goal as int],
                        selected(cands, lim.cap),
                        d as nat,
                        budget as nat,
                        noted(old(self).ctx(), cands, lim.cap),
                    ),
                )
            }),
        decreases budget, 1int, budget - d, 1int, 0int,
    {
        let ghost props = self.props();
        let ghost lim = self.lim();
        let ghost ids = state@;
        let ghost sv = picked(props, ids);
        let ghost g = props[goal as int];
        let ghost yp = props[y as int];
        let cs = goal_candidates(&mut self.bank, &mut self.marks, y);
        let ghost p1 = self.props();
        proof {
            self.memo.lemma_extends(props, p1);
            lemma_picked_extends(props, p1, ids);
            assert(cand_lines(p1, cs@, false).len() == cs@.len());
        }
        if cs.len() > self.cap {
            self.truncated = true;
        }
        let ms = select(&self.bank, &cs, false, self.cap);
        let ghost ls = lines_of(p1, ms@);
        let ghost whole = share_list(lim, sv, g, ls, d as nat, budget as nat, self.ctx());
        let mut i: usize = 0;
        assert(ls.skip(0) =~= ls);
        while i < ms.len()
            invariant
                i <= ms@.len(),
                d + 3 <= budget,
                state@ == ids,
                self.wf(),
                self.lim() == lim,
                extends(p1, self.props()),
                ids_within(ids, p1.len() as int),
                goal < p1.len(),
                steps_within(ms@, p1.len() as int),
                sv == picked(p1, ids),
                g == p1[goal as int],
                ls == lines_of(p1, ms@),
                whole == share_list(
                    lim,
                    sv,
                    g,
                    ls.skip(i as int),
                    d as nat,
                    budget as nat,
                    self.ctx(),
                ),
                ids == old(state)@,
                props == old(self).props(),
                extends(props, p1),
                goal < props.len(),
                y < props.len(),
                sv == picked(props, ids),
                g == props[goal as int],
                yp == props[y as int],
                lim == old(self).lim(),
                ls == selected(goal_rewrites(yp), lim.cap),
                whole == share_list(
                    lim,
                    sv,
                    g,
                    ls,
                    d as nat,
                    budget as nat,
                    noted(old(self).ctx(), goal_rewrites(yp), lim.cap),
                ),
            decreases ms@.len() - i,
        {
            let ghost now = self.props();
            assert(ms@[i as int].id < p1.len());
            let id = ms[i].id;
            proof {
                lemma_picked_extends(p1, now, ids);
                assert(ls.skip(i as int)[0] == ls[i as int]);
                assert(ls.skip(i as int).drop_first() =~= ls.skip(i as int + 1));
            }
            let r = self.run_share(state, goal, id, d + 1, budget);
            if !r.is_nothing() {
                return r;
            }
            i = i + 1;
        }
        Found::Nothing
    }

    /// Tries to establish a subgoal first, and then the subgoals below it.
    fn run_share(&mut self, state: &mut Vec<usize>, goal: usize, y: usize, d: usize, budget: usize) -> (r:
        Found)
        requires
            old(self).ready(old(state)@, goal),
            y < old(self).props().len(),
        ensures
            final(state)@ == old(state)@,
            old(self).became(
                *final(self),
                r,
                share(
                    old(self).lim(),
                    picked(old(self).props(), old(state)@),
                    old(self).props()[goal as int],
                    old(self).props()[y as int],
                    d as nat,
                    budget as nat,
                    old(self).ctx(),
                ),
            ),
        decreases budget, 1int, budget - d, 4int, 0int,
    {
        if self.truncated || budget < 2 || d > budget - 2 {
            return Found::Nothing;
        }
        let ghost props = self.props();
        let ghost ids = state@;
        let r = self.run_closing(state, goal, y, d, budget);
        if !r.is_nothing() {
            return r;
        }
        proof {
            lemma_picked_extends(props, self.props(), ids);
        }
        self.run_below(state, goal, y, d, budget)
    }

    /// Tries to establish a subgoal in the cheapest way.
    fn run_closing(&mut self, state: &mut Vec<usize>, goal: usize, y: usize, d: usize, budget: usize) -> (r:
        Found)
        requires
            old(self).ready(old(state)@, goal),
            y < old(self).props().len(),
            budget > 0,
        ensures
            final(state)@ == old(state)@,
            old(self).became(
                *final(self),
                r,
                share_closing(
                    old(self).lim(),
                    picked(old(self).props(), old(state)@),
                    old(self).props()[goal as int],
                    old(self).props()[y as int],
                    d as nat,
                    budget as nat,
                    old(self).ctx(),
                ),
            ),
        decreases budget, 1int, budget - d, 3int, 0int,
    {
        let ghost props = self.props();
        let ghost ids = state@;
        let ghost sv = picked(props, ids);
        let ghost yp = props[y as int];
        proof {
            lemma_has_id(self.bank, state@, y);
        }
        if has_id(state, y) {
            return Found::Nothing;
        }
        let node = self.bank.node(y);
        let mut rule: &'static str = "Add";
        let mut cited: Option<Vec<usize>> = None;
        match node.kind {
            Kind::Or => {
                proof {
                    lemma_position(self.bank, state@, node.a);
                    lemma_position(self.bank, state@, node.b);
                }
                match position_of(state, node.a) {
                    Some(i) => {
                        cited = Some(one(i));
                    },
                    None => {
                        match position_of(state, node.b) {
                            Some(i) => {
                                cited = Some(one(i));
                            },
                            None => {},
                        }
                    },
                }
            },
            Kind::And => {
                proof {
                    lemma_position(self.bank, state@, node.a);
                    lemma_position(self.bank, state@, node.b);
                }
                rule = "Conj";
                match (position_of(state, node.a), position_of(state, node.b)) {
                    (Some(i), Some(j)) => {
                        cited = Some(two(i, j));
                    },
                    _ => {},
                }
            },
            _ => {},
        }
        assert(match cited {
            Some(c) => closing_line(sv, yp) == Some(
                Line { formula: yp, rule: rule@, cited: positions(c@) },
            ),
            None => closing_line(sv, yp) is None,
        });
        match cited {
            Some(cited) => {
                state.push(y);
                proof {
                    assert(picked(props, state@) =~= sv.push(yp));
                    assert(ids_within(state@, props.len() as int)) by {
                        assert forall|k: int| 0 <= k < state@.len() implies (#[trigger] state@[k])
                            < props.len() by {
                            if k < ids.len() {
                                assert(ids[k] < props.len());
                            }
                        }
                    }
                }
                let r = self.search(state, goal, budget - 1);
                state.pop();
                assert(state@ =~= ids);
                match r {
                    Found::Steps(steps) => {
                        let ghost now = self.props();
                        Found::Steps(with_first(y, rule, cited, steps, Ghost(now)))
                    },
                    other => other,
                }
            },
            None => {
                if let Kind::Implies = node.kind {
                    let r = self.run_shared_subproof(
                        state,
                        goal,
                        ProofTechnique::ConditionalProof,
                        node.a,
                        node.b,
                        y,
                        d,
                        budget,
                    );
                    if !r.is_nothing() {
                        return r;
                    }
                    proof {
                        lemma_picked_extends(props, self.props(), ids);
                    }
                }
                if let Kind::Contradiction = node.kind {
                    return Found::Nothing;
                }
                let ghost p0 = self.props();
                let assumption = self.bank.not(y);
                let ghost p1 = self.props();
                let falsum = self.bank.contradiction();
                proof {
                    let p2 = self.props();
                    assert(p2[assumption as int] == p1[assumption as int]);
                    assert(extends(p0, p2));
                    self.memo.lemma_extends(p0, p2);
                    lemma_picked_extends(p0, p2, ids);
                }
                self.run_shared_subproof(
                    state,
                    goal,
                    ProofTechnique::IndirectProof,
                    assumption,
                    falsum,
                    y,
                    d,
                    budget,
                )
            },
        }
    }

    /// Tries subproofs of a subgoal, the shortest first.
    fn run_shared_subproof(
        &mut self,
        state: &mut Vec<usize>,
        goal: usize,
        technique: ProofTechnique,
        assumption: usize,
        target: usize,
        y: usize,
        d: usize,
        budget: usize,
    ) -> (r: Found)
        requires
            old(self).ready(old(state)@, goal),
            assumption < old(self).props().len(),
            target < old(self).props().len(),
            y < old(self).props().len(),
            !picked(old(self).props(), old(state)@).contains(old(self).props()[y as int]),
            discharge(
                technique,
                old(self).props()[assumption as int],
                old(self).props()[target as int],
            ) == Some(old(self).props()[y as int]),
        ensures
            final(state)@ == old(state)@,
            old(self).became(
                *final(self),
                r,
                share_subproof(
                    old(self).lim(),
                    picked(old(self).props(), old(state)@),
                    old(self).props()[goal as int],
                    technique,
                    old(self).props()[assumption as int],
                    old(self).props()[target as int],
                    old(self).props()[y as int],
                    d as nat,
                    0,
                    budget as nat,
                    old(self).ctx(),
                ),
            ),
        decreases budget, 1int, budget - d, 1int, 0int,
    {
        let ghost props = self.props();
        let ghost lim = self.lim();
        let ghost ids = state@;
        let ghost sv = picked(props, ids);
        let ghost g = props[goal as int];
        let ghost ap = props[assumption as int];
        let ghost tp = props[target as int];
        let ghost yp = props[y as int];
        let ghost b = budget as nat;
        let ghost whole = share_subproof(
            lim,
            sv,
            g,
            technique,
            ap,
            tp,
            yp,
            d as nat,
            0,
            b,
            self.ctx(),
        );
        if budget < 3 || d > budget - 3 {
            return Found::Nothing;
        }
        let most = budget - 3 - d;
        let mut k: usize = 0;
        let mut done = false;
        while !done
            invariant
                d + 3 <= budget,
                most == budget - 3 - d,
                !done ==> k <= most,
                state@ == ids,
                self.wf(),
                self.lim() == lim,
                extends(props, self.props()),
                ids_within(ids, props.len() as int),
                goal < props.len(),
                assumption < props.len(),
                target < props.len(),
                y < props.len(),
                sv == picked(props, ids),
                g == props[goal as int],
                ap == props[assumption as int],
                tp == props[target as int],
                yp == props[y as int],
                b == budget as nat,
                !sv.contains(yp),
                discharge(technique, ap, tp) == Some(yp),
                !done ==> whole == share_subproof(
                    lim,
                    sv,
                    g,
                    technique,
                    ap,
                    tp,
                    yp,
                    d as nat,
                    k as nat,
                    b,
                    self.ctx(),
                ),
                done ==> whole == (Verdict::Nothing, self.ctx()),
                ids == old(state)@,
                props == old(self).props(),
                lim == old(self).lim(),
                whole == share_subproof(
                    lim,
                    sv,
                    g,
                    technique,
                    ap,
                    tp,
                    yp,
                    d as nat,
                    0,
                    b,
                    old(self).ctx(),
                ),
            decreases budget - k + (if done { 0int } else { 1int }),
        {
            let ghost now = self.props();
            let ghost c0 = self.ctx();
            state.push(assumption);
            proof {
                lemma_picked_extends(props, now, ids);
                assert(picked(now, state@) =~= sv.push(ap));
                assert(ids_within(state@, now.len() as int)) by {
                    assert forall|j: int| 0 <= j < state@.len() implies (#[trigger] state@[j])
                        < now.len() by {
                        if j < ids.len() {
                            assert(ids[j] < props.len());
                        }
                    }
                }
            }
            match self.search(state, target, k) {
                Found::Exceeded => {
                    state.pop();
                    assert(state@ =~= ids);
                    return Found::Exceeded;
                },
                Found::Nothing => {
                    state.pop();
                    assert(state@ =~= ids);
                    if k == most {
                        assert(share_subproof(
                            lim,
                            sv,
                            g,
                            technique,
                            ap,
                            tp,
                            yp,
                            d as nat,
                            (k + 1) as nat,
                            b,
                            self.ctx(),
                        ) == (Verdict::Nothing, self.ctx()));
                        done = true;
                    } else {
                        k = k + 1;
                    }
                },
                Found::Steps(inside) => {
                    proof {
                        let after = self.props();
                        lemma_picked_extends(now, after, state@);
                        lemma_picked_extends(props, after, ids);
                        law_search_proves(lim, sv.push(ap), tp, k as nat, c0);
                        assert(picked(after, state@) == sv.push(ap));
                        assert(state@.drop_last() =~= ids);
                        assert(proves(sv.push(ap), tp, inside@.len(), lines_of(after, inside@)));
                    }
                    return self.finish_shared(
                        state,
                        goal,
                        technique,
                        assumption,
                        target,
                        y,
                        inside,
                        budget,
                    );
                },
            }
        }
        Found::Nothing
    }

    /// Goes on from a subproof of a subgoal; the state still holds the assumption.
    fn finish_shared(
        &mut self,
        state: &mut Vec<usize>,
        goal: usize,
        technique: ProofTechnique,
        assumption: usize,
        target: usize,
        y: usize,
        inside: Vec<Step>,
        budget: usize,
    ) -> (r: Found)
        requires
            old(self).ready(old(state)@, goal),
            old(state)@.len() > 0,
            assumption < old(self).props().len(),
            target < old(self).props().len(),
            y < old(self).props().len(),
            old(state)@.last() == assumption,
            steps_within(inside@, old(self).props().len() as int),
            inside@.len() + 2 < budget,
            !picked(old(self).props(), old(state)@.drop_last()).contains(
                old(self).props()[y as int],
            ),
            discharge(
                technique,
                old(self).props()[assumption as int],
                old(self).props()[target as int],
            ) == Some(old(self).props()[y as int]),
            proves(
                picked(old(self).props(), old(state)@),
                old(self).props()[target as int],
                inside@.len(),
                lines_of(old(self).props(), inside@),
            ),
        ensures
            final(state)@ == old(state)@.drop_last(),
            ({
                let sv = picked(old(self).props(), old(state)@.drop_last());
                let yp = old(self).props()[y as int];
                let sub = subproof(
                    sv,
                    technique,
                    old(self).props()[assumption as int],
                    lines_of(old(self).props(), inside@),
                    old(self).props()[target as int],
                    yp,
                );
                let next = search(
                    old(self).lim(),
                    sv.push(yp),
                    old(self).props()[goal as int],
                    (budget - 2 - inside@.len()) as nat,
                    old(self).ctx(),
                );
                old(self).became(
                    *final(self),
                    r,
                    match next {
                        (Verdict::Found(steps), c2) => (
                            Verdict::Found(spliced(sv, sub, steps)),
                            c2,
                        ),
                        other => other,
                    },
                )
            }),
        decreases budget, 1int, 0int, 0int, 0int,
    {
        let ghost props = self.props();
        let ghost lim = self.lim();
        let ghost full = state@;
        let ghost ids = state@.drop_last();
        let ghost sv = picked(props, ids);
        let ghost g = props[goal as int];
        let ghost ap = props[assumption as int];
        let ghost tp = props[target as int];
        let ghost yp = props[y as int];
        let ghost lines = lines_of(props, inside@);
        let last = established_at(&self.bank, state, &inside, target);
        state.pop();
        assert(state@ =~= ids);
        let start = state.len();
        let length = inside.len();
        let none: Vec<usize> = Vec::new();
        assert(positions(none@) =~= Seq::<int>::empty());
        let all = with_first(
            assumption,
            technique.assumption_abbreviation(),
            none,
            inside,
            Ghost(props),
        );
        let all = with_last(all, y, technique.abbreviation(), two(start, last), Ghost(props));
        let ghost sub = subproof(sv, technique, ap, lines, tp, yp);
        proof {
            assert(picked(props, full) =~= sv.push(ap));
            assert(lines_of(props, all@) =~= sub);
            lemma_closed_proves(sv, technique, ap, tp, lines, yp, lines.len() + 2);
            lemma_subproof_grown(sv, technique, ap, lines, tp, yp);
        }
        let mut passed = copy_positions(state);
        push_ids(&mut passed, &all);
        assert(passed.len() == start + all@.len());
        let at = one(start + length + 1);
        assert(positions(at@) =~= open_positions(sv, sub));
        state.push(y);
        proof {
            assert(picked(props, state@) =~= sv.push(yp));
            assert(ids_within(state@, props.len() as int)) by {
                assert forall|j: int| 0 <= j < state@.len() implies (#[trigger] state@[j])
                    < props.len() by {
                    if j < ids.len() {
                        assert(ids[j] == full[j]);
                    }
                }
            }
        }
        let ghost c1 = self.ctx();
        let rest = budget - 2 - length;
        let r = self.search(state, goal, rest);
        state.pop();
        assert(state@ =~= ids);
        match r {
            Found::Steps(steps) => {
                let ghost now = self.props();
                proof {
                    law_search_proves(lim, sv.push(yp), g, rest as nat, c1);
                    lemma_lines_extends(props, now, all@);
                }
                Found::Steps(
                    splice_steps(start, &at, all, &steps, passed, Ghost(sv), Ghost(now)),
                )
            },
            other => other,
        }
    }

    /// Tries the rewrites of the formulas of the state.
    fn run_state_rewrites(&mut self, state: &mut Vec<usize>, goal: usize, budget: usize) -> (r: Found)
        requires
            old(self).ready(old(state)@, goal),
            budget > 0,
            !picked(old(self).props(), old(state)@).contains(old(self).props()[goal as int]),
        ensures
            final(state)@ == old(state)@,
            ({
                let lim = old(self).lim();
                let sv = picked(old(self).props(), old(state)@);
                let cands = state_rewrites(sv);
                old(self).became(
                    *final(self),
                    r,
                    try_moves(
                        lim,
                        sv,
                        old(self).props()[goal as int],
                        budget as nat,
                        selected(cands, lim.cap),
                        noted(old(self).ctx(), cands, lim.cap),
                    ),
                )
            }),
        decreases budget, 2int, 0int, 0int, 0int,
    {
        let ghost props = self.props();
        let ghost ids = state@;
        let ghost sv = picked(props, ids);
        let ghost g = props[goal as int];
        let ghost c0 = self.ctx();
        let ghost cands = state_rewrites(sv);
        if budget == 1 && self.truncated {
            let near = self.bank.near(goal, state);
            proof {
                self.memo.lemma_extends(props, self.props());
            }
            if !near {
                proof {
                    lemma_far(sv, g, self.cap as nat);
                    lemma_last_line(self.lim(), sv, g, selected(cands, self.cap as nat), c0);
                    assert(noted(c0, cands, self.cap as nat) == c0);
                }
                return Found::Nothing;
            }
        }
        let ghost p0 = self.props();
        proof {
            lemma_picked_extends(props, p0, ids);
        }
        let cs = state_candidates(&mut self.bank, &mut self.marks, state);
        let ghost p1 = self.props();
        proof {
            self.memo.lemma_extends(p0, p1);
            lemma_picked_extends(props, p1, ids);
            assert(cand_lines(p1, cs@, true).len() == cs@.len());
        }
        if cs.len() > self.cap {
            self.truncated = true;
        }
        let ms = select(&self.bank, &cs, true, self.cap);
        self.run_moves(state, goal, budget, &ms)
    }

    /// Tries the rewrites of the goal.
    fn run_goal_rewrites(&mut self, state: &mut Vec<usize>, goal: usize, budget: usize) -> (r: Found)
        requires
            old(self).ready(old(state)@, goal),
            budget > 0,
        ensures
            final(state)@ == old(state)@,
            ({
                let lim = old(self).lim();
                let g = old(self).props()[goal as int];
                let cands = goal_rewrites(g);
                old(self).became(
                    *final(self),
                    r,
                    try_goals(
                        lim,
                        picked(old(self).props(), old(state)@),
                        g,
                        budget as nat,
                        selected(cands, lim.cap),
                        noted(old(self).ctx(), cands, lim.cap),
                    ),
                )
            }),
        decreases budget, 2int, 0int, 0int, 0int,
    {
        let ghost props = self.props();
        let ghost lim = self.lim();
        let ghost ids = state@;
        let ghost sv = picked(props, ids);
        let ghost g = props[goal as int];
        let cs = goal_candidates(&mut self.bank, &mut self.marks, goal);
        let ghost p1 = self.props();
        proof {
            self.memo.lemma_extends(props, p1);
            lemma_picked_extends(props, p1, ids);
            assert(cand_lines(p1, cs@, false).len() == cs@.len());
        }
        if cs.len() > self.cap {
            self.truncated = true;
        }
        let ms = select(&self.bank, &cs, false, self.cap);
        let ghost ls = lines_of(p1, ms@);
        let ghost whole = try_goals(lim, sv, g, budget as nat, ls, self.ctx());
        let mut i: usize = 0;
        assert(ls.skip(0) =~= ls);
        while i < ms.len()
            invariant
                i <= ms@.len(),
                budget > 0,
                state@ == ids,
                self.wf(),
                self.lim() == lim,
                extends(p1, self.props()),
                ids_within(ids, p1.len() as int),
                goal < p1.len(),
                steps_within(ms@, p1.len() as int),
                sv == picked(p1, ids),
                g == p1[goal as int],
                ls == lines_of(p1, ms@),
                whole == try_goals(lim, sv, g, budget as nat, ls.skip(i as int), self.ctx()),
                ids == old(state)@,
                props == old(self).props(),
                extends(props, p1),
                goal < props.len(),
                sv == picked(props, ids),
                g == props[goal as int],
                lim == old(self).lim(),
                ls == selected(goal_rewrites(g), lim.cap),
                whole == try_goals(
                    lim,
                    sv,
                    g,
                    budget as nat,
                    ls,
                    noted(old(self).ctx(), goal_rewrites(g), lim.cap),
                ),
            decreases ms@.len() - i,
        {
            let ghost now = self.props();
            assert(ms@[i as int].id < p1.len());
            let id = ms[i].id;
            proof {
                lemma_picked_extends(p1, now, ids);
                assert(ls.skip(i as int)[0] == ls[i as int]);
                assert(ls.skip(i as int).drop_first() =~= ls.skip(i as int + 1));
            }
            match self.search(state, id, budget - 1) {
                Found::Steps(steps) => {
                    let ghost after = self.props();
                    proof {
                        lemma_picked_extends(p1, after, ids);
                    }
                    let at = established_at(&self.bank, state, &steps, id);
                    return Found::Steps(
                        with_last(steps, goal, ms[i].rule, one(at), Ghost(after)),
                    );
                },
                Found::Exceeded => {
                    return Found::Exceeded;
                },
                Found::Nothing => {},
            }
            i = i + 1;
        }
        Found::Nothing
    }
}

/// Steps over a bank as the steps of a proof.
fn to_proof(bank: &Bank, steps: &Vec<Step>) -> (r: Vec<ProofStep>)
    requires
        bank.wf(),
        steps_within(steps@, bank.props().len() as int),
    ensures
        step_views(r@) == lines_of(bank.props(), steps@),
{
    let mut r: Vec<ProofStep> = Vec::new();
    let mut i: usize = 0;
    while i < steps.len()
        invariant
            i <= steps@.len(),
            bank.wf(),
            steps_within(steps@, bank.props().len() as int),
            r@.len() == i,
            forall|j: int| 0 <= j < i ==> (#[trigger] r@[j])@ == line_of(bank.props(), steps@[j]),
        decreases steps@.len() - i,
    {
        assert(steps@[i as int].id < bank.props().len());
        r.push(
            step(
                bank.formula(steps[i].id),
                steps[i].rule,
                copy_positions(&steps[i].cited),
            ),
        );
        i = i + 1;
    }
    assert(step_views(r@) =~= lines_of(bank.props(), steps@));
    r
}

/// Whether an outcome is what a deepening search ends with.
pub open spec fn outcome_is(r: OptimalOutcome, v: Verdict, ctx: Ctx) -> bool {
    match (r, v) {
        (OptimalOutcome::Proved { proof, minimal_proven }, Verdict::Found(steps)) => {
            &&& step_views(proof.steps@) == steps
            &&& proof.line_count == steps.len()
            &&& minimal_proven == !ctx.truncated
        },
        (OptimalOutcome::NotProvedWithinBounds, Verdict::Nothing) => true,
        (OptimalOutcome::Exhausted, Verdict::Exceeded) => true,
        _ => false,
    }
}

/// Iterative deepening on line count, up to the first proof found.
fn prove_deepening(premises: &[Formula], goal: &Formula, cfg: &OptimalConfig) -> (r: OptimalOutcome)
    ensures
        ({
            let end = deepen(
                cfg.limits(),
                views(premises@),
                goal@,
                1,
                cfg.max_lines as nat,
                fresh_ctx(),
            );
            outcome_is(r, end.0, end.1)
        }),
{
    let mut bank = Bank::new(262_139);
    let mut state = bank.intern_all(premises);
    let ghost p0 = bank.props();
    let goal_id = bank.intern(goal);
    let ghost props = bank.props();
    let memo = Memo::new(262_139, Ghost(props));
    let mut engine = Engine {
        bank,
        memo,
        marks: Vec::new(),
        nodes: 0,
        truncated: false,
        max_nodes: cfg.max_nodes,
        cap: cfg.equiv_moves_per_state,
    };
    let ghost ids = state@;
    let ghost sv = views(premises@);
    let ghost g = goal@;
    let ghost lim = cfg.limits();
    let ghost whole = deepen(lim, sv, g, 1, cfg.max_lines as nat, fresh_ctx());
    proof {
        lemma_picked_extends(p0, props, ids);
    }
    let mut depth: usize = 1;
    let mut done = cfg.max_lines == 0;
    while !done
        invariant
            engine.wf(),
            engine.lim() == lim,
            lim == cfg.limits(),
            state@ == ids,
            extends(props, engine.props()),
            ids_within(ids, props.len() as int),
            goal_id < props.len(),
            picked(props, ids) == sv,
            props[goal_id as int] == g,
            1 <= depth,
            sv == views(premises@),
            g == goal@,
            whole == deepen(lim, sv, g, 1, cfg.max_lines as nat, fresh_ctx()),
            !done ==> depth <= cfg.max_lines && whole == deepen(
                lim,
                sv,
                g,
                depth as nat,
                cfg.max_lines as nat,
                engine.ctx(),
            ),
            done ==> whole == deepen(
                lim,
                sv,
                g,
                (cfg.max_lines + 1) as nat,
                cfg.max_lines as nat,
                engine.ctx(),
            ),
        decreases cfg.max_lines - depth + (if done { 0int } else { 1int }),
    {
        proof {
            lemma_picked_extends(props, engine.props(), ids);
        }
        match engine.search(&mut state, goal_id, depth) {
            Found::Steps(steps) => {
                let line_count = steps.len();
                let steps = to_proof(&engine.bank, &steps);
                return OptimalOutcome::Proved {
                    proof: FoundProof { steps, line_count },
                    minimal_proven: !engine.truncated,
                };
            },
            Found::Exceeded => {
                return OptimalOutcome::Exhausted;
            },
            Found::Nothing => {},
        }
        if depth == cfg.max_lines {
            done = true;
        } else {
            depth = depth + 1;
        }
    }
    OptimalOutcome::NotProvedWithinBounds
}

/// Runs the bounded optimal ("lawyer") policy: iterative deepening on line count,
/// returning the first proof found within the bounds of `cfg`.
pub fn optimal_prove(premises: &[Formula], goal: &Formula, cfg: &OptimalConfig) -> (r: OptimalOutcome)
    ensures
        ({
            let end = deepen(
                cfg.limits(),
                views(premises@),
                goal@,
                1,
                cfg.max_lines as nat,
                fresh_ctx(),
            );
            outcome_is(r, end.0, end.1)
        }),
        r matches OptimalOutcome::Proved { proof, .. } ==> proof.line_count == proof.steps@.len()
            && proof.line_count <= cfg.max_lines && valid(
            views(premises@),
            step_views(proof.steps@),
        ) && entails(views(premises@), goal@),
        r matches OptimalOutcome::Proved { proof, minimal_proven: true } ==> forall|fewer: nat|
            fewer < proof.line_count ==> !#[trigger] derivable(
                views(premises@).to_multiset(),
                goal@,
                fewer,
            ),
        forall|lines: nat|
            lines <= cfg.max_lines && 1 <= cfg.max_lines && #[trigger] reached(
                cfg.equiv_moves_per_state as nat,
                views(premises@).to_multiset(),
                goal@,
                lines,
            ) ==> r is Exhausted || (r matches OptimalOutcome::Proved { proof, .. }
                && proof.line_count <= lines),
{
    let r = prove_deepening(premises, goal, cfg);
    proof {
        let lim = cfg.limits();
        let ps = views(premises@);
        let max = cfg.max_lines as nat;
        law_optimal_proves(lim, ps, goal@, 1, max, fresh_ctx());
        law_optimal_sound(lim, ps, goal@, 1, max, fresh_ctx());
        law_certified_minimal(lim, ps, goal@, max);
        assert forall|lines: nat|
            lines <= cfg.max_lines && 1 <= cfg.max_lines && #[trigger] reached(
                cfg.equiv_moves_per_state as nat,
                ps.to_multiset(),
                goal@,
                lines,
            ) implies r is Exhausted || (r matches OptimalOutcome::Proved { proof, .. }
            && proof.line_count <= lines) by {
            law_optimal_complete(lim, ps, goal@, max, lines);
        }
    }
    r
}

} // verus!
