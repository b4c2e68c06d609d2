//! What holds of everything that is planted.

use vstd::prelude::*;

use super::candidate::PlantSpec;
use super::cone::{best_upto, kept_upto, needed, rank, rebuilt, refs_at};
use super::costume::{body, disguised, disguises, dressed_upto, looks, plain, worn, Costume};
use super::dressing::{
    law_disguised_sewn, law_dressed_verified, lemma_disguises, lemma_dressed_sewn, reversible, sewn,
};
use super::growth::{fits, Growth};
use super::planting::{
    derivation, law_derivation_justified, lemma_best, lemma_first_lines, planted, premises_for,
};
use super::rebuilding::{
    carried_reason, finished, law_rebuilt_finished, lemma_rank, lemma_rank_onto,
    lemma_rebuilt_unrepeated, lemma_rebuilt_upto, regrown,
};
use super::sampling::{law_sampled_compatible, pool};
use super::soundness::{apart, draft_of, orderly, unrepeated};
use super::tailoring::{depends, law_dressed_all_needed, law_dressed_fresh};
use crate::models::formula::{all_true, equivalent, eval, satisfiable, Prop, Valuation};
use crate::models::lists::{lemma_in_joined, lemma_in_pushed};
use crate::models::proofs::{Draft, Reason};
use crate::models::rules::equivalence::{law_forms_equivalent, law_replace_all_equivalent};
use crate::models::scopes::{depth_at, lemma_depth_zero, Span};
use crate::services::dice::{index_drawn, passes_drawn, seeded};
use crate::services::verification::{citable, ends_subproof, fault_at};

verus! {

/// A line that is kept refers to the lines that it referred to.
proof fn lemma_refs_rebuilt(g: Growth, premises: int, target: int, j: int, n: int)
    requires
        orderly(g, premises),
        forall|k: int| 0 <= k < g.spans.len() ==> (#[trigger] g.spans[k]).end is Some,
        forall|k: int| 0 <= k < g.spans.len() ==> !(#[trigger] g.spans[k]).holds(target),
        premises < target <= g.lines.len(),
        1 <= n < j <= target,
        needed(g.lines, target, j),
        needed(g.lines, target, n),
        refs_at(g.lines, j).contains(n),
    ensures
        1 <= rank(g.lines, target, n) < rank(g.lines, target, j) <= rank(g.lines, target, target),
        refs_at(
            regrown(rebuilt(g.lines, premises, target)).lines,
            rank(g.lines, target, j),
        ).contains(rank(g.lines, target, n)),
{
    let lines = g.lines;
    let new = regrown(rebuilt(lines, premises, target)).lines;
    lemma_rebuilt_upto(g, premises, target, target);
    lemma_rank(lines, target, n, j);
    lemma_rank(lines, target, j - 1, j);
    lemma_rank(lines, target, n, j - 1);
    lemma_rank(lines, target, j, target);
    lemma_rank(lines, target, 0, n - 1);
    lemma_rank(lines, target, n - 1, n);
    let p = rank(lines, target, j);
    let refs = refs_at(lines, j);
    let i = choose|i: int| 0 <= i < refs.len() && refs[i] == n;
    assert(new[p - 1].reason == carried_reason(lines, target, lines[j - 1].reason));
    assert(refs_at(new, p)[i] == rank(lines, target, n));
}

/// A line that is kept is needed in the rebuilt proof.
proof fn lemma_needed_rebuilt(g: Growth, premises: int, target: int, n: int)
    requires
        orderly(g, premises),
        forall|k: int| 0 <= k < g.spans.len() ==> (#[trigger] g.spans[k]).end is Some,
        forall|k: int| 0 <= k < g.spans.len() ==> !(#[trigger] g.spans[k]).holds(target),
        premises < target <= g.lines.len(),
        1 <= n <= target,
        needed(g.lines, target, n),
    ensures
        needed(
            regrown(rebuilt(g.lines, premises, target)).lines,
            rank(g.lines, target, target),
            rank(g.lines, target, n),
        ),
    decreases target - n,
{
    let lines = g.lines;
    if n != target {
        let new = regrown(rebuilt(lines, premises, target)).lines;
        let j = choose|j: int|
            n < j <= target && needed(lines, target, j) && (#[trigger] refs_at(lines, j)).contains(
                n,
            );
        lemma_needed_rebuilt(g, premises, target, j);
        lemma_refs_rebuilt(g, premises, target, j, n);
        assert(refs_at(new, rank(lines, target, j)).contains(rank(lines, target, n)));
    }
}

/// In a rebuilt proof the conclusion depends on every line.
pub proof fn law_rebuilt_all_needed(g: Growth, premises: int, target: int, p: int)
    requires
        orderly(g, premises),
        forall|k: int| 0 <= k < g.spans.len() ==> (#[trigger] g.spans[k]).end is Some,
        premises < target <= g.lines.len(),
        depth_at(g.spans, target) == 0,
        1 <= p <= rebuilt(g.lines, premises, target).rows.len(),
    ensures
        needed(
            regrown(rebuilt(g.lines, premises, target)).lines,
            rebuilt(g.lines, premises, target).rows.len() as int,
            p,
        ),
{
    lemma_depth_zero(g.spans, target);
    lemma_rebuilt_upto(g, premises, target, target);
    let n = lemma_rank_onto(g.lines, target, target, p);
    lemma_needed_rebuilt(g, premises, target, n);
}

/// In a finished proof in which the last line depends on every line, the last line of
/// each subproof depends on every line of it after the assumption.
proof fn lemma_scope_needed(d: Draft, k: int, i: int)
    requires
        finished(d),
        forall|p: int|
            1 <= p <= d.rows.len() ==> #[trigger] needed(
                regrown(d).lines,
                d.rows.len() as int,
                p,
            ),
        0 <= k < d.spans.len(),
        d.spans[k].end is Some,
        d.spans[k].start < i <= d.spans[k].end->0,
    ensures
        needed(regrown(d).lines, d.spans[k].end->0, i),
    decreases d.spans[k].end->0 - i,
{
    let g = regrown(d);
    let premises = d.premises.len() as int;
    let dg = draft_of(g, premises);
    let last = d.rows.len() as int;
    let span = d.spans[k];
    let end = span.end->0;
    assert(g.spans[k] == span);
    assert(end < g.lines.len());
    if i != end {
        assert(needed(g.lines, last, i));
        let j = choose|j: int|
            i < j <= last && needed(g.lines, last, j) && (#[trigger] refs_at(g.lines, j)).contains(
                i,
            );
        assert(fault_at(dg, j) is None);
        assert(dg.rows[j - 1].reason == g.lines[j - 1].reason);
        if j <= end {
            lemma_scope_needed(d, k, j);
        } else {
            assert(dg.spans[k] == span);
            assert(span.holds(i) && !span.holds(j));
            match g.lines[j - 1].reason {
                Reason::Inference(rule, ls) => {
                    let m = choose|m: int| 0 <= m < ls.len() && ls[m] == i;
                    assert(citable(dg, j, ls[m]));
                },
                Reason::Equivalence(_, line) => {
                    assert(citable(dg, j, line));
                },
                Reason::Discharge(t, s2, e2) => {
                    assert(ends_subproof(dg, j, t, s2, e2));
                    let inner = Span { start: s2, end: Some(e2) };
                    let m = choose|m: int| 0 <= m < dg.spans.len() && dg.spans[m] == inner;
                    assert(g.spans[m] == inner);
                    if m < k {
                        assert(apart(g.spans[m], g.spans[k]));
                        assert(g.spans[m].start < g.spans[k].start);
                    } else if m > k {
                        assert(apart(g.spans[k], g.spans[m]));
                        assert(g.spans[k].start < g.spans[m].start);
                    }
                },
                _ => {},
            }
        }
    }
}

/// In what is planted without a costume, no subproof carries dead lines: its last line
/// depends on every line of it after the assumption.
pub proof fn law_planted_scopes_needed(spec: PlantSpec, seed: u64)
    requires
        spec.obfuscation_passes == 0,
    ensures
        planted(spec, seed) matches Ok(d) ==> forall|k: int, i: int|
            0 <= k < d.spans.len() && d.spans[k].start < i <= d.spans[k].end->0
                ==> #[trigger] needed(regrown(d).lines, (#[trigger] d.spans[k]).end->0, i),
{
    let g = derivation(spec, seed);
    let premises = premises_for(spec, seed).len() as int;
    law_derivation_justified(spec, seed);
    lemma_best(g, premises, g.lines.len() as int);
    match best_upto(g, premises, g.lines.len() as int) {
        Some(line) => {
            let d = rebuilt(g.lines, premises, line);
            law_rebuilt_finished(g, premises, line);
            assert forall|p: int| 1 <= p <= d.rows.len() implies #[trigger] needed(
                regrown(d).lines,
                d.rows.len() as int,
                p,
            ) by {
                law_rebuilt_all_needed(g, premises, line, p);
            }
            assert forall|k: int, i: int|
                0 <= k < d.spans.len() && d.spans[k].start < i
                    <= d.spans[k].end->0 implies #[trigger] needed(
                regrown(d).lines,
                (#[trigger] d.spans[k]).end->0,
                i,
            ) by {
                lemma_scope_needed(d, k, i);
            }
        },
        None => {},
    }
}

/// Whether the stages of a costume after the first are all different from each other and
/// from the first, short enough, and none of the formulas to be avoided.
pub open spec fn discreet(c: Costume, max: nat, avoid: Seq<Prop>) -> bool {
    &&& c.stages.no_duplicates()
    &&& forall|k: int|
        1 <= k < c.stages.len() ==> fits(#[trigger] c.stages[k], max) && !avoid.contains(
            c.stages[k],
        )
}

/// A costume stays discreet as it is worn.
proof fn lemma_worn_discreet(c: Costume, max: nat, avoid: Seq<Prop>, passes: nat, held: Seq<u32>)
    requires
        discreet(c, max, avoid),
        c.stages.len() >= 1,
    ensures
        discreet(worn(c, max, avoid, passes, held).0, max, avoid),
    decreases passes,
{
    if passes > 0 {
        let all = disguises(c.formula, max, avoid + c.stages);
        if all.len() == 0 {
            lemma_worn_discreet(c, max, avoid, (passes - 1) as nat, held);
        } else {
            let (i, h1) = index_drawn(held, all.len() as int);
            let x = all[i];
            assert(all.contains(x));
            lemma_disguises(c.formula, max, avoid + c.stages, x);
            lemma_in_joined(avoid, c.stages, x.next);
            let next = Costume {
                formula: x.next,
                trace: c.trace.push(x),
                stages: c.stages.push(x.next),
            };
            assert(next.stages.no_duplicates()) by {
                assert forall|a: int, b: int|
                    0 <= a < next.stages.len() && 0 <= b < next.stages.len() && a
                        != b implies next.stages[a] != next.stages[b] by {
                    if a < c.stages.len() && b == c.stages.len() {
                        assert(c.stages.contains(c.stages[a]));
                    } else if b < c.stages.len() && a == c.stages.len() {
                        assert(c.stages.contains(c.stages[b]));
                    }
                }
            }
            lemma_worn_discreet(next, max, avoid, (passes - 1) as nat, h1);
        }
    }
}

/// A disguise never leads to a formula that it is to avoid, and never back to a formula
/// that it has passed through.
pub proof fn law_disguised_discreet(f: Prop, most: u8, max: nat, avoid: Seq<Prop>, held: Seq<u32>)
    ensures
        discreet(disguised(f, most, max, avoid, held).0, max, avoid),
{
    let (n, h1) = passes_drawn(held, most);
    lemma_worn_discreet(plain(f), max, avoid, n, h1);
}

/// What the costumes of the first `n` premises passed through is collected.
proof fn lemma_stages_collected(d: Draft, most: u8, max: nat, n: int, held: Seq<u32>, i: int, k: int)
    requires
        0 <= i < n <= d.premises.len(),
        0 <= k < dressed_upto(d, most, max, n, held).0[i].stages.len(),
    ensures
        dressed_upto(d, most, max, n, held).1.contains(
            dressed_upto(d, most, max, n, held).0[i].stages[k],
        ),
    decreases n,
{
    lemma_dressed_sewn(d, most, max, n - 1, held);
    let (costumes, stages, h1) = dressed_upto(d, most, max, n - 1, held);
    let avoid = d.premises.skip(n) + seq![d.conclusion] + stages + body(d);
    let c = disguised(d.premises[n - 1], most, max, avoid, h1).0;
    let x = dressed_upto(d, most, max, n, held).0[i].stages[k];
    lemma_in_joined(stages, c.stages, x);
    if i < n - 1 {
        lemma_stages_collected(d, most, max, n - 1, held, i, k);
    } else {
        assert(c.stages.contains(x));
    }
}

/// Whether a formula is a line after the premises, the conclusion, a premise after the
/// one at `i`, or something that one of the costumes before `i` passed through.
pub open spec fn taken(d: Draft, costumes: Seq<Costume>, i: int, x: Prop) -> bool {
    ||| body(d).contains(x)
    ||| x == d.conclusion
    ||| exists|j: int| i < j < d.premises.len() && #[trigger] d.premises[j] == x
    ||| exists|j: int| 0 <= j < i && (#[trigger] costumes[j]).stages.contains(x)
}

/// Costumes of premises stay apart: none of them passes through a line of the proof after
/// the premises, the conclusion, a premise whose costume comes later, or anything that an
/// earlier costume passed through.
pub proof fn law_costumes_apart(d: Draft, most: u8, max: nat, n: int, held: Seq<u32>)
    requires
        0 <= n <= d.premises.len(),
    ensures
        forall|i: int, k: int|
            0 <= i < n && 1 <= k < dressed_upto(d, most, max, n, held).0[i].stages.len() ==> !taken(
                d,
                dressed_upto(d, most, max, n, held).0,
                i,
                #[trigger] dressed_upto(d, most, max, n, held).0[i].stages[k],
            ),
    decreases n,
{
    if n > 0 {
        law_costumes_apart(d, most, max, n - 1, held);
        lemma_dressed_sewn(d, most, max, n - 1, held);
        let (costumes, stages, h1) = dressed_upto(d, most, max, n - 1, held);
        let later = d.premises.skip(n);
        let head = later + seq![d.conclusion];
        let avoid = head + stages + body(d);
        law_disguised_discreet(d.premises[n - 1], most, max, avoid, h1);
        let all = dressed_upto(d, most, max, n, held).0;
        assert forall|i: int, k: int| 0 <= i < n && 1 <= k < all[i].stages.len() implies !taken(
            d,
            all,
            i,
            #[trigger] all[i].stages[k],
        ) by {
            let x = all[i].stages[k];
            assert forall|j: int| 0 <= j < n - 1 implies all[j] == costumes[j] by {}
            if i < n - 1 {
                assert(!taken(d, costumes, i, costumes[i].stages[k]));
                if exists|j: int| 0 <= j < i && (#[trigger] all[j]).stages.contains(x) {
                    let j = choose|j: int| 0 <= j < i && (#[trigger] all[j]).stages.contains(x);
                    assert(costumes[j].stages.contains(x));
                }
            } else {
                lemma_in_joined(head + stages, body(d), x);
                lemma_in_joined(head, stages, x);
                assert(head =~= later.push(d.conclusion));
                lemma_in_pushed(later, d.conclusion, x);
                if exists|j: int| i < j < d.premises.len() && #[trigger] d.premises[j] == x {
                    let j = choose|j: int| i < j < d.premises.len() && #[trigger] d.premises[j] == x;
                    assert(later[j - n] == x);
                }
                if exists|j: int| 0 <= j < i && (#[trigger] all[j]).stages.contains(x) {
                    let j = choose|j: int| 0 <= j < i && (#[trigger] all[j]).stages.contains(x);
                    let m = choose|m: int| 0 <= m < all[j].stages.len() && all[j].stages[m] == x;
                    lemma_stages_collected(d, most, max, n - 1, held, j, m);
                }
            }
        }
    }
}

/// The costume of the conclusion stays apart too: it passes through no line of the proof
/// after the premises, and through nothing that the costume of a premise passed through.
pub proof fn law_conclusion_apart(d: Draft, most: u8, max: nat, held: Seq<u32>)
    ensures
        ({
            let (costumes, stages, h1) = dressed_upto(
                d,
                most,
                max,
                d.premises.len() as int,
                held,
            );
            let last = disguised(d.conclusion, most, max, stages + body(d), h1).0;
            forall|k: int|
                1 <= k < last.stages.len() ==> !body(d).contains(#[trigger] last.stages[k])
                    && forall|j: int|
                    0 <= j < costumes.len() ==> !(#[trigger] costumes[j]).stages.contains(
                        last.stages[k],
                    )
        }),
{
    let n = d.premises.len() as int;
    lemma_dressed_sewn(d, most, max, n, held);
    let (costumes, stages, h1) = dressed_upto(d, most, max, n, held);
    law_disguised_discreet(d.conclusion, most, max, stages + body(d), h1);
    let last = disguised(d.conclusion, most, max, stages + body(d), h1).0;
    assert forall|k: int| 1 <= k < last.stages.len() implies !body(d).contains(
        #[trigger] last.stages[k],
    ) && forall|j: int|
        0 <= j < costumes.len() ==> !(#[trigger] costumes[j]).stages.contains(last.stages[k]) by {
        let x = last.stages[k];
        lemma_in_joined(stages, body(d), x);
        assert forall|j: int| 0 <= j < costumes.len() implies !(
        #[trigger] costumes[j]).stages.contains(x) by {
            if costumes[j].stages.contains(x) {
                let m = choose|m: int|
                    0 <= m < costumes[j].stages.len() && costumes[j].stages[m] == x;
                lemma_stages_collected(d, most, max, n, held, j, m);
            }
        }
    }
}

/// A costume does not change what a formula means.
pub proof fn law_costume_equivalent(c: Costume, f: Prop)
    requires
        sewn(c, f),
    ensures
        equivalent(f, c.formula),
{
    lemma_stage_equivalent(c, f, c.trace.len() as int);
}

/// [`law_costume_equivalent`] for a stage.
pub proof fn lemma_stage_equivalent(c: Costume, f: Prop, k: int)
    requires
        sewn(c, f),
        0 <= k < c.stages.len(),
    ensures
        equivalent(f, c.stages[k]),
    decreases k,
{
    if k > 0 {
        let x = c.trace[k - 1];
        lemma_stage_equivalent(c, f, k - 1);
        assert(reversible(c.stages[k - 1], x) && x.next == c.stages[k]);
        law_forms_equivalent(x.rule, x.before, x.after);
        law_replace_all_equivalent(c.stages[k - 1], x.before, x.after);
        assert forall|v: Valuation| #[trigger] eval(f, v) == eval(c.stages[k], v) by {
            assert(eval(f, v) == eval(c.stages[k - 1], v));
        }
    }
}

/// Whatever is planted carries no dead lines: its last line, the conclusion, depends on
/// every line, the premises included.
pub proof fn law_planted_no_dead_lines(spec: PlantSpec, seed: u64)
    ensures
        planted(spec, seed) matches Ok(d) ==> d.rows.last().formula == d.conclusion && forall|
            p: int,
        |
            1 <= p <= d.rows.len() ==> #[trigger] depends(d, d.rows.len() as int, p),
{
    let g = derivation(spec, seed);
    let premises = premises_for(spec, seed).len() as int;
    law_derivation_justified(spec, seed);
    lemma_best(g, premises, g.lines.len() as int);
    match best_upto(g, premises, g.lines.len() as int) {
        Some(line) => {
            let d = rebuilt(g.lines, premises, line);
            law_rebuilt_finished(g, premises, line);
            assert forall|p: int| 1 <= p <= d.rows.len() implies #[trigger] depends(
                d,
                d.rows.len() as int,
                p,
            ) by {
                law_rebuilt_all_needed(g, premises, line, p);
            }
            let max = spec.max_formula_len as nat;
            let most = spec.obfuscation_passes;
            let size = d.premises.len() as int;
            lemma_dressed_sewn(d, most, max, size, g.held);
            let (costumes, stages, h1) = dressed_upto(d, most, max, size, g.held);
            law_disguised_sewn(d.conclusion, most, max, stages + body(d), h1);
            let last = disguised(d.conclusion, most, max, stages + body(d), h1).0;
            law_dressed_verified(d, costumes, last);
            law_dressed_all_needed(d, costumes, last);
        },
        None => {},
    }
}

/// In whatever is planted, no subproof assumes or proves a formula that is within its
/// reach already.
pub proof fn law_planted_fresh(spec: PlantSpec, seed: u64)
    ensures
        planted(spec, seed) matches Ok(d) ==> unrepeated(regrown(d)),
{
    let g = derivation(spec, seed);
    let premises = premises_for(spec, seed).len() as int;
    law_derivation_justified(spec, seed);
    lemma_best(g, premises, g.lines.len() as int);
    match best_upto(g, premises, g.lines.len() as int) {
        Some(line) => {
            let d = rebuilt(g.lines, premises, line);
            law_rebuilt_finished(g, premises, line);
            lemma_depth_zero(g.spans, line);
            lemma_rebuilt_unrepeated(g, premises, line);
            let max = spec.max_formula_len as nat;
            let most = spec.obfuscation_passes;
            let size = d.premises.len() as int;
            lemma_dressed_sewn(d, most, max, size, g.held);
            law_costumes_apart(d, most, max, size, g.held);
            let (costumes, stages, h1) = dressed_upto(d, most, max, size, g.held);
            let last = disguised(d.conclusion, most, max, stages + body(d), h1).0;
            assert forall|i: int, k: int|
                0 <= i < costumes.len() && 1 <= k < costumes[i].stages.len() implies !body(
                d,
            ).contains(#[trigger] costumes[i].stages[k]) by {
                assert(!taken(d, costumes, i, costumes[i].stages[k]));
            }
            law_dressed_fresh(d, costumes, last);
        },
        None => {},
    }
}

/// The premises that are kept are premises.
proof fn lemma_kept_premises(g: Growth, premises: Seq<Prop>, target: int, n: int, v: Valuation)
    requires
        0 <= n <= premises.len() <= g.lines.len(),
        forall|i: int|
            0 <= i < premises.len() ==> (#[trigger] g.lines[i]).formula == premises[i],
        all_true(premises, v),
    ensures
        all_true(kept_upto(g.lines, target, n), v),
    decreases n,
{
    if n > 0 {
        lemma_kept_premises(g, premises, target, n - 1, v);
        assert(g.lines[n - 1].formula == premises[n - 1]);
        assert(eval(premises[n - 1], v));
        let before = kept_upto(g.lines, target, n - 1);
        let all = kept_upto(g.lines, target, n);
        assert forall|i: int| 0 <= i < all.len() implies eval(#[trigger] all[i], v) by {
            if i < before.len() {
                assert(eval(before[i], v));
            }
        }
    }
}

/// The premises of whatever is planted are consistent with each other, in costume too.
pub proof fn law_planted_consistent(spec: PlantSpec, seed: u64)
    ensures
        planted(spec, seed) matches Ok(d) ==> satisfiable(d.premises),
{
    let g = derivation(spec, seed);
    let premises = premises_for(spec, seed);
    let n = premises.len() as int;
    law_derivation_justified(spec, seed);
    lemma_first_lines(spec, seed);
    law_sampled_compatible(
        pool(spec.atoms as nat),
        spec.max_formula_len as nat,
        spec.max_premises as int,
        seeded(seed),
    );
    lemma_best(g, n, g.lines.len() as int);
    match best_upto(g, n, g.lines.len() as int) {
        Some(line) => {
            let d = rebuilt(g.lines, n, line);
            let v = choose|v: Valuation| all_true(premises, v);
            law_rebuilt_finished(g, n, line);
            lemma_depth_zero(g.spans, line);
            lemma_rebuilt_upto(g, n, line, line);
            lemma_kept_premises(g, premises, line, n, v);
            assert(all_true(d.premises, v));
            let max = spec.max_formula_len as nat;
            let most = spec.obfuscation_passes;
            let size = d.premises.len() as int;
            lemma_dressed_sewn(d, most, max, size, g.held);
            let (costumes, stages, h1) = dressed_upto(d, most, max, size, g.held);
            law_disguised_sewn(d.conclusion, most, max, stages + body(d), h1);
            let last = disguised(d.conclusion, most, max, stages + body(d), h1).0;
            law_dressed_verified(d, costumes, last);
            assert(all_true(looks(costumes), v)) by {
                assert forall|i: int| 0 <= i < looks(costumes).len() implies eval(
                    #[trigger] looks(costumes)[i],
                    v,
                ) by {
                    law_costume_equivalent(costumes[i], d.premises[i]);
                    assert(eval(d.premises[i], v) == eval(costumes[i].formula, v));
                }
            }
        },
        None => {},
    }
}

} // verus!
