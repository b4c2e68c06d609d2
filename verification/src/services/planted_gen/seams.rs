//! What a costume does to the shape of a proof: premises that were different stay so, the
//! derived lines stay together in their order, and no more lines come in than passes were
//! asked for.

use vstd::prelude::*;

use super::candidate::PlantSpec;
use super::cone::{best_upto, kept_upto, needed, rebuilt};
use super::costume::{
    body, costumed, disguised, disguises, dressed, dressed_upto, looks, plain, prologue, redone,
    replayed_upto, shifted, undone, worn, Costume, Disguise,
};
use super::dressing::{
    law_disguised_sewn, law_dressed_verified, lemma_dressed_sewn, lemma_prologue, lemma_replayed,
    sewn,
};
use super::growth::Growth;
use super::planting::{
    derivation, law_derivation_justified, lemma_best, lemma_first_lines, planted, premises_for,
};
use super::promises::{law_costumes_apart, taken};
use super::rebuilding::{finished, law_rebuilt_finished, lemma_rebuilt_upto};
use super::sampling::{law_sampled_compatible, pool};
use crate::models::formula::Prop;
use crate::models::proofs::{drafted, with_line, Draft, Reason};
use crate::models::rules::equivalence::replace_all;
use crate::models::scopes::lemma_depth_zero;
use crate::services::dice::{index_drawn, passes_drawn, seeded};

verus! {

/// Whether the lines of `d` after the premises are lines of `e`, all `shift` lines further
/// down.
pub open spec fn carried(d: Draft, e: Draft, shift: int) -> bool {
    &&& d.rows.len() + shift <= e.rows.len()
    &&& forall|i: int|
        d.premises.len() <= i < d.rows.len() ==> (#[trigger] e.rows[i + shift]).formula
            == d.rows[i].formula
}

/// Every pass takes one step at most.
proof fn lemma_worn_count(c: Costume, max: nat, avoid: Seq<Prop>, passes: nat, held: Seq<u32>)
    ensures
        worn(c, max, avoid, passes, held).0.trace.len() <= c.trace.len() + passes,
    decreases passes,
{
    if passes > 0 {
        let all = disguises(c.formula, max, avoid + c.stages);
        if all.len() == 0 {
            lemma_worn_count(c, max, avoid, (passes - 1) as nat, held);
        } else {
            let (i, h1) = index_drawn(held, all.len() as int);
            let x = all[i];
            let next = Costume {
                formula: x.next,
                trace: c.trace.push(x),
                stages: c.stages.push(x.next),
            };
            lemma_worn_count(next, max, avoid, (passes - 1) as nat, h1);
        }
    }
}

/// A disguise takes no more steps than asked for.
pub proof fn law_disguised_count(f: Prop, most: u8, max: nat, avoid: Seq<Prop>, held: Seq<u32>)
    ensures
        disguised(f, most, max, avoid, held).0.trace.len() <= most,
{
    let (n, h1) = passes_drawn(held, most);
    lemma_worn_count(plain(f), max, avoid, n, h1);
}

/// The costumes of the premises take no more steps each than asked for.
proof fn lemma_dressed_count(d: Draft, most: u8, max: nat, n: int, held: Seq<u32>)
    requires
        0 <= n <= d.premises.len(),
    ensures
        forall|i: int|
            0 <= i < n ==> (#[trigger] dressed_upto(d, most, max, n, held).0[i]).trace.len()
                <= most,
    decreases n,
{
    if n > 0 {
        lemma_dressed_count(d, most, max, n - 1, held);
        lemma_dressed_sewn(d, most, max, n - 1, held);
        let (costumes, stages, h1) = dressed_upto(d, most, max, n - 1, held);
        let avoid = d.premises.skip(n) + seq![d.conclusion] + stages + body(d);
        law_disguised_count(d.premises[n - 1], most, max, avoid, h1);
    }
}

/// Undoing a step takes one line.
proof fn lemma_undone_count(d: Draft, trace: Seq<Disguise>, k: int, current: Prop, line: int)
    requires
        0 <= k,
    ensures
        undone(d, trace, k, current, line).0.rows.len() == d.rows.len() + k,
    decreases k,
{
    if k > 0 {
        let x = trace[k - 1];
        let next = replace_all(current, x.after, x.before);
        let d1 = with_line(d, next, Reason::Equivalence(x.rule, line));
        lemma_undone_count(d1, trace, k - 1, next, d1.rows.len() as int);
    }
}

/// Undoing the costumes of the premises takes no more lines than they took steps.
proof fn lemma_prologue_count(d: Draft, costumes: Seq<Costume>, n: int, most: int)
    requires
        0 <= n <= costumes.len(),
        forall|i: int| 0 <= i < costumes.len() ==> (#[trigger] costumes[i]).trace.len() <= most,
    ensures
        d.rows.len() <= prologue(d, costumes, n).0.rows.len() <= d.rows.len() + most * n,
    decreases n,
{
    if n > 0 {
        lemma_prologue_count(d, costumes, n - 1, most);
        let (d1, ends) = prologue(d, costumes, n - 1);
        let c = costumes[n - 1];
        lemma_undone_count(d1, c.trace, c.trace.len() as int, c.formula, n);
        assert(most * (n - 1) + most == most * n) by (nonlinear_arith);
    } else {
        assert(most * n == 0) by (nonlinear_arith)
            requires
                n == 0,
        ;
    }
}

/// Taking the steps of a disguise takes one line each, after the lines that are there.
proof fn lemma_redone_count(d: Draft, trace: Seq<Disguise>, k: int, current: Prop, line: int)
    requires
        0 <= k <= trace.len(),
    ensures
        ({
            let e = redone(d, trace, k, current, line);
            &&& e.rows.len() == d.rows.len() + trace.len() - k
            &&& forall|i: int| 0 <= i < d.rows.len() ==> #[trigger] e.rows[i] == d.rows[i]
        }),
    decreases trace.len() - k,
{
    if k < trace.len() {
        let x = trace[k];
        let next = replace_all(current, x.before, x.after);
        let d1 = with_line(d, next, Reason::Equivalence(x.rule, line));
        lemma_redone_count(d1, trace, k + 1, next, d1.rows.len() as int);
        let e = redone(d, trace, k, current, line);
        assert forall|i: int| 0 <= i < d.rows.len() implies #[trigger] e.rows[i] == d.rows[i] by {
            assert(d1.rows[i] == d.rows[i]);
        }
    }
}

/// Different premises look different in their costumes.
proof fn lemma_looks_differ(d: Draft, most: u8, max: nat, held: Seq<u32>)
    requires
        d.premises.no_duplicates(),
    ensures
        looks(dressed_upto(d, most, max, d.premises.len() as int, held).0).no_duplicates(),
{
    let n = d.premises.len() as int;
    lemma_dressed_sewn(d, most, max, n, held);
    law_costumes_apart(d, most, max, n, held);
    let costumes = dressed_upto(d, most, max, n, held).0;
    assert forall|i: int, j: int| 0 <= i < j < n implies #[trigger] looks(costumes)[i]
        != #[trigger] looks(costumes)[j] by {
        let a = costumes[i];
        let b = costumes[j];
        assert(sewn(a, d.premises[i]));
        assert(sewn(b, d.premises[j]));
        let x = a.stages[a.stages.len() - 1];
        let y = b.stages[b.stages.len() - 1];
        assert(a.stages.contains(x));
        if b.trace.len() > 0 {
            assert(!taken(d, costumes, j, dressed_upto(d, most, max, n, held).0[j].stages[
                b.stages.len() - 1]));
        } else if a.trace.len() > 0 {
            assert(!taken(d, costumes, i, dressed_upto(d, most, max, n, held).0[i].stages[
                a.stages.len() - 1]));
            assert(d.premises[j] == y);
        }
    }
}

/// A costume keeps the shape of a finished proof: premises that were different stay
/// different, the derived formulas follow each other as before, and at most as many lines
/// come in as passes were asked for on each premise and on the conclusion.
pub proof fn law_costume_keeps_shape(d: Draft, most: u8, max: nat, held: Seq<u32>)
    requires
        finished(d),
    ensures
        ({
            let e = costumed(d, most, max, held).0;
            &&& e.premises.len() == d.premises.len()
            &&& d.premises.no_duplicates() ==> e.premises.no_duplicates()
            &&& d.rows.len() <= e.rows.len() <= d.rows.len() + most * (d.premises.len() + 1)
            &&& exists|shift: int|
                0 <= shift <= most * d.premises.len() && #[trigger] carried(d, e, shift)
        }),
{
    let p = d.premises.len() as int;
    let n = d.rows.len() as int;
    lemma_dressed_sewn(d, most, max, p, held);
    lemma_dressed_count(d, most, max, p, held);
    let (costumes, stages, h1) = dressed_upto(d, most, max, p, held);
    law_disguised_sewn(d.conclusion, most, max, stages + body(d), h1);
    law_disguised_count(d.conclusion, most, max, stages + body(d), h1);
    let last = disguised(d.conclusion, most, max, stages + body(d), h1).0;
    let e = costumed(d, most, max, held).0;
    law_dressed_verified(d, costumes, last);
    let d0 = drafted(looks(costumes), last.formula);
    lemma_prologue(d.premises, costumes, last.formula, p);
    lemma_prologue_count(d0, costumes, p, most as int);
    let (d1, ends) = prologue(d0, costumes, p);
    let shift = d1.rows.len() - p;
    let number = shifted(ends, shift);
    lemma_replayed(d, d1, ends, n);
    let d2 = replayed_upto(d1, d, number, n);
    lemma_redone_count(d2, last.trace, 0, d.conclusion, number(n));
    assert(e == dressed(d, costumes, last));
    assert(carried(d, e, shift)) by {
        assert forall|i: int| p <= i < n implies (#[trigger] e.rows[i + shift]).formula
            == d.rows[i].formula by {
            assert(e.rows[i + shift] == d2.rows[i + shift]);
        }
    }
    assert(most * p + most == most * (p + 1)) by (nonlinear_arith);
    if d.premises.no_duplicates() {
        lemma_looks_differ(d, most, max, held);
    }
}

/// Of different premises, those that are kept are different.
proof fn lemma_kept_differ(g: Growth, premises: Seq<Prop>, target: int, n: int)
    requires
        0 <= n <= premises.len() <= g.lines.len(),
        forall|i: int|
            0 <= i < premises.len() ==> (#[trigger] g.lines[i]).formula == premises[i],
        premises.no_duplicates(),
    ensures
        kept_upto(g.lines, target, n).no_duplicates(),
        forall|x: Prop| #[trigger]
            kept_upto(g.lines, target, n).contains(x) ==> exists|i: int|
                0 <= i < n && #[trigger] premises[i] == x,
    decreases n,
{
    if n > 0 {
        lemma_kept_differ(g, premises, target, n - 1);
        let before = kept_upto(g.lines, target, n - 1);
        let all = kept_upto(g.lines, target, n);
        let x = premises[n - 1];
        assert(g.lines[n - 1].formula == x);
        assert(!before.contains(x));
        assert forall|y: Prop| #[trigger] all.contains(y) implies exists|i: int|
            0 <= i < n && #[trigger] premises[i] == y by {
            if y == x {
                assert(premises[n - 1] == y);
            } else {
                let k = choose|k: int| 0 <= k < all.len() && all[k] == y;
                assert(before[k] == y);
                assert(before.contains(y));
                let i = choose|i: int| 0 <= i < n - 1 && #[trigger] premises[i] == y;
                assert(premises[i] == y);
            }
        }
        assert(all.no_duplicates()) by {
            assert forall|a: int, b: int|
                0 <= a < all.len() && 0 <= b < all.len() && a != b implies all[a] != all[b] by {
                if needed(g.lines, target, n) {
                    if a < before.len() && b == before.len() {
                        assert(before.contains(before[a]));
                    } else if b < before.len() && a == before.len() {
                        assert(before.contains(before[b]));
                    }
                }
            }
        }
    }
}

/// No two premises of whatever is planted are the same, in costume too.
pub proof fn law_planted_premises_differ(spec: PlantSpec, seed: u64)
    ensures
        planted(spec, seed) matches Ok(d) ==> d.premises.no_duplicates(),
{
    let g = derivation(spec, seed);
    let premises = premises_for(spec, seed);
    let n = premises.len() as int;
    law_derivation_justified(spec, seed);
    lemma_first_lines(spec, seed);
    law_sampled_compatible(
        pool(spec.atoms as nat),
        spec.max_formula_len as nat,
        spec.max_premises as int,
        seeded(seed),
    );
    lemma_best(g, n, g.lines.len() as int);
    match best_upto(g, n, g.lines.len() as int) {
        Some(line) => {
            let d = rebuilt(g.lines, n, line);
            law_rebuilt_finished(g, n, line);
            lemma_depth_zero(g.spans, line);
            lemma_rebuilt_upto(g, n, line, line);
            lemma_kept_differ(g, premises, line, n);
            assert(d.premises.no_duplicates());
            let max = spec.max_formula_len as nat;
            law_costume_keeps_shape(d, spec.obfuscation_passes, max, g.held);
        },
        None => {},
    }
}

} // verus!
