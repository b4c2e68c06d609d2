//! Every formula that is planted is as short as asked for.

use vstd::prelude::*;

use super::candidate::PlantSpec;
use super::cone::{best_upto, needed, rebuilt};
use super::costume::{
    body, disguised, dressed, dressed_upto, looks, prologue, redone, replayed_upto, shifted,
    Costume,
};
use super::dressing::{
    law_disguised_sewn, law_dressed_verified, lemma_dressed_sewn, lemma_prologue, lemma_replayed,
    reversible, sewn,
};
use super::gate::{gated, GateConfig, Refusal};
use super::growth::{
    assumed, at, at_least, conditionally_proved, conj_template, disj_template, fits, grown,
    grown_by, grown_to, in_reach, indirectly_proved, offer_weights, offers, reach_weights, rolled,
    stepped, usable, EQUIVALENCE_SHARE, SUBPROOF_SHARE,
};
use super::growth::{Entry, Growth, Soil};
use super::planting::{
    derivation, law_derivation_justified, lemma_best, lines_wanted, planted, premises_for, seedling,
    soil_for, tries_for,
};
use super::promises::{law_disguised_discreet, law_planted_consistent};
use super::rebuilding::{finished, law_rebuilt_finished, lemma_rank_onto, lemma_rebuilt_upto};
use super::sampling::{law_sampled_compatible, literal_drawn, pool, sampled, small_drawn};
use super::tailoring::{lemma_prologue_quiet, of_kind};
use super::tending::lemma_offers;
use super::weights::{law_pick, rule_drawn, weighted_drawn};
use crate::models::formula::Prop;
use crate::models::proofs::{drafted, with_line, Draft, Reason};
use crate::models::rules::inference::premise_count;
use crate::models::rules::technique::ProofTechnique;
use crate::models::scopes::lemma_depth_zero;
use crate::models::text::bracketed;
use crate::services::dice::{coin_drawn, count_drawn, seeded, unit_drawn};

verus! {

/// Whether the formulas of all lines are short enough.
pub open spec fn all_fit(lines: Seq<Entry>, max: nat) -> bool {
    forall|i: int| 0 <= i < lines.len() ==> fits((#[trigger] lines[i]).formula, max)
}

/// Whether the formulas of all rows are short enough.
pub open spec fn rows_fit(d: Draft, max: nat) -> bool {
    forall|i: int| 0 <= i < d.rows.len() ==> fits((#[trigger] d.rows[i]).formula, max)
}

/// Whether some formulas are short enough.
pub open spec fn formulas_fit(s: Seq<Prop>, max: nat) -> bool {
    forall|i: int| 0 <= i < s.len() ==> fits(#[trigger] s[i], max)
}

/// One attempt at an inference or an equivalence adds only what is short enough.
proof fn lemma_stepped_fit(soil: Soil, g: Growth)
    requires
        all_fit(g.lines, soil.max_len),
    ensures
        all_fit(stepped(soil, g).lines, soil.max_len),
{
    let (k, h0) = unit_drawn(g.held);
    let g0 = rolled(g, h0);
    let (rule, h1) = rule_drawn(g0.held);
    let (all, h2) = offers(soil, rolled(g0, h1), rule);
    if k >= EQUIVALENCE_SHARE && premise_count(rule) <= in_reach(g0).len() && all.len() > 0 {
        let ws = offer_weights(all, g0.lines.len() as int, g0.used);
        law_pick(ws, unit_drawn(h2).0, 0);
        let i = weighted_drawn(ws, h2).0;
        assert(all.contains(all[i]));
        lemma_offers(soil, rolled(g0, h1), rule, all[i]);
    }
}

/// Growing adds only what is short enough.
proof fn lemma_grown_fit(soil: Soil, room: nat, g: Growth)
    requires
        all_fit(g.lines, soil.max_len),
    ensures
        all_fit(grown(soil, room, g).lines, soil.max_len),
    decreases room, 2int, 0nat,
{
    if room == 0 {
        lemma_stepped_fit(soil, g);
    } else {
        let (k, h1) = unit_drawn(g.held);
        let (conditional, h2) = coin_drawn(h1);
        if k >= SUBPROOF_SHARE {
            lemma_stepped_fit(soil, rolled(g, h1));
        } else if conditional {
            lemma_conditional_fit(soil, room, rolled(g, h2));
        } else {
            lemma_indirect_fit(soil, room, rolled(g, h2));
        }
    }
}

/// [`lemma_grown_fit`] for several attempts.
proof fn lemma_grown_by_fit(soil: Soil, room: nat, g: Growth, want: nat, tries: nat)
    requires
        all_fit(g.lines, soil.max_len),
    ensures
        all_fit(grown_by(soil, room, g, want, tries).1.lines, soil.max_len),
    decreases room, 3int, tries,
{
    if want > 0 && tries > 0 {
        let next = grown(soil, room, g);
        let left = if next.lines.len() > g.lines.len() {
            (want - 1) as nat
        } else {
            want
        };
        lemma_grown_fit(soil, room, g);
        lemma_grown_by_fit(soil, room, next, left, (tries - 1) as nat);
    }
}

/// [`lemma_grown_fit`] for a conditional proof.
proof fn lemma_conditional_fit(soil: Soil, room: nat, g: Growth)
    requires
        all_fit(g.lines, soil.max_len),
    ensures
        all_fit(conditionally_proved(soil, room, g).lines, soil.max_len),
    decreases room, 1int, 0nat,
{
    let (a, h1) = small_drawn(soil.atoms, g.held);
    if room > 0 && fits(a, soil.max_len) {
        let g1 = assumed(rolled(g, h1), a, ProofTechnique::ConditionalProof);
        let (want, h2) = count_drawn(g1.held, 2, 5);
        lemma_grown_by_fit(
            soil,
            (room - 1) as nat,
            rolled(g1, h2),
            want as nat,
            at_least((want * 15) as nat, 40),
        );
    }
}

/// [`lemma_grown_fit`] for an indirect proof.
proof fn lemma_indirect_fit(soil: Soil, room: nat, g: Growth)
    requires
        all_fit(g.lines, soil.max_len),
    ensures
        all_fit(indirectly_proved(soil, room, g).lines, soil.max_len),
    decreases room, 1int, 0nat,
{
    let reach = in_reach(g);
    if room > 0 && reach.len() > 0 {
        let total = g.lines.len() as int;
        let (i, h1) = weighted_drawn(reach_weights(reach, total, g.used), g.held);
        let anchor = reach[i];
        let (b, h2) = literal_drawn(soil.atoms, h1);
        let (conj, h3) = coin_drawn(h2);
        let a = g.lines[anchor - 1].formula;
        let t = if conj {
            conj_template(a, b)
        } else {
            disj_template(a, b)
        };
        if usable(soil, at(g.lines, reach), t) {
            let g1 = assumed(rolled(g, h3), t.assumption, ProofTechnique::IndirectProof);
            let (want, h4) = count_drawn(g1.held, 0, 3);
            let tries = at_least((want * 15) as nat, 20);
            lemma_grown_by_fit(soil, (room - 1) as nat, rolled(g1, h4), want as nat, tries);
            reveal_strlit("#");
            reveal_strlit("~");
            assert(t.assumption is Not);
            assert(bracketed(t.assumption).len() >= 1);
            assert(fits(Prop::Contradiction, soil.max_len));
        }
    }
}

/// [`lemma_grown_fit`] for the whole of growing.
proof fn lemma_grown_to_fit(soil: Soil, room: nat, g: Growth, size: nat, tries: nat)
    requires
        all_fit(g.lines, soil.max_len),
    ensures
        all_fit(grown_to(soil, room, g, size, tries).lines, soil.max_len),
    decreases tries,
{
    if g.lines.len() < size && tries > 0 {
        lemma_grown_fit(soil, room, g);
        lemma_grown_to_fit(soil, room, grown(soil, room, g), size, (tries - 1) as nat);
    }
}

/// The lines of a derivation from a seed are short enough.
proof fn lemma_derivation_fit(spec: PlantSpec, seed: u64)
    ensures
        all_fit(derivation(spec, seed).lines, spec.max_formula_len as nat),
{
    let atoms = pool(spec.atoms as nat);
    let max = spec.max_formula_len as nat;
    let (premises, held) = sampled(atoms, max, spec.max_premises as int, seeded(seed));
    law_sampled_compatible(atoms, max, spec.max_premises as int, seeded(seed));
    let g0 = seedling(premises, held);
    assert forall|i: int| 0 <= i < g0.lines.len() implies fits(
        (#[trigger] g0.lines[i]).formula,
        max,
    ) by {
        assert(fits(premises[i], max));
    }
    let wanted = lines_wanted(spec);
    lemma_grown_to_fit(
        soil_for(spec),
        spec.subproofs as nat,
        g0,
        (premises.len() + wanted) as nat,
        tries_for(wanted) as nat,
    );
}

/// The epilogue passes through the stages of the costume.
proof fn lemma_redone_fit(d: Draft, c: Costume, f: Prop, k: int, line: int, max: nat)
    requires
        rows_fit(d, max),
        sewn(c, f),
        formulas_fit(c.stages, max),
        0 <= k <= c.trace.len(),
    ensures
        rows_fit(redone(d, c.trace, k, c.stages[k], line), max),
    decreases c.trace.len() - k,
{
    if k < c.trace.len() {
        let x = c.trace[k];
        assert(reversible(c.stages[k], x) && x.next == c.stages[k + 1]);
        let d1 = with_line(d, c.stages[k + 1], Reason::Equivalence(x.rule, line));
        assert(fits(c.stages[k + 1], max));
        lemma_redone_fit(d1, c, f, k + 1, d1.rows.len() as int, max);
    }
}

/// A proof of short formulas has short formulas in costume.
proof fn lemma_dressed_fit(d: Draft, costumes: Seq<Costume>, last: Costume, max: nat)
    requires
        finished(d),
        rows_fit(d, max),
        costumes.len() == d.premises.len(),
        forall|i: int|
            0 <= i < costumes.len() ==> sewn(#[trigger] costumes[i], d.premises[i])
                && formulas_fit(costumes[i].stages, max),
        sewn(last, d.conclusion),
        formulas_fit(last.stages, max),
    ensures
        rows_fit(dressed(d, costumes, last), max),
        formulas_fit(dressed(d, costumes, last).premises, max),
        fits(dressed(d, costumes, last).conclusion, max),
{
    let p = d.premises.len() as int;
    let n = d.rows.len() as int;
    law_dressed_verified(d, costumes, last);
    lemma_prologue(d.premises, costumes, last.formula, p);
    let short = |x: Prop| fits(x, max);
    assert forall|i: int| 0 <= i < p implies sewn(#[trigger] costumes[i], d.premises[i])
        && of_kind(costumes[i], short) by {
        assert(formulas_fit(costumes[i].stages, max));
    }
    lemma_prologue_quiet(d.premises, costumes, last.formula, p, short);
    let (d1, ends) = prologue(drafted(looks(costumes), last.formula), costumes, p);
    let shift = d1.rows.len() - p;
    let number = shifted(ends, shift);
    lemma_replayed(d, d1, ends, n);
    let d2 = replayed_upto(d1, d, number, n);
    assert forall|i: int| 0 <= i < d2.rows.len() implies fits(
        (#[trigger] d2.rows[i]).formula,
        max,
    ) by {
        if i < d1.rows.len() {
            assert(d2.rows.take(d1.rows.len() as int)[i] == d1.rows[i]);
            assert(short(d1.rows[i].formula));
        } else {
            assert(d2.rows[(i - shift) + shift].formula == d.rows[i - shift].formula);
        }
    }
    lemma_redone_fit(d2, last, d.conclusion, 0, number(n), max);
    let e = dressed(d, costumes, last);
    assert forall|i: int| 0 <= i < e.premises.len() implies fits(#[trigger] e.premises[i], max) by {
        let c = costumes[i];
        assert(sewn(c, d.premises[i]));
        assert(fits(c.stages[c.stages.len() - 1], max));
    }
    assert(fits(last.stages[last.stages.len() - 1], max));
}

/// The stages of a disguise of a short formula are short.
proof fn lemma_disguised_fit(f: Prop, most: u8, max: nat, avoid: Seq<Prop>, held: Seq<u32>)
    requires
        fits(f, max),
    ensures
        formulas_fit(disguised(f, most, max, avoid, held).0.stages, max),
{
    law_disguised_discreet(f, most, max, avoid, held);
    law_disguised_sewn(f, most, max, avoid, held);
}

/// The stages of the costumes of short premises are short.
proof fn lemma_dressed_upto_fit(d: Draft, most: u8, max: nat, n: int, held: Seq<u32>)
    requires
        0 <= n <= d.premises.len(),
        formulas_fit(d.premises, max),
    ensures
        forall|i: int|
            0 <= i < n ==> formulas_fit(
                (#[trigger] dressed_upto(d, most, max, n, held).0[i]).stages,
                max,
            ),
    decreases n,
{
    if n > 0 {
        lemma_dressed_upto_fit(d, most, max, n - 1, held);
        lemma_dressed_sewn(d, most, max, n - 1, held);
        let (costumes, stages, h1) = dressed_upto(d, most, max, n - 1, held);
        let avoid = d.premises.skip(n) + seq![d.conclusion] + stages + body(d);
        assert(fits(d.premises[n - 1], max));
        lemma_disguised_fit(d.premises[n - 1], most, max, avoid, h1);
    }
}

/// Every formula of what is planted is as short as asked for: premises, conclusion and
/// lines, in costume too.
pub proof fn law_planted_short(spec: PlantSpec, seed: u64)
    ensures
        planted(spec, seed) matches Ok(d) ==> {
            &&& formulas_fit(d.premises, spec.max_formula_len as nat)
            &&& fits(d.conclusion, spec.max_formula_len as nat)
            &&& rows_fit(d, spec.max_formula_len as nat)
        },
{
    let max = spec.max_formula_len as nat;
    let g = derivation(spec, seed);
    let n = premises_for(spec, seed).len() as int;
    law_derivation_justified(spec, seed);
    lemma_derivation_fit(spec, seed);
    lemma_best(g, n, g.lines.len() as int);
    match best_upto(g, n, g.lines.len() as int) {
        Some(line) => {
            let d = rebuilt(g.lines, n, line);
            law_rebuilt_finished(g, n, line);
            lemma_depth_zero(g.spans, line);
            lemma_rebuilt_upto(g, n, line, line);
            assert forall|i: int| 0 <= i < d.rows.len() implies fits(
                (#[trigger] d.rows[i]).formula,
                max,
            ) by {
                let m = lemma_rank_onto(g.lines, line, line, i + 1);
                assert(needed(g.lines, line, m));
                assert(fits(g.lines[m - 1].formula, max));
            }
            assert forall|i: int| 0 <= i < d.premises.len() implies fits(
                #[trigger] d.premises[i],
                max,
            ) by {
                assert(d.rows[i].formula == d.premises[i]);
            }
            let most = spec.obfuscation_passes;
            let size = d.premises.len() as int;
            lemma_dressed_sewn(d, most, max, size, g.held);
            lemma_dressed_upto_fit(d, most, max, size, g.held);
            let (costumes, stages, h1) = dressed_upto(d, most, max, size, g.held);
            law_disguised_sewn(d.conclusion, most, max, stages + body(d), h1);
            lemma_disguised_fit(d.conclusion, most, max, stages + body(d), h1);
            let last = disguised(d.conclusion, most, max, stages + body(d), h1).0;
            lemma_dressed_fit(d, costumes, last, max);
        },
        None => {},
    }
}

/// Whatever is planted passes the first two stages of the filter, where the filter allows
/// formulas as long as planting does: it is not too big, and its premises are consistent.
pub proof fn law_planted_passes_first_stages(spec: PlantSpec, seed: u64, cfg: GateConfig)
    requires
        spec.max_formula_len <= cfg.max_formula_len,
    ensures
        planted(spec, seed) matches Ok(d) ==> {
            let refusal = gated(d.premises, d.conclusion, d, cfg);
            refusal != Some(Refusal::TooBig) && refusal != Some(Refusal::InconsistentPremises)
        },
{
    law_planted_short(spec, seed);
    law_planted_consistent(spec, seed);
}

} // verus!
