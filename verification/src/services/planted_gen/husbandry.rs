//! What growing and harvesting owe: a derivation grows wherever the dice let it, and the
//! proof that is taken from it is the one of the line that rests on most.

use vstd::prelude::*;

use super::candidate::{PlantError, PlantSpec};
use super::cone::{best_upto, derived_in_cone, rebuilt};
use super::growth::{
    added_upto, assumed, at, at_least, choices, combo_weight, conditionally_proved, conj_template,
    disj_template, fits, grown, grown_by, grown_to, in_reach, indirectly_proved, inferred, known,
    led_by, offer_weights, offered_upto, offers, reach_weights, refuted, rewritten, rolled, sifted,
    stepped, usable, with_entry, Entry, Growth, Offer, Soil, EQUIVALENCE_SHARE, SUBPROOF_SHARE,
};
use super::planting::{
    derivation, lines_wanted, planted, premises_for, seedling, soil_for, tries_for,
};
use super::sampling::{
    is_literal, lemma_literal_drawn, literal_drawn, pool, sampled, small_drawn,
};
use super::tending::{ascending, lemma_reachable, lemma_sifted};
use super::weights::{line_weight, rule_drawn, weighted_drawn};
use crate::models::formula::{p_and, p_implies, p_not, p_or, subformula_seq, Prop};
use crate::models::lists::lemma_in_joined;
use crate::models::proofs::{referenced, Reason};
use crate::models::rules::equivalence::{all_equivalence_rules, forms, replace_all};
use crate::models::rules::inference::{conclusions, instance, permits, premise_count, InferenceRule};
use crate::models::rules::technique::ProofTechnique;
use crate::models::scopes::{accessible, depth_at};
use crate::models::text::bracketed;
use crate::services::dice::{coin_drawn, count_drawn, index_drawn, seeded, unit_drawn, UNITS};
use crate::services::verification::{extra_for, law_infers_instances};

verus! {

/// Ascending items at or after a position are one of the choices from there.
proof fn lemma_choice_made(items: Seq<int>, k: nat, from: int, c: Seq<int>)
    requires
        ascending(items),
        0 <= from,
        c.len() == k,
        ascending(c),
        forall|i: int|
            0 <= i < c.len() ==> exists|j: int|
                from <= j < items.len() && #[trigger] items[j] == #[trigger] c[i],
    ensures
        choices(items, k, from).contains(c),
        k <= items.len() - from || k == 0,
    decreases items.len() - from,
{
    if k == 0 {
        assert(c =~= Seq::<int>::empty());
        assert(choices(items, k, from)[0] == c);
    } else {
        let j0 = choose|j: int| from <= j < items.len() && #[trigger] items[j] == c[0];
        let inner = choices(items, (k - 1) as nat, from + 1);
        let led = led_by(items[from], inner);
        let rest = choices(items, k, from + 1);
        lemma_in_joined(led, rest, c);
        if c[0] == items[from] {
            let tail = c.drop_first();
            assert forall|i: int| 0 <= i < tail.len() implies exists|j: int|
                from + 1 <= j < items.len() && #[trigger] items[j] == #[trigger] tail[i] by {
                assert(tail[i] == c[i + 1]);
                assert(c[0] < c[i + 1]);
                let j = choose|j: int| from <= j < items.len() && #[trigger] items[j] == c[i + 1];
                assert(items[j] == tail[i]);
            }
            assert(ascending(tail)) by {
                assert forall|a: int, b: int| 0 <= a < b < tail.len() implies #[trigger] tail[a]
                    < #[trigger] tail[b] by {
                    assert(tail[a] == c[a + 1] && tail[b] == c[b + 1]);
                }
            }
            lemma_choice_made(items, (k - 1) as nat, from + 1, tail);
            let i = choose|i: int| 0 <= i < inner.len() && inner[i] == tail;
            assert(led[i] =~= c);
            assert(led.contains(c));
        } else {
            assert forall|i: int| 0 <= i < c.len() implies exists|j: int|
                from + 1 <= j < items.len() && #[trigger] items[j] == #[trigger] c[i] by {
                let j = choose|j: int| from <= j < items.len() && #[trigger] items[j] == c[i];
                assert(items[from] < items[j0]);
                if i > 0 {
                    assert(c[0] < c[i]);
                }
                assert(j != from);
            }
            lemma_choice_made(items, k, from + 1, c);
        }
    }
}

/// Every choice of lines is gone through.
proof fn lemma_offer_made(
    lines: Seq<Entry>,
    max: nat,
    rule: InferenceRule,
    combos: Seq<Seq<int>>,
    n: int,
    m: int,
    c: Prop,
)
    requires
        0 <= m < n <= combos.len(),
        conclusions(rule, at(lines, combos[m]), None).contains(c),
        !known(lines).contains(c),
        fits(c, max),
    ensures
        offered_upto(lines, max, rule, combos, n).contains(
            Offer { combo: combos[m], conclusion: c },
        ),
    decreases n,
{
    let o = Offer { combo: combos[m], conclusion: c };
    let cs = conclusions(rule, at(lines, combos[n - 1]), None);
    let before = offered_upto(lines, max, rule, combos, n - 1);
    let here = sifted(known(lines), max, combos[n - 1], cs);
    lemma_in_joined(before, here, o);
    if m < n - 1 {
        lemma_offer_made(lines, max, rule, combos, n - 1, m, c);
    } else {
        lemma_sifted(known(lines), max, combos[n - 1], cs, o);
    }
}

/// Whether `cited` are lines of a derivation, in order, that the next line may cite.
pub open spec fn may_cite(g: Growth, cited: Seq<int>) -> bool {
    &&& forall|i: int, j: int|
        0 <= i < j < cited.len() ==> #[trigger] cited[i] < #[trigger] cited[j]
    &&& forall|i: int|
        0 <= i < cited.len() ==> 1 <= #[trigger] cited[i] <= g.lines.len() && accessible(
            g.spans,
            g.lines.len() as int + 1,
            cited[i],
        )
}

/// Whether a formula is new to a derivation and short enough.
pub open spec fn welcome(soil: Soil, g: Growth, c: Prop) -> bool {
    &&& bracketed(c).len() <= soil.max_len
    &&& forall|i: int| 0 <= i < g.lines.len() ==> (#[trigger] g.lines[i]).formula != c
}

/// Lines that may be cited are in reach.
proof fn lemma_cited_in_reach(g: Growth, cited: Seq<int>)
    requires
        may_cite(g, cited),
    ensures
        ascending(in_reach(g)),
        ascending(cited),
        forall|i: int| 0 <= i < cited.len() ==> in_reach(g).contains(#[trigger] cited[i]),
{
    let n = g.lines.len() as int;
    lemma_reachable(g.spans, n, n);
    assert forall|i: int| 0 <= i < cited.len() implies in_reach(g).contains(
        #[trigger] cited[i],
    ) by {
        assert(accessible(g.spans, n + 1, cited[i]));
    }
}

/// A new formula is not known.
proof fn lemma_welcome(soil: Soil, g: Growth, c: Prop)
    requires
        welcome(soil, g, c),
    ensures
        !known(g.lines).contains(c),
        fits(c, soil.max_len),
{
    if known(g.lines).contains(c) {
        let i = choose|i: int| 0 <= i < known(g.lines).len() && known(g.lines)[i] == c;
        assert(g.lines[i].formula == c);
    }
}

/// An inference is made wherever the rule that is drawn allows one: where some lines in
/// reach are premises of a textbook instance of it whose conclusion is new and short
/// enough, the derivation grows by one line, by that rule. Conjunction joins lines in the
/// order in which they stand.
pub proof fn law_inference_made(soil: Soil, g: Growth, cited: Seq<int>, c: Prop)
    requires
        rule_drawn(g.held).0 != InferenceRule::Addition,
        may_cite(g, cited),
        welcome(soil, g, c),
        ({
            let rule = rule_drawn(g.held).0;
            let fs = Seq::new(cited.len(), |i: int| g.lines[cited[i] - 1].formula);
            &&& rule == InferenceRule::Conjunction ==> fs.len() == 2 && c == p_and(fs[0], fs[1])
            &&& rule != InferenceRule::Conjunction ==> instance(rule, fs, c)
        }),
    ensures
        ({
            let b = inferred(soil, g);
            &&& b.lines.len() == g.lines.len() + 1
            &&& b.lines.drop_last() == g.lines
            &&& b.lines.last().reason matches Reason::Inference(rule, _) && rule == rule_drawn(
                g.held,
            ).0
        }),
{
    let (rule, h1) = rule_drawn(g.held);
    let fs = at(g.lines, cited);
    assert(fs =~= Seq::new(cited.len(), |i: int| g.lines[cited[i] - 1].formula));
    let cs = conclusions(rule, fs, None);
    if rule == InferenceRule::Conjunction {
        assert(cs[0] == c);
        assert(cs.contains(c));
    } else {
        law_infers_instances(rule, fs, c);
        assert(permits(rule, fs, extra_for(fs, c), c));
        assert(conclusions(rule, fs, extra_for(fs, c)) == cs);
        assert(cs.contains(c));
    }
    assert(cited.len() == premise_count(rule));
    lemma_cited_in_reach(g, cited);
    let reach = in_reach(g);
    let g1 = rolled(g, h1);
    assert(in_reach(g1) == reach);
    assert forall|i: int| 0 <= i < cited.len() implies exists|j: int|
        0 <= j < reach.len() && #[trigger] reach[j] == #[trigger] cited[i] by {
        assert(reach.contains(cited[i]));
    }
    lemma_choice_made(reach, premise_count(rule), 0, cited);
    let combos = choices(reach, premise_count(rule), 0);
    let m = choose|m: int| 0 <= m < combos.len() && combos[m] == cited;
    lemma_welcome(soil, g, c);
    lemma_offer_made(g.lines, soil.max_len, rule, combos, combos.len() as int, m, c);
    let (all, h2) = offers(soil, g1, rule);
    assert(all.contains(Offer { combo: cited, conclusion: c }));
    assert(all.len() > 0);
    let b = inferred(soil, g);
    assert(b.lines.drop_last() =~= g.lines);
}

/// What addition offers includes something for every line in reach.
proof fn lemma_addition_offered(
    lines: Seq<Entry>,
    soil: Soil,
    reach: Seq<int>,
    n: int,
    held: Seq<u32>,
    m: int,
)
    requires
        soil.atoms.len() > 0,
        0 <= m < n <= reach.len(),
        forall|q: Prop| #[trigger]
            is_literal(soil.atoms, q) ==> !known(lines).contains(
                p_or(lines[reach[m] - 1].formula, q),
            ) && fits(p_or(lines[reach[m] - 1].formula, q), soil.max_len),
    ensures
        added_upto(lines, soil, reach, n, held).0.len() > 0,
    decreases n,
{
    let (before, h1) = added_upto(lines, soil, reach, n - 1, held);
    let (literal, h2) = literal_drawn(soil.atoms, h1);
    let combo = seq![reach[n - 1]];
    if m < n - 1 {
        lemma_addition_offered(lines, soil, reach, n - 1, held, m);
    } else {
        lemma_literal_drawn(soil.atoms, h1);
        let cs = conclusions(InferenceRule::Addition, at(lines, combo), Some(literal));
        let c = p_or(lines[reach[m] - 1].formula, literal);
        assert(at(lines, combo)[0] == lines[reach[m] - 1].formula);
        assert(cs[0] == c);
        let o = Offer { combo, conclusion: c };
        lemma_sifted(known(lines), soil.max_len, combo, cs, o);
        let here = sifted(known(lines), soil.max_len, combo, cs);
        assert(here.contains(o));
        assert((before + here).len() == before.len() + here.len());
    }
}

/// An addition is made where it is drawn, if some line in reach makes with every literal a
/// disjunction that is new and short enough.
pub proof fn law_addition_made(soil: Soil, g: Growth, m: int)
    requires
        rule_drawn(g.held).0 == InferenceRule::Addition,
        soil.atoms.len() > 0,
        may_cite(g, seq![m]),
        forall|q: Prop| #[trigger]
            is_literal(soil.atoms, q) ==> welcome(soil, g, p_or(g.lines[m - 1].formula, q)),
    ensures
        ({
            let b = inferred(soil, g);
            &&& b.lines.len() == g.lines.len() + 1
            &&& b.lines.drop_last() == g.lines
            &&& b.lines.last().reason matches Reason::Inference(rule, _) && rule
                == InferenceRule::Addition
        }),
{
    let (rule, h1) = rule_drawn(g.held);
    let g1 = rolled(g, h1);
    let reach = in_reach(g);
    assert(in_reach(g1) == reach);
    lemma_cited_in_reach(g, seq![m]);
    assert(seq![m][0] == m);
    assert(reach.contains(m));
    let j = choose|j: int| 0 <= j < reach.len() && #[trigger] reach[j] == m;
    assert forall|q: Prop| #[trigger] is_literal(soil.atoms, q) implies !known(g.lines).contains(
        p_or(g.lines[reach[j] - 1].formula, q),
    ) && fits(p_or(g.lines[reach[j] - 1].formula, q), soil.max_len) by {
        lemma_welcome(soil, g, p_or(g.lines[m - 1].formula, q));
    }
    lemma_addition_offered(g.lines, soil, reach, reach.len() as int, h1, j);
    let b = inferred(soil, g);
    assert(b.lines.drop_last() =~= g.lines);
}

/// A rewrite is made wherever it can be: where the rule that is drawn gives the drawn form
/// of the drawn part of the drawn line, and the result is new and short enough, the
/// derivation grows by that line.
pub proof fn law_rewrite_made(soil: Soil, g: Growth)
    requires
        in_reach(g).len() > 0,
    ensures
        ({
            let reach = in_reach(g);
            let (i, h1) = weighted_drawn(
                reach_weights(reach, g.lines.len() as int, g.used),
                g.held,
            );
            let source = g.lines[reach[i] - 1].formula;
            let subs = subformula_seq(source);
            let (j, h2) = index_drawn(h1, subs.len() as int);
            let (r, h3) = index_drawn(h2, 10);
            let rule = all_equivalence_rules()[r];
            let fs = forms(rule, subs[j]);
            let result = replace_all(source, subs[j], fs[index_drawn(h3, fs.len() as int).0]);
            let b = rewritten(soil, g);
            &&& fs.len() > 0 && welcome(soil, g, result) ==> b.lines == g.lines.push(
                Entry { formula: result, reason: Reason::Equivalence(rule, reach[i]) },
            )
            &&& fs.len() == 0 || !welcome(soil, g, result) ==> b.lines == g.lines
        }),
{
    let reach = in_reach(g);
    let (i, h1) = weighted_drawn(reach_weights(reach, g.lines.len() as int, g.used), g.held);
    let source = g.lines[reach[i] - 1].formula;
    let subs = subformula_seq(source);
    let (j, h2) = index_drawn(h1, subs.len() as int);
    let (r, h3) = index_drawn(h2, 10);
    let fs = forms(all_equivalence_rules()[r], subs[j]);
    let result = replace_all(source, subs[j], fs[index_drawn(h3, fs.len() as int).0]);
    assert(all_equivalence_rules().len() == 10);
    if welcome(soil, g, result) {
        lemma_welcome(soil, g, result);
    } else if fits(result, soil.max_len) {
        let k = choose|k: int| 0 <= k < g.lines.len() && (#[trigger] g.lines[k]).formula == result;
        assert(known(g.lines)[k] == result);
    }
}

/// How the dice decide what is tried: a subproof 22 times out of 100 where subproofs may
/// nest, conditional or indirect by a coin; otherwise a rewrite 15 times out of 100, and an
/// inference else.
pub proof fn law_growth_shares(soil: Soil, room: nat, g: Growth)
    ensures
        22 * UNITS - 100 < 100 * SUBPROOF_SHARE < 22 * UNITS + 100,
        15 * UNITS - 100 < 100 * EQUIVALENCE_SHARE < 15 * UNITS + 100,
        ({
            let (k, h1) = unit_drawn(g.held);
            let (conditional, h2) = coin_drawn(h1);
            &&& room == 0 ==> grown(soil, room, g) == stepped(soil, g)
            &&& room > 0 && k < SUBPROOF_SHARE && conditional ==> grown(soil, room, g)
                == conditionally_proved(soil, room, rolled(g, h2))
            &&& room > 0 && k < SUBPROOF_SHARE && !conditional ==> grown(soil, room, g)
                == indirectly_proved(soil, room, rolled(g, h2))
            &&& room > 0 && k >= SUBPROOF_SHARE ==> grown(soil, room, g) == stepped(
                soil,
                rolled(g, h1),
            )
            &&& k < EQUIVALENCE_SHARE ==> stepped(soil, g) == rewritten(soil, rolled(g, h1))
            &&& k >= EQUIVALENCE_SHARE ==> stepped(soil, g) == inferred(soil, rolled(g, h1))
        }),
{
}

/// A conditional proof is planted wherever one comes about: where the drawn assumption is
/// short enough and not in reach, at least two steps grow from it, and the implication of
/// the last of them is short enough and not in reach either, the derivation grows by the
/// assumption, those steps, and the implication. Otherwise no line is added.
pub proof fn law_conditional_planted(soil: Soil, room: nat, g: Growth)
    requires
        room > 0,
    ensures
        ({
            let (a, h1) = small_drawn(soil.atoms, g.held);
            let outer = at(g.lines, in_reach(g));
            let g1 = assumed(rolled(g, h1), a, ProofTechnique::ConditionalProof);
            let (want, h2) = count_drawn(g1.held, 2, 5);
            let (left, g2) = grown_by(
                soil,
                (room - 1) as nat,
                rolled(g1, h2),
                want as nat,
                at_least((want * 15) as nat, 40),
            );
            let c = p_implies(a, g2.lines.last().formula);
            let b = conditionally_proved(soil, room, g);
            let works = bracketed(a).len() <= soil.max_len && !outer.contains(a) && want - left
                >= 2 && !outer.contains(c) && bracketed(c).len() <= soil.max_len;
            &&& works ==> b.lines == g2.lines.push(
                Entry {
                    formula: c,
                    reason: Reason::Discharge(
                        ProofTechnique::ConditionalProof,
                        g.lines.len() as int + 1,
                        g2.lines.len() as int,
                    ),
                },
            )
            &&& !works ==> b.lines == g.lines && b.spans == g.spans
        }),
{
}

/// An indirect proof is planted wherever one comes about: where what it assumes and what
/// follows are short enough, its assumption and its goal are not in reach, and no
/// contradiction is there yet, the derivation grows by the assumption, some steps, the
/// contradiction and the goal. The goal is the anchor with the drawn literal added, or
/// that not both the literal and the negated anchor hold, by a coin. Otherwise no line is
/// added.
pub proof fn law_indirect_planted(soil: Soil, room: nat, g: Growth)
    requires
        room > 0,
        in_reach(g).len() > 0,
    ensures
        ({
            let reach = in_reach(g);
            let (i, h1) = weighted_drawn(
                reach_weights(reach, g.lines.len() as int, g.used),
                g.held,
            );
            let a = g.lines[reach[i] - 1].formula;
            let (b, h2) = literal_drawn(soil.atoms, h1);
            let (conj, h3) = coin_drawn(h2);
            let t = if conj {
                conj_template(a, b)
            } else {
                disj_template(a, b)
            };
            let goal = if conj {
                p_not(p_and(b, p_not(a)))
            } else {
                p_or(a, b)
            };
            let g1 = assumed(rolled(g, h3), t.assumption, ProofTechnique::IndirectProof);
            let (want, h4) = count_drawn(g1.held, 0, 3);
            let g2 = grown_by(
                soil,
                (room - 1) as nat,
                rolled(g1, h4),
                want as nat,
                at_least((want * 15) as nat, 20),
            ).1;
            let opens = usable(soil, at(g.lines, reach), t);
            let r = indirectly_proved(soil, room, g);
            let works = opens && !known(g2.lines).push(t.opened).push(t.refuted).contains(
                Prop::Contradiction,
            );
            &&& t.assumption == p_not(goal)
            &&& works ==> r.lines.len() == g2.lines.len() + 4 && r.lines.last().formula == goal
                && r.lines[r.lines.len() - 2].formula == Prop::Contradiction
                && r.lines.last().reason == Reason::Discharge(
                ProofTechnique::IndirectProof,
                g.lines.len() as int + 1,
                g2.lines.len() as int + 3,
            ) && r.lines.take(g2.lines.len() as int) == g2.lines
            &&& !works ==> r.lines == g.lines && r.spans == g.spans
        }),
{
    let reach = in_reach(g);
    let (i, h1) = weighted_drawn(reach_weights(reach, g.lines.len() as int, g.used), g.held);
    let a = g.lines[reach[i] - 1].formula;
    let (b, h2) = literal_drawn(soil.atoms, h1);
    let (conj, h3) = coin_drawn(h2);
    let t = if conj {
        conj_template(a, b)
    } else {
        disj_template(a, b)
    };
    let g1 = assumed(rolled(g, h3), t.assumption, ProofTechnique::IndirectProof);
    let (want, h4) = count_drawn(g1.held, 0, 3);
    let g2 = grown_by(
        soil,
        (room - 1) as nat,
        rolled(g1, h4),
        want as nat,
        at_least((want * 15) as nat, 20),
    ).1;
    let start = g.lines.len() as int + 1;
    let g3 = with_entry(g2, t.opened, Reason::Equivalence(t.rule, start));
    let g4 = with_entry(
        g3,
        t.refuted,
        Reason::Inference(InferenceRule::Simplification, seq![g3.lines.len() as int]),
    );
    assert(known(g4.lines) =~= known(g2.lines).push(t.opened).push(t.refuted));
    let r = indirectly_proved(soil, room, g);
    if usable(soil, at(g.lines, reach), t) {
        assert(r == refuted(g, g2, t, reach[i]));
        if !known(g4.lines).contains(Prop::Contradiction) {
            assert(r.lines.take(g2.lines.len() as int) =~= g2.lines);
        }
    }
}

/// So many attempts to grow, one after the other.
pub open spec fn attempts(soil: Soil, room: nat, g: Growth, k: nat) -> Growth
    decreases k,
{
    if k == 0 {
        g
    } else {
        attempts(soil, room, grown(soil, room, g), (k - 1) as nat)
    }
}

/// A derivation is grown until it is as long as asked for, or all attempts are used up:
/// it stops no sooner.
pub proof fn law_grown_enough(soil: Soil, room: nat, g: Growth, size: nat, tries: nat) -> (k: nat)
    ensures
        k <= tries,
        grown_to(soil, room, g, size, tries) == attempts(soil, room, g, k),
        grown_to(soil, room, g, size, tries).lines.len() >= size || k == tries,
        forall|j: nat| j < k ==> (#[trigger] attempts(soil, room, g, j)).lines.len() < size,
    decreases tries,
{
    if g.lines.len() >= size || tries == 0 {
        0
    } else {
        let next = grown(soil, room, g);
        let m = law_grown_enough(soil, room, next, size, (tries - 1) as nat);
        let k = m + 1;
        assert forall|j: nat| j < k implies (#[trigger] attempts(soil, room, g, j)).lines.len()
            < size by {
            if j > 0 {
                assert(attempts(soil, room, next, (j - 1) as nat).lines.len() < size);
            }
        }
        k
    }
}

/// Enough is grown to fill the band: three lines more than the longest proof asked for has
/// where subproofs may come, and twice as many where not, but at least eight, in twenty
/// attempts for each and never fewer than a hundred and twenty.
pub proof fn law_enough_wanted(spec: PlantSpec)
    requires
        2 * spec.par_max + 3 <= usize::MAX,
    ensures
        ({
            let more = if spec.subproofs >= 1 {
                spec.par_max + 3
            } else {
                2 * spec.par_max
            };
            &&& lines_wanted(spec) >= 8 && lines_wanted(spec) >= more
            &&& lines_wanted(spec) == 8 || lines_wanted(spec) == more
            &&& tries_for(lines_wanted(spec)) >= 120
            &&& tries_for(lines_wanted(spec)) >= 20 * lines_wanted(spec)
            &&& tries_for(lines_wanted(spec)) == 120 || tries_for(lines_wanted(spec)) == 20
                * lines_wanted(spec)
        }),
{
}

/// The line that a proof is taken of rests on most: of all lines outside subproofs none
/// depends on more lines besides the premises, and none before it on as many.
pub proof fn law_best_line(g: Growth, premises: int, n: int, other: int)
    requires
        premises < other <= n,
        depth_at(g.spans, other) == 0,
    ensures
        best_upto(g, premises, n) matches Some(line) && premises < line <= n && depth_at(
            g.spans,
            line,
        ) == 0 && derived_in_cone(g.lines, premises, other) <= derived_in_cone(
            g.lines,
            premises,
            line,
        ) && (other < line ==> derived_in_cone(g.lines, premises, other) < derived_in_cone(
            g.lines,
            premises,
            line,
        )),
    decreases n - premises,
{
    if other < n {
        law_best_line(g, premises, n - 1, other);
    } else {
        lemma_best_before(g, premises, n - 1);
    }
}

/// The line that is chosen is one of those gone through.
proof fn lemma_best_before(g: Growth, premises: int, n: int)
    ensures
        best_upto(g, premises, n) matches Some(line) ==> premises < line <= n && depth_at(
            g.spans,
            line,
        ) == 0,
    decreases n - premises,
{
    if n > premises {
        lemma_best_before(g, premises, n - 1);
    }
}

/// What a seed gives is decided by the line that rests on most: it is planted, with no
/// costume where no passes are asked for, exactly where that line depends on as many lines
/// besides the premises as the band allows; it is out of the band where on fewer or more;
/// and it is stuck where there is no such line.
pub proof fn law_planted_by_band(spec: PlantSpec, seed: u64)
    ensures
        ({
            let g = derivation(spec, seed);
            let n = premises_for(spec, seed).len() as int;
            match best_upto(g, n, g.lines.len() as int) {
                None => planted(spec, seed) matches Err(e) && e == PlantError::Stuck,
                Some(line) => {
                    let size = derived_in_cone(g.lines, n, line);
                    &&& planted(spec, seed) is Ok <==> spec.par_min <= size <= spec.par_max
                    &&& planted(spec, seed) matches Err(e) ==> e == PlantError::OutOfBand
                    &&& spec.obfuscation_passes == 0 ==> (planted(spec, seed) matches Ok(d) ==> d
                        == rebuilt(g.lines, n, line))
                },
            }
        }),
{
}

/// A line that is added counts as a use of each line that it refers to, and of no other, and
/// is itself not used yet.
pub proof fn law_uses_counted(g: Growth, formula: Prop, reason: Reason, n: int)
    requires
        g.used.len() == g.lines.len(),
        1 <= n <= g.lines.len(),
    ensures
        with_entry(g, formula, reason).used.len() == g.lines.len() + 1,
        with_entry(g, formula, reason).used[g.lines.len() as int] == 0,
        referenced(reason).contains(n) ==> with_entry(g, formula, reason).used[n - 1] == g.used[n
            - 1] + 1,
        !referenced(reason).contains(n) ==> with_entry(g, formula, reason).used[n - 1]
            == g.used[n - 1],
{
}

/// Lines weigh together what they weigh each.
pub proof fn law_combo_weight(a: Seq<int>, b: Seq<int>, n: int, total: int, used: Seq<int>)
    ensures
        combo_weight(a + b, total, used) == combo_weight(a, total, used) + combo_weight(
            b,
            total,
            used,
        ),
        combo_weight(seq![n], total, used) == line_weight(n, total, used[n - 1]),
    decreases b.len(),
{
    assert(seq![n].drop_last() =~= Seq::<int>::empty());
    assert(combo_weight(seq![n].drop_last(), total, used) == 0);
    if b.len() == 0 {
        assert(a + b =~= a);
    } else {
        assert((a + b).drop_last() =~= a + b.drop_last());
        assert((a + b).last() == b.last());
        law_combo_weight(a, b.drop_last(), n, total, used);
    }
}

/// How many of so many attempts have added something.
pub open spec fn gains(soil: Soil, room: nat, g: Growth, k: nat) -> nat
    decreases k,
{
    if k == 0 {
        0
    } else {
        let next = grown(soil, room, g);
        gains(soil, room, next, (k - 1) as nat) + if next.lines.len() > g.lines.len() {
            1nat
        } else {
            0nat
        }
    }
}

/// Steps are grown until as many attempts as wanted have added something, or all attempts
/// are used up: growing stops no sooner, and no later.
pub proof fn law_grown_by(soil: Soil, room: nat, g: Growth, want: nat, tries: nat) -> (k: nat)
    ensures
        k <= tries,
        grown_by(soil, room, g, want, tries).1 == attempts(soil, room, g, k),
        grown_by(soil, room, g, want, tries).0 + gains(soil, room, g, k) == want,
        gains(soil, room, g, k) == want || k == tries,
        forall|j: nat| j < k ==> #[trigger] gains(soil, room, g, j) < want,
    decreases tries,
{
    if want == 0 || tries == 0 {
        0
    } else {
        let next = grown(soil, room, g);
        let gain: nat = if next.lines.len() > g.lines.len() {
            1
        } else {
            0
        };
        let left = (want - gain) as nat;
        let m = law_grown_by(soil, room, next, left, (tries - 1) as nat);
        let k = m + 1;
        assert forall|j: nat| j < k implies #[trigger] gains(soil, room, g, j) < want by {
            if j > 0 {
                assert(gains(soil, room, next, (j - 1) as nat) < left);
            }
        }
        k
    }
}

/// A seed gives a derivation that starts with the sampled premises and is grown until it is
/// as much longer as is wanted, and no further, or until twenty attempts for each line
/// wanted, and no fewer than a hundred and twenty, are used up; subproofs nest as deep as is
/// asked for.
pub proof fn law_derivation_grown(spec: PlantSpec, seed: u64) -> (k: nat)
    ensures
        ({
            let (premises, held) = sampled(
                pool(spec.atoms as nat),
                spec.max_formula_len as nat,
                spec.max_premises as int,
                seeded(seed),
            );
            let soil = Soil { atoms: pool(spec.atoms as nat), max_len: spec.max_formula_len as nat };
            let start = Growth {
                lines: Seq::new(
                    premises.len(),
                    |i: int| Entry { formula: premises[i], reason: Reason::Premise },
                ),
                used: Seq::new(premises.len(), |i: int| 0int),
                spans: seq![],
                held,
            };
            let g = derivation(spec, seed);
            &&& premises_for(spec, seed) == premises
            &&& g == attempts(soil, spec.subproofs as nat, start, k)
            &&& g.lines.len() >= premises.len() + lines_wanted(spec) || (k >= 120 && k >= 20
                * lines_wanted(spec))
            &&& k <= 120 || k <= 20 * lines_wanted(spec)
            &&& forall|j: nat|
                j < k ==> (#[trigger] attempts(soil, spec.subproofs as nat, start, j)).lines.len()
                    < premises.len() + lines_wanted(spec)
        }),
{
    let (premises, held) = sampled(
        pool(spec.atoms as nat),
        spec.max_formula_len as nat,
        spec.max_premises as int,
        seeded(seed),
    );
    let wanted = lines_wanted(spec);
    assert(seedling(premises, held).lines.len() == premises.len());
    law_grown_enough(
        soil_for(spec),
        spec.subproofs as nat,
        seedling(premises, held),
        (premises.len() + wanted) as nat,
        tries_for(wanted) as nat,
    )
}

/// Whether a rule offers a formula from some lines: the lines may be cited, the formula is
/// new and short enough, and the rule concludes it from the lines in their order.
pub open spec fn open_to(soil: Soil, g: Growth, rule: InferenceRule, o: Offer) -> bool {
    &&& may_cite(g, o.combo)
    &&& o.combo.len() == premise_count(rule)
    &&& welcome(soil, g, o.conclusion)
    &&& conclusions(rule, at(g.lines, o.combo), None).contains(o.conclusion)
}

/// What is inferred is drawn among all that the drawn rule offers, by the weights of the
/// lines that each offer cites. For any rule but addition, the offers are all formulas that
/// the rule gives from lines in reach.
pub proof fn law_inference_drawn(soil: Soil, g: Growth, o: Offer)
    ensures
        ({
            let (rule, h1) = rule_drawn(g.held);
            let (all, h2) = offers(soil, rolled(g, h1), rule);
            let weights = Seq::new(
                all.len(),
                |i: int| combo_weight(all[i].combo, g.lines.len() as int, g.used),
            );
            let (i, h3) = weighted_drawn(weights, h2);
            let b = inferred(soil, g);
            &&& rule != InferenceRule::Addition && open_to(soil, g, rule, o) ==> all.contains(o)
            &&& all.len() > 0 && premise_count(rule) <= in_reach(g).len() ==> b.lines
                == g.lines.push(
                Entry {
                    formula: all[i].conclusion,
                    reason: Reason::Inference(rule, all[i].combo),
                },
            ) && b.held == h3
            &&& all.len() == 0 ==> b.lines == g.lines
        }),
{
    let (rule, h1) = rule_drawn(g.held);
    let g1 = rolled(g, h1);
    let (all, h2) = offers(soil, g1, rule);
    assert(offer_weights(all, g.lines.len() as int, g.used) =~= Seq::new(
        all.len(),
        |i: int| combo_weight(all[i].combo, g.lines.len() as int, g.used),
    ));
    if rule != InferenceRule::Addition && open_to(soil, g, rule, o) {
        let reach = in_reach(g);
        assert(in_reach(g1) == reach);
        lemma_cited_in_reach(g, o.combo);
        assert forall|i: int| 0 <= i < o.combo.len() implies exists|j: int|
            0 <= j < reach.len() && #[trigger] reach[j] == #[trigger] o.combo[i] by {
            assert(reach.contains(o.combo[i]));
        }
        lemma_choice_made(reach, premise_count(rule), 0, o.combo);
        let combos = choices(reach, premise_count(rule), 0);
        let m = choose|m: int| 0 <= m < combos.len() && combos[m] == o.combo;
        lemma_welcome(soil, g, o.conclusion);
        lemma_offer_made(
            g.lines,
            soil.max_len,
            rule,
            combos,
            combos.len() as int,
            m,
            o.conclusion,
        );
        assert(o == (Offer { combo: combos[m], conclusion: o.conclusion }));
    }
}

} // verus!
