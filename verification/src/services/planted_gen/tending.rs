//! What growing keeps: lines and subproofs are added, and none is changed.

use vstd::prelude::*;

use super::growth::{
    added_upto, assumed, at, at_least, choices, conditionally_proved, conj_template, discharged,
    disj_template, fits, grown, grown_by, grown_to, in_reach, indirectly_proved, inferred, known,
    led_by, offered_upto, offers, reach_weights, reachable, refuted, rewritten, rolled, sifted,
    stepped, usable, with_entry, SUBPROOF_SHARE,
};
use super::growth::{Growth, Offer, Soil, Template};
use super::weights::weighted_drawn;
use crate::models::formula::{p_implies, Prop};
use crate::models::lists::{lemma_in_joined, lemma_in_pushed};
use crate::models::proofs::Reason;
use crate::models::rules::inference::{conclusions, premise_count, InferenceRule};
use crate::models::rules::technique::ProofTechnique;
use crate::models::scopes::{accessible, closed_at, last_open, lemma_last_open, Span};
use crate::services::dice::{coin_drawn, count_drawn, unit_drawn};
use crate::services::planted_gen::sampling::{literal_drawn, small_drawn};

verus! {

/// Whether numbers ascend.
pub open spec fn ascending(s: Seq<int>) -> bool {
    forall|i: int, j: int| 0 <= i < j < s.len() ==> #[trigger] s[i] < #[trigger] s[j]
}

/// Exactly the lines that may be cited are in reach, in order.
pub proof fn lemma_reachable(spans: Seq<Span>, n: int, upto: int)
    ensures
        ascending(reachable(spans, n, upto)),
        forall|i: int|
            0 <= i < reachable(spans, n, upto).len() ==> 1 <= #[trigger] reachable(
                spans,
                n,
                upto,
            )[i] <= upto && accessible(spans, n + 1, reachable(spans, n, upto)[i]),
        forall|p: int|
            1 <= p <= upto && #[trigger] accessible(spans, n + 1, p) ==> reachable(
                spans,
                n,
                upto,
            ).contains(p),
    decreases upto,
{
    if upto > 0 {
        lemma_reachable(spans, n, upto - 1);
        let before = reachable(spans, n, upto - 1);
        let all = reachable(spans, n, upto);
        assert forall|p: int|
            1 <= p <= upto && #[trigger] accessible(spans, n + 1, p) implies all.contains(p) by {
            lemma_in_pushed(before, upto, p);
        }
    }
}

/// A choice is an ascending list of so many of the items.
pub proof fn lemma_choices(items: Seq<int>, k: nat, from: int, c: Seq<int>)
    requires
        ascending(items),
        0 <= from,
        choices(items, k, from).contains(c),
    ensures
        c.len() == k,
        ascending(c),
        forall|i: int|
            0 <= i < c.len() ==> exists|j: int|
                from <= j < items.len() && #[trigger] items[j] == #[trigger] c[i],
    decreases items.len() - from,
{
    if k == 0 {
        assert(c == Seq::<int>::empty());
    } else if from < items.len() {
        let inner = choices(items, (k - 1) as nat, from + 1);
        let led = led_by(items[from], inner);
        let rest = choices(items, k, from + 1);
        lemma_in_joined(led, rest, c);
        if rest.contains(c) {
            lemma_choices(items, k, from + 1, c);
        } else {
            let i = choose|i: int| 0 <= i < led.len() && led[i] == c;
            let tail = inner[i];
            assert(inner.contains(tail));
            lemma_choices(items, (k - 1) as nat, from + 1, tail);
            assert(c == seq![items[from]] + tail);
            assert forall|m: int| 0 <= m < c.len() implies exists|j: int|
                from <= j < items.len() && #[trigger] items[j] == #[trigger] c[m] by {
                if m == 0 {
                    assert(items[from] == c[0]);
                } else {
                    assert(c[m] == tail[m - 1]);
                }
            }
            assert(ascending(c)) by {
                assert forall|a: int, b: int| 0 <= a < b < c.len() implies #[trigger] c[a]
                    < #[trigger] c[b] by {
                    assert(c[b] == tail[b - 1]);
                    let j = choose|j: int|
                        from + 1 <= j < items.len() && #[trigger] items[j] == tail[b - 1];
                    if a > 0 {
                        assert(c[a] == tail[a - 1]);
                    } else {
                        assert(items[from] < items[j]);
                    }
                }
            }
        }
    }
}

/// What is sifted out is new, short enough and among the conclusions.
pub proof fn lemma_sifted(known: Seq<Prop>, max: nat, combo: Seq<int>, cs: Seq<Prop>, o: Offer)
    ensures
        sifted(known, max, combo, cs).contains(o) <==> (o.combo == combo && cs.contains(
            o.conclusion,
        ) && !known.contains(o.conclusion) && fits(o.conclusion, max)),
    decreases cs.len(),
{
    if cs.len() > 0 {
        let before = sifted(known, max, combo, cs.drop_last());
        let c = cs.last();
        lemma_sifted(known, max, combo, cs.drop_last(), o);
        assert(cs =~= cs.drop_last().push(c));
        lemma_in_pushed(cs.drop_last(), c, o.conclusion);
        lemma_in_pushed(before, Offer { combo, conclusion: c }, o);
    }
}

/// Whether an offer is what a rule gives: its lines ascend and are in reach, and its
/// conclusion is new, short enough and follows.
pub open spec fn offer_sound(soil: Soil, g: Growth, rule: InferenceRule, o: Offer) -> bool {
    &&& o.combo.len() == premise_count(rule)
    &&& ascending(o.combo)
    &&& forall|i: int|
        0 <= i < o.combo.len() ==> in_reach(g).contains(#[trigger] o.combo[i])
    &&& !known(g.lines).contains(o.conclusion)
    &&& fits(o.conclusion, soil.max_len)
    &&& exists|extra: Option<Prop>| #[trigger]
        conclusions(rule, at(g.lines, o.combo), extra).contains(o.conclusion)
}

/// [`lemma_offers`] for combinations of lines.
proof fn lemma_offered(
    soil: Soil,
    g: Growth,
    rule: InferenceRule,
    combos: Seq<Seq<int>>,
    n: int,
    o: Offer,
)
    requires
        combos == choices(in_reach(g), premise_count(rule), 0),
        n <= combos.len(),
        offered_upto(g.lines, soil.max_len, rule, combos, n).contains(o),
    ensures
        offer_sound(soil, g, rule, o),
    decreases n,
{
    if n > 0 {
        let combo = combos[n - 1];
        let cs = conclusions(rule, at(g.lines, combo), None);
        let before = offered_upto(g.lines, soil.max_len, rule, combos, n - 1);
        let here = sifted(known(g.lines), soil.max_len, combo, cs);
        lemma_in_joined(before, here, o);
        if before.contains(o) {
            lemma_offered(soil, g, rule, combos, n - 1, o);
        } else {
            lemma_sifted(known(g.lines), soil.max_len, combo, cs, o);
            let n0 = g.lines.len() as int;
            lemma_reachable(g.spans, n0, n0);
            assert(combos.contains(combo));
            lemma_choices(in_reach(g), premise_count(rule), 0, combo);
            assert forall|i: int| 0 <= i < o.combo.len() implies in_reach(g).contains(
                #[trigger] o.combo[i],
            ) by {
                let j = choose|j: int|
                    0 <= j < in_reach(g).len() && #[trigger] in_reach(g)[j] == o.combo[i];
            }
        }
    }
}

/// [`lemma_offers`] for addition.
proof fn lemma_added(soil: Soil, g: Growth, n: int, held: Seq<u32>, o: Offer)
    requires
        n <= in_reach(g).len(),
        added_upto(g.lines, soil, in_reach(g), n, held).0.contains(o),
    ensures
        offer_sound(soil, g, InferenceRule::Addition, o),
    decreases n,
{
    let reach = in_reach(g);
    if n > 0 {
        let (before, h1) = added_upto(g.lines, soil, reach, n - 1, held);
        let (literal, h2) = literal_drawn(soil.atoms, h1);
        let combo = seq![reach[n - 1]];
        let cs = conclusions(InferenceRule::Addition, at(g.lines, combo), Some(literal));
        let here = sifted(known(g.lines), soil.max_len, combo, cs);
        lemma_in_joined(before, here, o);
        if before.contains(o) {
            lemma_added(soil, g, n - 1, held, o);
        } else {
            lemma_sifted(known(g.lines), soil.max_len, combo, cs, o);
            assert(reach.contains(reach[n - 1]));
            assert(o.combo[0] == reach[n - 1]);
        }
    }
}

/// Everything that a rule offers is sound.
pub proof fn lemma_offers(soil: Soil, g: Growth, rule: InferenceRule, o: Offer)
    requires
        offers(soil, g, rule).0.contains(o),
    ensures
        offer_sound(soil, g, rule, o),
{
    let reach = in_reach(g);
    if rule == InferenceRule::Addition {
        lemma_added(soil, g, reach.len() as int, g.held, o);
    } else {
        let combos = choices(reach, premise_count(rule), 0);
        lemma_offered(soil, g, rule, combos, combos.len() as int, o);
    }
}

/// Whether the counts fit the lines, and no subproof starts after them.
pub open spec fn steady(g: Growth) -> bool {
    &&& g.used.len() == g.lines.len()
    &&& forall|i: int| 0 <= i < g.used.len() ==> 0 <= #[trigger] g.used[i] <= g.lines.len()
    &&& forall|i: int|
        0 <= i < g.spans.len() ==> 1 <= (#[trigger] g.spans[i]).start <= g.lines.len()
}

/// Whether `b` is `a` with lines added, and with subproofs that start and end after it.
pub open spec fn extends(a: Growth, b: Growth) -> bool {
    &&& a.lines.len() <= b.lines.len()
    &&& b.lines.take(a.lines.len() as int) == a.lines
    &&& a.spans.len() <= b.spans.len()
    &&& b.spans.take(a.spans.len() as int) == a.spans
    &&& forall|i: int|
        a.spans.len() <= i < b.spans.len() ==> (#[trigger] b.spans[i]).start > a.lines.len()
            && b.spans[i].end is Some
}

/// One extension after another.
pub proof fn lemma_extends_trans(a: Growth, b: Growth, c: Growth)
    requires
        extends(a, b),
        extends(b, c),
    ensures
        extends(a, c),
{
    assert(c.lines.take(a.lines.len() as int) =~= b.lines.take(a.lines.len() as int)) by {
        assert forall|i: int| 0 <= i < a.lines.len() implies c.lines[i] == b.lines[i] by {
            assert(c.lines.take(b.lines.len() as int)[i] == b.lines[i]);
        }
    }
    assert(c.spans.take(a.spans.len() as int) =~= b.spans.take(a.spans.len() as int)) by {
        assert forall|i: int| 0 <= i < a.spans.len() implies c.spans[i] == b.spans[i] by {
            assert(c.spans.take(b.spans.len() as int)[i] == b.spans[i]);
        }
    }
    assert forall|i: int| a.spans.len() <= i < c.spans.len() implies (#[trigger] c.spans[i]).start
        > a.lines.len() && c.spans[i].end is Some by {
        if i < b.spans.len() {
            assert(c.spans.take(b.spans.len() as int)[i] == b.spans[i]);
        }
    }
}

/// A line more.
pub proof fn lemma_with_entry(g: Growth, formula: Prop, reason: Reason)
    requires
        steady(g),
    ensures
        steady(with_entry(g, formula, reason)),
        extends(g, with_entry(g, formula, reason)),
{
    let b = with_entry(g, formula, reason);
    assert(b.lines.take(g.lines.len() as int) =~= g.lines);
    assert(b.spans.take(g.spans.len() as int) =~= g.spans);
}

/// Nothing more.
pub proof fn lemma_rolled(g: Growth, held: Seq<u32>)
    ensures
        extends(g, rolled(g, held)),
        steady(g) ==> steady(rolled(g, held)),
{
    assert(g.lines.take(g.lines.len() as int) =~= g.lines);
    assert(g.spans.take(g.spans.len() as int) =~= g.spans);
}

/// An assumption more.
pub proof fn lemma_assumed(g: Growth, formula: Prop, t: ProofTechnique)
    requires
        steady(g),
    ensures
        steady(assumed(g, formula, t)),
        assumed(g, formula, t).lines.take(g.lines.len() as int) == g.lines,
        assumed(g, formula, t).lines.len() == g.lines.len() + 1,
        assumed(g, formula, t).spans == g.spans.push(
            Span { start: g.lines.len() as int + 1, end: None },
        ),
{
    let b = assumed(g, formula, t);
    assert(b.lines.take(g.lines.len() as int) =~= g.lines);
}

/// Where a subproof was opened on `g` and `b` extends that, the subproof is the innermost
/// open one; once it is closed, `b` extends `g`.
pub proof fn lemma_closing(g: Growth, formula: Prop, t: ProofTechnique, b: Growth, end: int)
    requires
        steady(g),
        extends(assumed(g, formula, t), b),
    ensures
        last_open(b.spans) == Some(g.spans.len() as int),
        closed_at(b.spans, end) == b.spans.update(
            g.spans.len() as int,
            Span { start: g.lines.len() as int + 1, end: Some(end) },
        ),
        extends(g, Growth { spans: closed_at(b.spans, end), ..b }),
{
    let a = assumed(g, formula, t);
    let k = g.spans.len() as int;
    lemma_assumed(g, formula, t);
    lemma_last_open(b.spans);
    assert(b.spans.take(a.spans.len() as int)[k] == b.spans[k]);
    assert(b.spans[k] == (Span { start: g.lines.len() as int + 1, end: None }));
    assert(last_open(b.spans) == Some(k)) by {
        match last_open(b.spans) {
            Some(i) => {
                if i < k {
                    assert(b.spans[k].end is Some);
                } else if i > k {
                    assert(b.spans[i].end is Some);
                }
            },
            None => {
                assert(b.spans[k].end is Some);
            },
        }
    }
    let c = Growth { spans: closed_at(b.spans, end), ..b };
    assert forall|i: int| 0 <= i < g.lines.len() implies b.lines[i] == g.lines[i] by {
        assert(b.lines.take(a.lines.len() as int)[i] == a.lines[i]);
        assert(a.lines.take(g.lines.len() as int)[i] == g.lines[i]);
    }
    assert(c.lines.take(g.lines.len() as int) =~= g.lines);
    assert forall|i: int| 0 <= i < g.spans.len() implies c.spans[i] == g.spans[i] by {
        assert(b.spans.take(a.spans.len() as int)[i] == a.spans[i]);
    }
    assert(c.spans.take(g.spans.len() as int) =~= g.spans);
}

/// An inference more, perhaps.
pub proof fn lemma_inferred(soil: Soil, g: Growth)
    requires
        steady(g),
    ensures
        steady(inferred(soil, g)),
        extends(g, inferred(soil, g)),
{
    let b = inferred(soil, g);
    lemma_rolled(g, b.held);
    if b.lines.len() > g.lines.len() {
        lemma_with_entry(
            rolled(g, b.held),
            b.lines.last().formula,
            b.lines.last().reason,
        );
        lemma_extends_trans(g, rolled(g, b.held), b);
    }
}

/// An equivalence more, perhaps.
pub proof fn lemma_rewritten(soil: Soil, g: Growth)
    requires
        steady(g),
    ensures
        steady(rewritten(soil, g)),
        extends(g, rewritten(soil, g)),
{
    let b = rewritten(soil, g);
    lemma_rolled(g, b.held);
    if b.lines.len() > g.lines.len() {
        lemma_with_entry(
            rolled(g, b.held),
            b.lines.last().formula,
            b.lines.last().reason,
        );
        lemma_extends_trans(g, rolled(g, b.held), b);
    }
}

/// A step more, perhaps.
pub proof fn lemma_stepped(soil: Soil, g: Growth)
    requires
        steady(g),
    ensures
        steady(stepped(soil, g)),
        extends(g, stepped(soil, g)),
{
    let h1 = unit_drawn(g.held).1;
    lemma_rolled(g, h1);
    lemma_rewritten(soil, rolled(g, h1));
    lemma_inferred(soil, rolled(g, h1));
    lemma_extends_trans(g, rolled(g, h1), stepped(soil, g));
}

/// Growing adds lines and whole subproofs.
pub proof fn lemma_grown(soil: Soil, room: nat, g: Growth)
    requires
        steady(g),
    ensures
        steady(grown(soil, room, g)),
        extends(g, grown(soil, room, g)),
    decreases room, 2int, 0nat,
{
    if room == 0 {
        lemma_stepped(soil, g);
    } else {
        let (k, h1) = unit_drawn(g.held);
        let (conditional, h2) = coin_drawn(h1);
        lemma_rolled(g, h1);
        lemma_rolled(g, h2);
        if k >= SUBPROOF_SHARE {
            lemma_stepped(soil, rolled(g, h1));
            lemma_extends_trans(g, rolled(g, h1), grown(soil, room, g));
        } else if conditional {
            lemma_conditional(soil, room, rolled(g, h2));
            lemma_extends_trans(g, rolled(g, h2), grown(soil, room, g));
        } else {
            lemma_indirect(soil, room, rolled(g, h2));
            lemma_extends_trans(g, rolled(g, h2), grown(soil, room, g));
        }
    }
}

/// [`lemma_grown`] for several attempts.
pub proof fn lemma_grown_by(soil: Soil, room: nat, g: Growth, want: nat, tries: nat)
    requires
        steady(g),
    ensures
        steady(grown_by(soil, room, g, want, tries).1),
        extends(g, grown_by(soil, room, g, want, tries).1),
        grown_by(soil, room, g, want, tries).0 <= want,
        grown_by(soil, room, g, want, tries).1.lines.len() >= g.lines.len() + want - grown_by(
            soil,
            room,
            g,
            want,
            tries,
        ).0,
    decreases room, 3int, tries,
{
    if want == 0 || tries == 0 {
        lemma_rolled(g, g.held);
    } else {
        let next = grown(soil, room, g);
        let left = if next.lines.len() > g.lines.len() {
            (want - 1) as nat
        } else {
            want
        };
        lemma_grown(soil, room, g);
        lemma_grown_by(soil, room, next, left, (tries - 1) as nat);
        lemma_extends_trans(g, next, grown_by(soil, room, g, want, tries).1);
    }
}

/// [`lemma_grown`] for a conditional proof.
proof fn lemma_conditional(soil: Soil, room: nat, g: Growth)
    requires
        steady(g),
    ensures
        steady(conditionally_proved(soil, room, g)),
        extends(g, conditionally_proved(soil, room, g)),
    decreases room, 1int, 0nat,
{
    let b = conditionally_proved(soil, room, g);
    let (a, h1) = small_drawn(soil.atoms, g.held);
    let outer = at(g.lines, in_reach(g));
    lemma_rolled(g, b.held);
    lemma_rolled(g, h1);
    if room == 0 || !fits(a, soil.max_len) || outer.contains(a) {
    } else {
        let t = ProofTechnique::ConditionalProof;
        let g0 = rolled(g, h1);
        let g1 = assumed(g0, a, t);
        lemma_assumed(g0, a, t);
        let (want, h2) = count_drawn(g1.held, 2, 5);
        lemma_rolled(g1, h2);
        let tries = at_least((want * 15) as nat, 40);
        let (left, g2) = grown_by(soil, (room - 1) as nat, rolled(g1, h2), want as nat, tries);
        lemma_grown_by(soil, (room - 1) as nat, rolled(g1, h2), want as nat, tries);
        lemma_extends_trans(g1, rolled(g1, h2), g2);
        let c = p_implies(a, g2.lines.last().formula);
        if want - left < 2 || outer.contains(c) || !fits(c, soil.max_len) {
        } else {
            lemma_discharged(g0, a, t, g2, c);
            lemma_extends_trans(g, g0, b);
        }
    }
}

/// A subproof discharged.
proof fn lemma_discharged(g: Growth, a: Prop, t: ProofTechnique, b: Growth, c: Prop)
    requires
        steady(g),
        steady(b),
        extends(assumed(g, a, t), b),
    ensures
        steady(discharged(b, c, t, g.lines.len() as int + 1)),
        extends(g, discharged(b, c, t, g.lines.len() as int + 1)),
{
    let end = b.lines.len() as int;
    let closed = Growth { spans: closed_at(b.spans, end), ..b };
    let start = g.lines.len() as int + 1;
    lemma_assumed(g, a, t);
    lemma_closing(g, a, t, b, end);
    assert forall|i: int| 0 <= i < closed.spans.len() implies 1 <= (#[trigger] closed.spans[i]).start
        <= closed.lines.len() by {
        assert(1 <= b.spans[i].start <= b.lines.len());
    }
    assert(steady(closed));
    lemma_with_entry(closed, c, Reason::Discharge(t, start, end));
    lemma_extends_trans(g, closed, discharged(b, c, t, start));
}

/// [`lemma_grown`] for an indirect proof.
proof fn lemma_indirect(soil: Soil, room: nat, g: Growth)
    requires
        steady(g),
    ensures
        steady(indirectly_proved(soil, room, g)),
        extends(g, indirectly_proved(soil, room, g)),
    decreases room, 1int, 0nat,
{
    let b = indirectly_proved(soil, room, g);
    let reach = in_reach(g);
    lemma_rolled(g, b.held);
    if room > 0 && reach.len() > 0 {
        let total = g.lines.len() as int;
        let (i, h1) = weighted_drawn(
            reach_weights(reach, total, g.used),
            g.held,
        );
        let anchor = reach[i];
        let (lit, h2) = literal_drawn(soil.atoms, h1);
        let (conj, h3) = coin_drawn(h2);
        let a = g.lines[anchor - 1].formula;
        let t = if conj {
            conj_template(a, lit)
        } else {
            disj_template(a, lit)
        };
        let ip = ProofTechnique::IndirectProof;
        let g0 = rolled(g, h3);
        lemma_rolled(g, h3);
        if usable(soil, at(g.lines, reach), t) {
            let g1 = assumed(g0, t.assumption, ip);
            lemma_assumed(g0, t.assumption, ip);
            let (want, h4) = count_drawn(g1.held, 0, 3);
            lemma_rolled(g1, h4);
            let tries = at_least((want * 15) as nat, 20);
            let g2 = grown_by(soil, (room - 1) as nat, rolled(g1, h4), want as nat, tries).1;
            lemma_grown_by(soil, (room - 1) as nat, rolled(g1, h4), want as nat, tries);
            lemma_extends_trans(g1, rolled(g1, h4), g2);
            lemma_refuted(g, h3, g2, t, anchor);
        }
    }
}

/// [`lemma_indirect`] from where the contradiction is derived.
pub proof fn lemma_refuted(g: Growth, held: Seq<u32>, g2: Growth, t: Template, anchor: int)
    requires
        steady(g),
        steady(g2),
        extends(assumed(rolled(g, held), t.assumption, ProofTechnique::IndirectProof), g2),
    ensures
        steady(refuted(g, g2, t, anchor)),
        extends(g, refuted(g, g2, t, anchor)),
{
    let b = refuted(g, g2, t, anchor);
    let ip = ProofTechnique::IndirectProof;
    let g0 = rolled(g, held);
    let start = g.lines.len() as int + 1;
    lemma_rolled(g, held);
    lemma_rolled(g, b.held);
    let r3 = Reason::Equivalence(t.rule, start);
    let g3 = with_entry(g2, t.opened, r3);
    lemma_with_entry(g2, t.opened, r3);
    let r4 = Reason::Inference(InferenceRule::Simplification, seq![g3.lines.len() as int]);
    let g4 = with_entry(g3, t.refuted, r4);
    lemma_with_entry(g3, t.refuted, r4);
    if !known(g4.lines).contains(Prop::Contradiction) {
        let r5 = Reason::Inference(
            InferenceRule::Contradiction,
            seq![anchor, g4.lines.len() as int],
        );
        let g5 = with_entry(g4, Prop::Contradiction, r5);
        lemma_with_entry(g4, Prop::Contradiction, r5);
        let g1 = assumed(g0, t.assumption, ip);
        lemma_extends_trans(g1, g2, g3);
        lemma_extends_trans(g1, g3, g4);
        lemma_extends_trans(g1, g4, g5);
        lemma_discharged(g0, t.assumption, ip, g5, t.goal);
        lemma_extends_trans(g, g0, b);
    }
}

/// [`lemma_grown`] for the whole of growing.
pub proof fn lemma_grown_to(soil: Soil, room: nat, g: Growth, size: nat, tries: nat)
    requires
        steady(g),
    ensures
        steady(grown_to(soil, room, g, size, tries)),
        extends(g, grown_to(soil, room, g, size, tries)),
    decreases tries,
{
    if g.lines.len() >= size || tries == 0 {
        lemma_rolled(g, g.held);
    } else {
        let next = grown(soil, room, g);
        lemma_grown(soil, room, g);
        lemma_grown_to(soil, room, next, size, (tries - 1) as nat);
        lemma_extends_trans(g, next, grown_to(soil, room, g, size, tries));
    }
}

} // verus!
