//! Growing a derivation.
//!
//! A derivation is grown line by line. Every step cites lines that are within its reach;
//! subproofs are planted whole or not at all.

use vstd::prelude::*;

use crate::models::formula::{p_and, p_implies, p_not, p_or, subformula_seq};
use crate::models::formula::Prop;
use crate::models::proofs::{referenced, Reason};
use crate::models::rules::equivalence::{all_equivalence_rules, forms, replace_all, EquivalenceRule};
use crate::models::rules::inference::{conclusions, premise_count, InferenceRule};
use crate::models::rules::technique::ProofTechnique;
use crate::models::scopes::{accessible, closed_at, Span};
use crate::models::text::bracketed;
use crate::services::dice::{coin_drawn, count_drawn, index_drawn, unit_drawn};
use crate::services::planted_gen::sampling::{literal_drawn, small_drawn};
use crate::services::planted_gen::weights::{line_weight, rule_drawn, weighted_drawn};

verus! {

/// A subproof is attempted where the drawn unit is below this, 22 times out of 100.
pub const SUBPROOF_SHARE: u64 = 1981583836043019;

/// An equivalence step is attempted where the drawn unit is below this, 15 times out of
/// 100.
pub const EQUIVALENCE_SHARE: u64 = 1351079888211149;

/// A line of a derivation, as a value.
pub struct Entry {
    pub formula: Prop,
    pub reason: Reason,
}

/// A derivation as it grows: its lines, how often each was cited, its subproofs, and what
/// the dice hold.
pub struct Growth {
    pub lines: Seq<Entry>,
    pub used: Seq<int>,
    pub spans: Seq<Span>,
    pub held: Seq<u32>,
}

/// What a derivation grows on: the names of the atoms, and how long a formula may be.
pub struct Soil {
    pub atoms: Seq<Seq<char>>,
    pub max_len: nat,
}

/// The same derivation, with other dice.
pub open spec fn rolled(g: Growth, held: Seq<u32>) -> Growth {
    Growth { held, ..g }
}

/// The formulas of the lines.
pub open spec fn known(lines: Seq<Entry>) -> Seq<Prop> {
    Seq::new(lines.len(), |i: int| lines[i].formula)
}

/// The formulas of some lines, by their numbers.
pub open spec fn at(lines: Seq<Entry>, positions: Seq<int>) -> Seq<Prop> {
    Seq::new(positions.len(), |i: int| lines[positions[i] - 1].formula)
}

/// Whether the text of a formula is short enough.
pub open spec fn fits(p: Prop, max: nat) -> bool {
    bracketed(p).len() <= max
}

/// The lines up to `upto` that a line after line `n` may cite.
pub open spec fn reachable(spans: Seq<Span>, n: int, upto: int) -> Seq<int>
    decreases upto,
{
    if upto <= 0 {
        seq![]
    } else if accessible(spans, n + 1, upto) {
        reachable(spans, n, upto - 1).push(upto)
    } else {
        reachable(spans, n, upto - 1)
    }
}

/// The lines that the next line may cite.
pub open spec fn in_reach(g: Growth) -> Seq<int> {
    reachable(g.spans, g.lines.len() as int, g.lines.len() as int)
}

/// How often the lines were cited, once `cited` are.
pub open spec fn used_more(used: Seq<int>, cited: Seq<int>) -> Seq<int> {
    Seq::new(
        used.len(),
        |i: int|
            used[i] + if cited.contains(i + 1) {
                1int
            } else {
                0int
            },
    )
}

/// A derivation with one line more.
pub open spec fn with_entry(g: Growth, formula: Prop, reason: Reason) -> Growth {
    Growth {
        lines: g.lines.push(Entry { formula, reason }),
        used: used_more(g.used, referenced(reason)).push(0),
        ..g
    }
}

/// A derivation in which an assumption opens a subproof.
pub open spec fn assumed(g: Growth, formula: Prop, t: ProofTechnique) -> Growth {
    with_entry(
        Growth { spans: g.spans.push(Span { start: g.lines.len() as int + 1, end: None }), ..g },
        formula,
        Reason::Assumption(t),
    )
}

/// A derivation in which the innermost subproof, opened at line `start`, is discharged.
pub open spec fn discharged(g: Growth, formula: Prop, t: ProofTechnique, start: int) -> Growth {
    let end = g.lines.len() as int;
    with_entry(
        Growth { spans: closed_at(g.spans, end), ..g },
        formula,
        Reason::Discharge(t, start, end),
    )
}

/// What an inference may add: a formula, and the lines that it follows from.
pub struct Offer {
    pub combo: Seq<int>,
    pub conclusion: Prop,
}

/// All ways to choose `k` of the items from a position on, in order.
pub open spec fn choices(items: Seq<int>, k: nat, from: int) -> Seq<Seq<int>>
    decreases items.len() - from,
{
    if k == 0 {
        seq![seq![]]
    } else if from < 0 || from >= items.len() {
        seq![]
    } else {
        led_by(items[from], choices(items, (k - 1) as nat, from + 1)) + choices(items, k, from + 1)
    }
}

/// Lists with an item put before each.
pub open spec fn led_by(item: int, lists: Seq<Seq<int>>) -> Seq<Seq<int>> {
    Seq::new(lists.len(), |i: int| seq![item] + lists[i])
}

/// The conclusions that are new and short enough.
pub open spec fn sifted(known: Seq<Prop>, max: nat, combo: Seq<int>, cs: Seq<Prop>) -> Seq<Offer>
    decreases cs.len(),
{
    if cs.len() == 0 {
        seq![]
    } else {
        let before = sifted(known, max, combo, cs.drop_last());
        let c = cs.last();
        if !known.contains(c) && fits(c, max) {
            before.push(Offer { combo, conclusion: c })
        } else {
            before
        }
    }
}

/// What a rule offers from the first `n` combinations of lines.
pub open spec fn offered_upto(
    lines: Seq<Entry>,
    max: nat,
    rule: InferenceRule,
    combos: Seq<Seq<int>>,
    n: int,
) -> Seq<Offer>
    decreases n,
{
    if n <= 0 {
        seq![]
    } else {
        offered_upto(lines, max, rule, combos, n - 1) + sifted(
            known(lines),
            max,
            combos[n - 1],
            conclusions(rule, at(lines, combos[n - 1]), None),
        )
    }
}

/// What addition offers from the first `n` of some lines, each with a literal that is
/// drawn for it.
pub open spec fn added_upto(
    lines: Seq<Entry>,
    soil: Soil,
    reach: Seq<int>,
    n: int,
    held: Seq<u32>,
) -> (Seq<Offer>, Seq<u32>)
    decreases n,
{
    if n <= 0 {
        (seq![], held)
    } else {
        let (before, h1) = added_upto(lines, soil, reach, n - 1, held);
        let (literal, h2) = literal_drawn(soil.atoms, h1);
        let combo = seq![reach[n - 1]];
        (
            before + sifted(
                known(lines),
                soil.max_len,
                combo,
                conclusions(InferenceRule::Addition, at(lines, combo), Some(literal)),
            ),
            h2,
        )
    }
}

/// How attractive a combination of lines is.
pub open spec fn combo_weight(combo: Seq<int>, total: int, used: Seq<int>) -> int
    decreases combo.len(),
{
    if combo.len() == 0 {
        0
    } else {
        combo_weight(combo.drop_last(), total, used) + line_weight(
            combo.last(),
            total,
            used[combo.last() - 1],
        )
    }
}

/// How attractive the offers are.
pub open spec fn offer_weights(offers: Seq<Offer>, total: int, used: Seq<int>) -> Seq<int> {
    Seq::new(offers.len(), |i: int| combo_weight(offers[i].combo, total, used))
}

/// How attractive some lines are.
pub open spec fn reach_weights(reach: Seq<int>, total: int, used: Seq<int>) -> Seq<int> {
    Seq::new(reach.len(), |i: int| line_weight(reach[i], total, used[reach[i] - 1]))
}

/// What a rule offers, and what the dice hold afterwards.
pub open spec fn offers(soil: Soil, g: Growth, rule: InferenceRule) -> (Seq<Offer>, Seq<u32>) {
    let reach = in_reach(g);
    if rule == InferenceRule::Addition {
        added_upto(g.lines, soil, reach, reach.len() as int, g.held)
    } else {
        let combos = choices(reach, premise_count(rule), 0);
        (offered_upto(g.lines, soil.max_len, rule, combos, combos.len() as int), g.held)
    }
}

/// An attempt at an inference: a rule is drawn, and one of the formulas that it offers is
/// taken.
pub open spec fn inferred(soil: Soil, g: Growth) -> Growth {
    let (rule, h1) = rule_drawn(g.held);
    if premise_count(rule) > in_reach(g).len() {
        rolled(g, h1)
    } else {
        let (all, h2) = offers(soil, rolled(g, h1), rule);
        if all.len() == 0 {
            rolled(g, h2)
        } else {
            let (i, h3) = weighted_drawn(offer_weights(all, g.lines.len() as int, g.used), h2);
            with_entry(
                rolled(g, h3),
                all[i].conclusion,
                Reason::Inference(rule, all[i].combo),
            )
        }
    }
}

/// An attempt at an equivalence: a line, one of its subformulas, a rule and one of the
/// forms that it gives are drawn.
pub open spec fn rewritten(soil: Soil, g: Growth) -> Growth {
    let reach = in_reach(g);
    if reach.len() == 0 {
        g
    } else {
        let total = g.lines.len() as int;
        let (i, h1) = weighted_drawn(reach_weights(reach, total, g.used), g.held);
        let source = g.lines[reach[i] - 1].formula;
        let subs = subformula_seq(source);
        let (j, h2) = index_drawn(h1, subs.len() as int);
        let rules = all_equivalence_rules();
        let (r, h3) = index_drawn(h2, rules.len() as int);
        let fs = forms(rules[r], subs[j]);
        if fs.len() == 0 {
            rolled(g, h3)
        } else {
            let (k, h4) = index_drawn(h3, fs.len() as int);
            let result = replace_all(source, subs[j], fs[k]);
            if known(g.lines).contains(result) || !fits(result, soil.max_len) {
                rolled(g, h4)
            } else {
                with_entry(rolled(g, h4), result, Reason::Equivalence(rules[r], reach[i]))
            }
        }
    }
}

/// An attempt at an inference or an equivalence.
pub open spec fn stepped(soil: Soil, g: Growth) -> Growth {
    let (k, h1) = unit_drawn(g.held);
    if k < EQUIVALENCE_SHARE {
        rewritten(soil, rolled(g, h1))
    } else {
        inferred(soil, rolled(g, h1))
    }
}

/// One attempt to grow. Subproofs may nest `room` deep.
pub open spec fn grown(soil: Soil, room: nat, g: Growth) -> Growth
    decreases room, 2int, 0nat,
{
    if room == 0 {
        stepped(soil, g)
    } else {
        let (k, h1) = unit_drawn(g.held);
        if k < SUBPROOF_SHARE {
            let (conditional, h2) = coin_drawn(h1);
            if conditional {
                conditionally_proved(soil, room, rolled(g, h2))
            } else {
                indirectly_proved(soil, room, rolled(g, h2))
            }
        } else {
            stepped(soil, rolled(g, h1))
        }
    }
}

/// Attempts to grow until `want` of them have added something or `tries` are made; and
/// how many were still wanted.
pub open spec fn grown_by(soil: Soil, room: nat, g: Growth, want: nat, tries: nat) -> (nat, Growth)
    decreases room, 3int, tries,
{
    if want == 0 || tries == 0 {
        (want, g)
    } else {
        let next = grown(soil, room, g);
        let left = if next.lines.len() > g.lines.len() {
            (want - 1) as nat
        } else {
            want
        };
        grown_by(soil, room, next, left, (tries - 1) as nat)
    }
}

/// The greater of two numbers.
pub open spec fn at_least(n: nat, least: nat) -> nat {
    if n < least {
        least
    } else {
        n
    }
}

/// An attempt at a conditional proof: a formula is assumed, at least two steps are grown
/// from it, and the implication of the last one is discharged. Where that fails, or gives
/// nothing new, the derivation stays as it was.
pub open spec fn conditionally_proved(soil: Soil, room: nat, g: Growth) -> Growth
    decreases room, 1int, 0nat,
{
    let (a, h1) = small_drawn(soil.atoms, g.held);
    let outer = at(g.lines, in_reach(g));
    if room == 0 || !fits(a, soil.max_len) || outer.contains(a) {
        rolled(g, h1)
    } else {
        let g1 = assumed(rolled(g, h1), a, ProofTechnique::ConditionalProof);
        let (want, h2) = count_drawn(g1.held, 2, 5);
        let (left, g2) = grown_by(
            soil,
            (room - 1) as nat,
            rolled(g1, h2),
            want as nat,
            at_least((want * 15) as nat, 40),
        );
        let c = p_implies(a, g2.lines.last().formula);
        if want - left < 2 || outer.contains(c) || !fits(c, soil.max_len) {
            rolled(g, g2.held)
        } else {
            discharged(g2, c, ProofTechnique::ConditionalProof, g.lines.len() as int + 1)
        }
    }
}

/// How an indirect proof refutes its assumption: what is assumed, the rule that opens it
/// up, what that gives, the negated anchor that simplification takes from it, and what is
/// discharged in the end.
pub struct Template {
    pub rule: EquivalenceRule,
    pub assumption: Prop,
    pub opened: Prop,
    pub refuted: Prop,
    pub goal: Prop,
}

/// From `a`, the template for `~(b . ~a)`.
pub open spec fn conj_template(a: Prop, b: Prop) -> Template {
    let opened = p_and(b, p_not(a));
    Template {
        rule: EquivalenceRule::DoubleNegation,
        assumption: p_not(p_not(opened)),
        opened,
        refuted: p_not(a),
        goal: p_not(opened),
    }
}

/// From `a`, the template for `a v b`.
pub open spec fn disj_template(a: Prop, b: Prop) -> Template {
    let goal = p_or(a, b);
    Template {
        rule: EquivalenceRule::DeMorgan,
        assumption: p_not(goal),
        opened: p_and(p_not(a), p_not(b)),
        refuted: p_not(a),
        goal,
    }
}

/// Whether a template is short enough and gives nothing that is in reach already.
pub open spec fn usable(soil: Soil, outer: Seq<Prop>, t: Template) -> bool {
    &&& fits(t.assumption, soil.max_len)
    &&& fits(t.opened, soil.max_len)
    &&& fits(t.refuted, soil.max_len)
    &&& fits(t.goal, soil.max_len)
    &&& !outer.contains(t.assumption)
    &&& !outer.contains(t.goal)
}

/// An attempt at an indirect proof from a line in reach as its anchor: the assumption is
/// opened up until it contradicts the anchor, perhaps after some other steps. Where that
/// fails the derivation stays as it was.
pub open spec fn indirectly_proved(soil: Soil, room: nat, g: Growth) -> Growth
    decreases room, 1int, 0nat,
{
    let reach = in_reach(g);
    if room == 0 || reach.len() == 0 {
        g
    } else {
        let total = g.lines.len() as int;
        let (i, h1) = weighted_drawn(reach_weights(reach, total, g.used), g.held);
        let anchor = reach[i];
        let (b, h2) = literal_drawn(soil.atoms, h1);
        let (conj, h3) = coin_drawn(h2);
        let a = g.lines[anchor - 1].formula;
        let t = if conj {
            conj_template(a, b)
        } else {
            disj_template(a, b)
        };
        if !usable(soil, at(g.lines, reach), t) {
            rolled(g, h3)
        } else {
            let g1 = assumed(rolled(g, h3), t.assumption, ProofTechnique::IndirectProof);
            let (want, h4) = count_drawn(g1.held, 0, 3);
            let g2 = grown_by(
                soil,
                (room - 1) as nat,
                rolled(g1, h4),
                want as nat,
                at_least((want * 15) as nat, 20),
            ).1;
            refuted(g, g2, t, anchor)
        }
    }
}

/// The end of an indirect proof that was begun on `g` and has grown to `g2`.
pub open spec fn refuted(g: Growth, g2: Growth, t: Template, anchor: int) -> Growth {
    let start = g.lines.len() as int + 1;
    let g3 = with_entry(g2, t.opened, Reason::Equivalence(t.rule, start));
    let g4 = with_entry(
        g3,
        t.refuted,
        Reason::Inference(InferenceRule::Simplification, seq![g3.lines.len() as int]),
    );
    if known(g4.lines).contains(Prop::Contradiction) {
        rolled(g, g4.held)
    } else {
        let g5 = with_entry(
            g4,
            Prop::Contradiction,
            Reason::Inference(
                InferenceRule::Contradiction,
                seq![anchor, g4.lines.len() as int],
            ),
        );
        discharged(g5, t.goal, ProofTechnique::IndirectProof, start)
    }
}

/// Attempts to grow until there are `size` lines or `tries` are made.
pub open spec fn grown_to(soil: Soil, room: nat, g: Growth, size: nat, tries: nat) -> Growth
    decreases tries,
{
    if g.lines.len() >= size || tries == 0 {
        g
    } else {
        grown_to(soil, room, grown(soil, room, g), size, (tries - 1) as nat)
    }
}

} // verus!
