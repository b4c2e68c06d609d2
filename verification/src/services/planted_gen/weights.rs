//! Weighted choices.
//!
//! Weights are whole numbers. A drawn number, as a share of all that could be drawn, is
//! held against the weights one after the other: the choice is where the weights so far
//! first make up that share of all weights.

use vstd::prelude::*;

use crate::models::rules::inference::{all_inference_rules, InferenceRule};
use crate::services::dice::{unit_drawn, Dice, UNITS};

verus! {

/// The weight of a line that is as recent and as little used as can be, but for the base
/// that every line has.
pub const FULL_WEIGHT: u128 = 0x100_0000_0000;

/// The base weight of a line, a tenth of the full weight.
pub const BASE_WEIGHT: u128 = 0x19_9999_9999;

/// The greatest sum of weights that is told apart from a greater one.
pub const WEIGHT_LIMIT: u128 = 0x7ff_ffff_ffff_ffff_ffff;

/// How attractive a line is for the next step: recent lines that were little used come
/// first.
pub open spec fn line_weight(pos: int, total: int, used: int) -> int {
    BASE_WEIGHT + (FULL_WEIGHT * pos) / (total * (1 + used))
}

/// The sum of the first `n` weights, up to the greatest sum that is told apart.
pub open spec fn weight_sum(ws: Seq<int>, n: int) -> int
    decreases n,
{
    if n <= 0 {
        0
    } else {
        let sum = weight_sum(ws, n - 1) + ws[n - 1];
        if sum < WEIGHT_LIMIT {
            sum
        } else {
            WEIGHT_LIMIT as int
        }
    }
}

/// Whether the weights up to a position make up the share `k` out of [`UNITS`].
pub open spec fn share_reached(ws: Seq<int>, k: int, i: int) -> bool {
    weight_sum(ws, i + 1) * UNITS >= k * weight_sum(ws, ws.len() as int)
}

/// The first position at or after `from` where the share is reached.
pub open spec fn pick_from(ws: Seq<int>, k: int, from: int) -> int
    decreases ws.len() - from,
{
    if from >= ws.len() - 1 || share_reached(ws, k, from) {
        from
    } else {
        pick_from(ws, k, from + 1)
    }
}

/// A position in a list of weights, and what the dice hold afterwards.
pub open spec fn weighted_drawn(ws: Seq<int>, held: Seq<u32>) -> (int, Seq<u32>) {
    let (k, h1) = unit_drawn(held);
    (pick_from(ws, k, 0), h1)
}

/// The choice is a position of the list, and the first one where the share is reached.
pub proof fn law_pick(ws: Seq<int>, k: int, from: int)
    requires
        0 <= from < ws.len(),
    ensures
        from <= pick_from(ws, k, from) < ws.len(),
        forall|i: int| from <= i < pick_from(ws, k, from) ==> !#[trigger] share_reached(ws, k, i),
        pick_from(ws, k, from) < ws.len() - 1 ==> share_reached(ws, k, pick_from(ws, k, from)),
    decreases ws.len() - from,
{
    if from < ws.len() - 1 && !share_reached(ws, k, from) {
        law_pick(ws, k, from + 1);
    }
}

/// The sum of the first `n` weights.
pub open spec fn plain_sum(ws: Seq<int>, n: int) -> int
    decreases n,
{
    if n <= 0 {
        0
    } else {
        plain_sum(ws, n - 1) + ws[n - 1]
    }
}

/// Sums that are not too great are told apart from all others.
proof fn lemma_plain_sum(ws: Seq<int>, n: int)
    requires
        0 <= n <= ws.len(),
        forall|i: int| 0 <= i < ws.len() ==> 0 <= #[trigger] ws[i],
        plain_sum(ws, ws.len() as int) < WEIGHT_LIMIT,
    ensures
        weight_sum(ws, n) == plain_sum(ws, n),
        0 <= plain_sum(ws, n) <= plain_sum(ws, ws.len() as int),
    decreases n,
{
    lemma_plain_sum_grows(ws, n, ws.len() as int);
    if n > 0 {
        lemma_plain_sum(ws, n - 1);
    }
}

/// Sums grow.
proof fn lemma_plain_sum_grows(ws: Seq<int>, n: int, m: int)
    requires
        0 <= n <= m <= ws.len(),
        forall|i: int| 0 <= i < ws.len() ==> 0 <= #[trigger] ws[i],
    ensures
        0 <= plain_sum(ws, n) <= plain_sum(ws, m),
    decreases m,
{
    if m > n {
        lemma_plain_sum_grows(ws, n, m - 1);
        assert(0 <= ws[m - 1]);
    } else if n > 0 {
        lemma_plain_sum_grows(ws, n - 1, n - 1);
        assert(0 <= ws[n - 1]);
    }
}

/// Positions are chosen in proportion to their weights: with `k` drawn out of [`UNITS`],
/// that position is chosen for which this share of the whole weight falls on its own weight,
/// after the weights of all positions before it.
pub proof fn law_chosen_by_weight(ws: Seq<int>, held: Seq<u32>)
    requires
        ws.len() > 0,
        forall|i: int| 0 <= i < ws.len() ==> 0 <= #[trigger] ws[i],
        plain_sum(ws, ws.len() as int) < WEIGHT_LIMIT,
    ensures
        ({
            let (i, after) = weighted_drawn(ws, held);
            let k = unit_drawn(held).0;
            let whole = plain_sum(ws, ws.len() as int);
            &&& 0 <= i < ws.len()
            &&& after == unit_drawn(held).1
            &&& i > 0 ==> plain_sum(ws, i) * UNITS < k * whole
            &&& i < ws.len() - 1 ==> k * whole <= plain_sum(ws, i + 1) * UNITS
        }),
{
    let k = unit_drawn(held).0;
    let i = weighted_drawn(ws, held).0;
    law_pick(ws, k, 0);
    lemma_plain_sum(ws, ws.len() as int);
    lemma_plain_sum(ws, i);
    lemma_plain_sum(ws, i + 1);
    if i > 0 {
        assert(!share_reached(ws, k, i - 1));
    }
}

/// Machine weights, as integers.
pub open spec fn weights(s: Seq<u128>) -> Seq<int> {
    Seq::new(s.len(), |i: int| s[i] as int)
}

/// How attractive a line is for the next step.
pub fn weigh_line(pos: usize, total: usize, used: usize) -> (r: u128)
    requires
        1 <= pos <= total,
    ensures
        r == line_weight(pos as int, total as int, used as int),
        r <= BASE_WEIGHT + FULL_WEIGHT,
{
    let p = pos as u128;
    let t = total as u128;
    let u = used as u128;
    assert(FULL_WEIGHT * p <= 0x100_0000_0000 * 0xffff_ffff_ffff_ffff) by (nonlinear_arith)
        requires
            0 <= p <= 0xffff_ffff_ffff_ffff,
            FULL_WEIGHT == 0x100_0000_0000,
    ;
    assert(t * (1 + u) <= 0xffff_ffff_ffff_ffff * 0x1_0000_0000_0000_0000) by (nonlinear_arith)
        requires
            0 <= t <= 0xffff_ffff_ffff_ffff,
            0 <= u <= 0xffff_ffff_ffff_ffff,
    ;
    assert(t * (1 + u) >= p) by (nonlinear_arith)
        requires
            1 <= p <= t,
            0 <= u,
    ;
    let share = (FULL_WEIGHT * p) / (t * (1 + u));
    assert(share <= FULL_WEIGHT) by (nonlinear_arith)
        requires
            share == (FULL_WEIGHT * p) / (t * (1 + u)),
            t * (1 + u) >= p >= 1,
            FULL_WEIGHT == 0x100_0000_0000,
    ;
    BASE_WEIGHT + share
}

/// A sum of weights, up to the greatest that is told apart.
fn capped_sum(a: u128, b: u128) -> (r: u128)
    requires
        a <= WEIGHT_LIMIT,
        b <= WEIGHT_LIMIT,
    ensures
        r == if a + b < WEIGHT_LIMIT {
            (a + b) as int
        } else {
            WEIGHT_LIMIT as int
        },
{
    let sum = a + b;
    if sum < WEIGHT_LIMIT {
        sum
    } else {
        WEIGHT_LIMIT
    }
}

/// Whether every weight is small enough to be summed.
pub open spec fn summable(s: Seq<u128>) -> bool {
    forall|i: int| 0 <= i < s.len() ==> #[trigger] s[i] <= WEIGHT_LIMIT
}

/// The position that the drawn number `k` picks.
pub fn pick_index(ws: &Vec<u128>, k: u64) -> (r: usize)
    requires
        ws@.len() > 0,
        k < UNITS,
        summable(ws@),
    ensures
        r == pick_from(weights(ws@), k as int, 0),
        r < ws@.len(),
{
    let ghost all = weights(ws@);
    let mut total: u128 = 0;
    let mut i: usize = 0;
    while i < ws.len()
        invariant
            i <= ws@.len(),
            summable(ws@),
            all == weights(ws@),
            total == weight_sum(all, i as int),
            total <= WEIGHT_LIMIT,
        decreases ws@.len() - i,
    {
        total = capped_sum(total, ws[i]);
        i = i + 1;
    }
    let mut sum: u128 = 0;
    let mut j: usize = 0;
    let last = ws.len() - 1;
    while j < last
        invariant
            j <= last,
            last == ws@.len() - 1,
            k < UNITS,
            summable(ws@),
            all == weights(ws@),
            total == weight_sum(all, all.len() as int),
            total <= WEIGHT_LIMIT,
            sum == weight_sum(all, j as int),
            sum <= WEIGHT_LIMIT,
            pick_from(all, k as int, 0) == pick_from(all, k as int, j as int),
        decreases last - j,
    {
        sum = capped_sum(sum, ws[j]);
        let unit = UNITS as u128;
        let share = k as u128;
        assert(sum * unit <= 0x7ff_ffff_ffff_ffff_ffff * 0x20_0000_0000_0000) by (nonlinear_arith)
            requires
                0 <= sum <= 0x7ff_ffff_ffff_ffff_ffff,
                unit == 0x20_0000_0000_0000,
        ;
        assert(share * total <= 0x7ff_ffff_ffff_ffff_ffff * 0x20_0000_0000_0000)
            by (nonlinear_arith)
            requires
                0 <= total <= 0x7ff_ffff_ffff_ffff_ffff,
                0 <= share < 0x20_0000_0000_0000,
        ;
        if sum * unit >= share * total {
            return j;
        }
        j = j + 1;
    }
    j
}

/// A weighted choice.
pub fn weighted_pick_index(ws: &Vec<u128>, dice: &mut Dice) -> (r: usize)
    requires
        ws@.len() > 0,
        summable(ws@),
    ensures
        r < ws@.len(),
        (r as int, final(dice)@) == weighted_drawn(weights(ws@), old(dice)@),
{
    let k = dice.unit();
    pick_index(ws, k)
}

/// How often an inference rule is tried.
pub open spec fn rule_weight(rule: InferenceRule) -> int {
    match rule {
        InferenceRule::Conjunction | InferenceRule::Addition | InferenceRule::Simplification
        | InferenceRule::ModusPonens => 15,
        InferenceRule::ModusTollens | InferenceRule::DisjunctiveSyllogism
        | InferenceRule::HypotheticalSyllogism => 10,
        InferenceRule::ConstructiveDilemma | InferenceRule::Contradiction => 4,
    }
}

/// How often the inference rules are tried, in order.
pub open spec fn rule_weights() -> Seq<int> {
    Seq::new(all_inference_rules().len(), |i: int| rule_weight(all_inference_rules()[i]))
}

/// An inference rule, and what the dice hold afterwards.
pub open spec fn rule_drawn(held: Seq<u32>) -> (InferenceRule, Seq<u32>) {
    let (i, h1) = weighted_drawn(rule_weights(), held);
    (all_inference_rules()[i], h1)
}

/// An inference rule, the common ones more often.
pub fn weighted_pick_rule(dice: &mut Dice) -> (r: InferenceRule)
    ensures
        (r, final(dice)@) == rule_drawn(old(dice)@),
{
    let rules = InferenceRule::all();
    let mut ws: Vec<u128> = Vec::new();
    let mut i: usize = 0;
    while i < rules.len()
        invariant
            i <= rules@.len(),
            rules@ == all_inference_rules(),
            ws@.len() == i,
            forall|j: int| 0 <= j < i ==> #[trigger] ws@[j] == rule_weight(rules@[j]),
        decreases rules@.len() - i,
    {
        let w: u128 = match rules[i] {
            InferenceRule::Conjunction | InferenceRule::Addition | InferenceRule::Simplification
            | InferenceRule::ModusPonens => 15,
            InferenceRule::ModusTollens | InferenceRule::DisjunctiveSyllogism
            | InferenceRule::HypotheticalSyllogism => 10,
            InferenceRule::ConstructiveDilemma | InferenceRule::Contradiction => 4,
        };
        ws.push(w);
        i = i + 1;
    }
    assert(weights(ws@) =~= rule_weights());
    let chosen = weighted_pick_index(&ws, dice);
    rules[chosen]
}

/// Of 98 draws 15 fall to modus ponens, 10 to modus tollens, 10 to disjunctive syllogism,
/// 15 to simplification, 15 to conjunction, 10 to hypothetical syllogism, 15 to addition, 4
/// to constructive dilemma and 4 to contradiction: the drawn unit, as a share of all units,
/// decides where it falls.
pub proof fn law_rule_shares(held: Seq<u32>)
    ensures
        ({
            let rule = rule_drawn(held).0;
            let k = unit_drawn(held).0 * 98;
            let u = UNITS as int;
            &&& rule == InferenceRule::ModusPonens <==> k <= 15 * u
            &&& rule == InferenceRule::ModusTollens <==> 15 * u < k <= 25 * u
            &&& rule == InferenceRule::DisjunctiveSyllogism <==> 25 * u < k <= 35 * u
            &&& rule == InferenceRule::Simplification <==> 35 * u < k <= 50 * u
            &&& rule == InferenceRule::Conjunction <==> 50 * u < k <= 65 * u
            &&& rule == InferenceRule::HypotheticalSyllogism <==> 65 * u < k <= 75 * u
            &&& rule == InferenceRule::Addition <==> 75 * u < k <= 90 * u
            &&& rule == InferenceRule::ConstructiveDilemma <==> 90 * u < k <= 94 * u
            &&& rule == InferenceRule::Contradiction <==> 94 * u < k
        }),
{
    let ws = rule_weights();
    let k = unit_drawn(held).0;
    reveal_with_fuel(weight_sum, 10);
    assert(ws.len() == 9);
    assert(ws[0] == 15 && ws[1] == 10 && ws[2] == 10 && ws[3] == 15 && ws[4] == 15 && ws[5] == 10
        && ws[6] == 15 && ws[7] == 4 && ws[8] == 4);
    assert(weight_sum(ws, 1) == 15);
    assert(weight_sum(ws, 2) == 25);
    assert(weight_sum(ws, 3) == 35);
    assert(weight_sum(ws, 4) == 50);
    assert(weight_sum(ws, 5) == 65);
    assert(weight_sum(ws, 6) == 75);
    assert(weight_sum(ws, 7) == 90);
    assert(weight_sum(ws, 8) == 94);
    assert(weight_sum(ws, 9) == 98);
    law_pick(ws, k, 0);
    let i = pick_from(ws, k, 0);
    assert(share_reached(ws, k, 0) <==> 15 * UNITS >= k * 98);
    assert(share_reached(ws, k, 1) <==> 25 * UNITS >= k * 98);
    assert(share_reached(ws, k, 2) <==> 35 * UNITS >= k * 98);
    assert(share_reached(ws, k, 3) <==> 50 * UNITS >= k * 98);
    assert(share_reached(ws, k, 4) <==> 65 * UNITS >= k * 98);
    assert(share_reached(ws, k, 5) <==> 75 * UNITS >= k * 98);
    assert(share_reached(ws, k, 6) <==> 90 * UNITS >= k * 98);
    assert(share_reached(ws, k, 7) <==> 94 * UNITS >= k * 98);
    let rules = all_inference_rules();
    assert(rules[0] == InferenceRule::ModusPonens);
    assert(rules[1] == InferenceRule::ModusTollens);
    assert(rules[2] == InferenceRule::DisjunctiveSyllogism);
    assert(rules[3] == InferenceRule::Simplification);
    assert(rules[4] == InferenceRule::Conjunction);
    assert(rules[5] == InferenceRule::HypotheticalSyllogism);
    assert(rules[6] == InferenceRule::Addition);
    assert(rules[7] == InferenceRule::ConstructiveDilemma);
    assert(rules[8] == InferenceRule::Contradiction);
}

/// What a line weighs over the base is the full weight times how far it stands down the
/// derivation, divided by one more than how often it was used, to the unit; and the base is
/// a tenth of the full weight.
pub proof fn law_line_weight(pos: int, total: int, used: int)
    requires
        1 <= pos <= total,
        0 <= used,
    ensures
        ({
            let over = line_weight(pos, total, used) - BASE_WEIGHT;
            &&& over * (total * (1 + used)) <= FULL_WEIGHT * pos
            &&& FULL_WEIGHT * pos < (over + 1) * (total * (1 + used))
        }),
        10 * BASE_WEIGHT <= FULL_WEIGHT < 10 * (BASE_WEIGHT + 1),
{
    let d = total * (1 + used);
    let x = FULL_WEIGHT * pos;
    assert(d > 0) by (nonlinear_arith)
        requires
            d == total * (1 + used),
            1 <= total,
            0 <= used,
    ;
    let q = x / d;
    vstd::arithmetic::div_mod::lemma_fundamental_div_mod(x, d);
    vstd::arithmetic::div_mod::lemma_mod_bound(x, d);
    assert(q * d <= x < (q + 1) * d) by (nonlinear_arith)
        requires
            x == d * q + x % d,
            0 <= x % d < d,
    ;
}

/// The more recent a line is and the less it was used, the more it weighs; and every line
/// weighs something.
pub proof fn law_line_weights(pos: int, later: int, total: int, used: int, more: int)
    requires
        1 <= pos <= later <= total,
        0 <= used <= more,
    ensures
        0 < line_weight(pos, total, used) <= line_weight(later, total, used),
        line_weight(pos, total, more) <= line_weight(pos, total, used),
        line_weight(total, total, 0) == BASE_WEIGHT + FULL_WEIGHT,
{
    let d = total * (1 + used);
    let e = total * (1 + more);
    let x = FULL_WEIGHT * pos;
    let y = FULL_WEIGHT * later;
    assert(0 < d <= e && 0 <= x <= y) by (nonlinear_arith)
        requires
            d == total * (1 + used),
            e == total * (1 + more),
            x == FULL_WEIGHT * pos,
            y == FULL_WEIGHT * later,
            1 <= pos <= later <= total,
            0 <= used <= more,
            FULL_WEIGHT == 0x100_0000_0000,
    ;
    vstd::arithmetic::div_mod::lemma_div_is_ordered(x, y, d);
    vstd::arithmetic::div_mod::lemma_div_is_ordered_by_denominator(x, d, e);
    vstd::arithmetic::div_mod::lemma_div_pos_is_pos(x, d);
    let z = FULL_WEIGHT * total;
    assert(total * (1 + 0) == total) by (nonlinear_arith);
    assert(z / total == FULL_WEIGHT) by {
        vstd::arithmetic::div_mod::lemma_div_multiples_vanish(FULL_WEIGHT as int, total);
        assert(z == total * FULL_WEIGHT) by (nonlinear_arith)
            requires
                z == FULL_WEIGHT * total,
        ;
    }
}

} // verus!
