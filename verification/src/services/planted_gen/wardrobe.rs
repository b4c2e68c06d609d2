//! What costumes owe: wherever a step of a disguise can be taken, one is.

use vstd::prelude::*;

use super::candidate::PlantSpec;
use super::cone::{best_upto, rebuilt};
use super::costume::{
    admissible, body, by_forms, by_rules, costumed, disguise, disguised, disguises, disguises_upto,
    dressed_upto, looks, plain, worn, Costume, Disguise,
};
use super::dressing::{
    law_disguised_sewn, law_dressed_verified, lemma_disguises, lemma_dressed_sewn, sewn,
};
use super::growth::fits;
use super::planting::{derivation, law_derivation_justified, lemma_best, planted, premises_for};
use super::promises::{law_disguised_discreet, lemma_stage_equivalent};
use super::rebuilding::{finished, law_rebuilt_finished};
use crate::models::formula::{
    equivalent, eval, is_part, law_subformulas, subformula_seq, Prop, Valuation,
};
use crate::models::lists::{lemma_in_joined, lemma_in_pushed};
use crate::models::proofs::Draft;
use crate::models::rules::equivalence::{
    all_equivalence_rules, forms, law_forms_by_schema, law_forms_equivalent, law_forms_symmetric,
    law_replace_all_equivalent, replace_all, schema, EquivalenceRule,
};
use crate::models::scopes::lemma_depth_zero;
use crate::services::dice::{index_drawn, passes_drawn};

verus! {

/// Whether a rule, read from either side of its schema, changes a part of `current` into
/// `after` wherever it occurs, so that the result `next` is short enough, is not to be
/// avoided, and goes back to `current` when the part is put back.
pub open spec fn can_disguise(current: Prop, max: nat, avoid: Seq<Prop>, x: Disguise) -> bool {
    &&& is_part(x.before, current)
    &&& schema(x.rule, x.before, x.after) || schema(x.rule, x.after, x.before)
    &&& x.after != x.before
    &&& x.next == replace_all(current, x.before, x.after)
    &&& fits(x.next, max)
    &&& !avoid.contains(x.next)
    &&& replace_all(x.next, x.after, x.before) == current
}

/// The steps that a disguise may take are all those that a rule allows and that can be
/// undone.
pub proof fn law_disguises_complete(current: Prop, max: nat, avoid: Seq<Prop>, x: Disguise)
    ensures
        disguises(current, max, avoid).contains(x) <==> can_disguise(current, max, avoid, x),
{
    let subs = subformula_seq(current);
    law_subformulas(current, x.before);
    law_forms_by_schema(x.rule, x.before, x.after);
    if disguises(current, max, avoid).contains(x) {
        lemma_disguises(current, max, avoid, x);
    }
    if can_disguise(current, max, avoid, x) {
        law_forms_symmetric(x.rule, x.before, x.after);
        assert(admissible(current, max, avoid, x));
        assert(x == disguise(current, x.rule, x.before, x.after));
        let s = choose|s: int| 0 <= s < subs.len() && subs[s] == x.before;
        let r = rule_place(x.rule);
        assert(all_equivalence_rules()[r] == x.rule);
        lemma_by_forms_all(
            current,
            max,
            avoid,
            x.rule,
            x.before,
            forms(x.rule, x.before),
            x.after,
        );
        lemma_by_rules_all(
            current,
            max,
            avoid,
            x.before,
            r,
            all_equivalence_rules().len() as int,
            x,
        );
        lemma_upto_all(current, max, avoid, s, subs.len() as int, x);
    }
}

/// The place of a rule among all rules.
spec fn rule_place(rule: EquivalenceRule) -> int {
    match rule {
        EquivalenceRule::DoubleNegation => 0,
        EquivalenceRule::DeMorgan => 1,
        EquivalenceRule::Commutation => 2,
        EquivalenceRule::Association => 3,
        EquivalenceRule::Distribution => 4,
        EquivalenceRule::Contraposition => 5,
        EquivalenceRule::Implication => 6,
        EquivalenceRule::Exportation => 7,
        EquivalenceRule::Tautology => 8,
        EquivalenceRule::Equivalence => 9,
    }
}

/// [`law_disguises_complete`] for the forms of one subformula.
proof fn lemma_by_forms_all(
    current: Prop,
    max: nat,
    avoid: Seq<Prop>,
    rule: EquivalenceRule,
    sub: Prop,
    fs: Seq<Prop>,
    form: Prop,
)
    requires
        fs.contains(form),
        admissible(current, max, avoid, disguise(current, rule, sub, form)),
    ensures
        by_forms(current, max, avoid, rule, sub, fs).contains(disguise(current, rule, sub, form)),
    decreases fs.len(),
{
    let x = disguise(current, rule, sub, form);
    let t = fs.drop_last();
    assert(fs =~= t.push(fs.last()));
    lemma_in_pushed(t, fs.last(), form);
    let before = by_forms(current, max, avoid, rule, sub, t);
    lemma_in_pushed(before, disguise(current, rule, sub, fs.last()), x);
    if t.contains(form) {
        lemma_by_forms_all(current, max, avoid, rule, sub, t, form);
    }
}

/// [`law_disguises_complete`] for the rules on one subformula.
proof fn lemma_by_rules_all(
    current: Prop,
    max: nat,
    avoid: Seq<Prop>,
    sub: Prop,
    r: int,
    n: int,
    x: Disguise,
)
    requires
        0 <= r < n <= all_equivalence_rules().len(),
        all_equivalence_rules()[r] == x.rule,
        by_forms(current, max, avoid, x.rule, sub, forms(x.rule, sub)).contains(x),
    ensures
        by_rules(current, max, avoid, sub, n).contains(x),
    decreases n,
{
    let rule = all_equivalence_rules()[n - 1];
    lemma_in_joined(
        by_rules(current, max, avoid, sub, n - 1),
        by_forms(current, max, avoid, rule, sub, forms(rule, sub)),
        x,
    );
    if r < n - 1 {
        lemma_by_rules_all(current, max, avoid, sub, r, n - 1, x);
    }
}

/// [`law_disguises_complete`] for the subformulas.
proof fn lemma_upto_all(
    current: Prop,
    max: nat,
    avoid: Seq<Prop>,
    s: int,
    n: int,
    x: Disguise,
)
    requires
        0 <= s < n <= subformula_seq(current).len(),
        subformula_seq(current)[s] == x.before,
        by_rules(
            current,
            max,
            avoid,
            x.before,
            all_equivalence_rules().len() as int,
        ).contains(x),
    ensures
        disguises_upto(current, max, avoid, n).contains(x),
    decreases n,
{
    let sub = subformula_seq(current)[n - 1];
    lemma_in_joined(
        disguises_upto(current, max, avoid, n - 1),
        by_rules(current, max, avoid, sub, all_equivalence_rules().len() as int),
        x,
    );
    if s < n - 1 {
        lemma_upto_all(current, max, avoid, s, n - 1, x);
    }
}

/// Whether a costume is worn from `f` on: each step leads from one stage to the next, and
/// to none of the formulas to be avoided and back to no earlier stage.
pub open spec fn steps_along(c: Costume, f: Prop, max: nat, avoid: Seq<Prop>) -> bool {
    &&& c.stages.len() == c.trace.len() + 1
    &&& c.stages[0] == f
    &&& c.stages.last() == c.formula
    &&& forall|k: int|
        0 <= k < c.trace.len() ==> can_disguise(
            c.stages[k],
            max,
            avoid + c.stages.take(k + 1),
            #[trigger] c.trace[k],
        ) && c.trace[k].next == c.stages[k + 1]
}

/// What is worn goes step by step, and stops early only where no step is left.
proof fn lemma_worn_along(
    c: Costume,
    f: Prop,
    max: nat,
    avoid: Seq<Prop>,
    passes: nat,
    held: Seq<u32>,
)
    requires
        steps_along(c, f, max, avoid),
    ensures
        ({
            let w = worn(c, max, avoid, passes, held).0;
            &&& steps_along(w, f, max, avoid)
            &&& c.trace.len() <= w.trace.len() <= c.trace.len() + passes
            &&& w.trace.len() < c.trace.len() + passes ==> forall|x: Disguise|
                !#[trigger] can_disguise(w.formula, max, avoid + w.stages, x)
            &&& passes > 0 && disguises(c.formula, max, avoid + c.stages).len() > 0
                ==> w.trace.len() > c.trace.len() && w.trace[c.trace.len() as int] == disguises(
                c.formula,
                max,
                avoid + c.stages,
            )[index_drawn(held, disguises(c.formula, max, avoid + c.stages).len() as int).0]
            &&& w.trace.take(c.trace.len() as int) == c.trace
        }),
    decreases passes,
{
    if passes > 0 {
        let all = disguises(c.formula, max, avoid + c.stages);
        if all.len() == 0 {
            lemma_worn_along(c, f, max, avoid, (passes - 1) as nat, held);
            lemma_worn_stuck(c, max, avoid, (passes - 1) as nat, held);
            assert forall|x: Disguise| !#[trigger] can_disguise(
                c.formula,
                max,
                avoid + c.stages,
                x,
            ) by {
                law_disguises_complete(c.formula, max, avoid + c.stages, x);
            }
        } else {
            let (i, h1) = index_drawn(held, all.len() as int);
            let x = all[i];
            let next = Costume {
                formula: x.next,
                trace: c.trace.push(x),
                stages: c.stages.push(x.next),
            };
            assert(all.contains(x));
            law_disguises_complete(c.formula, max, avoid + c.stages, x);
            assert(steps_along(next, f, max, avoid)) by {
                assert forall|k: int| 0 <= k < next.trace.len() implies can_disguise(
                    next.stages[k],
                    max,
                    avoid + next.stages.take(k + 1),
                    #[trigger] next.trace[k],
                ) && next.trace[k].next == next.stages[k + 1] by {
                    assert(next.stages.take(k + 1) =~= c.stages.take(k + 1));
                    if k < c.trace.len() {
                        assert(next.trace[k] == c.trace[k]);
                        assert(next.stages[k] == c.stages[k]);
                        assert(next.stages[k + 1] == c.stages[k + 1]);
                    } else {
                        assert(c.stages.take(k + 1) =~= c.stages);
                        assert(next.stages[k] == c.formula);
                    }
                }
            }
            lemma_worn_along(next, f, max, avoid, (passes - 1) as nat, h1);
            let w = worn(c, max, avoid, passes, held).0;
            assert(w.trace.take(next.trace.len() as int)[c.trace.len() as int] == x);
            assert(w.trace.take(c.trace.len() as int) =~= w.trace.take(
                next.trace.len() as int,
            ).take(c.trace.len() as int));
            assert(next.trace.take(c.trace.len() as int) =~= c.trace);
        }
    } else {
        assert(c.trace.take(c.trace.len() as int) =~= c.trace);
    }
}

/// Where no step is left, none is taken.
proof fn lemma_worn_stuck(c: Costume, max: nat, avoid: Seq<Prop>, passes: nat, held: Seq<u32>)
    requires
        disguises(c.formula, max, avoid + c.stages).len() == 0,
    ensures
        worn(c, max, avoid, passes, held).0 == c,
    decreases passes,
{
    if passes > 0 {
        lemma_worn_stuck(c, max, avoid, (passes - 1) as nat, held);
    }
}

/// A disguise takes the drawn number of steps, each from where the last one led, and
/// fewer only where no step is left. So where a step can be taken at all and passes are
/// asked for, the formula changes, by at least one step and by no more than asked for. The
/// first step is the one that is drawn from all that can be taken.
pub proof fn law_disguise_taken(f: Prop, most: u8, max: nat, avoid: Seq<Prop>, held: Seq<u32>)
    requires
        most > 0,
    ensures
        ({
            let c = disguised(f, most, max, avoid, held).0;
            let n = passes_drawn(held, most).0;
            &&& 1 <= n <= most
            &&& steps_along(c, f, max, avoid)
            &&& c.trace.len() <= n
            &&& c.trace.len() < n ==> forall|x: Disguise|
                !#[trigger] can_disguise(c.formula, max, avoid + c.stages, x)
            &&& c.trace.len() == 0 <==> c.formula == f
            &&& c.trace.len() == 0 <==> forall|x: Disguise|
                !#[trigger] can_disguise(f, max, avoid + seq![f], x)
            &&& c.trace.len() > 0 ==> c.trace[0] == disguises(f, max, avoid + seq![f])[index_drawn(
                passes_drawn(held, most).1,
                disguises(f, max, avoid + seq![f]).len() as int,
            ).0]
        }),
{
    let (n, h1) = passes_drawn(held, most);
    let start = plain(f);
    assert(steps_along(start, f, max, avoid));
    lemma_worn_along(start, f, max, avoid, n, h1);
    law_disguised_discreet(f, most, max, avoid, held);
    let c = disguised(f, most, max, avoid, held).0;
    let all = disguises(f, max, avoid + start.stages);
    if c.trace.len() > 0 {
        assert(c.stages[c.stages.len() - 1] == c.formula);
        assert(c.stages[0] != c.stages[c.stages.len() - 1]);
    }
    if all.len() > 0 {
        assert(all.contains(all[0]));
        law_disguises_complete(f, max, avoid + start.stages, all[0]);
        assert(can_disguise(f, max, avoid + seq![f], all[0]));
    } else {
        lemma_worn_stuck(start, max, avoid, n, h1);
        assert forall|x: Disguise| !#[trigger] can_disguise(f, max, avoid + seq![f], x) by {
            law_disguises_complete(f, max, avoid + start.stages, x);
        }
    }
}

/// The costume of a premise is settled when it is put on.
proof fn lemma_costume_settled(d: Draft, most: u8, max: nat, n: int, held: Seq<u32>, i: int)
    requires
        0 <= i < n <= d.premises.len(),
    ensures
        ({
            let (costumes, stages, h1) = dressed_upto(d, most, max, i, held);
            let avoid = d.premises.skip(i + 1) + seq![d.conclusion] + stages + body(d);
            dressed_upto(d, most, max, n, held).0[i] == disguised(
                d.premises[i],
                most,
                max,
                avoid,
                h1,
            ).0
        }),
    decreases n,
{
    lemma_dressed_sewn(d, most, max, n - 1, held);
    if i < n - 1 {
        lemma_costume_settled(d, most, max, n - 1, held, i);
    }
}

/// Whatever a costume of a premise passed through is equivalent to that premise.
proof fn lemma_stages_equivalent(d: Draft, most: u8, max: nat, n: int, held: Seq<u32>, x: Prop)
    requires
        0 <= n <= d.premises.len(),
        dressed_upto(d, most, max, n, held).1.contains(x),
    ensures
        exists|j: int| 0 <= j < n && equivalent(#[trigger] d.premises[j], x),
    decreases n,
{
    if n > 0 {
        let (costumes, stages, h1) = dressed_upto(d, most, max, n - 1, held);
        let avoid = d.premises.skip(n) + seq![d.conclusion] + stages + body(d);
        let c = disguised(d.premises[n - 1], most, max, avoid, h1).0;
        lemma_in_joined(stages, c.stages, x);
        if stages.contains(x) {
            lemma_stages_equivalent(d, most, max, n - 1, held, x);
            let j = choose|j: int| 0 <= j < n - 1 && equivalent(#[trigger] d.premises[j], x);
            assert(equivalent(d.premises[j], x));
        } else {
            let k = choose|k: int| 0 <= k < c.stages.len() && c.stages[k] == x;
            law_disguised_sewn(d.premises[n - 1], most, max, avoid, h1);
            lemma_stage_equivalent(c, d.premises[n - 1], k);
            assert(equivalent(d.premises[n - 1], x));
        }
    }
}

/// What a step gives is equivalent to where it started.
proof fn lemma_disguise_equivalent(current: Prop, max: nat, avoid: Seq<Prop>, x: Disguise)
    requires
        can_disguise(current, max, avoid, x),
    ensures
        equivalent(current, x.next),
{
    law_forms_by_schema(x.rule, x.before, x.after);
    law_forms_equivalent(x.rule, x.before, x.after);
    law_replace_all_equivalent(current, x.before, x.after);
}

/// Every premise wears a costume, if there is one for it: where passes are asked for, a
/// premise that is not equivalent to an earlier one and from which a step leads to a
/// formula that the proof does not hold looks different in the costumed proof, but means
/// the same.
pub proof fn law_premise_in_costume(
    d: Draft,
    most: u8,
    max: nat,
    held: Seq<u32>,
    i: int,
    x: Disguise,
)
    requires
        finished(d),
        most > 0,
        0 <= i < d.premises.len(),
        forall|j: int| 0 <= j < i ==> !equivalent(#[trigger] d.premises[j], d.premises[i]),
        can_disguise(d.premises[i], max, seq![], x),
        !d.premises.contains(x.next),
        x.next != d.conclusion,
        forall|k: int| 0 <= k < d.rows.len() ==> (#[trigger] d.rows[k]).formula != x.next,
    ensures
        costumed(d, most, max, held).0.premises.len() == d.premises.len(),
        costumed(d, most, max, held).0.premises[i] != d.premises[i],
        equivalent(d.premises[i], costumed(d, most, max, held).0.premises[i]),
{
    let p = d.premises.len() as int;
    let f = d.premises[i];
    lemma_dressed_sewn(d, most, max, p, held);
    lemma_costume_settled(d, most, max, p, held, i);
    let (costumes, stages, h1) = dressed_upto(d, most, max, i, held);
    let head = d.premises.skip(i + 1) + seq![d.conclusion];
    let avoid = head + stages + body(d);
    lemma_disguise_equivalent(f, max, seq![], x);
    assert(!(avoid + seq![f]).contains(x.next)) by {
        lemma_in_joined(avoid, seq![f], x.next);
        lemma_in_joined(head + stages, body(d), x.next);
        lemma_in_joined(head, stages, x.next);
        lemma_in_joined(d.premises.skip(i + 1), seq![d.conclusion], x.next);
        if seq![f].contains(x.next) {
            assert(d.premises.contains(f));
        }
        if d.premises.skip(i + 1).contains(x.next) {
            let later = d.premises.skip(i + 1);
            let k = choose|k: int| 0 <= k < later.len() && later[k] == x.next;
            assert(d.premises[i + 1 + k] == x.next);
        }
        if body(d).contains(x.next) {
            let k = choose|k: int| 0 <= k < body(d).len() && body(d)[k] == x.next;
            assert(d.rows[p + k].formula == x.next);
        }
        if stages.contains(x.next) {
            lemma_stages_equivalent(d, most, max, i, held, x.next);
            let j = choose|j: int| 0 <= j < i && equivalent(#[trigger] d.premises[j], x.next);
            assert(equivalent(d.premises[j], f)) by {
                assert forall|v: Valuation| #[trigger] eval(d.premises[j], v) == eval(f, v) by {
                    assert(eval(d.premises[j], v) == eval(x.next, v));
                    assert(eval(f, v) == eval(x.next, v));
                }
            }
        }
    }
    assert(can_disguise(f, max, avoid + seq![f], x));
    law_disguise_taken(f, most, max, avoid, h1);
    lemma_costumed_looks(d, most, max, held);
    let c = dressed_upto(d, most, max, p, held).0[i];
    assert(sewn(c, f));
    lemma_stage_equivalent(c, f, c.stages.len() - 1);
}

/// The premises and the conclusion of a costumed proof are those that the costumes show.
proof fn lemma_costumed_looks(d: Draft, most: u8, max: nat, held: Seq<u32>)
    requires
        finished(d),
    ensures
        ({
            let (costumes, stages, h1) = dressed_upto(
                d,
                most,
                max,
                d.premises.len() as int,
                held,
            );
            &&& costumed(d, most, max, held).0.premises == looks(costumes)
            &&& costumed(d, most, max, held).0.conclusion == disguised(
                d.conclusion,
                most,
                max,
                stages + body(d),
                h1,
            ).0.formula
        }),
{
    let n = d.premises.len() as int;
    lemma_dressed_sewn(d, most, max, n, held);
    let (costumes, stages, h1) = dressed_upto(d, most, max, n, held);
    law_disguised_sewn(d.conclusion, most, max, stages + body(d), h1);
    law_dressed_verified(
        d,
        costumes,
        disguised(d.conclusion, most, max, stages + body(d), h1).0,
    );
}

/// Every premise is disguised in turn, and then the conclusion, each with dice of its own
/// where the last one left off, and each by as many steps as the dice ask for, up to the
/// passes asked for, unless no step is left.
pub proof fn law_costumes_thorough(d: Draft, most: u8, max: nat, held: Seq<u32>, i: int)
    requires
        finished(d),
        most > 0,
        0 <= i < d.premises.len(),
    ensures
        ({
            let (costumes, stages, h) = dressed_upto(d, most, max, i, held);
            let avoid = d.premises.skip(i + 1) + seq![d.conclusion] + stages + body(d);
            let (c, after) = disguised(d.premises[i], most, max, avoid, h);
            &&& costumed(d, most, max, held).0.premises[i] == c.formula
            &&& c.trace.len() == passes_drawn(h, most).0 || forall|x: Disguise|
                !#[trigger] can_disguise(c.formula, max, avoid + c.stages, x)
            &&& dressed_upto(d, most, max, i + 1, held).1 == stages + c.stages
            &&& dressed_upto(d, most, max, i + 1, held).2 == after
        }),
        ({
            let n = d.premises.len() as int;
            let (costumes, stages, h) = dressed_upto(d, most, max, n, held);
            let avoid = stages + body(d);
            let c = disguised(d.conclusion, most, max, avoid, h).0;
            &&& costumed(d, most, max, held).0.conclusion == c.formula
            &&& c.trace.len() == passes_drawn(h, most).0 || forall|x: Disguise|
                !#[trigger] can_disguise(c.formula, max, avoid + c.stages, x)
        }),
{
    let n = d.premises.len() as int;
    lemma_costumed_looks(d, most, max, held);
    lemma_dressed_sewn(d, most, max, n, held);
    lemma_costume_settled(d, most, max, n, held, i);
    let (costumes, stages, h) = dressed_upto(d, most, max, i, held);
    let avoid = d.premises.skip(i + 1) + seq![d.conclusion] + stages + body(d);
    law_disguise_taken(d.premises[i], most, max, avoid, h);
    let (all, passed, last) = dressed_upto(d, most, max, n, held);
    law_disguise_taken(d.conclusion, most, max, passed + body(d), last);
}

/// The conclusion wears a costume too, if there is one for it: where passes are asked for,
/// a conclusion that is equivalent to no premise and from which a step leads to a formula
/// that the proof does not hold looks different in the costumed proof, but means the same.
pub proof fn law_conclusion_in_costume(
    d: Draft,
    most: u8,
    max: nat,
    held: Seq<u32>,
    x: Disguise,
)
    requires
        finished(d),
        most > 0,
        forall|j: int|
            0 <= j < d.premises.len() ==> !equivalent(#[trigger] d.premises[j], d.conclusion),
        can_disguise(d.conclusion, max, seq![], x),
        x.next != d.conclusion,
        forall|k: int| 0 <= k < d.rows.len() ==> (#[trigger] d.rows[k]).formula != x.next,
    ensures
        costumed(d, most, max, held).0.conclusion != d.conclusion,
        equivalent(d.conclusion, costumed(d, most, max, held).0.conclusion),
{
    let p = d.premises.len() as int;
    let f = d.conclusion;
    let (costumes, stages, h1) = dressed_upto(d, most, max, p, held);
    let avoid = stages + body(d);
    lemma_disguise_equivalent(f, max, seq![], x);
    assert(!(avoid + seq![f]).contains(x.next)) by {
        lemma_in_joined(avoid, seq![f], x.next);
        lemma_in_joined(stages, body(d), x.next);
        if body(d).contains(x.next) {
            let k = choose|k: int| 0 <= k < body(d).len() && body(d)[k] == x.next;
            assert(d.rows[p + k].formula == x.next);
        }
        if stages.contains(x.next) {
            lemma_stages_equivalent(d, most, max, p, held, x.next);
            let j = choose|j: int| 0 <= j < p && equivalent(#[trigger] d.premises[j], x.next);
            assert(equivalent(d.premises[j], f)) by {
                assert forall|v: Valuation| #[trigger] eval(d.premises[j], v) == eval(f, v) by {
                    assert(eval(d.premises[j], v) == eval(x.next, v));
                    assert(eval(f, v) == eval(x.next, v));
                }
            }
        }
    }
    assert(can_disguise(f, max, avoid + seq![f], x));
    law_disguise_taken(f, most, max, avoid, h1);
    lemma_costumed_looks(d, most, max, held);
    law_disguised_sewn(f, most, max, avoid, h1);
    let c = disguised(f, most, max, avoid, h1).0;
    lemma_stage_equivalent(c, f, c.stages.len() - 1);
}

/// Passes change nothing but the costume. With and without them the same seed plants, or
/// fails to for the same reason; and what it plants with them is what it plants without,
/// in costume, with every premise and the conclusion meaning the same.
pub proof fn law_planted_in_costume(spec: PlantSpec, seed: u64)
    ensures
        ({
            let bare = planted(PlantSpec { obfuscation_passes: 0, ..spec }, seed);
            match planted(spec, seed) {
                Err(e) => bare matches Err(b) && b == e,
                Ok(d) => bare matches Ok(b) && finished(b) && b.premises.len() == d.premises.len()
                    && (spec.obfuscation_passes == 0 ==> d == b) && (spec.obfuscation_passes > 0
                    ==> d == costumed(
                    b,
                    spec.obfuscation_passes,
                    spec.max_formula_len as nat,
                    derivation(spec, seed).held,
                ).0) && equivalent(b.conclusion, d.conclusion) && forall|i: int|
                    0 <= i < b.premises.len() ==> equivalent(
                        #[trigger] b.premises[i],
                        d.premises[i],
                    ),
            }
        }),
{
    let plain_spec = PlantSpec { obfuscation_passes: 0, ..spec };
    let g = derivation(spec, seed);
    let premises = premises_for(spec, seed).len() as int;
    assert(derivation(plain_spec, seed) == g);
    assert(premises_for(plain_spec, seed) == premises_for(spec, seed));
    law_derivation_justified(spec, seed);
    lemma_best(g, premises, g.lines.len() as int);
    match best_upto(g, premises, g.lines.len() as int) {
        Some(line) => {
            let b = rebuilt(g.lines, premises, line);
            lemma_depth_zero(g.spans, line);
            law_rebuilt_finished(g, premises, line);
            let most = spec.obfuscation_passes;
            let max = spec.max_formula_len as nat;
            let n = b.premises.len() as int;
            lemma_costumed_looks(b, most, max, g.held);
            lemma_dressed_sewn(b, most, max, n, g.held);
            let (costumes, stages, h1) = dressed_upto(b, most, max, n, g.held);
            law_disguised_sewn(b.conclusion, most, max, stages + body(b), h1);
            let last = disguised(b.conclusion, most, max, stages + body(b), h1).0;
            lemma_stage_equivalent(last, b.conclusion, last.stages.len() - 1);
            assert forall|i: int| 0 <= i < n implies equivalent(
                #[trigger] b.premises[i],
                costumed(b, most, max, g.held).0.premises[i],
            ) by {
                let c = costumes[i];
                assert(sewn(c, b.premises[i]));
                lemma_stage_equivalent(c, b.premises[i], c.stages.len() - 1);
            }
        },
        None => {},
    }
}

} // verus!
