//! Why a proof in costume is justified and complete.

use vstd::prelude::*;

use super::cone::renumbered;
use super::costume::{
    admissible, body, by_forms, by_rules, costumed, disguise, disguised, disguises, disguises_upto,
    dressed, dressed_upto, looks, plain, prologue, redone, replayed_upto, shifted, undone, worn,
};
use super::costume::{Costume, Disguise};
use super::rebuilding::{
    carried, concerns, discharged_span_carried, finished, image, images, kept_by, lemma_carried,
    lemma_finished_verified, lemma_images, lemma_images_close, lemma_images_none,
    lemma_images_open, lemma_images_same, lemma_refers_back, reason_carried, regrown,
};
use super::soundness::{discharges, draft_of, lemma_fault_kept, same_upto};
use crate::models::formula::{subformula_seq, Prop};
use crate::models::lists::{lemma_in_joined, lemma_in_pushed};
use crate::models::proofs::{
    drafted, premise_row, reaches_conclusion, referenced, with_line, Draft, Reason,
};
use crate::models::rules::equivalence::{
    all_equivalence_rules, forms, replace_all, EquivalenceRule,
};
use crate::models::scopes::{lemma_depth_zero, lemma_last_open, Span};
use crate::services::dice::{index_drawn, passes_drawn};
use crate::services::verification::{citable, fault_at, line_formula, rewrites_to, verified};

verus! {

/// Whether a step leads from `current` to its result, and back by the same rule.
pub open spec fn reversible(current: Prop, x: Disguise) -> bool {
    &&& subformula_seq(current).contains(x.before)
    &&& forms(x.rule, x.before).contains(x.after)
    &&& replace_all(current, x.before, x.after) == x.next
    &&& subformula_seq(x.next).contains(x.after)
    &&& forms(x.rule, x.after).contains(x.before)
    &&& replace_all(x.next, x.after, x.before) == current
}

/// Whether a costume leads from `f` through its stages, step by step and back.
pub open spec fn sewn(c: Costume, f: Prop) -> bool {
    &&& c.stages.len() == c.trace.len() + 1
    &&& c.stages[0] == f
    &&& c.stages.last() == c.formula
    &&& forall|k: int|
        0 <= k < c.trace.len() ==> reversible(c.stages[k], #[trigger] c.trace[k])
            && c.trace[k].next == c.stages[k + 1]
}

/// What replaces a subformula is a subformula of the result.
pub proof fn lemma_replaced(p: Prop, from: Prop, to: Prop)
    requires
        subformula_seq(p).contains(from),
    ensures
        subformula_seq(replace_all(p, from, to)).contains(to),
    decreases p,
{
    let q = replace_all(p, from, to);
    if p == from {
        assert(subformula_seq(q)[0] == to);
    } else {
        match p {
            Prop::Atom(_) | Prop::Contradiction => {},
            Prop::Not(a) => {
                lemma_in_joined(seq![p], subformula_seq(*a), from);
                assert(!seq![p].contains(from));
                lemma_replaced(*a, from, to);
                lemma_in_joined(seq![q], subformula_seq(replace_all(*a, from, to)), to);
            },
            Prop::And(a, b) | Prop::Or(a, b) | Prop::Implies(a, b) | Prop::Biconditional(a, b) => {
                lemma_in_joined(seq![p] + subformula_seq(*a), subformula_seq(*b), from);
                lemma_in_joined(seq![p], subformula_seq(*a), from);
                assert(!seq![p].contains(from));
                let ra = subformula_seq(replace_all(*a, from, to));
                let rb = subformula_seq(replace_all(*b, from, to));
                lemma_in_joined(seq![q] + ra, rb, to);
                lemma_in_joined(seq![q], ra, to);
                if subformula_seq(*a).contains(from) {
                    lemma_replaced(*a, from, to);
                } else {
                    lemma_replaced(*b, from, to);
                }
            },
        }
    }
}

/// [`lemma_disguises`] for one rule and one subformula.
proof fn lemma_by_forms(
    current: Prop,
    max: nat,
    avoid: Seq<Prop>,
    rule: EquivalenceRule,
    sub: Prop,
    fs: Seq<Prop>,
    x: Disguise,
)
    requires
        by_forms(current, max, avoid, rule, sub, fs).contains(x),
    ensures
        x.rule == rule,
        x.before == sub,
        fs.contains(x.after),
        x.next == replace_all(current, sub, x.after),
        admissible(current, max, avoid, x),
    decreases fs.len(),
{
    if fs.len() > 0 {
        let before = by_forms(current, max, avoid, rule, sub, fs.drop_last());
        let y = disguise(current, rule, sub, fs.last());
        lemma_in_pushed(before, y, x);
        assert(fs =~= fs.drop_last().push(fs.last()));
        lemma_in_pushed(fs.drop_last(), fs.last(), x.after);
        if before.contains(x) {
            lemma_by_forms(current, max, avoid, rule, sub, fs.drop_last(), x);
        }
    }
}

/// [`lemma_disguises`] for one subformula.
proof fn lemma_by_rules(current: Prop, max: nat, avoid: Seq<Prop>, sub: Prop, n: int, x: Disguise)
    requires
        n <= all_equivalence_rules().len(),
        by_rules(current, max, avoid, sub, n).contains(x),
    ensures
        x.before == sub,
        forms(x.rule, sub).contains(x.after),
        x.next == replace_all(current, sub, x.after),
        admissible(current, max, avoid, x),
    decreases n,
{
    if n > 0 {
        let rule = all_equivalence_rules()[n - 1];
        let before = by_rules(current, max, avoid, sub, n - 1);
        let here = by_forms(current, max, avoid, rule, sub, forms(rule, sub));
        lemma_in_joined(before, here, x);
        if before.contains(x) {
            lemma_by_rules(current, max, avoid, sub, n - 1, x);
        } else {
            lemma_by_forms(current, max, avoid, rule, sub, forms(rule, sub), x);
        }
    }
}

/// [`lemma_disguises`] for some subformulas.
proof fn lemma_disguises_upto(current: Prop, max: nat, avoid: Seq<Prop>, n: int, x: Disguise)
    requires
        n <= subformula_seq(current).len(),
        disguises_upto(current, max, avoid, n).contains(x),
    ensures
        subformula_seq(current).contains(x.before),
        forms(x.rule, x.before).contains(x.after),
        x.next == replace_all(current, x.before, x.after),
        admissible(current, max, avoid, x),
    decreases n,
{
    if n > 0 {
        let sub = subformula_seq(current)[n - 1];
        let rules = all_equivalence_rules().len() as int;
        let before = disguises_upto(current, max, avoid, n - 1);
        let here = by_rules(current, max, avoid, sub, rules);
        lemma_in_joined(before, here, x);
        if before.contains(x) {
            lemma_disguises_upto(current, max, avoid, n - 1, x);
        } else {
            lemma_by_rules(current, max, avoid, sub, rules, x);
            assert(subformula_seq(current).contains(sub));
        }
    }
}

/// Every admissible step can be taken and undone, and leads to a formula that is short
/// enough and not to be avoided.
pub proof fn lemma_disguises(current: Prop, max: nat, avoid: Seq<Prop>, x: Disguise)
    requires
        disguises(current, max, avoid).contains(x),
    ensures
        reversible(current, x),
        admissible(current, max, avoid, x),
{
    lemma_disguises_upto(current, max, avoid, subformula_seq(current).len() as int, x);
    lemma_replaced(current, x.before, x.after);
}

/// A costume stays sewn as it is worn.
proof fn lemma_worn(c: Costume, f: Prop, max: nat, avoid: Seq<Prop>, passes: nat, held: Seq<u32>)
    requires
        sewn(c, f),
    ensures
        sewn(worn(c, max, avoid, passes, held).0, f),
    decreases passes,
{
    if passes > 0 {
        let all = disguises(c.formula, max, avoid + c.stages);
        if all.len() == 0 {
            lemma_worn(c, f, max, avoid, (passes - 1) as nat, held);
        } else {
            let (i, h1) = index_drawn(held, all.len() as int);
            let x = all[i];
            assert(all.contains(x));
            lemma_disguises(c.formula, max, avoid + c.stages, x);
            let next = Costume {
                formula: x.next,
                trace: c.trace.push(x),
                stages: c.stages.push(x.next),
            };
            assert forall|k: int| 0 <= k < next.trace.len() implies reversible(
                next.stages[k],
                #[trigger] next.trace[k],
            ) && next.trace[k].next == next.stages[k + 1] by {
                if k < c.trace.len() {
                    assert(next.trace[k] == c.trace[k]);
                    assert(next.stages[k] == c.stages[k]);
                    assert(next.stages[k + 1] == c.stages[k + 1]);
                } else {
                    assert(next.stages[k] == c.formula);
                }
            }
            lemma_worn(next, f, max, avoid, (passes - 1) as nat, h1);
        }
    }
}

/// A disguised formula wears a costume that is sewn.
pub proof fn law_disguised_sewn(f: Prop, most: u8, max: nat, avoid: Seq<Prop>, held: Seq<u32>)
    ensures
        sewn(disguised(f, most, max, avoid, held).0, f),
{
    let (n, h1) = passes_drawn(held, most);
    lemma_worn(plain(f), f, max, avoid, n, h1);
}

/// The premises in their costumes.
pub proof fn lemma_dressed_sewn(d: Draft, most: u8, max: nat, n: int, held: Seq<u32>)
    requires
        0 <= n <= d.premises.len(),
    ensures
        dressed_upto(d, most, max, n, held).0.len() == n,
        forall|i: int|
            0 <= i < n ==> sewn(
                #[trigger] dressed_upto(d, most, max, n, held).0[i],
                d.premises[i],
            ),
    decreases n,
{
    if n > 0 {
        lemma_dressed_sewn(d, most, max, n - 1, held);
        let (costumes, stages, h1) = dressed_upto(d, most, max, n - 1, held);
        let avoid = d.premises.skip(n) + seq![d.conclusion] + stages + body(d);
        law_disguised_sewn(d.premises[n - 1], most, max, avoid, h1);
    }
}

/// One more line keeps a proof justified, if it is justified itself.
proof fn lemma_line_added(d: Draft, formula: Prop, reason: Reason)
    requires
        verified(d),
        fault_at(with_line(d, formula, reason), d.rows.len() as int + 1) is None,
    ensures
        verified(with_line(d, formula, reason)),
{
    let e = with_line(d, formula, reason);
    assert(e.rows.take(d.rows.len() as int) =~= d.rows);
    assert(same_upto(d.spans, e.spans, d.rows.len() as int));
    assert forall|n: int| 1 <= n <= e.rows.len() implies #[trigger] fault_at(e, n) is None by {
        if n <= d.rows.len() {
            assert(fault_at(d, n) is None);
            lemma_fault_kept(d, e, n);
        }
    }
}

/// A line that comes by an equivalence from a line outside all subproofs is justified.
proof fn lemma_rewrite_added(d: Draft, rule: EquivalenceRule, line: int, from: Prop, to: Prop)
    requires
        verified(d),
        1 <= line <= d.rows.len(),
        forall|i: int| 0 <= i < d.spans.len() ==> !(#[trigger] d.spans[i]).holds(line),
        subformula_seq(line_formula(d, line)).contains(from),
        forms(rule, from).contains(to),
    ensures
        verified(
            with_line(
                d,
                replace_all(line_formula(d, line), from, to),
                Reason::Equivalence(rule, line),
            ),
        ),
{
    let result = replace_all(line_formula(d, line), from, to);
    let e = with_line(d, result, Reason::Equivalence(rule, line));
    let n = d.rows.len() as int + 1;
    assert(e.rows[line - 1] == d.rows[line - 1]);
    assert(citable(e, n, line));
    assert(rewrites_to(rule, line_formula(d, line), result));
    assert(fault_at(e, n) is None);
    lemma_line_added(d, result, Reason::Equivalence(rule, line));
}

/// Undoing a costume leads back to the formula under it.
proof fn lemma_undone(d: Draft, c: Costume, f: Prop, k: int, line: int)
    requires
        verified(d),
        d.spans.len() == 0,
        sewn(c, f),
        0 <= k <= c.trace.len(),
        1 <= line <= d.rows.len(),
        line_formula(d, line) == c.stages[k],
    ensures
        ({
            let (e, end) = undone(d, c.trace, k, c.stages[k], line);
            &&& verified(e)
            &&& e.spans.len() == 0
            &&& e.premises == d.premises
            &&& e.conclusion == d.conclusion
            &&& e.rows.len() >= d.rows.len()
            &&& e.rows.take(d.rows.len() as int) == d.rows
            &&& 1 <= end <= e.rows.len()
            &&& line_formula(e, end) == f
        }),
    decreases k,
{
    if k == 0 {
        assert(d.rows.take(d.rows.len() as int) =~= d.rows);
    } else {
        let x = c.trace[k - 1];
        assert(reversible(c.stages[k - 1], x) && x.next == c.stages[k]);
        let next = replace_all(c.stages[k], x.after, x.before);
        let d1 = with_line(d, next, Reason::Equivalence(x.rule, line));
        lemma_rewrite_added(d, x.rule, line, x.after, x.before);
        lemma_undone(d1, c, f, k - 1, d1.rows.len() as int);
        let e = undone(d, c.trace, k, c.stages[k], line).0;
        assert(e.rows.take(d.rows.len() as int) =~= d.rows) by {
            assert forall|i: int| 0 <= i < d.rows.len() implies e.rows[i] == d.rows[i] by {
                assert(e.rows.take(d1.rows.len() as int)[i] == d1.rows[i]);
            }
        }
    }
}

/// Whether the premises of a proof stand on its first lines.
pub open spec fn premises_first(d: Draft) -> bool {
    &&& d.premises.len() <= d.rows.len()
    &&& forall|i: int|
        0 <= i < d.premises.len() ==> (#[trigger] d.rows[i]).formula == d.premises[i]
}

/// The prologue is justified, and leads back to the premises under the costumes.
pub proof fn lemma_prologue(premises: Seq<Prop>, costumes: Seq<Costume>, conclusion: Prop, n: int)
    requires
        costumes.len() == premises.len(),
        0 <= n <= premises.len(),
        forall|i: int|
            0 <= i < premises.len() ==> sewn(#[trigger] costumes[i], premises[i]),
    ensures
        ({
            let (e, ends) = prologue(drafted(looks(costumes), conclusion), costumes, n);
            &&& verified(e)
            &&& e.spans.len() == 0
            &&& e.premises == looks(costumes)
            &&& e.conclusion == conclusion
            &&& premises_first(e)
            &&& ends.len() == n
            &&& forall|i: int|
                0 <= i < n ==> 1 <= #[trigger] ends[i] <= e.rows.len() && line_formula(e, ends[i])
                    == premises[i]
        }),
    decreases n,
{
    let d0 = drafted(looks(costumes), conclusion);
    if n == 0 {
        assert forall|m: int| 1 <= m <= d0.rows.len() implies #[trigger] fault_at(d0, m) is None by {
            assert(d0.rows[m - 1] == premise_row(looks(costumes), m - 1));
            assert(d0.premises[m - 1] == looks(costumes)[m - 1]);
        }
    } else {
        lemma_prologue(premises, costumes, conclusion, n - 1);
        let (d1, ends) = prologue(d0, costumes, n - 1);
        let c = costumes[n - 1];
        let k = c.trace.len() as int;
        assert(sewn(c, premises[n - 1]));
        assert(d1.rows[n - 1].formula == d1.premises[n - 1]);
        assert(line_formula(d1, n) == c.formula);
        lemma_undone(d1, c, premises[n - 1], k, n);
        let (d2, line) = undone(d1, c.trace, k, c.formula, n);
        let all = ends.push(line);
        assert forall|i: int| 0 <= i < d1.rows.len() implies d2.rows[i] == d1.rows[i] by {
            assert(d2.rows.take(d1.rows.len() as int)[i] == d1.rows[i]);
        }
        assert forall|i: int| 0 <= i < n implies 1 <= #[trigger] all[i] <= d2.rows.len()
            && line_formula(d2, all[i]) == premises[i] by {
            if i < n - 1 {
                assert(all[i] == ends[i]);
            }
        }
    }
}

/// All lines are written down.
pub open spec fn every() -> spec_fn(int) -> bool {
    |i: int| true
}

/// A justification of a body line with its lines renumbered, subproofs included.
pub open spec fn moved_reason(reason: Reason, number: spec_fn(int) -> int) -> Reason {
    match reason {
        Reason::Discharge(t, s, x) => Reason::Discharge(t, number(s), number(x)),
        _ => renumbered(reason, number),
    }
}

/// The body as far as line `n` stands after the prologue, with its scopes.
pub proof fn lemma_replayed(d: Draft, d1: Draft, ends: Seq<int>, n: int)
    requires
        finished(d),
        d1.spans.len() == 0,
        ends.len() == d.premises.len(),
        d1.rows.len() >= d.premises.len(),
        d.premises.len() <= n <= d.rows.len(),
    ensures
        ({
            let shift = d1.rows.len() - d.premises.len();
            let number = shifted(ends, shift);
            let e = replayed_upto(d1, d, number, n);
            &&& e.rows.len() == n + shift
            &&& e.rows.take(d1.rows.len() as int) == d1.rows
            &&& e.premises == d1.premises
            &&& e.conclusion == d1.conclusion
            &&& e.spans == images(every(), number, d.spans, n)
            &&& forall|i: int|
                d.premises.len() <= i < n ==> (#[trigger] e.rows[i + shift]).formula
                    == d.rows[i].formula && e.rows[i + shift].reason == moved_reason(
                    d.rows[i].reason,
                    number,
                )
        }),
    decreases n,
{
    let p = d.premises.len() as int;
    let shift = d1.rows.len() - p;
    let number = shifted(ends, shift);
    let g = regrown(d);
    let e = replayed_upto(d1, d, number, n);
    assert(g.spans.take(g.spans.len() as int) =~= g.spans);
    if n == p {
        lemma_images_none(g, p, every(), number, g.spans, n);
        assert(d1.spans =~= Seq::<Span>::empty());
        assert(d1.rows.take(d1.rows.len() as int) =~= d1.rows);
    } else {
        lemma_replayed(d, d1, ends, n - 1);
        let before = replayed_upto(d1, d, number, n - 1);
        let dg = draft_of(g, p);
        assert(fault_at(dg, n) is None);
        assert(dg.rows[n - 1].reason == d.rows[n - 1].reason);
        assert(g.lines[n - 1].reason == d.rows[n - 1].reason);
        assert(every()(n));
        match d.rows[n - 1].reason {
            Reason::Assumption(t) => {
                let k = choose|k: int|
                    0 <= k < dg.spans.len() && (#[trigger] dg.spans[k]).start == n
                        && dg.spans[k].holds(n);
                lemma_images_open(g, p, every(), number, g.spans, k, n);
                assert(number(n) == n + shift);
            },
            Reason::Discharge(t, s, x) => {
                let span = Span { start: s, end: Some(x) };
                let k = choose|k: int| 0 <= k < dg.spans.len() && dg.spans[k] == span;
                assert(g.spans[k] == span);
                assert(x == n - 1);
                assert(g.spans[k].start > p);
                assert(every()(g.spans[k].start));
                lemma_images_close(g, p, every(), number, g.spans, k, n);
                assert(number(x) == x + shift);
            },
            _ => {
                assert forall|i: int|
                    0 <= i < g.spans.len() && every()(
                        (#[trigger] g.spans[i]).start,
                    ) implies g.spans[i].start != n && (g.spans[i].end matches Some(end) ==> end + 1
                    != n) by {
                    assert(g.lines[g.spans[i].start - 1].reason is Assumption);
                    match g.spans[i].end {
                        Some(end) => {
                            assert(discharges(g.lines[end], g.spans[i].start, end));
                        },
                        None => {},
                    }
                }
                lemma_images_same(every(), number, g.spans, n);
            },
        }
        assert(e.rows == before.rows.push(e.rows.last()));
        assert(e.rows.take(d1.rows.len() as int) =~= before.rows.take(d1.rows.len() as int));
        assert forall|i: int| p <= i < n implies (#[trigger] e.rows[i + shift]).formula
            == d.rows[i].formula && e.rows[i + shift].reason == moved_reason(
            d.rows[i].reason,
            number,
        ) by {
            if i < n - 1 {
                assert(e.rows[i + shift] == before.rows[i + shift]);
            }
        }
    }
}

/// From where a scope of the replayed body comes.
spec fn source(d: Draft, number: spec_fn(int) -> int, j: int) -> int {
    choose|i: int|
        0 <= i < d.spans.len() && kept_by(every(), #[trigger] d.spans[i], d.rows.len() as int)
            && images(every(), number, d.spans, d.rows.len() as int)[j] == image(
            number,
            d.spans[i],
            d.rows.len() as int,
        )
}

/// The scope that a scope of the replayed body comes from.
proof fn lemma_source(d: Draft, ends: Seq<int>, shift: int, j: int)
    requires
        finished(d),
        ends.len() == d.premises.len(),
        shift >= 0,
        0 <= j < images(every(), shifted(ends, shift), d.spans, d.rows.len() as int).len(),
    ensures
        ({
            let i = source(d, shifted(ends, shift), j);
            let img = images(every(), shifted(ends, shift), d.spans, d.rows.len() as int)[j];
            &&& 0 <= i < d.spans.len()
            &&& d.premises.len() < d.spans[i].start
            &&& d.spans[i].end matches Some(end) && d.spans[i].start <= end < d.rows.len() && img
                == (Span { start: d.spans[i].start + shift, end: Some(end + shift) })
        }),
{
    let number = shifted(ends, shift);
    let n = d.rows.len() as int;
    let g = regrown(d);
    lemma_images(every(), number, d.spans, n);
    let i = source(d, number, j);
    assert(0 <= i < d.spans.len() && kept_by(every(), d.spans[i], n) && images(
        every(),
        number,
        d.spans,
        n,
    )[j] == image(number, d.spans[i], n));
    assert(g.spans[i] == d.spans[i]);
    let end = d.spans[i].end->0;
    assert(d.spans[i].start <= end < n);
    assert(!d.spans[i].holds(n));
    assert(number(d.spans[i].start) == d.spans[i].start + shift);
    assert(number(end) == end + shift);
}

/// A line of the body is carried over.
#[verifier::rlimit(60)]
proof fn lemma_body_carried(d: Draft, d1: Draft, ends: Seq<int>, n: int)
    requires
        finished(d),
        d1.spans.len() == 0,
        ends.len() == d.premises.len(),
        d1.rows.len() >= d.premises.len(),
        forall|i: int|
            0 <= i < ends.len() ==> 1 <= #[trigger] ends[i] <= d1.rows.len() && line_formula(
                d1,
                ends[i],
            ) == d.premises[i],
        d.premises.len() < n <= d.rows.len(),
    ensures
        ({
            let shift = d1.rows.len() - d.premises.len();
            let number = shifted(ends, shift);
            carried(
                d,
                replayed_upto(d1, d, number, d.rows.len() as int),
                number,
                |j: int| source(d, number, j),
                n,
            )
        }),
{
    let p = d.premises.len() as int;
    let size = d.rows.len() as int;
    let shift = d1.rows.len() - p;
    let number = shifted(ends, shift);
    let back = |j: int| source(d, number, j);
    let e = replayed_upto(d1, d, number, size);
    let g = regrown(d);
    lemma_replayed(d, d1, ends, size);
    lemma_finished_verified(d);
    lemma_images(every(), number, d.spans, size);
    assert(fault_at(d, n) is None);
    assert(g.lines[n - 1].reason == d.rows[n - 1].reason);
    assert(number(n) == n + shift);
    assert(e.rows[n - 1 + shift].formula == d.rows[n - 1].formula);
    assert forall|x: int| #[trigger] concerns(d, n, x) implies 1 <= x <= n && (x <= p ==> number(x)
        == ends[x - 1] && number(x) <= d1.rows.len()) && (x > p ==> number(x) == x + shift) by {
        if x != n {
            lemma_refers_back(d, n, x);
        }
        if x <= p {
            assert(1 <= ends[x - 1] <= d1.rows.len());
        }
    }
    assert forall|x: int| #[trigger] referenced(d.rows[n - 1].reason).contains(x) implies 1
        <= number(x) < number(n) && line_formula(e, number(x)) == line_formula(d, x) by {
        assert(concerns(d, n, x));
        lemma_refers_back(d, n, x);
        if x <= p {
            let m = ends[x - 1];
            assert(e.rows.take(d1.rows.len() as int)[m - 1] == d1.rows[m - 1]);
            assert(d.rows[x - 1].formula == d.premises[x - 1]);
        } else {
            assert(e.rows[x - 1 + shift].formula == d.rows[x - 1].formula);
        }
    }
    assert forall|j: int| 0 <= j < e.spans.len() implies 0 <= #[trigger] back(j)
        < d.spans.len() by {
        lemma_source(d, ends, shift, j);
    }
    assert forall|j: int, x: int|
        0 <= j < e.spans.len() && #[trigger] concerns(d, n, x) implies ((
    #[trigger] e.spans[j]).holds(number(x)) <==> d.spans[back(j)].holds(x)) by {
        lemma_source(d, ends, shift, j);
    }
    assert forall|j: int| 0 <= j < e.spans.len() implies discharged_span_carried(
        d.rows[n - 1].reason,
        d.spans[back(j)],
        #[trigger] e.spans[j],
        number,
    ) by {
        lemma_source(d, ends, shift, j);
    }
    assert(reason_carried(d, e, number, n)) by {
        match d.rows[n - 1].reason {
            Reason::Premise => {
                assert(g.lines[n - 1].reason is Premise <==> n - 1 < p);
            },
            Reason::Assumption(t) => {
                let k = choose|k: int|
                    0 <= k < d.spans.len() && (#[trigger] d.spans[k]).start == n
                        && d.spans[k].holds(n);
                assert(kept_by(every(), d.spans[k], size));
                let img = image(number, d.spans[k], size);
                let j = choose|j: int| 0 <= j < e.spans.len() && e.spans[j] == img;
                assert(g.spans[k] == d.spans[k]);
                assert(number(d.spans[k].end->0) == d.spans[k].end->0 + shift);
                assert(e.spans[j].start == number(n) && e.spans[j].holds(number(n)));
            },
            Reason::Discharge(t, s, x) => {
                let span = Span { start: s, end: Some(x) };
                let k = choose|k: int| 0 <= k < d.spans.len() && d.spans[k] == span;
                assert(g.spans[k] == span);
                assert(kept_by(every(), d.spans[k], size));
                assert(e.spans.contains(image(number, d.spans[k], size)));
                assert(p < s <= x < n);
                assert(e.rows[s - 1 + shift].reason == moved_reason(
                    d.rows[s - 1].reason,
                    number,
                ));
            },
            _ => {},
        }
    }
}

/// The body after the prologue is justified.
proof fn lemma_body_verified(d: Draft, d1: Draft, ends: Seq<int>)
    requires
        finished(d),
        verified(d1),
        d1.spans.len() == 0,
        ends.len() == d.premises.len(),
        d1.rows.len() >= d.premises.len(),
        forall|i: int|
            0 <= i < ends.len() ==> 1 <= #[trigger] ends[i] <= d1.rows.len() && line_formula(
                d1,
                ends[i],
            ) == d.premises[i],
    ensures
        ({
            let shift = d1.rows.len() - d.premises.len();
            let e = replayed_upto(d1, d, shifted(ends, shift), d.rows.len() as int);
            &&& verified(e)
            &&& e.rows.len() == d.rows.len() + shift
            &&& e.rows.take(d1.rows.len() as int) == d1.rows
            &&& e.premises == d1.premises
            &&& e.conclusion == d1.conclusion
            &&& line_formula(e, e.rows.len() as int) == d.conclusion
            &&& forall|j: int|
                0 <= j < e.spans.len() ==> ((#[trigger] e.spans[j]).end matches Some(end) && end
                    < e.rows.len())
        }),
{
    let p = d.premises.len() as int;
    let size = d.rows.len() as int;
    let shift = d1.rows.len() - p;
    let number = shifted(ends, shift);
    let back = |j: int| source(d, number, j);
    let e = replayed_upto(d1, d, number, size);
    lemma_replayed(d, d1, ends, size);
    lemma_finished_verified(d);
    assert forall|j: int| 0 <= j < e.spans.len() implies ((
    #[trigger] e.spans[j]).end matches Some(end) && end < e.rows.len()) && e.spans[j].start
        > d1.rows.len() by {
        lemma_source(d, ends, shift, j);
    }
    assert(same_upto(d1.spans, e.spans, d1.rows.len() as int));
    assert forall|m: int| 1 <= m <= e.rows.len() implies #[trigger] fault_at(e, m) is None by {
        if m <= d1.rows.len() {
            assert(fault_at(d1, m) is None);
            lemma_fault_kept(d1, e, m);
        } else {
            let n = m - shift;
            assert(fault_at(d, n) is None);
            lemma_body_carried(d, d1, ends, n);
            lemma_carried(d, e, number, back, n);
            assert(number(n) == m);
        }
    }
    assert(e.rows[size - 1 + shift].formula == d.rows[size - 1].formula);
}

/// The epilogue is justified, and leads to the conclusion in its costume.
proof fn lemma_redone(d: Draft, c: Costume, f: Prop, k: int, line: int)
    requires
        verified(d),
        sewn(c, f),
        0 <= k <= c.trace.len(),
        line == d.rows.len(),
        line >= 1,
        forall|j: int|
            0 <= j < d.spans.len() ==> ((#[trigger] d.spans[j]).end matches Some(end) && end
                < line),
        line_formula(d, line) == c.stages[k],
    ensures
        ({
            let e = redone(d, c.trace, k, c.stages[k], line);
            &&& verified(e)
            &&& e.spans == d.spans
            &&& e.premises == d.premises
            &&& e.conclusion == d.conclusion
            &&& e.rows.len() == d.rows.len() + c.trace.len() - k
            &&& line_formula(e, e.rows.len() as int) == c.formula
        }),
    decreases c.trace.len() - k,
{
    if k < c.trace.len() {
        let x = c.trace[k];
        assert(reversible(c.stages[k], x) && x.next == c.stages[k + 1]);
        lemma_rewrite_added(d, x.rule, line, x.before, x.after);
        let d1 = with_line(d, c.stages[k + 1], Reason::Equivalence(x.rule, line));
        lemma_redone(d1, c, f, k + 1, d1.rows.len() as int);
    }
}

/// A finished proof around which costumes are put is justified throughout and reaches
/// the conclusion in its costume, from the premises in theirs.
pub proof fn law_dressed_verified(d: Draft, costumes: Seq<Costume>, last: Costume)
    requires
        finished(d),
        costumes.len() == d.premises.len(),
        forall|i: int|
            0 <= i < costumes.len() ==> sewn(#[trigger] costumes[i], d.premises[i]),
        sewn(last, d.conclusion),
    ensures
        verified(dressed(d, costumes, last)),
        reaches_conclusion(dressed(d, costumes, last)),
        dressed(d, costumes, last).premises == looks(costumes),
        dressed(d, costumes, last).conclusion == last.formula,
        dressed(d, costumes, last).premises.len() < dressed(d, costumes, last).rows.len(),
        dressed(d, costumes, last).rows.last().formula == last.formula,
{
    let p = d.premises.len() as int;
    lemma_prologue(d.premises, costumes, last.formula, p);
    let (d1, ends) = prologue(drafted(looks(costumes), last.formula), costumes, p);
    let shift = d1.rows.len() - p;
    let number = shifted(ends, shift);
    lemma_body_verified(d, d1, ends);
    let d2 = replayed_upto(d1, d, number, d.rows.len() as int);
    assert(number(d.rows.len() as int) == d2.rows.len());
    lemma_redone(d2, last, d.conclusion, 0, d2.rows.len() as int);
    let e = dressed(d, costumes, last);
    let n = e.rows.len() as int;
    assert(e.rows[n - 1].formula == e.conclusion);
    assert forall|j: int| 0 <= j < e.spans.len() implies !(#[trigger] e.spans[j]).holds(n)
        && e.spans[j].end is Some by {
        assert(e.spans[j] == d2.spans[j]);
    }
    lemma_depth_zero(e.spans, n);
    lemma_last_open(e.spans);
}

/// A finished proof stays justified and complete in costume, whatever is drawn.
pub proof fn law_costumed_verified(d: Draft, most: u8, max: nat, held: Seq<u32>)
    requires
        finished(d),
    ensures
        verified(costumed(d, most, max, held).0),
        reaches_conclusion(costumed(d, most, max, held).0),
        costumed(d, most, max, held).0.premises.len() < costumed(d, most, max, held).0.rows.len(),
{
    let n = d.premises.len() as int;
    lemma_dressed_sewn(d, most, max, n, held);
    let (costumes, stages, h1) = dressed_upto(d, most, max, n, held);
    law_disguised_sewn(d.conclusion, most, max, stages + body(d), h1);
    let (last, h2) = disguised(d.conclusion, most, max, stages + body(d), h1);
    law_dressed_verified(d, costumes, last);
}

} // verus!
