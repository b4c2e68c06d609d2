//! Why every line of a derivation is justified, and how its subproofs nest.

use vstd::prelude::*;

use super::growth::{
    assumed, at, at_least, conditionally_proved, conj_template, discharged, disj_template, fits,
    grown, grown_by, grown_to, in_reach, indirectly_proved, inferred, known, offer_weights, offers,
    reach_weights, refuted, rewritten, rolled, stepped, usable, with_entry, SUBPROOF_SHARE,
};
use super::growth::{Entry, Growth, Soil, Template};
use super::sampling::{literal_drawn, small_drawn};
use super::tending::{
    extends, lemma_assumed, lemma_closing, lemma_extends_trans, lemma_grown_by, lemma_offers,
    lemma_reachable, lemma_rolled, lemma_with_entry, steady,
};
use super::weights::{law_pick, rule_drawn, weighted_drawn};
use crate::models::formula::{p_implies, p_not, p_or, subformula_seq, Prop};
use crate::models::proofs::{Draft, Reason, Row};
use crate::models::rules::equivalence::{
    all_equivalence_rules, forms, replace_all, EquivalenceRule,
};
use crate::models::rules::inference::{conclusions, premise_count, InferenceRule};
use crate::models::rules::technique::{discharge, ProofTechnique};
use crate::models::scopes::{accessible, closed_at, Span};
use crate::services::dice::{coin_drawn, count_drawn, index_drawn, unit_drawn};
use crate::services::verification::{
    adjunct, citable, ends_subproof, extra_for, fault_at, infers, line_formula, line_formulas,
    opens_scope, rewrites_to,
};

verus! {

/// A derivation from its first `premises` lines, as a proof.
pub open spec fn draft_of(g: Growth, premises: int) -> Draft {
    Draft {
        premises: known(g.lines.take(premises)),
        conclusion: Prop::Contradiction,
        rows: Seq::new(
            g.lines.len(),
            |i: int|
                Row {
                    number: i + 1,
                    formula: g.lines[i].formula,
                    reason: g.lines[i].reason,
                    depth: 0,
                },
        ),
        spans: g.spans,
    }
}

/// Whether the subproofs nest: they start one after the other, each with an assumption
/// after the premises; a closed one ends right before its discharge; and what starts in a
/// closed one is discharged in it.
pub open spec fn nested(g: Growth, premises: int) -> bool {
    &&& forall|i: int, j: int|
        0 <= i < j < g.spans.len() ==> (#[trigger] g.spans[i]).start < (#[trigger] g.spans[j]).start
    &&& forall|i: int|
        0 <= i < g.spans.len() ==> premises < (#[trigger] g.spans[i]).start <= g.lines.len()
            && g.lines[g.spans[i].start - 1].reason is Assumption
    &&& forall|i: int|
        0 <= i < g.spans.len() ==> ((#[trigger] g.spans[i]).end matches Some(end)
            ==> g.spans[i].start <= end < g.lines.len() && discharges(
            g.lines[end],
            g.spans[i].start,
            end,
        ))
    &&& forall|i: int, j: int|
        0 <= i < j < g.spans.len() ==> apart(#[trigger] g.spans[i], #[trigger] g.spans[j])
}

/// Whether a line discharges the subproof from `start` to `end`.
pub open spec fn discharges(entry: Entry, start: int, end: int) -> bool {
    entry.reason matches Reason::Discharge(_, s, e) && s == start && e == end
}

/// Whether a scope that starts later starts after the other is discharged, or is itself
/// discharged within it.
pub open spec fn apart(a: Span, b: Span) -> bool {
    a.end matches Some(end) ==> b.start > end + 1 || (b.end matches Some(inner) && inner + 1 <= end)
}

/// Whether a line opens or discharges a subproof.
pub open spec fn at_edge(reason: Reason) -> bool {
    reason is Assumption || reason is Discharge
}

/// Whether no assumption and no discharge repeats the formula of a line that it may cite.
pub open spec fn unrepeated(g: Growth) -> bool {
    forall|n: int, m: int|
        1 <= n <= g.lines.len() && 1 <= m && at_edge(g.lines[n - 1].reason)
            && #[trigger] accessible(g.spans, n, m) ==> g.lines[m - 1].formula
            != g.lines[n - 1].formula
}

/// Whether every line is justified, exactly the first are premises, the subproofs nest,
/// and none of them assumes or proves what is in reach already.
pub open spec fn well_grown(g: Growth, premises: int) -> bool {
    orderly(g, premises) && unrepeated(g)
}

/// Whether every line is justified, exactly the first are premises, and the subproofs
/// nest.
pub open spec fn orderly(g: Growth, premises: int) -> bool {
    &&& steady(g)
    &&& 0 <= premises <= g.lines.len()
    &&& forall|n: int|
        1 <= n <= g.lines.len() ==> #[trigger] fault_at(draft_of(g, premises), n) is None
    &&& forall|n: int|
        0 <= n < g.lines.len() ==> ((#[trigger] g.lines[n]).reason is Premise <==> n < premises)
    &&& nested(g, premises)
}

/// Whether `b` are the scopes `a`, some of the open ones closed at or after line `n`, and
/// scopes that start later.
pub open spec fn same_upto(a: Seq<Span>, b: Seq<Span>, n: int) -> bool {
    &&& a.len() <= b.len()
    &&& forall|i: int|
        0 <= i < a.len() ==> (#[trigger] b[i]) == a[i] || (a[i].end is None && b[i].start
            == a[i].start && (b[i].end matches Some(end) && end >= n))
    &&& forall|i: int| a.len() <= i < b.len() ==> (#[trigger] b[i]).start > n
}

/// What a line may cite rests on the scopes up to it.
proof fn lemma_accessible_kept(a: Seq<Span>, b: Seq<Span>, n: int, from: int, to: int)
    requires
        same_upto(a, b, n),
        from <= n,
        accessible(a, from, to),
    ensures
        accessible(b, from, to),
{
    assert forall|i: int| 0 <= i < b.len() && (#[trigger] b[i]).holds(to) implies b[i].holds(
        from,
    ) by {
        if i < a.len() {
            assert(a[i].holds(to));
        }
    }
}

/// What a line may cite in the end, it may cite from the beginning.
proof fn lemma_accessible_before(a: Seq<Span>, b: Seq<Span>, n: int, from: int, to: int)
    requires
        same_upto(a, b, n),
        from <= n,
        accessible(b, from, to),
    ensures
        accessible(a, from, to),
{
    assert forall|i: int| 0 <= i < a.len() && (#[trigger] a[i]).holds(to) implies a[i].holds(
        from,
    ) by {
        assert(b[i].holds(to));
        assert(b[i].holds(from));
    }
}

/// Lines that are added leave the assumptions and discharges before them unrepeated.
proof fn lemma_unrepeated_kept(a: Growth, b: Growth)
    requires
        unrepeated(a),
        a.lines.len() <= b.lines.len(),
        b.lines.take(a.lines.len() as int) == a.lines,
        same_upto(a.spans, b.spans, a.lines.len() as int),
    ensures
        forall|n: int, m: int|
            1 <= n <= a.lines.len() && 1 <= m && at_edge(b.lines[n - 1].reason)
                && #[trigger] accessible(b.spans, n, m) ==> b.lines[m - 1].formula
                != b.lines[n - 1].formula,
{
    let k = a.lines.len() as int;
    assert forall|i: int| 0 <= i < k implies #[trigger] b.lines[i] == a.lines[i] by {
        assert(b.lines.take(k)[i] == a.lines[i]);
    }
    assert forall|n: int, m: int|
        1 <= n <= k && 1 <= m && at_edge(b.lines[n - 1].reason) && #[trigger] accessible(
            b.spans,
            n,
            m,
        ) implies b.lines[m - 1].formula != b.lines[n - 1].formula by {
        lemma_accessible_before(a.spans, b.spans, k, n, m);
        assert(accessible(a.spans, n, m));
    }
}

/// A line that is justified stays so as more is added after it.
pub proof fn lemma_fault_kept(a: Draft, b: Draft, n: int)
    requires
        a.premises == b.premises,
        a.rows.len() <= b.rows.len(),
        b.rows.take(a.rows.len() as int) == a.rows,
        same_upto(a.spans, b.spans, a.rows.len() as int),
        1 <= n <= a.rows.len(),
        fault_at(a, n) is None,
    ensures
        fault_at(b, n) is None,
{
    let k = a.rows.len() as int;
    assert forall|m: int| 0 <= m < k implies #[trigger] b.rows[m] == a.rows[m] by {
        assert(b.rows.take(k)[m] == a.rows[m]);
    }
    match a.rows[n - 1].reason {
        Reason::Premise => {},
        Reason::Assumption(_) => {
            let i = choose|i: int|
                0 <= i < a.spans.len() && (#[trigger] a.spans[i]).start == n && a.spans[i].holds(n);
            assert(b.spans[i].start == n && b.spans[i].holds(n));
        },
        Reason::Inference(rule, lines) => {
            assert forall|i: int| 0 <= i < lines.len() implies citable(
                b,
                n,
                #[trigger] lines[i],
            ) by {
                assert(citable(a, n, lines[i]));
                lemma_accessible_kept(a.spans, b.spans, k, n, lines[i]);
            }
            assert(line_formulas(b, lines) =~= line_formulas(a, lines)) by {
                assert forall|i: int| 0 <= i < lines.len() implies line_formulas(b, lines)[i]
                    == line_formulas(a, lines)[i] by {
                    assert(citable(a, n, lines[i]));
                }
            }
        },
        Reason::Equivalence(_, line) => {
            lemma_accessible_kept(a.spans, b.spans, k, n, line);
        },
        Reason::Discharge(t, start, end) => {
            let span = Span { start, end: Some(end) };
            let i = choose|i: int| 0 <= i < a.spans.len() && a.spans[i] == span;
            assert(b.spans[i] == span);
            assert forall|i: int|
                0 <= i < b.spans.len() && (#[trigger] b.spans[i]).holds(end) && b.spans[i]
                    != span implies b.spans[i].holds(n) by {
                if i < a.spans.len() {
                    assert(a.spans[i].holds(end));
                    assert(a.spans[i] != span);
                    assert(a.spans[i].holds(n));
                }
            }
        },
    }
}

/// One justified line more keeps a derivation well grown.
proof fn lemma_add_entry(g: Growth, premises: int, formula: Prop, reason: Reason)
    requires
        well_grown(g, premises),
        !(reason is Premise),
        !at_edge(reason),
        fault_at(
            draft_of(with_entry(g, formula, reason), premises),
            g.lines.len() as int + 1,
        ) is None,
    ensures
        well_grown(with_entry(g, formula, reason), premises),
{
    let b = with_entry(g, formula, reason);
    let n = g.lines.len() as int;
    lemma_with_entry(g, formula, reason);
    let da = draft_of(g, premises);
    let db = draft_of(b, premises);
    assert(db.premises =~= da.premises) by {
        assert(b.lines.take(premises) =~= g.lines.take(premises));
    }
    assert(db.rows.take(n) =~= da.rows);
    assert(same_upto(da.spans, db.spans, n));
    lemma_unrepeated_kept(g, b);
    assert(unrepeated(b)) by {
        assert forall|k: int, m: int|
            1 <= k <= b.lines.len() && 1 <= m && at_edge(b.lines[k - 1].reason)
                && #[trigger] accessible(b.spans, k, m) implies b.lines[m - 1].formula
            != b.lines[k - 1].formula by {
            assert(k != n + 1);
        }
    }
    assert forall|m: int| 1 <= m <= b.lines.len() implies #[trigger] fault_at(db, m) is None by {
        if m <= n {
            assert(fault_at(da, m) is None);
            lemma_fault_kept(da, db, m);
        }
    }
    assert forall|m: int| 0 <= m < b.lines.len() implies ((#[trigger] b.lines[m]).reason is Premise
        <==> m < premises) by {
        if m < n {
            assert(b.lines[m] == g.lines[m]);
        }
    }
    assert(nested(b, premises)) by {
        assert forall|i: int|
            0 <= i < b.spans.len() implies premises < (#[trigger] b.spans[i]).start
            <= b.lines.len() && b.lines[b.spans[i].start - 1].reason is Assumption by {
            assert(g.spans[i] == b.spans[i]);
            assert(b.lines[b.spans[i].start - 1] == g.lines[b.spans[i].start - 1]);
        }
        assert forall|i: int| 0 <= i < b.spans.len() implies ((
        #[trigger] b.spans[i]).end matches Some(end) ==> b.spans[i].start <= end < b.lines.len()
            && discharges(b.lines[end], b.spans[i].start, end)) by {
            assert(g.spans[i] == b.spans[i]);
        }
        assert forall|i: int, j: int| 0 <= i < j < b.spans.len() implies apart(
            #[trigger] b.spans[i],
            #[trigger] b.spans[j],
        ) by {
            assert(apart(g.spans[i], g.spans[j]));
        }
    }
}

/// Other dice change nothing.
proof fn lemma_rolled_grown(g: Growth, premises: int, held: Seq<u32>)
    requires
        well_grown(g, premises),
    ensures
        well_grown(rolled(g, held), premises),
{
    let b = rolled(g, held);
    assert(draft_of(b, premises) == draft_of(g, premises));
    assert(unrepeated(b));
    lemma_rolled(g, held);
    assert(nested(b, premises));
}

/// A line that follows by a rule from lines in reach is justified.
proof fn lemma_inference_justified(
    g: Growth,
    premises: int,
    rule: InferenceRule,
    combo: Seq<int>,
    extra: Option<Prop>,
    c: Prop,
)
    requires
        forall|i: int|
            0 <= i < combo.len() ==> 1 <= #[trigger] combo[i] && accessible(
                g.spans,
                g.lines.len() as int + 1,
                combo[i],
            ),
        conclusions(rule, at(g.lines, combo), extra).contains(c),
    ensures
        fault_at(
            draft_of(with_entry(g, c, Reason::Inference(rule, combo)), premises),
            g.lines.len() as int + 1,
        ) is None,
{
    let n = g.lines.len() as int + 1;
    let b = with_entry(g, c, Reason::Inference(rule, combo));
    let d = draft_of(b, premises);
    let ps = at(g.lines, combo);
    assert(line_formulas(d, combo) =~= ps) by {
        assert forall|i: int| 0 <= i < combo.len() implies line_formulas(d, combo)[i] == ps[i] by {
            assert(1 <= combo[i] < n);
            assert(b.lines[combo[i] - 1] == g.lines[combo[i] - 1]);
        }
    }
    lemma_infers(rule, ps, extra, c);
    assert(line_formula(d, n) == c);
    assert forall|i: int| 0 <= i < combo.len() implies citable(d, n, #[trigger] combo[i]) by {
        assert(1 <= combo[i] && accessible(g.spans, n, combo[i]));
    }
}

/// What a rule concludes with whatever it was given besides its premises, it is found to
/// conclude.
pub proof fn lemma_infers(rule: InferenceRule, ps: Seq<Prop>, extra: Option<Prop>, c: Prop)
    requires
        conclusions(rule, ps, extra).contains(c),
    ensures
        infers(rule, ps, c),
{
    if rule == InferenceRule::Addition {
        let all = conclusions(rule, ps, extra_for(ps, c));
        match extra {
            Some(q) => {
                if c == p_or(ps[0], q) {
                    assert(adjunct(ps[0], c) == Some(q));
                    assert(all[0] == c);
                } else {
                    assert(c == p_or(q, ps[0]));
                    if q == ps[0] {
                        assert(all[0] == c);
                    } else {
                        assert(adjunct(ps[0], c) == Some(q));
                        assert(all[1] == c);
                    }
                }
            },
            None => {},
        }
    } else {
        assert(conclusions(rule, ps, extra_for(ps, c)) == conclusions(rule, ps, extra));
    }
}

/// A line that comes from a line in reach by an equivalence is justified.
proof fn lemma_equivalence_justified(
    g: Growth,
    premises: int,
    rule: EquivalenceRule,
    line: int,
    sub: Prop,
    form: Prop,
)
    requires
        1 <= line,
        accessible(g.spans, g.lines.len() as int + 1, line),
        subformula_seq(g.lines[line - 1].formula).contains(sub),
        forms(rule, sub).contains(form),
    ensures
        fault_at(
            draft_of(
                with_entry(
                    g,
                    replace_all(g.lines[line - 1].formula, sub, form),
                    Reason::Equivalence(rule, line),
                ),
                premises,
            ),
            g.lines.len() as int + 1,
        ) is None,
{
    let n = g.lines.len() as int + 1;
    let source = g.lines[line - 1].formula;
    let result = replace_all(source, sub, form);
    let b = with_entry(g, result, Reason::Equivalence(rule, line));
    let d = draft_of(b, premises);
    assert(b.lines[line - 1] == g.lines[line - 1]);
    assert(line_formula(d, n) == result);
    assert(rewrites_to(rule, source, result));
}

/// A line within reach is among those whose formulas are compared.
proof fn lemma_in_outer(g: Growth, m: int)
    requires
        1 <= m,
        accessible(g.spans, g.lines.len() as int + 1, m),
    ensures
        at(g.lines, in_reach(g)).contains(g.lines[m - 1].formula),
{
    let n = g.lines.len() as int;
    lemma_reachable(g.spans, n, n);
    assert(in_reach(g).contains(m));
    let i = choose|i: int| 0 <= i < in_reach(g).len() && in_reach(g)[i] == m;
    assert(at(g.lines, in_reach(g))[i] == g.lines[m - 1].formula);
}

/// An assumption of something new keeps a derivation well grown.
proof fn lemma_assume(g: Growth, premises: int, formula: Prop, t: ProofTechnique)
    requires
        well_grown(g, premises),
        !at(g.lines, in_reach(g)).contains(formula),
    ensures
        well_grown(assumed(g, formula, t), premises),
{
    let n = g.lines.len() as int;
    let b = assumed(g, formula, t);
    let span = Span { start: n + 1, end: None };
    lemma_assumed(g, formula, t);
    let da = draft_of(g, premises);
    let db = draft_of(b, premises);
    assert(db.premises =~= da.premises) by {
        assert(b.lines.take(premises) =~= g.lines.take(premises));
    }
    assert(db.rows.take(n) =~= da.rows);
    assert(same_upto(da.spans, db.spans, n));
    lemma_unrepeated_kept(g, b);
    assert(unrepeated(b)) by {
        assert forall|k: int, m: int|
            1 <= k <= b.lines.len() && 1 <= m && at_edge(b.lines[k - 1].reason)
                && #[trigger] accessible(b.spans, k, m) implies b.lines[m - 1].formula
            != b.lines[k - 1].formula by {
            if k == n + 1 {
                assert forall|i: int| 0 <= i < g.spans.len() && (#[trigger] g.spans[i]).holds(
                    m,
                ) implies g.spans[i].holds(n + 1) by {
                    assert(b.spans[i] == g.spans[i]);
                }
                lemma_in_outer(g, m);
            }
        }
    }
    assert(db.spans[g.spans.len() as int] == span);
    assert(span.holds(n + 1));
    assert(opens_scope(db, n + 1));
    assert forall|m: int| 1 <= m <= b.lines.len() implies #[trigger] fault_at(db, m) is None by {
        if m <= n {
            assert(fault_at(da, m) is None);
            lemma_fault_kept(da, db, m);
        }
    }
    assert forall|m: int| 0 <= m < b.lines.len() implies ((#[trigger] b.lines[m]).reason is Premise
        <==> m < premises) by {
        if m < n {
            assert(b.lines[m] == g.lines[m]);
        }
    }
    assert(nested(b, premises)) by {
        assert forall|i: int, j: int| 0 <= i < j < b.spans.len() implies (
        #[trigger] b.spans[i]).start < (#[trigger] b.spans[j]).start by {
            assert(g.spans[i] == b.spans[i]);
            if j < g.spans.len() {
                assert(g.spans[j] == b.spans[j]);
            }
        }
        assert forall|i: int|
            0 <= i < b.spans.len() implies premises < (#[trigger] b.spans[i]).start
            <= b.lines.len() && b.lines[b.spans[i].start - 1].reason is Assumption by {
            if i < g.spans.len() {
                assert(g.spans[i] == b.spans[i]);
                assert(b.lines[b.spans[i].start - 1] == g.lines[b.spans[i].start - 1]);
            }
        }
        assert forall|i: int| 0 <= i < b.spans.len() implies ((
        #[trigger] b.spans[i]).end matches Some(end) ==> b.spans[i].start <= end < b.lines.len()
            && discharges(b.lines[end], b.spans[i].start, end)) by {
            if i < g.spans.len() {
                assert(g.spans[i] == b.spans[i]);
            }
        }
        assert forall|i: int, j: int| 0 <= i < j < b.spans.len() implies apart(
            #[trigger] b.spans[i],
            #[trigger] b.spans[j],
        ) by {
            assert(g.spans[i] == b.spans[i]);
            if j < g.spans.len() {
                assert(g.spans[j] == b.spans[j]);
                assert(apart(g.spans[i], g.spans[j]));
            }
        }
    }
}

/// A discharge keeps a derivation well grown, where the subproof proves it.
proof fn lemma_discharge(
    g: Growth,
    premises: int,
    a: Prop,
    t: ProofTechnique,
    g2: Growth,
    c: Prop,
)
    requires
        steady(g),
        extends(assumed(g, a, t), g2),
        well_grown(g2, premises),
        g2.lines.len() >= g.lines.len() + 2,
        discharge(t, a, g2.lines.last().formula) == Some(c),
        !at(g.lines, in_reach(g)).contains(c),
    ensures
        well_grown(discharged(g2, c, t, g.lines.len() as int + 1), premises),
{
    let n = g2.lines.len() as int;
    let start = g.lines.len() as int + 1;
    let k = g.spans.len() as int;
    let a1 = assumed(g, a, t);
    let b = discharged(g2, c, t, start);
    let closed = Growth { spans: closed_at(g2.spans, n), ..g2 };
    let span = Span { start, end: Some(n) };
    lemma_assumed(g, a, t);
    lemma_closing(g, a, t, g2, n);
    assert(steady(closed)) by {
        assert forall|i: int| 0 <= i < closed.spans.len() implies 1 <= (
        #[trigger] closed.spans[i]).start <= closed.lines.len() by {
            assert(1 <= g2.spans[i].start <= g2.lines.len());
        }
    }
    lemma_with_entry(closed, c, Reason::Discharge(t, start, n));
    assert(b.spans == g2.spans.update(k, span));
    assert(g2.lines.take(a1.lines.len() as int)[start - 1] == a1.lines[start - 1]);
    assert(g2.lines[start - 1] == (Entry { formula: a, reason: Reason::Assumption(t) }));
    assert(g2.spans.take(a1.spans.len() as int)[k] == a1.spans[k]);
    assert(g2.spans[k] == (Span { start, end: None }));
    let da = draft_of(g2, premises);
    let db = draft_of(b, premises);
    assert(db.premises =~= da.premises) by {
        assert(b.lines.take(premises) =~= g2.lines.take(premises));
    }
    assert(db.rows.take(n) =~= da.rows);
    assert(same_upto(da.spans, db.spans, n));
    lemma_unrepeated_kept(g2, b);
    assert(unrepeated(b)) by {
        assert forall|q: int, m: int|
            1 <= q <= b.lines.len() && 1 <= m && at_edge(b.lines[q - 1].reason)
                && #[trigger] accessible(b.spans, q, m) implies b.lines[m - 1].formula
            != b.lines[q - 1].formula by {
            if q == n + 1 {
                assert(b.spans[k] == span);
                assert(m < start);
                assert forall|i: int| 0 <= i < g.spans.len() && (#[trigger] g.spans[i]).holds(
                    m,
                ) implies g.spans[i].holds(start) by {
                    assert(g2.spans.take(a1.spans.len() as int)[i] == a1.spans[i]);
                    assert(b.spans[i] == g.spans[i]);
                }
                lemma_in_outer(g, m);
                assert(g2.lines.take(a1.lines.len() as int)[m - 1] == a1.lines[m - 1]);
                assert(a1.lines.take(g.lines.len() as int)[m - 1] == g.lines[m - 1]);
                assert(b.lines[m - 1] == g.lines[m - 1]);
            }
        }
    }
    assert(fault_at(db, n + 1) is None) by {
        assert(db.spans[k] == span);
        assert(db.spans.contains(span));
        assert forall|i: int|
            0 <= i < db.spans.len() && (#[trigger] db.spans[i]).holds(n) && db.spans[i]
                != span implies db.spans[i].holds(n + 1) by {
            assert(db.spans[i] == g2.spans[i]);
        }
        assert(db.rows[start - 1].reason == Reason::Assumption(t));
        assert(ends_subproof(db, n + 1, t, start, n));
        assert(line_formula(db, start) == a);
        assert(line_formula(db, n) == g2.lines.last().formula);
        assert(line_formula(db, n + 1) == c);
    }
    assert forall|m: int| 1 <= m <= b.lines.len() implies #[trigger] fault_at(db, m) is None by {
        if m <= n {
            assert(fault_at(da, m) is None);
            lemma_fault_kept(da, db, m);
        }
    }
    assert forall|m: int| 0 <= m < b.lines.len() implies ((#[trigger] b.lines[m]).reason is Premise
        <==> m < premises) by {
        if m < n {
            assert(b.lines[m] == g2.lines[m]);
        }
    }
    assert(nested(b, premises)) by {
        assert forall|i: int, j: int| 0 <= i < j < b.spans.len() implies (
        #[trigger] b.spans[i]).start < (#[trigger] b.spans[j]).start by {
            assert(g2.spans[i].start < g2.spans[j].start);
        }
        assert forall|i: int|
            0 <= i < b.spans.len() implies premises < (#[trigger] b.spans[i]).start
            <= b.lines.len() && b.lines[b.spans[i].start - 1].reason is Assumption by {
            assert(premises < g2.spans[i].start <= g2.lines.len());
            assert(b.lines[b.spans[i].start - 1] == g2.lines[g2.spans[i].start - 1]);
        }
        assert forall|i: int| 0 <= i < b.spans.len() implies ((
        #[trigger] b.spans[i]).end matches Some(end) ==> b.spans[i].start <= end < b.lines.len()
            && discharges(b.lines[end], b.spans[i].start, end)) by {
            if i != k {
                assert(b.spans[i] == g2.spans[i]);
            } else {
                assert(b.lines[n].reason == Reason::Discharge(t, start, n));
            }
        }
        assert forall|i: int, j: int| 0 <= i < j < b.spans.len() implies apart(
            #[trigger] b.spans[i],
            #[trigger] b.spans[j],
        ) by {
            assert(apart(g2.spans[i], g2.spans[j]));
            if i == k {
                assert(g2.spans[j].end is Some) by {
                    assert(g2.spans[j].start > a1.lines.len() && g2.spans[j].end is Some);
                }
            }
        }
    }
}

/// An inference keeps a derivation well grown.
proof fn lemma_inferred_grown(soil: Soil, g: Growth, premises: int)
    requires
        well_grown(g, premises),
    ensures
        well_grown(inferred(soil, g), premises),
{
    let n = g.lines.len() as int;
    let (rule, h1) = rule_drawn(g.held);
    let g1 = rolled(g, h1);
    lemma_rolled_grown(g, premises, h1);
    if premise_count(rule) <= in_reach(g).len() {
        let (all, h2) = offers(soil, g1, rule);
        lemma_rolled_grown(g, premises, h2);
        if all.len() > 0 {
            let ws = offer_weights(all, n, g.used);
            let (i, h3) = weighted_drawn(ws, h2);
            law_pick(ws, unit_drawn(h2).0, 0);
            let o = all[i];
            assert(all.contains(o));
            lemma_offers(soil, g1, rule, o);
            let g3 = rolled(g, h3);
            lemma_rolled_grown(g, premises, h3);
            lemma_reachable(g.spans, n, n);
            let extra = choose|extra: Option<Prop>| #[trigger]
                conclusions(rule, at(g1.lines, o.combo), extra).contains(o.conclusion);
            assert forall|j: int| 0 <= j < o.combo.len() implies 1 <= #[trigger] o.combo[j]
                && accessible(g3.spans, n + 1, o.combo[j]) by {
                assert(in_reach(g1).contains(o.combo[j]));
            }
            lemma_inference_justified(g3, premises, rule, o.combo, extra, o.conclusion);
            lemma_add_entry(g3, premises, o.conclusion, Reason::Inference(rule, o.combo));
        }
    }
}

/// An equivalence keeps a derivation well grown.
proof fn lemma_rewritten_grown(soil: Soil, g: Growth, premises: int)
    requires
        well_grown(g, premises),
    ensures
        well_grown(rewritten(soil, g), premises),
{
    let n = g.lines.len() as int;
    let reach = in_reach(g);
    if reach.len() > 0 {
        let ws = reach_weights(reach, n, g.used);
        let (i, h1) = weighted_drawn(ws, g.held);
        law_pick(ws, unit_drawn(g.held).0, 0);
        lemma_reachable(g.spans, n, n);
        let line = reach[i];
        let source = g.lines[line - 1].formula;
        let subs = subformula_seq(source);
        let (j, h2) = index_drawn(h1, subs.len() as int);
        let rules = all_equivalence_rules();
        let (r, h3) = index_drawn(h2, rules.len() as int);
        let fs = forms(rules[r], subs[j]);
        lemma_rolled_grown(g, premises, h3);
        if fs.len() > 0 {
            let (k, h4) = index_drawn(h3, fs.len() as int);
            let result = replace_all(source, subs[j], fs[k]);
            lemma_rolled_grown(g, premises, h4);
            if !known(g.lines).contains(result) && fits(result, soil.max_len) {
                let g4 = rolled(g, h4);
                assert(subs.len() > 0);
                assert(subs.contains(subs[j]));
                assert(fs.contains(fs[k]));
                lemma_equivalence_justified(g4, premises, rules[r], line, subs[j], fs[k]);
                lemma_add_entry(g4, premises, result, Reason::Equivalence(rules[r], line));
            }
        }
    }
}

/// A step keeps a derivation well grown.
proof fn lemma_stepped_grown(soil: Soil, g: Growth, premises: int)
    requires
        well_grown(g, premises),
    ensures
        well_grown(stepped(soil, g), premises),
{
    let h1 = unit_drawn(g.held).1;
    lemma_rolled_grown(g, premises, h1);
    lemma_rewritten_grown(soil, rolled(g, h1), premises);
    lemma_inferred_grown(soil, rolled(g, h1), premises);
}

/// Growing keeps a derivation well grown: whatever is drawn, every line is justified.
pub proof fn law_grown_justified(soil: Soil, room: nat, g: Growth, premises: int)
    requires
        well_grown(g, premises),
    ensures
        well_grown(grown(soil, room, g), premises),
    decreases room, 2int, 0nat,
{
    if room == 0 {
        lemma_stepped_grown(soil, g, premises);
    } else {
        let (k, h1) = unit_drawn(g.held);
        let (conditional, h2) = coin_drawn(h1);
        lemma_rolled_grown(g, premises, h1);
        lemma_rolled_grown(g, premises, h2);
        if k >= SUBPROOF_SHARE {
            lemma_stepped_grown(soil, rolled(g, h1), premises);
        } else if conditional {
            lemma_conditional_grown(soil, room, rolled(g, h2), premises);
        } else {
            lemma_indirect_grown(soil, room, rolled(g, h2), premises);
        }
    }
}

/// [`law_grown_justified`] for several attempts.
proof fn lemma_grown_by_justified(
    soil: Soil,
    room: nat,
    g: Growth,
    want: nat,
    tries: nat,
    premises: int,
)
    requires
        well_grown(g, premises),
    ensures
        well_grown(grown_by(soil, room, g, want, tries).1, premises),
    decreases room, 3int, tries,
{
    if want > 0 && tries > 0 {
        let next = grown(soil, room, g);
        let left = if next.lines.len() > g.lines.len() {
            (want - 1) as nat
        } else {
            want
        };
        law_grown_justified(soil, room, g, premises);
        lemma_grown_by_justified(soil, room, next, left, (tries - 1) as nat, premises);
    }
}

/// [`law_grown_justified`] for a conditional proof.
proof fn lemma_conditional_grown(soil: Soil, room: nat, g: Growth, premises: int)
    requires
        well_grown(g, premises),
    ensures
        well_grown(conditionally_proved(soil, room, g), premises),
    decreases room, 1int, 0nat,
{
    let b = conditionally_proved(soil, room, g);
    let (a, h1) = small_drawn(soil.atoms, g.held);
    let outer = at(g.lines, in_reach(g));
    lemma_rolled_grown(g, premises, b.held);
    lemma_rolled_grown(g, premises, h1);
    if room > 0 && fits(a, soil.max_len) && !outer.contains(a) {
        let t = ProofTechnique::ConditionalProof;
        let g0 = rolled(g, h1);
        let g1 = assumed(g0, a, t);
        lemma_assumed(g0, a, t);
        lemma_assume(g0, premises, a, t);
        let (want, h2) = count_drawn(g1.held, 2, 5);
        let g1r = rolled(g1, h2);
        lemma_rolled(g1, h2);
        lemma_rolled_grown(g1, premises, h2);
        let tries = at_least((want * 15) as nat, 40);
        let (left, g2) = grown_by(soil, (room - 1) as nat, g1r, want as nat, tries);
        lemma_grown_by(soil, (room - 1) as nat, g1r, want as nat, tries);
        lemma_grown_by_justified(soil, (room - 1) as nat, g1r, want as nat, tries, premises);
        lemma_extends_trans(g1, g1r, g2);
        let c = p_implies(a, g2.lines.last().formula);
        if want - left >= 2 && !outer.contains(c) && fits(c, soil.max_len) {
            lemma_discharge(g0, premises, a, t, g2, c);
        }
    }
}

/// [`law_grown_justified`] for an indirect proof.
proof fn lemma_indirect_grown(soil: Soil, room: nat, g: Growth, premises: int)
    requires
        well_grown(g, premises),
    ensures
        well_grown(indirectly_proved(soil, room, g), premises),
    decreases room, 1int, 0nat,
{
    let b = indirectly_proved(soil, room, g);
    let reach = in_reach(g);
    lemma_rolled_grown(g, premises, b.held);
    if room > 0 && reach.len() > 0 {
        let n = g.lines.len() as int;
        let ws = reach_weights(reach, n, g.used);
        let (i, h1) = weighted_drawn(ws, g.held);
        law_pick(ws, unit_drawn(g.held).0, 0);
        lemma_reachable(g.spans, n, n);
        let anchor = reach[i];
        let (lit, h2) = literal_drawn(soil.atoms, h1);
        let (conj, h3) = coin_drawn(h2);
        let a = g.lines[anchor - 1].formula;
        let t = if conj {
            conj_template(a, lit)
        } else {
            disj_template(a, lit)
        };
        let ip = ProofTechnique::IndirectProof;
        let g0 = rolled(g, h3);
        lemma_rolled_grown(g, premises, h3);
        if usable(soil, at(g.lines, reach), t) {
            let g1 = assumed(g0, t.assumption, ip);
            lemma_assumed(g0, t.assumption, ip);
            lemma_assume(g0, premises, t.assumption, ip);
            let (want, h4) = count_drawn(g1.held, 0, 3);
            let g1r = rolled(g1, h4);
            lemma_rolled(g1, h4);
            lemma_rolled_grown(g1, premises, h4);
            let tries = at_least((want * 15) as nat, 20);
            let g2 = grown_by(soil, (room - 1) as nat, g1r, want as nat, tries).1;
            lemma_grown_by(soil, (room - 1) as nat, g1r, want as nat, tries);
            lemma_grown_by_justified(soil, (room - 1) as nat, g1r, want as nat, tries, premises);
            lemma_extends_trans(g1, g1r, g2);
            lemma_refuted_grown(g0, premises, g2, t, anchor);
            lemma_rolled_grown(g, premises, refuted(g, g2, t, anchor).held);
        }
    }
}

/// Whether a template refutes its assumption from the anchor `a`.
spec fn refutes(t: Template, a: Prop) -> bool {
    &&& forms(t.rule, t.assumption).contains(t.opened)
    &&& (t.opened matches Prop::And(l, r) && (*l == t.refuted || *r == t.refuted))
    &&& t.refuted == p_not(a)
    &&& t.assumption == p_not(t.goal)
}

/// Both templates refute their assumptions.
proof fn lemma_templates(a: Prop, b: Prop)
    ensures
        refutes(conj_template(a, b), a),
        refutes(disj_template(a, b), a),
{
    let c = conj_template(a, b);
    assert(forms(c.rule, c.assumption)[0] == c.opened);
    let d = disj_template(a, b);
    assert(forms(d.rule, d.assumption)[0] == d.opened);
}

/// [`lemma_indirect_grown`] from where the contradiction is derived.
#[verifier::rlimit(30)]
proof fn lemma_refuted_grown(g0: Growth, premises: int, g2: Growth, t: Template, anchor: int)
    requires
        well_grown(g0, premises),
        well_grown(g2, premises),
        extends(assumed(g0, t.assumption, ProofTechnique::IndirectProof), g2),
        1 <= anchor <= g0.lines.len(),
        accessible(g0.spans, g0.lines.len() as int + 1, anchor),
        !at(g0.lines, in_reach(g0)).contains(t.goal),
        exists|b: Prop|
            t == #[trigger] conj_template(g0.lines[anchor - 1].formula, b) || t
                == #[trigger] disj_template(g0.lines[anchor - 1].formula, b),
    ensures
        well_grown(refuted(g0, g2, t, anchor), premises),
{
    let ip = ProofTechnique::IndirectProof;
    let start = g0.lines.len() as int + 1;
    let a = g0.lines[anchor - 1].formula;
    let b = choose|b: Prop|
        t == #[trigger] conj_template(a, b) || t == #[trigger] disj_template(a, b);
    lemma_templates(a, b);
    let g1 = assumed(g0, t.assumption, ip);
    lemma_assumed(g0, t.assumption, ip);
    let k = g0.spans.len() as int;
    assert(g2.spans.take(g1.spans.len() as int)[k] == g1.spans[k]);
    assert(g2.lines.take(g1.lines.len() as int)[start - 1] == g1.lines[start - 1]);
    assert(g2.lines[start - 1].formula == t.assumption);
    assert forall|i: int| 0 <= i < g0.spans.len() implies g2.spans[i] == g0.spans[i] by {
        assert(g2.spans.take(g1.spans.len() as int)[i] == g1.spans[i]);
    }
    assert(g2.lines[anchor - 1] == g0.lines[anchor - 1]) by {
        assert(g2.lines.take(g1.lines.len() as int)[anchor - 1] == g1.lines[anchor - 1]);
        assert(g1.lines.take(g0.lines.len() as int)[anchor - 1] == g0.lines[anchor - 1]);
    }
    let n2 = g2.lines.len() as int;
    lemma_open_reach(g2, premises, k, start, start, n2 + 1);
    lemma_has_self(t.assumption);
    assert(replace_all(t.assumption, t.assumption, t.opened) == t.opened);
    lemma_equivalence_justified(g2, premises, t.rule, start, t.assumption, t.opened);
    let r3 = Reason::Equivalence(t.rule, start);
    let g3 = with_entry(g2, t.opened, r3);
    lemma_add_entry(g2, premises, t.opened, r3);
    let n3 = n2 + 1;
    lemma_open_reach(g3, premises, k, start, n3, n3 + 1);
    let simp = seq![n3];
    let cs = conclusions(InferenceRule::Simplification, at(g3.lines, simp), None);
    assert(cs.contains(t.refuted)) by {
        assert(at(g3.lines, simp)[0] == t.opened);
        match t.opened {
            Prop::And(l, r) => {
                assert(cs[0] == *l);
                assert(cs[1] == *r);
            },
            _ => {},
        }
    }
    lemma_inference_justified(g3, premises, InferenceRule::Simplification, simp, None, t.refuted);
    let r4 = Reason::Inference(InferenceRule::Simplification, simp);
    let g4 = with_entry(g3, t.refuted, r4);
    lemma_add_entry(g3, premises, t.refuted, r4);
    lemma_rolled_grown(g0, premises, g4.held);
    if !known(g4.lines).contains(Prop::Contradiction) {
        let n4 = n3 + 1;
        lemma_open_reach(g4, premises, k, start, n4, n4 + 1);
        assert(accessible(g4.spans, n4 + 1, anchor)) by {
            assert forall|i: int|
                0 <= i < g4.spans.len() && (#[trigger] g4.spans[i]).holds(
                    anchor,
                ) implies g4.spans[i].holds(n4 + 1) by {
                if i < k {
                    assert(g4.spans[i] == g0.spans[i]);
                    assert(g0.spans[i].holds(start));
                    if g0.spans[i].end is Some {
                        assert(g0.spans[i].end->0 < g0.lines.len());
                    }
                } else {
                    assert(g4.spans[i].start >= start) by {
                        if i > k {
                            assert(g4.spans[k].start < g4.spans[i].start);
                        }
                    }
                }
            }
        }
        let clash = seq![anchor, n4];
        let ps = at(g4.lines, clash);
        assert(g4.lines[anchor - 1] == g2.lines[anchor - 1]);
        assert(ps[0] == a && ps[1] == t.refuted);
        assert(conclusions(InferenceRule::Contradiction, ps, None)[0] == Prop::Contradiction);
        lemma_inference_justified(
            g4,
            premises,
            InferenceRule::Contradiction,
            clash,
            None,
            Prop::Contradiction,
        );
        let r5 = Reason::Inference(InferenceRule::Contradiction, clash);
        let g5 = with_entry(g4, Prop::Contradiction, r5);
        lemma_add_entry(g4, premises, Prop::Contradiction, r5);
        lemma_with_entry(g2, t.opened, r3);
        lemma_with_entry(g3, t.refuted, r4);
        lemma_with_entry(g4, Prop::Contradiction, r5);
        lemma_extends_trans(g1, g2, g3);
        lemma_extends_trans(g1, g3, g4);
        lemma_extends_trans(g1, g4, g5);
        lemma_discharge(g0, premises, t.assumption, ip, g5, t.goal);
    }
}

/// A formula is one of its own subformulas.
proof fn lemma_has_self(p: Prop)
    ensures
        subformula_seq(p).contains(p),
{
    assert(subformula_seq(p)[0] == p);
}

/// The first and the last line of the innermost open subproof are within reach of the
/// next line.
proof fn lemma_open_reach(g: Growth, premises: int, k: int, start: int, to: int, from: int)
    requires
        well_grown(g, premises),
        0 <= k < g.spans.len(),
        g.spans[k] == (Span { start, end: None }),
        forall|i: int| k < i < g.spans.len() ==> (#[trigger] g.spans[i]).end is Some,
        to == start || to == g.lines.len(),
        from == g.lines.len() + 1,
    ensures
        accessible(g.spans, from, to),
        1 <= to,
{
    assert forall|i: int| 0 <= i < g.spans.len() && (#[trigger] g.spans[i]).holds(
        to,
    ) implies g.spans[i].holds(from) by {
        if g.spans[i].end is Some {
            let end = g.spans[i].end->0;
            assert(end < g.lines.len());
            if i < k {
                assert(apart(g.spans[i], g.spans[k]));
            } else if i > k {
                assert(g.spans[k].start < g.spans[i].start);
            }
        }
    }
}

/// [`law_grown_justified`] for the whole of growing.
pub proof fn law_grown_to_justified(
    soil: Soil,
    room: nat,
    g: Growth,
    size: nat,
    tries: nat,
    premises: int,
)
    requires
        well_grown(g, premises),
    ensures
        well_grown(grown_to(soil, room, g, size, tries), premises),
    decreases tries,
{
    if g.lines.len() < size && tries > 0 {
        law_grown_justified(soil, room, g, premises);
        law_grown_to_justified(
            soil,
            room,
            grown(soil, room, g),
            size,
            (tries - 1) as nat,
            premises,
        );
    }
}

} // verus!
