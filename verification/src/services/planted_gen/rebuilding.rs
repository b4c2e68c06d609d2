//! Why the proof that a cone is rebuilt to is justified and complete.

use vstd::prelude::*;

use super::cone::{
    kept_upto, needed, rank, ranks, rebuilt, rebuilt_upto, refers_back, refs_at, renumbered,
};
use super::growth::{Entry, Growth};
use super::soundness::{apart, at_edge, discharges, draft_of, nested, orderly, unrepeated, well_grown};
use super::tending::steady;
use crate::models::proofs::{reaches_conclusion, referenced, Draft, Reason};
use crate::models::scopes::{
    accessible, closed_at, depth_at, last_open, lemma_depth_zero, lemma_last_open, Span,
};
use crate::services::verification::{
    citable, ends_subproof, fault_at, line_formula, line_formulas, opens_scope, verified,
};

verus! {

/// Whether a justification cites a line, or the line is `n` itself.
pub open spec fn concerns(d: Draft, n: int, x: int) -> bool {
    x == n || referenced(d.rows[n - 1].reason).contains(x)
}

/// Whether the reason of line `n` of `d` is carried over to line `number(n)` of `e`, with
/// the lines renumbered.
pub open spec fn reason_carried(d: Draft, e: Draft, number: spec_fn(int) -> int, n: int) -> bool {
    let reason = e.rows[number(n) - 1].reason;
    match d.rows[n - 1].reason {
        Reason::Premise => reason is Premise && e.premises.contains(line_formula(e, number(n))),
        Reason::Assumption(t) => reason == Reason::Assumption(t) && opens_scope(e, number(n)),
        Reason::Discharge(t, s, x) => {
            &&& reason == Reason::Discharge(t, number(s), number(x))
            &&& number(x) + 1 == number(n)
            &&& number(s) <= number(x)
            &&& e.spans.contains(Span { start: number(s), end: Some(number(x)) })
            &&& e.rows[number(s) - 1].reason == Reason::Assumption(t)
        },
        other => reason == renumbered(other, number),
    }
}

/// Whether a scope becomes the one that is discharged after renumbering, if it is the one
/// that a line discharges.
pub open spec fn discharged_span_carried(
    reason: Reason,
    old_span: Span,
    new_span: Span,
    number: spec_fn(int) -> int,
) -> bool {
    match reason {
        Reason::Discharge(_, s, x) => old_span == (Span { start: s, end: Some(x) }) ==> new_span
            == (Span { start: number(s), end: Some(number(x)) }),
        _ => true,
    }
}

/// Whether line `n` of `d` is carried over to line `number(n)` of `e`: its formula, what
/// it cites, and the scopes around them. The scope at position `j` of `e` comes from the
/// one at position `back(j)` of `d`.
pub open spec fn carried(
    d: Draft,
    e: Draft,
    number: spec_fn(int) -> int,
    back: spec_fn(int) -> int,
    n: int,
) -> bool {
    &&& 1 <= number(n) <= e.rows.len()
    &&& line_formula(e, number(n)) == line_formula(d, n)
    &&& reason_carried(d, e, number, n)
    &&& forall|x: int|
        #[trigger] referenced(d.rows[n - 1].reason).contains(x) ==> 1 <= number(x) < number(n)
            && line_formula(e, number(x)) == line_formula(d, x)
    &&& forall|j: int|
        0 <= j < e.spans.len() ==> 0 <= #[trigger] back(j) < d.spans.len()
    &&& forall|j: int, x: int|
        0 <= j < e.spans.len() && #[trigger] concerns(d, n, x) ==> ((
        #[trigger] e.spans[j]).holds(number(x)) <==> d.spans[back(j)].holds(x))
    &&& forall|j: int|
        0 <= j < e.spans.len() ==> discharged_span_carried(
            d.rows[n - 1].reason,
            d.spans[back(j)],
            #[trigger] e.spans[j],
            number,
        )
}

/// A justified line that is carried over is justified.
pub proof fn lemma_carried(
    d: Draft,
    e: Draft,
    number: spec_fn(int) -> int,
    back: spec_fn(int) -> int,
    n: int,
)
    requires
        1 <= n <= d.rows.len(),
        fault_at(d, n) is None,
        carried(d, e, number, back, n),
    ensures
        fault_at(e, number(n)) is None,
{
    let p = number(n);
    assert(concerns(d, n, n));
    match d.rows[n - 1].reason {
        Reason::Premise => {},
        Reason::Assumption(_) => {},
        Reason::Inference(rule, lines) => {
            let new = Seq::new(lines.len(), |i: int| number(lines[i]));
            assert forall|i: int| 0 <= i < new.len() implies citable(e, p, #[trigger] new[i]) by {
                assert(referenced(d.rows[n - 1].reason).contains(lines[i]));
                assert(citable(d, n, lines[i]));
                lemma_access_carried(d, e, number, back, n, lines[i]);
            }
            assert(line_formulas(e, new) =~= line_formulas(d, lines)) by {
                assert forall|i: int| 0 <= i < new.len() implies line_formulas(e, new)[i]
                    == line_formulas(d, lines)[i] by {
                    assert(referenced(d.rows[n - 1].reason).contains(lines[i]));
                }
            }
        },
        Reason::Equivalence(_, line) => {
            assert(referenced(d.rows[n - 1].reason)[0] == line);
            assert(referenced(d.rows[n - 1].reason).contains(line));
            lemma_access_carried(d, e, number, back, n, line);
        },
        Reason::Discharge(t, s, x) => {
            let refs = referenced(d.rows[n - 1].reason);
            assert(refs[0] == s && refs[1] == x);
            assert(referenced(d.rows[n - 1].reason).contains(s));
            assert(referenced(d.rows[n - 1].reason).contains(x));
            assert(concerns(d, n, x));
            let span = Span { start: number(s), end: Some(number(x)) };
            assert forall|j: int|
                0 <= j < e.spans.len() && (#[trigger] e.spans[j]).holds(number(x)) && e.spans[j]
                    != span implies e.spans[j].holds(p) by {
                assert(d.spans[back(j)].holds(x));
                assert(d.spans[back(j)].holds(n));
            }
            assert(ends_subproof(e, p, t, number(s), number(x)));
        },
    }
}

/// What a line may cite, it may cite after it is carried over.
proof fn lemma_access_carried(
    d: Draft,
    e: Draft,
    number: spec_fn(int) -> int,
    back: spec_fn(int) -> int,
    n: int,
    m: int,
)
    requires
        carried(d, e, number, back, n),
        referenced(d.rows[n - 1].reason).contains(m),
        accessible(d.spans, n, m),
    ensures
        citable(e, number(n), number(m)),
{
    assert(concerns(d, n, m) && concerns(d, n, n));
    assert forall|j: int| 0 <= j < e.spans.len() && (#[trigger] e.spans[j]).holds(
        number(m),
    ) implies e.spans[j].holds(number(n)) by {
        assert(d.spans[back(j)].holds(m));
        assert(d.spans[back(j)].holds(n));
    }
}

/// A justified line refers to earlier lines.
pub proof fn lemma_refers_back(d: Draft, n: int, x: int)
    requires
        1 <= n <= d.rows.len(),
        fault_at(d, n) is None,
        referenced(d.rows[n - 1].reason).contains(x),
    ensures
        1 <= x < n,
{
    match d.rows[n - 1].reason {
        Reason::Inference(rule, lines) => {
            let i = choose|i: int| 0 <= i < lines.len() && lines[i] == x;
            assert(citable(d, n, lines[i]));
        },
        _ => {},
    }
}

/// In a well-grown derivation every line refers to earlier lines.
pub proof fn lemma_grown_refers_back(g: Growth, premises: int)
    requires
        orderly(g, premises),
    ensures
        refers_back(g.lines),
{
    let d = draft_of(g, premises);
    assert forall|n: int, i: int|
        1 <= n <= g.lines.len() && 0 <= i < referenced(g.lines[n - 1].reason).len() implies 1
        <= #[trigger] referenced(g.lines[n - 1].reason)[i] < n by {
        assert(fault_at(d, n) is None);
        assert(d.rows[n - 1].reason == g.lines[n - 1].reason);
        assert(referenced(d.rows[n - 1].reason).contains(referenced(g.lines[n - 1].reason)[i]));
        lemma_refers_back(d, n, referenced(g.lines[n - 1].reason)[i]);
    }
}

/// Ranks do not fall, and rise by one with each line that is kept.
pub proof fn lemma_rank(lines: Seq<Entry>, target: int, a: int, b: int)
    requires
        0 <= a <= b,
    ensures
        0 <= rank(lines, target, a) <= rank(lines, target, b) <= b,
        rank(lines, target, b) - rank(lines, target, a) <= b - a,
        a < b && needed(lines, target, b) ==> rank(lines, target, a) < rank(lines, target, b),
    decreases b,
{
    if a < b {
        lemma_rank(lines, target, a, b - 1);
    } else if b > 0 {
        lemma_rank(lines, target, b - 1, b - 1);
    }
}

/// Each rank is that of a line that is kept.
pub proof fn lemma_rank_onto(lines: Seq<Entry>, target: int, n: int, p: int) -> (i: int)
    requires
        1 <= p <= rank(lines, target, n),
    ensures
        1 <= i <= n,
        needed(lines, target, i),
        rank(lines, target, i) == p,
    decreases n,
{
    if needed(lines, target, n) && rank(lines, target, n) == p {
        n
    } else {
        lemma_rank_onto(lines, target, n - 1, p)
    }
}

/// The premises that are kept stand at their ranks.
proof fn lemma_kept(lines: Seq<Entry>, target: int, n: int)
    requires
        0 <= n <= lines.len(),
    ensures
        kept_upto(lines, target, n).len() == rank(lines, target, n),
        forall|i: int|
            1 <= i <= n && #[trigger] needed(lines, target, i) ==> kept_upto(
                lines,
                target,
                n,
            )[rank(lines, target, i) - 1] == lines[i - 1].formula && 1 <= rank(lines, target, i)
                <= rank(lines, target, n),
    decreases n,
{
    if n > 0 {
        lemma_kept(lines, target, n - 1);
        assert forall|i: int|
            1 <= i <= n && #[trigger] needed(lines, target, i) implies kept_upto(
            lines,
            target,
            n,
        )[rank(lines, target, i) - 1] == lines[i - 1].formula && 1 <= rank(lines, target, i)
            <= rank(lines, target, n) by {
            lemma_rank(lines, target, n - 1, n);
        }
    }
}

/// What a line that is kept refers to is kept.
proof fn lemma_needed_refs(lines: Seq<Entry>, target: int, n: int, x: int)
    requires
        needed(lines, target, n),
        refs_at(lines, n).contains(x),
        x < n <= target,
    ensures
        needed(lines, target, x),
{
}

/// Where a line in a subproof is kept, so is the discharge of the subproof.
proof fn lemma_discharge_kept(g: Growth, premises: int, target: int, i: int, k: int)
    requires
        orderly(g, premises),
        1 <= i <= target <= g.lines.len(),
        forall|j: int| 0 <= j < g.spans.len() ==> !(#[trigger] g.spans[j]).holds(target),
        0 <= k < g.spans.len(),
        g.spans[k].end is Some,
        g.spans[k].holds(i),
        needed(g.lines, target, i),
    ensures
        needed(g.lines, target, g.spans[k].end->0 + 1),
        g.spans[k].end->0 + 1 <= target,
    decreases target - i,
{
    let d = draft_of(g, premises);
    let span = g.spans[k];
    let e = span.end->0;
    assert(i != target);
    let j = choose|j: int|
        i < j <= target && needed(g.lines, target, j) && (#[trigger] refs_at(g.lines, j)).contains(
            i,
        );
    assert(fault_at(d, j) is None);
    assert(d.rows[j - 1].reason == g.lines[j - 1].reason);
    if span.holds(j) {
        lemma_discharge_kept(g, premises, target, j, k);
    } else {
        match g.lines[j - 1].reason {
            Reason::Inference(rule, ls) => {
                let m = choose|m: int| 0 <= m < ls.len() && ls[m] == i;
                assert(citable(d, j, ls[m]));
                assert(d.spans[k].holds(i));
            },
            Reason::Equivalence(_, line) => {
                assert(citable(d, j, line));
                assert(d.spans[k].holds(i));
            },
            Reason::Discharge(t, s2, e2) => {
                assert(ends_subproof(d, j, t, s2, e2));
                let inner = Span { start: s2, end: Some(e2) };
                let m = choose|m: int| 0 <= m < d.spans.len() && d.spans[m] == inner;
                assert(g.spans[m] == inner);
                if m < k {
                    assert(apart(g.spans[m], g.spans[k]));
                    assert(g.spans[m].start < g.spans[k].start);
                } else if m > k {
                    assert(apart(g.spans[k], g.spans[m]));
                    assert(g.spans[k].start < g.spans[m].start);
                }
            },
            _ => {},
        }
    }
}

/// The lines that are kept.
pub open spec fn keeps(lines: Seq<Entry>, target: int) -> spec_fn(int) -> bool {
    |i: int| needed(lines, target, i)
}

/// The scope that a scope becomes, as far as lines up to `n` are written down.
pub open spec fn image(number: spec_fn(int) -> int, span: Span, n: int) -> Span {
    Span {
        start: number(span.start),
        end: match span.end {
            Some(end) if end + 1 <= n => Some(number(end)),
            _ => None,
        },
    }
}

/// Whether a scope is written down by line `n`.
pub open spec fn kept_by(keep: spec_fn(int) -> bool, span: Span, n: int) -> bool {
    span.start <= n && keep(span.start)
}

/// What the scopes become, as far as lines up to `n` are written down.
pub open spec fn images(
    keep: spec_fn(int) -> bool,
    number: spec_fn(int) -> int,
    spans: Seq<Span>,
    n: int,
) -> Seq<Span>
    decreases spans.len(),
{
    if spans.len() == 0 {
        seq![]
    } else {
        let before = images(keep, number, spans.drop_last(), n);
        if kept_by(keep, spans.last(), n) {
            before.push(image(number, spans.last(), n))
        } else {
            before
        }
    }
}

/// Each of these scopes is what a scope that is written down becomes, and the other way
/// round.
pub proof fn lemma_images(
    keep: spec_fn(int) -> bool,
    number: spec_fn(int) -> int,
    spans: Seq<Span>,
    n: int,
)
    ensures
        forall|j: int|
            0 <= j < images(keep, number, spans, n).len() ==> exists|i: int|
                0 <= i < spans.len() && kept_by(keep, #[trigger] spans[i], n)
                    && #[trigger] images(keep, number, spans, n)[j] == image(
                    number,
                    spans[i],
                    n,
                ),
        forall|i: int|
            0 <= i < spans.len() && kept_by(keep, #[trigger] spans[i], n) ==> images(
                keep,
                number,
                spans,
                n,
            ).contains(image(number, spans[i], n)),
    decreases spans.len(),
{
    if spans.len() > 0 {
        let t = spans.drop_last();
        let before = images(keep, number, t, n);
        let all = images(keep, number, spans, n);
        lemma_images(keep, number, t, n);
        assert forall|j: int| 0 <= j < all.len() implies exists|i: int|
            0 <= i < spans.len() && kept_by(keep, #[trigger] spans[i], n)
                && #[trigger] all[j] == image(number, spans[i], n) by {
            if j < before.len() {
                assert(all[j] == before[j]);
                let i = choose|i: int|
                    0 <= i < t.len() && kept_by(keep, #[trigger] t[i], n) && before[j]
                        == image(number, t[i], n);
                assert(spans[i] == t[i]);
            } else {
                assert(spans[spans.len() - 1] == spans.last());
            }
        }
        assert forall|i: int|
            0 <= i < spans.len() && kept_by(keep, #[trigger] spans[i],
                n,
            ) implies all.contains(image(number, spans[i], n)) by {
            if i < t.len() {
                assert(t[i] == spans[i]);
                let x = image(number, t[i], n);
                let j = choose|j: int| 0 <= j < before.len() && before[j] == x;
                assert(all[j] == x);
            } else {
                assert(all[all.len() - 1] == image(number, spans[i], n));
            }
        }
    }
}

/// A line at which no scope that is kept starts or is discharged changes nothing.
pub proof fn lemma_images_same(
    keep: spec_fn(int) -> bool,
    number: spec_fn(int) -> int,
    spans: Seq<Span>,
    n: int,
)
    requires
        forall|i: int|
            0 <= i < spans.len() && keep((#[trigger] spans[i]).start)
                ==> spans[i].start != n && (spans[i].end matches Some(end) ==> end + 1 != n),
    ensures
        images(keep, number, spans, n) == images(keep, number, spans, n - 1),
    decreases spans.len(),
{
    if spans.len() > 0 {
        let t = spans.drop_last();
        assert forall|i: int|
            0 <= i < t.len() && keep((#[trigger] t[i]).start) implies t[i].start
            != n && (t[i].end matches Some(end) ==> end + 1 != n) by {
            assert(t[i] == spans[i]);
        }
        lemma_images_same(keep, number, t, n);
        assert(spans[spans.len() - 1] == spans.last());
    }
}

/// An assumption opens one scope more.
pub proof fn lemma_images_open(
    g: Growth,
    premises: int,
    keep: spec_fn(int) -> bool,
    number: spec_fn(int) -> int,
    spans: Seq<Span>,
    k: int,
    n: int,
)
    requires
        orderly(g, premises),
        1 <= n <= g.lines.len(),
        spans.len() <= g.spans.len(),
        spans == g.spans.take(spans.len() as int),
        0 <= k < spans.len(),
        spans[k].start == n,
        keep(n),
        g.lines[n - 1].reason is Assumption,
    ensures
        images(keep, number, spans, n) == images(keep, number, spans, n - 1).push(
            Span { start: number(n), end: None },
        ),
    decreases spans.len(),
{
    let t = spans.drop_last();
    let last = spans.last();
    assert(t =~= g.spans.take(t.len() as int));
    assert forall|i: int| 0 <= i < spans.len() implies spans[i] == g.spans[i] by {
        assert(spans[i] == g.spans.take(spans.len() as int)[i]);
    }
    if k == spans.len() - 1 {
        assert forall|i: int|
            0 <= i < t.len() && keep((#[trigger] t[i]).start) implies t[i].start
            != n && (t[i].end matches Some(end) ==> end + 1 != n) by {
            assert(t[i] == g.spans[i]);
            assert(g.spans[i].start < g.spans[k].start);
        }
        lemma_images_same(keep, number, t, n);
        assert(last == g.spans[k]);
    } else {
        lemma_images_open(g, premises, keep, number, t, k, n);
        assert(last == g.spans[spans.len() - 1]);
        assert(g.spans[k].start < last.start);
    }
}

/// A discharge closes the innermost open scope.
pub proof fn lemma_images_close(
    g: Growth,
    premises: int,
    keep: spec_fn(int) -> bool,
    number: spec_fn(int) -> int,
    spans: Seq<Span>,
    k: int,
    n: int,
)
    requires
        orderly(g, premises),
        1 <= n <= g.lines.len(),
        spans.len() <= g.spans.len(),
        spans == g.spans.take(spans.len() as int),
        0 <= k < spans.len(),
        spans[k].end == Some(n - 1),
        keep(spans[k].start),
        g.lines[n - 1].reason is Discharge,
    ensures
        ({
            let before = images(keep, number, spans, n - 1);
            &&& images(keep, number, spans, n) == closed_at(before, number(n - 1))
            &&& last_open(before) matches Some(i) && 0 <= i < before.len() && before[i].start
                == number(spans[k].start)
        }),
    decreases spans.len(),
{
    let t = spans.drop_last();
    let last = spans.last();
    let before = images(keep, number, spans, n - 1);
    assert(t =~= g.spans.take(t.len() as int));
    assert forall|i: int| 0 <= i < spans.len() implies spans[i] == g.spans[i] by {
        assert(spans[i] == g.spans.take(spans.len() as int)[i]);
    }
    if k == spans.len() - 1 {
        assert forall|i: int|
            0 <= i < t.len() && keep((#[trigger] t[i]).start) implies t[i].start
            != n && (t[i].end matches Some(end) ==> end + 1 != n) by {
            assert(t[i] == g.spans[i]);
            assert(apart(g.spans[i], g.spans[k]));
        }
        lemma_images_same(keep, number, t, n);
        assert(last == g.spans[k]);
        assert(before.last().end is None);
        assert(images(keep, number, spans, n) =~= closed_at(
            before,
            number(n - 1),
        ));
    } else {
        lemma_images_close(g, premises, keep, number, t, k, n);
        assert(last == g.spans[spans.len() - 1]);
        assert(apart(g.spans[k], last));
        let inner = images(keep, number, t, n - 1);
        if kept_by(keep, last, n - 1) {
            let img = image(number, last, n - 1);
            assert(img.end is Some);
            assert(before.drop_last() =~= inner);
            assert(last_open(before) == last_open(inner));
            assert(images(keep, number, spans, n) =~= closed_at(
                before,
                number(n - 1),
            ));
        } else {
            assert(last.start != n);
        }
    }
}

/// Whether the lines that are kept, up to line `n`, stand at their ranks.
pub open spec fn rows_match(lines: Seq<Entry>, target: int, n: int, e: Draft) -> bool {
    &&& e.rows.len() == rank(lines, target, n)
    &&& forall|i: int|
        1 <= i <= n && #[trigger] needed(lines, target, i) ==> {
            let row = e.rows[rank(lines, target, i) - 1];
            &&& row.number == rank(lines, target, i)
            &&& row.formula == lines[i - 1].formula
            &&& row.reason == carried_reason(lines, target, lines[i - 1].reason)
        }
}

/// A justification with all lines by their ranks.
pub open spec fn carried_reason(lines: Seq<Entry>, target: int, reason: Reason) -> Reason {
    match reason {
        Reason::Discharge(t, s, x) => Reason::Discharge(
            t,
            rank(lines, target, s),
            rank(lines, target, x),
        ),
        _ => renumbered(reason, ranks(lines, target)),
    }
}

/// The proof as far as line `n` holds the lines that are kept, and their scopes.
pub proof fn lemma_rebuilt_upto(g: Growth, premises: int, target: int, n: int)
    requires
        orderly(g, premises),
        forall|i: int| 0 <= i < g.spans.len() ==> (#[trigger] g.spans[i]).end is Some,
        forall|i: int| 0 <= i < g.spans.len() ==> !(#[trigger] g.spans[i]).holds(target),
        premises <= n <= target <= g.lines.len(),
    ensures
        rows_match(g.lines, target, n, rebuilt_upto(g.lines, premises, target, n)),
        rebuilt_upto(g.lines, premises, target, n).spans == images(
            keeps(g.lines, target),
            ranks(g.lines, target),
            g.spans,
            n,
        ),
        rebuilt_upto(g.lines, premises, target, n).premises == kept_upto(
            g.lines,
            target,
            premises,
        ),
        rebuilt_upto(g.lines, premises, target, n).conclusion == g.lines[target - 1].formula,
    decreases n,
{
    let e = rebuilt_upto(g.lines, premises, target, n);
    if n == premises {
        lemma_kept(g.lines, target, n);
        assert(g.spans.take(g.spans.len() as int) =~= g.spans);
        lemma_images_none(
            g,
            premises,
            keeps(g.lines, target),
            ranks(g.lines, target),
            g.spans,
            n,
        );
        assert forall|i: int| 1 <= i <= n && #[trigger] needed(g.lines, target, i) implies {
            let row = e.rows[rank(g.lines, target, i) - 1];
            &&& row.number == rank(g.lines, target, i)
            &&& row.formula == g.lines[i - 1].formula
            &&& row.reason == carried_reason(g.lines, target, g.lines[i - 1].reason)
        } by {
            assert(g.lines[i - 1].reason is Premise);
        }
    } else {
        lemma_rebuilt_upto(g, premises, target, n - 1);
        let before = rebuilt_upto(g.lines, premises, target, n - 1);
        let d = draft_of(g, premises);
        assert(fault_at(d, n) is None);
        assert(d.rows[n - 1].reason == g.lines[n - 1].reason);
        assert(g.spans.take(g.spans.len() as int) =~= g.spans);
        if needed(g.lines, target, n) {
            lemma_rank(g.lines, target, n - 1, n);
            match g.lines[n - 1].reason {
                Reason::Assumption(t) => {
                    let k = choose|k: int|
                        0 <= k < d.spans.len() && (#[trigger] d.spans[k]).start == n
                            && d.spans[k].holds(n);
                    lemma_images_open(
                        g,
                        premises,
                        keeps(g.lines, target),
                        ranks(g.lines, target),
                        g.spans,
                        k,
                        n,
                    );
                },
                Reason::Discharge(t, s, x) => {
                    let span = Span { start: s, end: Some(x) };
                    let k = choose|k: int| 0 <= k < d.spans.len() && d.spans[k] == span;
                    assert(refs_at(g.lines, n)[0] == s);
                    lemma_needed_refs(g.lines, target, n, s);
                    lemma_images_close(
                        g,
                        premises,
                        keeps(g.lines, target),
                        ranks(g.lines, target),
                        g.spans,
                        k,
                        n,
                    );
                    assert(x == n - 1);
                },
                _ => {
                    lemma_no_scope_edge(g, premises, target, n);
                    lemma_images_same(keeps(g.lines, target), ranks(g.lines, target), g.spans, n);
                },
            }
            assert(e.rows == before.rows.push(e.rows.last()));
            assert forall|i: int| 1 <= i <= n && #[trigger] needed(g.lines, target, i) implies {
                let row = e.rows[rank(g.lines, target, i) - 1];
                &&& row.number == rank(g.lines, target, i)
                &&& row.formula == g.lines[i - 1].formula
                &&& row.reason == carried_reason(g.lines, target, g.lines[i - 1].reason)
            } by {
                if i < n {
                    lemma_rank(g.lines, target, 0, i - 1);
                    lemma_rank(g.lines, target, i - 1, i);
                    lemma_rank(g.lines, target, i, n - 1);
                    assert(e.rows[rank(g.lines, target, i) - 1] == before.rows[rank(
                        g.lines,
                        target,
                        i,
                    ) - 1]);
                }
            }
        } else {
            assert forall|i: int|
                0 <= i < g.spans.len() && needed(
                    g.lines,
                    target,
                    (#[trigger] g.spans[i]).start,
                ) implies g.spans[i].start != n && (g.spans[i].end matches Some(end) ==> end + 1
                != n) by {
                if g.spans[i].end->0 + 1 == n {
                    assert(g.spans[i].holds(g.spans[i].start));
                    lemma_discharge_kept(g, premises, target, g.spans[i].start, i);
                }
            }
            lemma_images_same(keeps(g.lines, target), ranks(g.lines, target), g.spans, n);
        }
    }
}

/// No scope is written down with the premises.
pub proof fn lemma_images_none(
    g: Growth,
    premises: int,
    keep: spec_fn(int) -> bool,
    number: spec_fn(int) -> int,
    spans: Seq<Span>,
    n: int,
)
    requires
        orderly(g, premises),
        spans.len() <= g.spans.len(),
        spans == g.spans.take(spans.len() as int),
        n <= premises,
    ensures
        images(keep, number, spans, n) == Seq::<Span>::empty(),
    decreases spans.len(),
{
    if spans.len() > 0 {
        let t = spans.drop_last();
        assert(t =~= g.spans.take(t.len() as int));
        lemma_images_none(g, premises, keep, number, t, n);
        assert(spans.last() == g.spans[spans.len() - 1]);
    }
}

/// At a line that is neither an assumption nor a discharge no scope starts or is
/// discharged.
proof fn lemma_no_scope_edge(g: Growth, premises: int, target: int, n: int)
    requires
        orderly(g, premises),
        1 <= n <= g.lines.len(),
        !(g.lines[n - 1].reason is Assumption),
        !(g.lines[n - 1].reason is Discharge),
    ensures
        forall|i: int|
            0 <= i < g.spans.len() && needed(g.lines, target, (#[trigger] g.spans[i]).start)
                ==> g.spans[i].start != n && (g.spans[i].end matches Some(end) ==> end + 1 != n),
{
    assert forall|i: int|
        0 <= i < g.spans.len() && needed(
            g.lines,
            target,
            (#[trigger] g.spans[i]).start,
        ) implies g.spans[i].start != n && (g.spans[i].end matches Some(end) ==> end + 1 != n) by {
        assert(g.lines[g.spans[i].start - 1].reason is Assumption);
        match g.spans[i].end {
            Some(end) => {
                assert(discharges(g.lines[end], g.spans[i].start, end));
            },
            None => {},
        }
    }
}

/// From where a scope of the rebuilt proof comes.
spec fn origin(lines: Seq<Entry>, target: int, spans: Seq<Span>, j: int) -> int {
    choose|i: int|
        0 <= i < spans.len() && kept_by(keeps(lines, target), #[trigger] spans[i], target)
            && images(keeps(lines, target), ranks(lines, target), spans, target)[j] == image(
            ranks(lines, target),
            spans[i],
            target,
        )
}

/// The proof that is rebuilt from a well-grown derivation is justified throughout and
/// reaches its conclusion: a line outside all subproofs, in a derivation in which no
/// subproof is open.
pub proof fn law_rebuilt_verified(g: Growth, premises: int, target: int)
    requires
        orderly(g, premises),
        forall|i: int| 0 <= i < g.spans.len() ==> (#[trigger] g.spans[i]).end is Some,
        premises < target <= g.lines.len(),
        depth_at(g.spans, target) == 0,
    ensures
        verified(rebuilt(g.lines, premises, target)),
        reaches_conclusion(rebuilt(g.lines, premises, target)),
        rebuilt(g.lines, premises, target).rows.len() - rebuilt(
            g.lines,
            premises,
            target,
        ).premises.len() == rank(g.lines, target, target) - rank(g.lines, target, premises),
{
    let lines = g.lines;
    let d = draft_of(g, premises);
    let e = rebuilt(lines, premises, target);
    lemma_depth_zero(g.spans, target);
    lemma_rebuilt_upto(g, premises, target, target);
    lemma_kept(lines, target, premises);
    lemma_images(keeps(lines, target), ranks(lines, target), g.spans, target);
    let number = ranks(lines, target);
    let back = |j: int| origin(lines, target, g.spans, j);
    assert forall|p: int| 1 <= p <= e.rows.len() implies #[trigger] fault_at(e, p) is None by {
        let n = lemma_rank_onto(lines, target, target, p);
        assert(fault_at(d, n) is None);
        lemma_rebuilt_carried(g, premises, target, n);
        lemma_carried(d, e, number, back, n);
    }
    assert(needed(lines, target, target));
    lemma_rank(lines, target, target - 1, target);
    lemma_rank(lines, target, 0, target - 1);
    assert(e.rows[rank(lines, target, target) - 1].formula == e.conclusion);
    assert forall|j: int| 0 <= j < e.spans.len() implies !(#[trigger] e.spans[j]).holds(
        rank(lines, target, target),
    ) by {
        lemma_origin(g, premises, target, j, target);
    }
    lemma_depth_zero(e.spans, rank(lines, target, target));
    assert forall|j: int| 0 <= j < e.spans.len() implies (#[trigger] e.spans[j]).end is Some by {
        lemma_origin(g, premises, target, j, target);
    }
    lemma_last_open(e.spans);
}

/// The scope that a scope of the rebuilt proof comes from holds the same lines.
proof fn lemma_origin(g: Growth, premises: int, target: int, j: int, x: int)
    requires
        orderly(g, premises),
        forall|i: int| 0 <= i < g.spans.len() ==> (#[trigger] g.spans[i]).end is Some,
        forall|i: int| 0 <= i < g.spans.len() ==> !(#[trigger] g.spans[i]).holds(target),
        premises < target <= g.lines.len(),
        0 <= j < images(keeps(g.lines, target), ranks(g.lines, target), g.spans, target).len(),
        1 <= x <= target,
        needed(g.lines, target, x),
    ensures
        ({
            let i = origin(g.lines, target, g.spans, j);
            let img = images(keeps(g.lines, target), ranks(g.lines, target), g.spans, target)[j];
            &&& 0 <= i < g.spans.len()
            &&& needed(g.lines, target, g.spans[i].start)
            &&& g.spans[i].end matches Some(end) && needed(g.lines, target, end) && img == (Span {
                start: rank(g.lines, target, g.spans[i].start),
                end: Some(rank(g.lines, target, end)),
            })
            &&& img.holds(rank(g.lines, target, x)) <==> g.spans[i].holds(x)
        }),
{
    let lines = g.lines;
    lemma_images(keeps(lines, target), ranks(lines, target), g.spans, target);
    let i = origin(lines, target, g.spans, j);
    let img = images(keeps(lines, target), ranks(lines, target), g.spans, target)[j];
    assert(0 <= i < g.spans.len() && kept_by(keeps(lines, target), g.spans[i], target) && img
        == image(ranks(lines, target), g.spans[i], target));
    let s = g.spans[i].start;
    let end = g.spans[i].end->0;
    assert(g.spans[i].holds(s));
    lemma_discharge_kept(g, premises, target, s, i);
    assert(discharges(lines[end], s, end));
    assert(refs_at(lines, end + 1)[1] == end);
    lemma_needed_refs(lines, target, end + 1, end);
    if x < s {
        lemma_rank(lines, target, x, s);
    } else {
        lemma_rank(lines, target, s, x);
    }
    if x <= end {
        lemma_rank(lines, target, x, end);
    } else {
        lemma_rank(lines, target, end, x);
    }
}

/// Every line that is kept is carried over to the rebuilt proof.
#[verifier::rlimit(60)]
proof fn lemma_rebuilt_carried(g: Growth, premises: int, target: int, n: int)
    requires
        orderly(g, premises),
        forall|i: int| 0 <= i < g.spans.len() ==> (#[trigger] g.spans[i]).end is Some,
        forall|i: int| 0 <= i < g.spans.len() ==> !(#[trigger] g.spans[i]).holds(target),
        premises < target <= g.lines.len(),
        1 <= n <= target,
        needed(g.lines, target, n),
    ensures
        carried(
            draft_of(g, premises),
            rebuilt(g.lines, premises, target),
            ranks(g.lines, target),
            |j: int| origin(g.lines, target, g.spans, j),
            n,
        ),
{
    let lines = g.lines;
    let d = draft_of(g, premises);
    let e = rebuilt(lines, premises, target);
    let number = ranks(lines, target);
    let back = |j: int| origin(lines, target, g.spans, j);
    lemma_rebuilt_upto(g, premises, target, target);
    lemma_kept(lines, target, premises);
    lemma_images(keeps(lines, target), ranks(lines, target), g.spans, target);
    assert(fault_at(d, n) is None);
    assert(d.rows[n - 1].reason == lines[n - 1].reason);
    lemma_rank(lines, target, 0, n - 1);
    lemma_rank(lines, target, n - 1, n);
    lemma_rank(lines, target, n, target);
    assert forall|x: int| #[trigger] concerns(d, n, x) implies 1 <= x <= n && needed(
        lines,
        target,
        x,
    ) by {
        if x != n {
            lemma_refers_back(d, n, x);
            assert(refs_at(lines, n).contains(x));
            lemma_needed_refs(lines, target, n, x);
        }
    }
    assert forall|x: int| #[trigger] referenced(d.rows[n - 1].reason).contains(x) implies 1
        <= number(x) < number(n) && line_formula(e, number(x)) == line_formula(d, x) by {
        assert(concerns(d, n, x));
        lemma_refers_back(d, n, x);
        lemma_rank(lines, target, 0, x - 1);
        lemma_rank(lines, target, x - 1, x);
        lemma_rank(lines, target, x, n);
    }
    assert forall|j: int| 0 <= j < e.spans.len() implies 0 <= #[trigger] back(j)
        < d.spans.len() by {
        lemma_origin(g, premises, target, j, n);
    }
    assert forall|j: int, x: int|
        0 <= j < e.spans.len() && #[trigger] concerns(d, n, x) implies ((
    #[trigger] e.spans[j]).holds(number(x)) <==> d.spans[back(j)].holds(x)) by {
        lemma_origin(g, premises, target, j, x);
    }
    assert forall|j: int| 0 <= j < e.spans.len() implies discharged_span_carried(
        d.rows[n - 1].reason,
        d.spans[back(j)],
        #[trigger] e.spans[j],
        number,
    ) by {
        lemma_origin(g, premises, target, j, n);
    }
    match lines[n - 1].reason {
        Reason::Premise => {
            assert(n <= premises);
            lemma_rank(lines, target, n, premises);
            assert(e.premises[number(n) - 1] == lines[n - 1].formula);
        },
        Reason::Assumption(t) => {
            let k = choose|k: int|
                0 <= k < d.spans.len() && (#[trigger] d.spans[k]).start == n && d.spans[k].holds(n);
            let img = image(ranks(lines, target), g.spans[k], target);
            assert(g.spans[k] == d.spans[k]);
            assert(kept_by(keeps(lines, target), g.spans[k], target));
            let j = choose|j: int| 0 <= j < e.spans.len() && e.spans[j] == img;
            lemma_discharge_kept(g, premises, target, n, k);
            lemma_rank(lines, target, n, g.spans[k].end->0);
            assert(e.spans[j].start == number(n) && e.spans[j].holds(number(n)));
            assert(opens_scope(e, number(n)));
        },
        Reason::Discharge(t, s, x) => {
            assert(ends_subproof(d, n, t, s, x));
            let span = Span { start: s, end: Some(x) };
            let k = choose|k: int| 0 <= k < d.spans.len() && d.spans[k] == span;
            assert(g.spans[k] == span);
            let refs = referenced(d.rows[n - 1].reason);
            assert(refs[0] == s && refs[1] == x);
            assert(concerns(d, n, s) && concerns(d, n, x));
            assert(kept_by(keeps(lines, target), g.spans[k], target));
            assert(e.spans.contains(image(ranks(lines, target), g.spans[k], target)));
            lemma_rank(lines, target, s, x);
            assert(x == n - 1);
            assert(lines[s - 1].reason == Reason::Assumption(t)) by {
                assert(d.rows[s - 1].reason == lines[s - 1].reason);
            }
        },
        _ => {},
    }
}

/// A proof as a derivation.
pub open spec fn regrown(d: Draft) -> Growth {
    Growth {
        lines: Seq::new(
            d.rows.len(),
            |i: int| Entry { formula: d.rows[i].formula, reason: d.rows[i].reason },
        ),
        used: Seq::new(d.rows.len(), |i: int| 0int),
        spans: d.spans,
        held: seq![],
    }
}

/// Scopes stay in order as they are written down.
proof fn lemma_images_order(
    keep: spec_fn(int) -> bool,
    number: spec_fn(int) -> int,
    spans: Seq<Span>,
    n: int,
    a: int,
    b: int,
) -> (r: (int, int))
    requires
        0 <= a < b < images(keep, number, spans, n).len(),
    ensures
        0 <= r.0 < r.1 < spans.len(),
        kept_by(keep, spans[r.0], n),
        kept_by(keep, spans[r.1], n),
        images(keep, number, spans, n)[a] == image(number, spans[r.0], n),
        images(keep, number, spans, n)[b] == image(number, spans[r.1], n),
    decreases spans.len(),
{
    let t = spans.drop_last();
    let before = images(keep, number, t, n);
    let all = images(keep, number, spans, n);
    if b < before.len() {
        assert(all[a] == before[a] && all[b] == before[b]);
        lemma_images_order(keep, number, t, n, a, b)
    } else {
        assert(all[a] == before[a]);
        lemma_images(keep, number, t, n);
        let i = choose|i: int|
            0 <= i < t.len() && kept_by(keep, #[trigger] t[i], n) && before[a] == image(
                number,
                t[i],
                n,
            );
        assert(spans[i] == t[i]);
        (i, spans.len() - 1)
    }
}

/// Whether a proof is one that costumes can be put around: its lines are justified and
/// begin with the premises, its subproofs nest and are all closed, and its last line,
/// outside all of them, is the conclusion.
pub open spec fn finished(d: Draft) -> bool {
    &&& orderly(regrown(d), d.premises.len() as int)
    &&& forall|i: int|
        0 <= i < d.premises.len() ==> (#[trigger] d.rows[i]).formula == d.premises[i]
    &&& forall|i: int| 0 <= i < d.spans.len() ==> (#[trigger] d.spans[i]).end is Some
    &&& d.premises.len() < d.rows.len()
    &&& d.rows.last().formula == d.conclusion
    &&& forall|i: int|
        0 <= i < d.spans.len() ==> !(#[trigger] d.spans[i]).holds(d.rows.len() as int)
}

/// A finished proof is justified throughout.
pub proof fn lemma_finished_verified(d: Draft)
    requires
        finished(d),
    ensures
        verified(d),
{
    let g = regrown(d);
    let p = d.premises.len() as int;
    let e = draft_of(g, p);
    assert(e.premises =~= d.premises) by {
        assert forall|i: int| 0 <= i < p implies e.premises[i] == d.premises[i] by {
            assert(d.rows[i].formula == d.premises[i]);
        }
    }
    assert forall|n: int| 1 <= n <= d.rows.len() implies #[trigger] fault_at(d, n) is None by {
        assert(fault_at(e, n) is None);
        lemma_same_faults(e, d, n);
    }
}

/// Whether a line is justified rests on premises, formulas, reasons and scopes alone.
proof fn lemma_same_faults(a: Draft, b: Draft, n: int)
    requires
        a.premises == b.premises,
        a.spans == b.spans,
        a.rows.len() == b.rows.len(),
        forall|i: int|
            0 <= i < a.rows.len() ==> (#[trigger] a.rows[i]).formula == b.rows[i].formula
                && a.rows[i].reason == b.rows[i].reason,
        1 <= n <= a.rows.len(),
        fault_at(a, n) is None,
    ensures
        fault_at(b, n) is None,
{
    assert(a.rows[n - 1].reason == b.rows[n - 1].reason);
    match a.rows[n - 1].reason {
        Reason::Inference(rule, lines) => {
            assert forall|i: int| 0 <= i < lines.len() implies citable(
                b,
                n,
                #[trigger] lines[i],
            ) by {
                assert(citable(a, n, lines[i]));
            }
            assert(line_formulas(b, lines) =~= line_formulas(a, lines)) by {
                assert forall|i: int| 0 <= i < lines.len() implies line_formulas(b, lines)[i]
                    == line_formulas(a, lines)[i] by {
                    assert(citable(a, n, lines[i]));
                    assert(a.rows[lines[i] - 1].formula == b.rows[lines[i] - 1].formula);
                }
            }
        },
        Reason::Equivalence(_, line) => {
            assert(a.rows[line - 1].formula == b.rows[line - 1].formula);
        },
        Reason::Assumption(_) => {
            let i = choose|i: int|
                0 <= i < a.spans.len() && (#[trigger] a.spans[i]).start == n && a.spans[i].holds(n);
            assert(b.spans[i].start == n);
        },
        Reason::Discharge(t, start, end) => {
            assert(ends_subproof(a, n, t, start, end));
            assert(a.rows[start - 1].formula == b.rows[start - 1].formula);
            assert(a.rows[end - 1].formula == b.rows[end - 1].formula);
            assert(ends_subproof(b, n, t, start, end));
        },
        _ => {},
    }
}

/// A rebuilt proof is finished.
pub proof fn law_rebuilt_finished(g: Growth, premises: int, target: int)
    requires
        orderly(g, premises),
        forall|i: int| 0 <= i < g.spans.len() ==> (#[trigger] g.spans[i]).end is Some,
        premises < target <= g.lines.len(),
        depth_at(g.spans, target) == 0,
    ensures
        finished(rebuilt(g.lines, premises, target)),
{
    let lines = g.lines;
    let e = rebuilt(lines, premises, target);
    let p = e.premises.len() as int;
    let h = regrown(e);
    law_rebuilt_verified(g, premises, target);
    lemma_depth_zero(g.spans, target);
    lemma_rebuilt_upto(g, premises, target, target);
    lemma_rebuilt_upto(g, premises, target, premises);
    lemma_kept(lines, target, premises);
    lemma_rank(lines, target, premises, target);
    assert(needed(lines, target, target));
    assert forall|i: int| 0 <= i < p implies (#[trigger] e.rows[i]).formula == e.premises[i] by {
        let n = lemma_rank_onto(lines, target, premises, i + 1);
    }
    let d = draft_of(h, p);
    assert(d.premises =~= e.premises) by {
        assert forall|i: int| 0 <= i < p implies d.premises[i] == e.premises[i] by {
            assert(e.rows[i].formula == e.premises[i]);
        }
    }
    assert forall|n: int| 1 <= n <= h.lines.len() implies #[trigger] fault_at(d, n) is None by {
        assert(fault_at(e, n) is None);
        lemma_same_faults(e, d, n);
    }
    assert forall|q: int| 0 <= q < h.lines.len() implies ((#[trigger] h.lines[q]).reason is Premise
        <==> q < p) by {
        let n = lemma_rank_onto(lines, target, target, q + 1);
        assert(lines[n - 1].reason is Premise <==> n - 1 < premises);
        if n <= premises {
            lemma_rank(lines, target, n, premises);
        } else {
            lemma_rank(lines, target, premises, n);
        }
    }
    assert forall|j: int| 0 <= j < e.spans.len() implies scope_sound(
        h,
        p,
        #[trigger] e.spans[j],
    ) by {
        lemma_scope_sound(g, premises, target, j);
    }
    assert(nested(h, p)) by {
        assert forall|a: int, b: int| 0 <= a < b < h.spans.len() implies (
        #[trigger] h.spans[a]).start < (#[trigger] h.spans[b]).start && apart(
            h.spans[a],
            h.spans[b],
        ) by {
            lemma_scopes_apart(g, premises, target, a, b);
        }
        assert forall|i: int|
            0 <= i < h.spans.len() implies p < (#[trigger] h.spans[i]).start <= h.lines.len()
            && h.lines[h.spans[i].start - 1].reason is Assumption by {
            assert(scope_sound(h, p, e.spans[i]));
        }
        assert forall|i: int| 0 <= i < h.spans.len() implies ((
        #[trigger] h.spans[i]).end matches Some(end) ==> h.spans[i].start <= end < h.lines.len()
            && discharges(h.lines[end], h.spans[i].start, end)) by {
            assert(scope_sound(h, p, e.spans[i]));
        }
    }
    assert(steady(h)) by {
        assert forall|i: int| 0 <= i < h.spans.len() implies 1 <= (#[trigger] h.spans[i]).start
            <= h.lines.len() by {
            assert(scope_sound(h, p, e.spans[i]));
        }
    }
    assert forall|j: int| 0 <= j < e.spans.len() implies (#[trigger] e.spans[j]).end is Some
        && !e.spans[j].holds(e.rows.len() as int) by {
        lemma_origin(g, premises, target, j, target);
    }
    assert(e.rows[rank(lines, target, target) - 1].formula == e.conclusion);
}

/// A scope of which a line is kept is written down.
proof fn lemma_image_kept(g: Growth, premises: int, target: int, i: int, m: int)
    requires
        orderly(g, premises),
        forall|k: int| 0 <= k < g.spans.len() ==> (#[trigger] g.spans[k]).end is Some,
        forall|k: int| 0 <= k < g.spans.len() ==> !(#[trigger] g.spans[k]).holds(target),
        premises < target <= g.lines.len(),
        0 <= i < g.spans.len(),
        1 <= m <= target,
        needed(g.lines, target, m),
        g.spans[i].holds(m),
    ensures
        exists|j: int|
            0 <= j < images(
                keeps(g.lines, target),
                ranks(g.lines, target),
                g.spans,
                target,
            ).len() && origin(g.lines, target, g.spans, j) == i,
{
    let lines = g.lines;
    let all = images(keeps(lines, target), ranks(lines, target), g.spans, target);
    let s = g.spans[i].start;
    let end = g.spans[i].end->0;
    lemma_discharge_kept(g, premises, target, m, i);
    assert(discharges(lines[end], s, end));
    assert(refs_at(lines, end + 1)[0] == s);
    lemma_needed_refs(lines, target, end + 1, s);
    lemma_images(keeps(lines, target), ranks(lines, target), g.spans, target);
    assert(kept_by(keeps(lines, target), g.spans[i], target));
    let img = image(ranks(lines, target), g.spans[i], target);
    let j = choose|j: int| 0 <= j < all.len() && all[j] == img;
    lemma_origin(g, premises, target, j, m);
    let k = origin(lines, target, g.spans, j);
    assert(needed(lines, target, s));
    if k < i {
        assert(g.spans[k].start < g.spans[i].start);
        lemma_rank(lines, target, g.spans[k].start, s);
    } else if i < k {
        assert(g.spans[i].start < g.spans[k].start);
        lemma_rank(lines, target, s, g.spans[k].start);
    }
}

/// What a line of the rebuilt proof may cite, it could cite in the derivation.
pub proof fn lemma_access_rebuilt(g: Growth, premises: int, target: int, n: int, m: int)
    requires
        orderly(g, premises),
        forall|k: int| 0 <= k < g.spans.len() ==> (#[trigger] g.spans[k]).end is Some,
        forall|k: int| 0 <= k < g.spans.len() ==> !(#[trigger] g.spans[k]).holds(target),
        premises < target <= g.lines.len(),
        1 <= n <= target,
        1 <= m <= target,
        needed(g.lines, target, n),
        needed(g.lines, target, m),
        accessible(
            rebuilt(g.lines, premises, target).spans,
            rank(g.lines, target, n),
            rank(g.lines, target, m),
        ),
    ensures
        accessible(g.spans, n, m),
{
    let lines = g.lines;
    let e = rebuilt(lines, premises, target);
    lemma_rebuilt_upto(g, premises, target, target);
    assert(m < n) by {
        if n <= m {
            lemma_rank(lines, target, n, m);
        }
    }
    assert forall|i: int| 0 <= i < g.spans.len() && (#[trigger] g.spans[i]).holds(
        m,
    ) implies g.spans[i].holds(n) by {
        lemma_image_kept(g, premises, target, i, m);
        let j = choose|j: int|
            0 <= j < e.spans.len() && origin(lines, target, g.spans, j) == i;
        lemma_origin(g, premises, target, j, m);
        lemma_origin(g, premises, target, j, n);
        assert(e.spans[j].holds(rank(lines, target, m)));
    }
}

/// No assumption and no discharge of a rebuilt proof repeats a formula that it may cite.
pub proof fn lemma_rebuilt_unrepeated(g: Growth, premises: int, target: int)
    requires
        well_grown(g, premises),
        forall|k: int| 0 <= k < g.spans.len() ==> (#[trigger] g.spans[k]).end is Some,
        forall|k: int| 0 <= k < g.spans.len() ==> !(#[trigger] g.spans[k]).holds(target),
        premises < target <= g.lines.len(),
    ensures
        unrepeated(regrown(rebuilt(g.lines, premises, target))),
{
    let lines = g.lines;
    let e = rebuilt(lines, premises, target);
    let h = regrown(e);
    lemma_rebuilt_upto(g, premises, target, target);
    assert forall|p: int, q: int|
        1 <= p <= h.lines.len() && 1 <= q && at_edge(h.lines[p - 1].reason)
            && #[trigger] accessible(h.spans, p, q) implies h.lines[q - 1].formula
        != h.lines[p - 1].formula by {
        let n = lemma_rank_onto(lines, target, target, p);
        let m = lemma_rank_onto(lines, target, target, q);
        lemma_access_rebuilt(g, premises, target, n, m);
        assert(at_edge(lines[n - 1].reason));
        assert(lines[m - 1].formula != lines[n - 1].formula);
    }
}

/// Whether a scope starts with an assumption after the premises and ends right before
/// its discharge.
spec fn scope_sound(h: Growth, premises: int, span: Span) -> bool {
    &&& premises < span.start <= h.lines.len()
    &&& h.lines[span.start - 1].reason is Assumption
    &&& span.end matches Some(end) && span.start <= end < h.lines.len() && discharges(
        h.lines[end],
        span.start,
        end,
    )
}

/// Every scope of a rebuilt proof is sound.
proof fn lemma_scope_sound(g: Growth, premises: int, target: int, j: int)
    requires
        orderly(g, premises),
        forall|i: int| 0 <= i < g.spans.len() ==> (#[trigger] g.spans[i]).end is Some,
        forall|i: int| 0 <= i < g.spans.len() ==> !(#[trigger] g.spans[i]).holds(target),
        premises < target <= g.lines.len(),
        0 <= j < rebuilt(g.lines, premises, target).spans.len(),
    ensures
        scope_sound(
            regrown(rebuilt(g.lines, premises, target)),
            rank(g.lines, target, premises),
            rebuilt(g.lines, premises, target).spans[j],
        ),
{
    let lines = g.lines;
    let e = rebuilt(lines, premises, target);
    lemma_rebuilt_upto(g, premises, target, target);
    assert(needed(lines, target, target));
    lemma_origin(g, premises, target, j, target);
    let i = origin(lines, target, g.spans, j);
    let s = g.spans[i].start;
    let end = g.spans[i].end->0;
    assert(g.spans[i].holds(s));
    lemma_discharge_kept(g, premises, target, s, i);
    lemma_rank(lines, target, premises, s);
    lemma_rank(lines, target, s, end);
    lemma_rank(lines, target, end, end + 1);
    lemma_rank(lines, target, end + 1, target);
    lemma_rank(lines, target, 0, premises);
    assert(lines[s - 1].reason is Assumption);
    assert(discharges(lines[end], s, end));
}

/// The scopes of a rebuilt proof start one after the other and nest.
proof fn lemma_scopes_apart(g: Growth, premises: int, target: int, a: int, b: int)
    requires
        orderly(g, premises),
        forall|i: int| 0 <= i < g.spans.len() ==> (#[trigger] g.spans[i]).end is Some,
        forall|i: int| 0 <= i < g.spans.len() ==> !(#[trigger] g.spans[i]).holds(target),
        premises < target <= g.lines.len(),
        0 <= a < b < rebuilt(g.lines, premises, target).spans.len(),
    ensures
        rebuilt(g.lines, premises, target).spans[a].start < rebuilt(
            g.lines,
            premises,
            target,
        ).spans[b].start,
        apart(
            rebuilt(g.lines, premises, target).spans[a],
            rebuilt(g.lines, premises, target).spans[b],
        ),
{
    let lines = g.lines;
    lemma_rebuilt_upto(g, premises, target, target);
    let (i, j) = lemma_images_order(
        keeps(lines, target),
        ranks(lines, target),
        g.spans,
        target,
        a,
        b,
    );
    let s1 = g.spans[i].start;
    let s2 = g.spans[j].start;
    let e1 = g.spans[i].end->0;
    let e2 = g.spans[j].end->0;
    assert(s1 < s2);
    assert(apart(g.spans[i], g.spans[j]));
    lemma_rank(lines, target, s1, s2);
    assert(g.spans[i].holds(s1) && g.spans[j].holds(s2));
    lemma_discharge_kept(g, premises, target, s1, i);
    lemma_discharge_kept(g, premises, target, s2, j);
    lemma_rank(lines, target, e1, e1 + 1);
    lemma_rank(lines, target, e2, e2 + 1);
    if s2 > e1 + 1 {
        lemma_rank(lines, target, e1 + 1, s2);
    } else {
        lemma_rank(lines, target, e2 + 1, e1);
    }
}

} // verus!
