//! What costumes keep: a proof without dead lines has none in costume either, and where no
//! subproof assumes or proves what is in reach already, none does so in costume.

use vstd::prelude::*;

use super::cone::{needed, refs_at};
use super::costume::{
    body, dressed, looks, prologue, redone, replayed_upto, shifted, undone, Costume, Disguise,
};
use super::dressing::{
    every, lemma_prologue, lemma_replayed, moved_reason, reversible, sewn,
};
use super::rebuilding::{finished, image, images, kept_by, lemma_images, regrown};
use super::soundness::{at_edge, unrepeated};
use crate::models::formula::Prop;
use crate::models::proofs::{drafted, referenced, with_line, Draft, Reason};
use crate::models::rules::equivalence::replace_all;
use crate::models::scopes::accessible;

verus! {

/// Whether line `target` of a proof depends on line `n`.
pub open spec fn depends(d: Draft, target: int, n: int) -> bool {
    needed(regrown(d).lines, target, n)
}

/// What a line refers to that is depended on is depended on.
proof fn lemma_depends_step(d: Draft, target: int, j: int, n: int)
    requires
        1 <= n < j <= target <= d.rows.len(),
        depends(d, target, j),
        referenced(d.rows[j - 1].reason).contains(n),
    ensures
        depends(d, target, n),
{
    assert(refs_at(regrown(d).lines, j) == referenced(d.rows[j - 1].reason));
}

/// Dependence is passed on.
proof fn lemma_depends_trans(d: Draft, target: int, a: int, b: int)
    requires
        1 <= b <= a <= target <= d.rows.len(),
        depends(d, target, a),
        depends(d, a, b),
    ensures
        depends(d, target, b),
    decreases a - b,
{
    if b != a {
        let lines = regrown(d).lines;
        let j = choose|j: int|
            b < j <= a && needed(lines, a, j) && (#[trigger] refs_at(lines, j)).contains(b);
        lemma_depends_trans(d, target, a, j);
        lemma_depends_step(d, target, j, b);
    }
}

/// Whether a proof begins with the lines of another.
spec fn begins(e: Draft, d: Draft) -> bool {
    d.rows.len() <= e.rows.len() && e.rows.take(d.rows.len() as int) == d.rows
}

/// Dependence rests on the lines up to the one that depends.
proof fn lemma_depends_kept(d: Draft, e: Draft, target: int, n: int)
    requires
        begins(e, d),
        1 <= n <= target <= d.rows.len(),
        depends(d, target, n),
    ensures
        depends(e, target, n),
    decreases target - n,
{
    if n != target {
        let lines = regrown(d).lines;
        let j = choose|j: int|
            n < j <= target && needed(lines, target, j) && (#[trigger] refs_at(lines, j)).contains(
                n,
            );
        lemma_depends_kept(d, e, target, j);
        assert(e.rows.take(d.rows.len() as int)[j - 1] == d.rows[j - 1]);
        lemma_depends_step(e, target, j, n);
    }
}

/// Where undoing a costume ends depends on all its lines, and on where it began.
proof fn lemma_undone_depends(d: Draft, trace: Seq<Disguise>, k: int, current: Prop, line: int)
    requires
        0 <= k <= trace.len(),
        1 <= line <= d.rows.len(),
    ensures
        ({
            let (e, end) = undone(d, trace, k, current, line);
            &&& begins(e, d)
            &&& line <= end <= e.rows.len()
            &&& e.rows.len() == d.rows.len() || end == e.rows.len()
            &&& depends(e, end, line)
            &&& forall|r: int|
                d.rows.len() < r <= e.rows.len() ==> #[trigger] depends(e, end, r)
        }),
    decreases k,
{
    let (e, end) = undone(d, trace, k, current, line);
    if k == 0 {
        assert(d.rows.take(d.rows.len() as int) =~= d.rows);
    } else {
        let x = trace[k - 1];
        let next = replace_all(current, x.after, x.before);
        let d1 = with_line(d, next, Reason::Equivalence(x.rule, line));
        let m = d1.rows.len() as int;
        lemma_undone_depends(d1, trace, k - 1, next, m);
        assert(e.rows.take(m)[m - 1] == d1.rows[m - 1]);
        assert(referenced(e.rows[m - 1].reason)[0] == line);
        lemma_depends_step(e, end, m, line);
        assert forall|r: int| d.rows.len() < r <= e.rows.len() implies #[trigger] depends(
            e,
            end,
            r,
        ) by {
            if r == m {
                assert(depends(e, end, m));
            }
        }
        assert(e.rows.take(d.rows.len() as int) =~= d.rows) by {
            assert forall|i: int| 0 <= i < d.rows.len() implies e.rows[i] == d.rows[i] by {
                assert(e.rows.take(m)[i] == d1.rows[i]);
            }
        }
    }
}

/// Whether line `r` is one that the end of some costume depends on.
spec fn worn_by(e: Draft, ends: Seq<int>, r: int) -> bool {
    exists|i: int| 0 <= i < ends.len() && r <= #[trigger] ends[i] && depends(e, ends[i], r)
}

/// The ends of the costumes depend on all lines of the prologue.
proof fn lemma_prologue_depends(costumes: Seq<Costume>, conclusion: Prop, n: int)
    requires
        0 <= n <= costumes.len(),
    ensures
        ({
            let (e, ends) = prologue(drafted(looks(costumes), conclusion), costumes, n);
            &&& costumes.len() <= e.rows.len()
            &&& ends.len() == n
            &&& forall|i: int| 0 <= i < n ==> 1 <= #[trigger] ends[i] <= e.rows.len()
            &&& forall|r: int|
                1 <= r <= n || costumes.len() < r <= e.rows.len() ==> #[trigger] worn_by(
                    e,
                    ends,
                    r,
                )
        }),
    decreases n,
{
    if n > 0 {
        lemma_prologue_depends(costumes, conclusion, n - 1);
        let (d1, ends1) = prologue(drafted(looks(costumes), conclusion), costumes, n - 1);
        let c = costumes[n - 1];
        lemma_undone_depends(d1, c.trace, c.trace.len() as int, c.formula, n);
        let (e, line) = undone(d1, c.trace, c.trace.len() as int, c.formula, n);
        let ends = ends1.push(line);
        assert forall|i: int| 0 <= i < n implies 1 <= #[trigger] ends[i] <= e.rows.len() by {
            if i < n - 1 {
                assert(ends[i] == ends1[i]);
            }
        }
        assert forall|r: int|
            1 <= r <= n || costumes.len() < r <= e.rows.len() implies #[trigger] worn_by(
            e,
            ends,
            r,
        ) by {
            if r == n || r > d1.rows.len() {
                assert(ends[n - 1] == line);
                assert(depends(e, line, r));
            } else {
                assert(worn_by(d1, ends1, r));
                let i = choose|i: int|
                    0 <= i < ends1.len() && r <= #[trigger] ends1[i] && depends(d1, ends1[i], r);
                lemma_depends_kept(d1, e, ends1[i], r);
                assert(ends[i] == ends1[i]);
            }
        }
    }
}

/// The last line of the replayed body depends on all lines that it depended on.
proof fn lemma_body_depends(d: Draft, d1: Draft, ends: Seq<int>, n: int)
    requires
        finished(d),
        d1.spans.len() == 0,
        ends.len() == d.premises.len(),
        d1.rows.len() >= d.premises.len(),
        forall|i: int| 0 <= i < ends.len() ==> 1 <= #[trigger] ends[i] <= d1.rows.len(),
        1 <= n <= d.rows.len(),
        depends(d, d.rows.len() as int, n),
    ensures
        ({
            let shift = d1.rows.len() - d.premises.len();
            let number = shifted(ends, shift);
            let e = replayed_upto(d1, d, number, d.rows.len() as int);
            1 <= number(n) <= e.rows.len() && depends(e, e.rows.len() as int, number(n))
        }),
    decreases d.rows.len() - n,
{
    let p = d.premises.len() as int;
    let size = d.rows.len() as int;
    let shift = d1.rows.len() - p;
    let number = shifted(ends, shift);
    let e = replayed_upto(d1, d, number, size);
    lemma_replayed(d, d1, ends, size);
    assert(n <= p ==> 1 <= ends[n - 1] <= d1.rows.len());
    if n != size {
        let lines = regrown(d).lines;
        let j = choose|j: int|
            n < j <= size && needed(lines, size, j) && (#[trigger] refs_at(lines, j)).contains(n);
        lemma_body_depends(d, d1, ends, j);
        assert(lines[j - 1].reason == d.rows[j - 1].reason);
        assert(j > p) by {
            assert(lines[j - 1].reason is Premise <==> j - 1 < p);
        }
        let refs = referenced(d.rows[j - 1].reason);
        let i = choose|i: int| 0 <= i < refs.len() && refs[i] == n;
        assert(e.rows[(j - 1) + shift].reason == moved_reason(d.rows[j - 1].reason, number));
        assert(referenced(e.rows[j - 1 + shift].reason)[i] == number(n));
        assert(referenced(e.rows[number(j) - 1].reason).contains(number(n)));
        lemma_depends_step(e, e.rows.len() as int, number(j), number(n));
    }
}

/// The last line of the epilogue depends on all its lines, and on where it began.
proof fn lemma_redone_depends(d: Draft, trace: Seq<Disguise>, k: int, current: Prop)
    requires
        0 <= k <= trace.len(),
        d.rows.len() >= 1,
    ensures
        ({
            let e = redone(d, trace, k, current, d.rows.len() as int);
            &&& begins(e, d)
            &&& e.spans == d.spans
            &&& forall|r: int|
                d.rows.len() <= r <= e.rows.len() ==> #[trigger] depends(
                    e,
                    e.rows.len() as int,
                    r,
                )
            &&& forall|i: int|
                d.rows.len() <= i < e.rows.len() ==> !at_edge((#[trigger] e.rows[i]).reason)
        }),
    decreases trace.len() - k,
{
    let n = d.rows.len() as int;
    let e = redone(d, trace, k, current, n);
    if k == trace.len() {
        assert(d.rows.take(n) =~= d.rows);
    } else {
        let x = trace[k];
        let next = replace_all(current, x.before, x.after);
        let d1 = with_line(d, next, Reason::Equivalence(x.rule, n));
        lemma_redone_depends(d1, trace, k + 1, next);
        let end = e.rows.len() as int;
        assert(e.rows.take(n + 1)[n] == d1.rows[n]);
        assert(referenced(e.rows[n].reason)[0] == n);
        assert(depends(e, end, n + 1));
        lemma_depends_step(e, end, n + 1, n);
        assert(e.rows.take(n) =~= d.rows) by {
            assert forall|i: int| 0 <= i < n implies e.rows[i] == d.rows[i] by {
                assert(e.rows.take(n + 1)[i] == d1.rows[i]);
            }
        }
    }
}

/// A proof whose last line depends on every line has that in costume too.
pub proof fn law_dressed_all_needed(d: Draft, costumes: Seq<Costume>, last: Costume)
    requires
        finished(d),
        costumes.len() == d.premises.len(),
        forall|i: int|
            0 <= i < costumes.len() ==> sewn(#[trigger] costumes[i], d.premises[i]),
        forall|p: int|
            1 <= p <= d.rows.len() ==> #[trigger] depends(d, d.rows.len() as int, p),
    ensures
        forall|r: int|
            1 <= r <= dressed(d, costumes, last).rows.len() ==> #[trigger] depends(
                dressed(d, costumes, last),
                dressed(d, costumes, last).rows.len() as int,
                r,
            ),
{
    let p = d.premises.len() as int;
    let size = d.rows.len() as int;
    lemma_prologue(d.premises, costumes, last.formula, p);
    lemma_prologue_depends(costumes, last.formula, p);
    let (d1, ends) = prologue(drafted(looks(costumes), last.formula), costumes, p);
    let shift = d1.rows.len() - p;
    let number = shifted(ends, shift);
    lemma_replayed(d, d1, ends, size);
    let d2 = replayed_upto(d1, d, number, size);
    let mid = d2.rows.len() as int;
    assert(number(size) == mid);
    lemma_redone_depends(d2, last.trace, 0, d.conclusion);
    let e = dressed(d, costumes, last);
    let end = e.rows.len() as int;
    assert forall|r: int| 1 <= r <= end implies #[trigger] depends(e, end, r) by {
        if r < mid {
            assert(depends(d2, mid, r)) by {
                if r > d1.rows.len() {
                    assert(depends(d, size, r - shift));
                    lemma_body_depends(d, d1, ends, r - shift);
                } else {
                    assert(worn_by(d1, ends, r));
                    let i = choose|i: int|
                        0 <= i < ends.len() && r <= #[trigger] ends[i] && depends(d1, ends[i], r);
                    lemma_depends_kept(d1, d2, ends[i], r);
                    assert(depends(d, size, i + 1));
                    lemma_body_depends(d, d1, ends, i + 1);
                    lemma_depends_trans(d2, mid, ends[i], r);
                }
            }
            lemma_depends_kept(d2, e, mid, r);
            assert(depends(e, end, mid));
            lemma_depends_trans(e, end, mid, r);
        }
    }
}

/// Whether the formulas of all lines are of some kind, and none of them opens or
/// discharges a subproof.
pub open spec fn quiet(d: Draft, kind: spec_fn(Prop) -> bool) -> bool {
    forall|i: int|
        0 <= i < d.rows.len() ==> kind((#[trigger] d.rows[i]).formula) && !at_edge(
            d.rows[i].reason,
        )
}

/// Whether the formulas that a costume passes through are of some kind.
pub open spec fn of_kind(c: Costume, kind: spec_fn(Prop) -> bool) -> bool {
    forall|k: int| 0 <= k < c.stages.len() ==> kind(#[trigger] c.stages[k])
}

/// Undoing a costume passes through its stages.
proof fn lemma_undone_quiet(
    d: Draft,
    c: Costume,
    f: Prop,
    k: int,
    line: int,
    kind: spec_fn(Prop) -> bool,
)
    requires
        quiet(d, kind),
        sewn(c, f),
        of_kind(c, kind),
        0 <= k <= c.trace.len(),
    ensures
        quiet(undone(d, c.trace, k, c.stages[k], line).0, kind),
    decreases k,
{
    if k > 0 {
        let x = c.trace[k - 1];
        assert(reversible(c.stages[k - 1], x) && x.next == c.stages[k]);
        let d1 = with_line(d, c.stages[k - 1], Reason::Equivalence(x.rule, line));
        assert(kind(c.stages[k - 1]));
        lemma_undone_quiet(d1, c, f, k - 1, d1.rows.len() as int, kind);
    }
}

/// The prologue passes through the stages of the costumes.
pub proof fn lemma_prologue_quiet(
    premises: Seq<Prop>,
    costumes: Seq<Costume>,
    conclusion: Prop,
    n: int,
    kind: spec_fn(Prop) -> bool,
)
    requires
        costumes.len() == premises.len(),
        0 <= n <= premises.len(),
        forall|i: int|
            0 <= i < premises.len() ==> sewn(#[trigger] costumes[i], premises[i]) && of_kind(
                costumes[i],
                kind,
            ),
    ensures
        quiet(prologue(drafted(looks(costumes), conclusion), costumes, n).0, kind),
    decreases n,
{
    let d0 = drafted(looks(costumes), conclusion);
    if n == 0 {
        assert forall|i: int| 0 <= i < d0.rows.len() implies kind(
            (#[trigger] d0.rows[i]).formula,
        ) && !at_edge(d0.rows[i].reason) by {
            let c = costumes[i];
            assert(sewn(c, premises[i]));
            assert(kind(c.stages[c.stages.len() - 1]));
        }
    } else {
        lemma_prologue_quiet(premises, costumes, conclusion, n - 1, kind);
        let c = costumes[n - 1];
        assert(sewn(c, premises[n - 1]));
        let before = prologue(d0, costumes, n - 1).0;
        lemma_undone_quiet(before, c, premises[n - 1], c.trace.len() as int, n, kind);
    }
}

/// What a line of the replayed body may cite, it could cite before.
proof fn lemma_replayed_reach(d: Draft, ends: Seq<int>, shift: int, n: int, m: int)
    requires
        finished(d),
        shift >= 0,
        d.premises.len() < n <= d.rows.len(),
        d.premises.len() < m < n,
        accessible(
            images(every(), shifted(ends, shift), d.spans, d.rows.len() as int),
            n + shift,
            m + shift,
        ),
        ends.len() == d.premises.len(),
    ensures
        accessible(d.spans, n, m),
{
    let size = d.rows.len() as int;
    let number = shifted(ends, shift);
    let spans = images(every(), number, d.spans, size);
    lemma_images(every(), number, d.spans, size);
    assert forall|i: int| 0 <= i < d.spans.len() && (#[trigger] d.spans[i]).holds(
        m,
    ) implies d.spans[i].holds(n) by {
        assert(regrown(d).spans[i] == d.spans[i]);
        assert(kept_by(every(), d.spans[i], size));
        let img = image(number, d.spans[i], size);
        let j = choose|j: int| 0 <= j < spans.len() && spans[j] == img;
        assert(spans[j].holds(m + shift));
        assert(spans[j].holds(n + shift));
    }
}

/// Where no assumption and no discharge repeats what it may cite, none does so in
/// costume, if no costume passes through a line after the premises.
pub proof fn law_dressed_fresh(d: Draft, costumes: Seq<Costume>, last: Costume)
    requires
        finished(d),
        unrepeated(regrown(d)),
        costumes.len() == d.premises.len(),
        forall|i: int|
            0 <= i < costumes.len() ==> sewn(#[trigger] costumes[i], d.premises[i]),
        forall|i: int, k: int|
            0 <= i < costumes.len() && 1 <= k < costumes[i].stages.len() ==> !body(d).contains(
                #[trigger] costumes[i].stages[k],
            ),
    ensures
        unrepeated(regrown(dressed(d, costumes, last))),
{
    let p = d.premises.len() as int;
    let size = d.rows.len() as int;
    lemma_prologue(d.premises, costumes, last.formula, p);
    let (d1, ends) = prologue(drafted(looks(costumes), last.formula), costumes, p);
    let shift = d1.rows.len() - p;
    let number = shifted(ends, shift);
    lemma_replayed(d, d1, ends, size);
    let d2 = replayed_upto(d1, d, number, size);
    let mid = d2.rows.len() as int;
    assert(number(size) == mid);
    lemma_redone_depends(d2, last.trace, 0, d.conclusion);
    let e = dressed(d, costumes, last);
    let g = regrown(e);
    let old_g = regrown(d);
    assert forall|i: int| 0 <= i < mid implies e.rows[i] == d2.rows[i] by {
        assert(e.rows.take(mid)[i] == d2.rows[i]);
    }
    assert forall|i: int| 0 <= i < d1.rows.len() implies e.rows[i] == d1.rows[i] by {
        assert(d2.rows.take(d1.rows.len() as int)[i] == d1.rows[i]);
    }
    lemma_prologue_quiet(d.premises, costumes, last.formula, p, |x: Prop| true);
    assert forall|n: int, m: int|
        1 <= n <= g.lines.len() && 1 <= m && at_edge(g.lines[n - 1].reason) && #[trigger] accessible(
            g.spans,
            n,
            m,
        ) implies g.lines[m - 1].formula != g.lines[n - 1].formula by {
        assert(e.rows[n - 1].reason == g.lines[n - 1].reason);
        assert(d1.rows.len() < n <= mid) by {
            if n <= d1.rows.len() {
                assert(!at_edge(d1.rows[n - 1].reason));
            }
        }
        let n0 = n - shift;
        assert(d2.rows[(n0 - 1) + shift].reason == moved_reason(d.rows[n0 - 1].reason, number));
        assert(at_edge(old_g.lines[n0 - 1].reason));
        let f = d.rows[n0 - 1].formula;
        assert(d2.rows[(n0 - 1) + shift].formula == f);
        if m <= d1.rows.len() {
            let other = |x: Prop| x != f;
            assert(body(d)[n0 - 1 - p] == f);
            assert(body(d).contains(f));
            assert forall|i: int| 0 <= i < p implies sewn(#[trigger] costumes[i], d.premises[i])
                && of_kind(costumes[i], other) by {
                let c = costumes[i];
                assert(sewn(c, d.premises[i]));
                assert forall|k: int| 0 <= k < c.stages.len() implies other(
                    #[trigger] c.stages[k],
                ) by {
                    if k == 0 {
                        assert(accessible(old_g.spans, n0, i + 1));
                        assert(old_g.lines[i].formula == d.premises[i]) by {
                            assert(d.rows[i].formula == d.premises[i]);
                        }
                    } else {
                        assert(!body(d).contains(costumes[i].stages[k]));
                    }
                }
            }
            lemma_prologue_quiet(d.premises, costumes, last.formula, p, other);
            assert(other(d1.rows[m - 1].formula));
        } else {
            let m0 = m - shift;
            lemma_replayed_reach(d, ends, shift, n0, m0);
            assert(d2.rows[(m0 - 1) + shift].formula == d.rows[m0 - 1].formula);
            assert(accessible(old_g.spans, n0, m0));
        }
    }
}

} // verus!
