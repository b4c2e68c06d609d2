//! Going on from a transcript: what may be cited after it, and how the lines of a second
//! transcript that starts from there are renumbered to follow it.

use vstd::prelude::*;

use super::moves::Line;
use super::transcript::{
    all_justified, citable, closes, discharges, follows_directly, formula_at, formulas_at,
    is_assumption, is_discharge, justified, lemma_end_citable, lemma_looks_back,
    lemma_prefix_justified, valid,
};
use crate::models::formula::Prop;
use crate::models::rules::technique::{discharge, ProofTechnique};

verus! {

/// The positions of the first `n` lines that may be cited after the transcript, in order.
pub open spec fn open_upto(premises: Seq<Prop>, steps: Seq<Line>, n: int) -> Seq<int>
    decreases n,
{
    if n <= 0 {
        seq![]
    } else {
        let before = open_upto(premises, steps, n - 1);
        let c = premises.len() + n - 1;
        if citable(premises, steps, (premises.len() + steps.len()) as int, c) {
            before.push(c)
        } else {
            before
        }
    }
}

/// The positions of the lines that may be cited after the transcript, in order.
pub open spec fn open_positions(premises: Seq<Prop>, steps: Seq<Line>) -> Seq<int> {
    open_upto(premises, steps, steps.len() as int)
}

/// The premises, and the formulas that may be cited after the transcript.
pub open spec fn grown(premises: Seq<Prop>, steps: Seq<Line>) -> Seq<Prop> {
    premises + formulas_at(premises, steps, open_positions(premises, steps))
}

/// The position that a position after [`grown`] becomes, where the whole transcript of
/// `lines` lines is there, with the lines at the positions `at` still open.
pub open spec fn moved_to(base: int, at: Seq<int>, lines: int, c: int) -> int {
    if c < base {
        c
    } else if c < base + at.len() {
        at[c - base]
    } else {
        c - at.len() + lines
    }
}

/// A line, with the positions that it cites renumbered.
pub open spec fn renumbered(base: int, at: Seq<int>, lines: int, line: Line) -> Line {
    Line {
        formula: line.formula,
        rule: line.rule,
        cited: Seq::new(
            line.cited.len(),
            |i: int| moved_to(base, at, lines, line.cited[i]),
        ),
    }
}

/// `steps`, followed by the renumbered lines of a transcript that goes on from
/// [`grown`].
pub open spec fn spliced(premises: Seq<Prop>, steps: Seq<Line>, more: Seq<Line>) -> Seq<Line> {
    let at = open_positions(premises, steps);
    steps + Seq::new(
        more.len(),
        |i: int| renumbered(premises.len() as int, at, steps.len() as int, more[i]),
    )
}

/// The open positions are in order, are lines, and are those that may be cited.
pub proof fn lemma_open_upto(premises: Seq<Prop>, steps: Seq<Line>, n: int)
    requires
        0 <= n <= steps.len(),
    ensures
        ({
            let at = open_upto(premises, steps, n);
            let end = (premises.len() + steps.len()) as int;
            &&& at.len() <= n
            &&& forall|i: int|
                0 <= i < at.len() ==> premises.len() <= #[trigger] at[i] < premises.len() + n
                    && citable(premises, steps, end, at[i])
            &&& forall|i: int, j: int| 0 <= i < j < at.len() ==> at[i] < at[j]
            &&& forall|c: int|
                premises.len() <= c < premises.len() + n && #[trigger] citable(
                    premises,
                    steps,
                    end,
                    c,
                ) ==> at.contains(c)
        }),
    decreases n,
{
    if n > 0 {
        lemma_open_upto(premises, steps, n - 1);
        let before = open_upto(premises, steps, n - 1);
        let at = open_upto(premises, steps, n);
        let end = (premises.len() + steps.len()) as int;
        assert forall|c: int|
            premises.len() <= c < premises.len() + n && #[trigger] citable(
                premises,
                steps,
                end,
                c,
            ) implies at.contains(c) by {
            if c < premises.len() + n - 1 {
                assert(before.contains(c));
                let i = choose|i: int| 0 <= i < before.len() && before[i] == c;
                assert(at[i] == c);
            } else {
                assert(at[at.len() - 1] == c);
            }
        }
    }
}

/// Renumbering keeps the order of positions.
proof fn lemma_moved_order(premises: Seq<Prop>, steps: Seq<Line>, c: int, d: int)
    requires
        0 <= c < d,
    ensures
        ({
            let base = premises.len() as int;
            let at = open_positions(premises, steps);
            moved_to(base, at, steps.len() as int, c) < moved_to(base, at, steps.len() as int, d)
        }),
{
    lemma_open_upto(premises, steps, steps.len() as int);
}

/// A position that comes before a line of the second transcript does so renumbered.
pub proof fn lemma_moved_before(premises: Seq<Prop>, steps: Seq<Line>, c: int, n: int)
    requires
        0 <= c < n,
        grown(premises, steps).len() <= n,
    ensures
        ({
            let b = premises.len() as int;
            let at = open_positions(premises, steps);
            0 <= moved_to(b, at, steps.len() as int, c) < n - grown(premises, steps).len() + b
                + steps.len()
        }),
{
    lemma_open_upto(premises, steps, steps.len() as int);
    lemma_moved_order(premises, steps, c, n);
}

/// Renumbering keeps formulas, what may be cited and what is closed.
pub proof fn lemma_splice(premises: Seq<Prop>, steps: Seq<Line>, more: Seq<Line>)
    requires
        all_justified(premises, steps),
        all_justified(grown(premises, steps), more),
    ensures
        ({
            let b = premises.len() as int;
            let at = open_positions(premises, steps);
            let p = steps.len() as int;
            let inner = grown(premises, steps);
            let all = spliced(premises, steps, more);
            &&& forall|c: int|
                0 <= c < inner.len() + more.len() ==> #[trigger] formula_at(inner, more, c)
                    == formula_at(premises, all, moved_to(b, at, p, c))
            &&& forall|n: int, c: int|
                inner.len() <= n <= inner.len() + more.len() && 0 <= c ==> #[trigger] citable(
                    inner,
                    more,
                    n,
                    c,
                ) == citable(premises, all, moved_to(b, at, p, n), moved_to(b, at, p, c))
        }),
{
    let b = premises.len() as int;
    let at = open_positions(premises, steps);
    let p = steps.len() as int;
    let inner = grown(premises, steps);
    let all = spliced(premises, steps, more);
    let m = inner.len() as int;
    lemma_open_upto(premises, steps, p);
    assert(m == b + at.len());
    assert forall|c: int| 0 <= c < m + more.len() implies #[trigger] formula_at(inner, more, c)
        == formula_at(premises, all, moved_to(b, at, p, c)) by {
        if c < b {
        } else if c < m {
            assert(inner[c] == formula_at(premises, steps, at[c - b]));
            assert(b <= at[c - b] < b + p);
            assert(all[at[c - b] - b] == steps[at[c - b] - b]);
        } else {
            assert(all[c - m + p] == renumbered(b, at, p, more[c - m]));
        }
    }
    assert forall|n: int, c: int| m <= n <= m + more.len() && 0 <= c implies #[trigger] citable(
        inner,
        more,
        n,
        c,
    ) == citable(premises, all, moved_to(b, at, p, n), moved_to(b, at, p, c)) by {
        let n1 = moved_to(b, at, p, n);
        let c1 = moved_to(b, at, p, c);
        assert(n1 == n - at.len() + p);
        assert((c < n) == (c1 < n1)) by {
            if c < n {
                lemma_moved_order(premises, steps, c, n);
            } else if n < c {
                lemma_moved_order(premises, steps, n, c);
            }
        }
        assert(0 <= c1);
        assert forall|d: int| m <= d < n implies #[trigger] closes(inner, more, d, c) == closes(
            premises,
            all,
            d - m + b + p,
            c1,
        ) by {
            let line = more[d - m];
            let d1 = d - m + b + p;
            assert(all[d1 - b] == renumbered(b, at, p, line));
            assert(justified(inner, more, d));
            lemma_looks_back(inner, more, d);
            if is_discharge(line) {
                let s = line.cited[0];
                assert(0 <= s < d);
                let s1 = moved_to(b, at, p, s);
                assert(renumbered(b, at, p, line).cited[0] == s1);
                if s < c {
                    lemma_moved_order(premises, steps, s, c);
                } else if c < s {
                    lemma_moved_order(premises, steps, c, s);
                }
                if c < d {
                    lemma_moved_order(premises, steps, c, d);
                } else if d < c {
                    lemma_moved_order(premises, steps, d, c);
                }
                assert(moved_to(b, at, p, d) == d1);
            }
        }
        if citable(inner, more, n, c) {
            assert forall|d1: int| b <= d1 < n1 implies !#[trigger] closes(
                premises,
                all,
                d1,
                c1,
            ) by {
                if d1 >= b + p {
                    let d = d1 - b - p + m;
                    assert(!closes(inner, more, d, c));
                } else {
                    assert(all[d1 - b] == steps[d1 - b]);
                    assert(justified(premises, steps, d1));
                    lemma_looks_back(premises, steps, d1);
                    if b <= c < m {
                        assert(citable(premises, steps, b + p, at[c - b]));
                        assert(!closes(premises, steps, d1, at[c - b]));
                    }
                }
            }
        }
        if citable(premises, all, n1, c1) {
            assert forall|d: int| m <= d < n implies !#[trigger] closes(inner, more, d, c) by {
                assert(!closes(premises, all, d - m + b + p, c1));
            }
        }
    }
}

/// A line of the second transcript stays justified.
proof fn lemma_spliced_justified(premises: Seq<Prop>, steps: Seq<Line>, more: Seq<Line>, k: int)
    requires
        all_justified(premises, steps),
        all_justified(grown(premises, steps), more),
        0 <= k < more.len(),
    ensures
        justified(premises, spliced(premises, steps, more), premises.len() + steps.len() + k),
{
    let b = premises.len() as int;
    let at = open_positions(premises, steps);
    let p = steps.len() as int;
    let inner = grown(premises, steps);
    let all = spliced(premises, steps, more);
    let m = inner.len() as int;
    let n = m + k;
    let n1 = b + p + k;
    let line = more[k];
    let line1 = renumbered(b, at, p, line);
    lemma_open_upto(premises, steps, p);
    lemma_splice(premises, steps, more);
    assert(justified(inner, more, n));
    lemma_looks_back(inner, more, n);
    assert(all[n1 - b] == line1);
    assert(moved_to(b, at, p, n) == n1);
    assert forall|i: int| 0 <= i < line.cited.len() implies line1.cited[i] == moved_to(
        b,
        at,
        p,
        #[trigger] line.cited[i],
    ) by {}
    if is_assumption(line) && line.cited.len() == 0 {
    } else if !is_discharge(line) && !is_assumption(line) {
        assert forall|i: int| 0 <= i < line1.cited.len() implies citable(
            premises,
            all,
            n1,
            #[trigger] line1.cited[i],
        ) by {
            assert(citable(inner, more, n, line.cited[i]));
        }
        assert(formulas_at(inner, more, line.cited) =~= formulas_at(premises, all, line1.cited)) by {
            assert forall|i: int| 0 <= i < line.cited.len() implies formula_at(
                inner,
                more,
                #[trigger] line.cited[i],
            ) == formula_at(premises, all, line1.cited[i]) by {}
        }
        lemma_same_line(line, line1, formulas_at(inner, more, line.cited));
    } else {
        let t = if discharges(inner, more, n, ProofTechnique::ConditionalProof) {
            ProofTechnique::ConditionalProof
        } else {
            ProofTechnique::IndirectProof
        };
        assert(discharges(inner, more, n, t));
        let s = line.cited[0];
        let s1 = line1.cited[0];
        assert(s >= m);
        assert(s1 == s - m + b + p);
        assert(all[s1 - b] == renumbered(b, at, p, more[s - m]));
        assert(citable(inner, more, n, s));
        assert(citable(inner, more, n, line.cited[1]));
        assert forall|q1: int| s1 < q1 < n1 && is_assumption(#[trigger] all[q1 - b]) implies !citable(
            premises,
            all,
            n1,
            q1,
        ) by {
            let q = q1 - b - p + m;
            assert(all[q1 - b] == renumbered(b, at, p, more[q - m]));
            assert(is_assumption(more[q - m]));
            assert(!citable(inner, more, n, q));
            assert(moved_to(b, at, p, q) == q1);
        }
        let u = choose|u: int|
            #[trigger] citable(inner, more, n, u) && discharge(
                t,
                formula_at(inner, more, s),
                formula_at(inner, more, u),
            ) == Some(line.formula);
        let u1 = moved_to(b, at, p, u);
        assert(citable(premises, all, n1, u1));
        assert(formula_at(inner, more, u) == formula_at(premises, all, u1));
        assert(formula_at(inner, more, s) == formula_at(premises, all, s1));
        assert(discharges(premises, all, n1, t));
    }
}

/// What a line follows from does not depend on the positions that it cites.
proof fn lemma_same_line(a: Line, b: Line, fs: Seq<Prop>)
    requires
        a.formula == b.formula,
        a.rule == b.rule,
        follows_directly(a, fs),
    ensures
        follows_directly(b, fs),
{
}

/// A valid transcript and a valid one that goes on from what may be cited after it make a
/// valid transcript together.
pub proof fn lemma_valid_spliced(premises: Seq<Prop>, steps: Seq<Line>, more: Seq<Line>)
    requires
        valid(premises, steps),
        valid(grown(premises, steps), more),
    ensures
        valid(premises, spliced(premises, steps, more)),
{
    let b = premises.len() as int;
    let at = open_positions(premises, steps);
    let p = steps.len() as int;
    let inner = grown(premises, steps);
    let all = spliced(premises, steps, more);
    let m = inner.len() as int;
    lemma_open_upto(premises, steps, p);
    lemma_splice(premises, steps, more);
    let tail = Seq::new(more.len(), |i: int| renumbered(b, at, p, more[i]));
    assert(all == steps + tail);
    assert forall|n: int| b <= n < b + all.len() implies #[trigger] justified(premises, all, n) by {
        if n < b + p {
            assert(justified(premises, steps, n));
            lemma_prefix_justified(premises, steps, tail, n);
        } else {
            lemma_spliced_justified(premises, steps, more, n - b - p);
        }
    }
    let end = b + all.len();
    assert forall|q: int|
        #![trigger all[q]]
        0 <= q < all.len() && is_assumption(all[q]) implies !citable(premises, all, end, q + b) by {
        if q < p {
            assert(steps[q] == all[q]);
            assert(!citable(premises, steps, b + p, q + b));
            let d = choose|d: int| b <= d < b + p && #[trigger] closes(premises, steps, d, q + b);
            assert(all[d - b] == steps[d - b]);
            assert(closes(premises, all, d, q + b));
        } else {
            let k = q - p;
            assert(all[q] == renumbered(b, at, p, more[k]));
            assert(is_assumption(more[k]));
            assert(!citable(inner, more, (inner.len() + more.len()) as int, k + inner.len()));
            assert(moved_to(b, at, p, m + more.len()) == end);
            assert(moved_to(b, at, p, k + m) == q + b);
        }
    }
}

/// What may be cited after the second transcript may be cited, renumbered, after both.
pub proof fn lemma_spliced_citable(
    premises: Seq<Prop>,
    steps: Seq<Line>,
    more: Seq<Line>,
    c: int,
)
    requires
        all_justified(premises, steps),
        all_justified(grown(premises, steps), more),
        citable(
            grown(premises, steps),
            more,
            (grown(premises, steps).len() + more.len()) as int,
            c,
        ),
    ensures
        ({
            let at = open_positions(premises, steps);
            let c1 = moved_to(premises.len() as int, at, steps.len() as int, c);
            let all = spliced(premises, steps, more);
            &&& citable(premises, all, (premises.len() + all.len()) as int, c1)
            &&& formula_at(premises, all, c1) == formula_at(grown(premises, steps), more, c)
        }),
{
    let b = premises.len() as int;
    let at = open_positions(premises, steps);
    let p = steps.len() as int;
    let inner = grown(premises, steps);
    let all = spliced(premises, steps, more);
    lemma_open_upto(premises, steps, p);
    lemma_splice(premises, steps, more);
    assert(moved_to(b, at, p, (inner.len() + more.len()) as int) == b + all.len());
    assert(citable(inner, more, (inner.len() + more.len()) as int, c));
}

/// The premises and the last line of the first transcript may be cited after both.
pub proof fn lemma_spliced_kept(premises: Seq<Prop>, steps: Seq<Line>, more: Seq<Line>, c: int)
    requires
        all_justified(premises, steps),
        all_justified(grown(premises, steps), more),
        0 <= c < premises.len() || c == premises.len() + steps.len() - 1,
        0 <= c,
    ensures
        ({
            let all = spliced(premises, steps, more);
            &&& citable(premises, all, (premises.len() + all.len()) as int, c)
            &&& formula_at(premises, all, c) == formula_at(premises, steps, c)
        }),
{
    let b = premises.len() as int;
    let p = steps.len() as int;
    let inner = grown(premises, steps);
    let at = open_positions(premises, steps);
    lemma_open_upto(premises, steps, p);
    lemma_end_citable(premises, steps, c);
    let k = if c < b {
        c
    } else {
        assert(at.contains(c));
        let i = choose|i: int| 0 <= i < at.len() && at[i] == c;
        b + i
    };
    assert(moved_to(b, at, p, k) == c);
    lemma_end_citable(inner, more, k);
    lemma_spliced_citable(premises, steps, more, k);
    if c >= b {
        assert(inner[k] == formula_at(premises, steps, at[k - b]));
    }
}

} // verus!
