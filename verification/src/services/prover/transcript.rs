//! Proof transcripts: what it means that every line of one is justified.
//!
//! A transcript is read after a list of premises. Positions count through both: a
//! position below the number of premises is a premise, a later one a line of the
//! transcript. A line `ACP` or `AIP` opens a subproof; the line `CP` or `IP` that cites
//! it closes the subproof, and from then on the lines of the subproof may not be cited.

use vstd::prelude::*;

use super::moves::{law_rules_sound, Line, MoveRule};
use crate::models::formula::{all_true, entails, eval, p_and, Prop, Valuation};
use crate::models::rewriting::{law_rewrites_equivalent, rewrites};
use crate::models::rules::equivalence::EquivalenceRule;
use crate::models::rules::technique::{discharge, ProofTechnique};

verus! {

/// The formula at a position.
pub open spec fn formula_at(premises: Seq<Prop>, steps: Seq<Line>, c: int) -> Prop {
    if c < premises.len() {
        premises[c]
    } else {
        steps[c - premises.len()].formula
    }
}

/// Whether a line opens a subproof.
pub open spec fn is_assumption(line: Line) -> bool {
    line.rule == "ACP"@ || line.rule == "AIP"@
}

/// Whether a line closes a subproof.
pub open spec fn is_discharge(line: Line) -> bool {
    line.rule == "CP"@ || line.rule == "IP"@
}

/// Whether the subproof that the line at `d` closes holds position `c`.
pub open spec fn closes(premises: Seq<Prop>, steps: Seq<Line>, d: int, c: int) -> bool {
    let line = steps[d - premises.len()];
    is_discharge(line) && line.cited[0] <= c < d
}

/// Whether the line at `n` may cite position `c`: `c` comes before it and lies in no
/// subproof that is closed by then.
pub open spec fn citable(premises: Seq<Prop>, steps: Seq<Line>, n: int, c: int) -> bool {
    &&& 0 <= c < n
    &&& forall|d: int| premises.len() <= d < n ==> !#[trigger] closes(premises, steps, d, c)
}

/// Whether `line` comes from `f` by an equivalence rule applied to a subformula.
pub open spec fn rewritten(line: Line, f: Prop) -> bool {
    exists|rule: EquivalenceRule|
        line.rule == rule.short_name() && #[trigger] rewrites(f).contains((line.formula, rule))
}

/// Whether `line` comes from the formulas `fs` by a forward rule.
pub open spec fn moved(line: Line, fs: Seq<Prop>) -> bool {
    exists|rule: MoveRule|
        line.rule == rule.label() && fs.len() == rule.arity() && #[trigger] rule.gives(
            fs[0],
            fs[1],
            fs[2],
        ).contains(line.formula)
}

/// Whether `line` comes from the formulas `fs` by addition or conjunction.
pub open spec fn built(line: Line, fs: Seq<Prop>) -> bool {
    ||| {
        &&& line.rule == "Add"@
        &&& fs.len() == 1
        &&& match line.formula {
            Prop::Or(l, r) => fs[0] == *l || fs[0] == *r,
            _ => false,
        }
    }
    ||| {
        &&& line.rule == "Conj"@
        &&& fs.len() == 2
        &&& line.formula == p_and(fs[0], fs[1])
    }
}

/// Whether `line` comes from the formulas `fs` that it cites by a rule that needs no
/// subproof.
pub open spec fn follows_directly(line: Line, fs: Seq<Prop>) -> bool {
    ||| moved(line, fs)
    ||| built(line, fs)
    ||| fs.len() == 1 && rewritten(line, fs[0])
}

/// The formulas at some positions.
pub open spec fn formulas_at(premises: Seq<Prop>, steps: Seq<Line>, cited: Seq<int>) -> Seq<Prop> {
    Seq::new(cited.len(), |i: int| formula_at(premises, steps, cited[i]))
}

/// Whether the line at `n` closes the innermost open subproof: it cites the assumption
/// and a formula that may be cited there, and states what such a formula discharges to.
pub open spec fn discharges(premises: Seq<Prop>, steps: Seq<Line>, n: int, t: ProofTechnique) -> bool {
    let b = premises.len();
    let line = steps[n - b];
    &&& line.rule == t.short_name()
    &&& line.cited.len() == 2
    &&& b <= line.cited[0]
    &&& citable(premises, steps, n, line.cited[0])
    &&& citable(premises, steps, n, line.cited[1])
    &&& steps[line.cited[0] - b].rule == t.assumption_name()
    &&& forall|p: int|
        line.cited[0] < p < n && is_assumption(#[trigger] steps[p - b]) ==> !citable(
            premises,
            steps,
            n,
            p,
        )
    &&& exists|u: int|
        #[trigger] citable(premises, steps, n, u) && discharge(
            t,
            formula_at(premises, steps, line.cited[0]),
            formula_at(premises, steps, u),
        ) == Some(line.formula)
}

/// Whether the line at `n` is justified.
pub open spec fn justified(premises: Seq<Prop>, steps: Seq<Line>, n: int) -> bool {
    let line = steps[n - premises.len()];
    ||| is_assumption(line) && line.cited.len() == 0
    ||| {
        &&& !is_discharge(line)
        &&& !is_assumption(line)
        &&& forall|i: int|
            0 <= i < line.cited.len() ==> citable(premises, steps, n, #[trigger] line.cited[i])
        &&& follows_directly(line, formulas_at(premises, steps, line.cited))
    }
    ||| discharges(premises, steps, n, ProofTechnique::ConditionalProof)
    ||| discharges(premises, steps, n, ProofTechnique::IndirectProof)
}

/// Whether every line is justified.
pub open spec fn all_justified(premises: Seq<Prop>, steps: Seq<Line>) -> bool {
    forall|n: int|
        premises.len() <= n < premises.len() + steps.len() ==> #[trigger] justified(
            premises,
            steps,
            n,
        )
}

/// Whether every subproof is closed.
pub open spec fn all_closed(premises: Seq<Prop>, steps: Seq<Line>) -> bool {
    forall|p: int|
        #![trigger steps[p]]
        0 <= p < steps.len() && is_assumption(steps[p]) ==> !citable(
            premises,
            steps,
            (premises.len() + steps.len()) as int,
            p + premises.len(),
        )
}

/// A valid transcript: every line justified, every subproof closed.
pub open spec fn valid(premises: Seq<Prop>, steps: Seq<Line>) -> bool {
    all_justified(premises, steps) && all_closed(premises, steps)
}

/// The names of rules are distinct where it matters.
pub proof fn lemma_labels(rule: MoveRule)
    ensures
        rule.label() != "ACP"@,
        rule.label() != "AIP"@,
        rule.label() != "CP"@,
        rule.label() != "IP"@,
        "Add"@ != "ACP"@ && "Add"@ != "AIP"@ && "Add"@ != "CP"@ && "Add"@ != "IP"@,
        "Conj"@ != "ACP"@ && "Conj"@ != "AIP"@ && "Conj"@ != "CP"@ && "Conj"@ != "IP"@,
        "ACP"@ != "CP"@ && "ACP"@ != "IP"@ && "AIP"@ != "CP"@ && "AIP"@ != "IP"@,
{
    reveal_strlit("ACP");
    reveal_strlit("AIP");
    reveal_strlit("CP");
    reveal_strlit("IP");
    reveal_strlit("Add");
    reveal_strlit("Conj");
    reveal_strlit("Simp");
    reveal_strlit("DeM");
    reveal_strlit("DN");
    reveal_strlit("MP");
    reveal_strlit("HS");
    reveal_strlit("DS");
    reveal_strlit("MT");
    reveal_strlit("NegE");
    reveal_strlit("CD");
    assert("Add"@[1] == 'd');
    assert("ACP"@[1] == 'C');
    assert("AIP"@[1] == 'I');
    assert("CP"@[0] == 'C' && "CP"@[1] == 'P');
    assert("IP"@[0] == 'I' && "IP"@[1] == 'P');
    assert("DeM"@[0] == 'D');
    assert("ACP"@[0] == 'A');
    assert("AIP"@[0] == 'A');
    assert("DN"@[0] == 'D');
    assert("MP"@[0] == 'M');
    assert("HS"@[0] == 'H');
    assert("DS"@[0] == 'D');
    assert("MT"@[0] == 'M');
    assert("CD"@[1] == 'D');
}

/// Reading the first line of a transcript as a last premise changes nothing of what the
/// later lines may cite or close, if that line closes no subproof.
pub proof fn lemma_shift(premises: Seq<Prop>, first: Line, rest: Seq<Line>, more: Seq<Line>)
    requires
        !is_discharge(first),
    ensures
        ({
            let inner = premises.push(first.formula);
            let all = seq![first] + rest + more;
            &&& forall|c: int|
                0 <= c <= premises.len() + rest.len() ==> #[trigger] formula_at(inner, rest, c)
                    == formula_at(premises, all, c)
            &&& forall|n: int, c: int|
                premises.len() < n <= premises.len() + 1 + rest.len() ==> #[trigger] citable(
                    inner,
                    rest,
                    n,
                    c,
                ) == citable(premises, all, n, c)
        }),
{
    let b = premises.len() as int;
    let inner = premises.push(first.formula);
    let all = seq![first] + rest + more;
    assert forall|n: int, c: int|
        b < n <= b + 1 + rest.len() implies #[trigger] citable(inner, rest, n, c) == citable(
        premises,
        all,
        n,
        c,
    ) by {
        assert forall|d: int| b + 1 <= d < n implies #[trigger] closes(inner, rest, d, c) == closes(
            premises,
            all,
            d,
            c,
        ) by {
            assert(all[d - b] == rest[d - b - 1]);
        }
        assert(all[0] == first);
        if citable(inner, rest, n, c) {
            assert forall|d: int| b <= d < n implies !#[trigger] closes(premises, all, d, c) by {
                if d > b {
                    assert(!closes(inner, rest, d, c));
                }
            }
        }
        if citable(premises, all, n, c) {
            assert forall|d: int| b + 1 <= d < n implies !#[trigger] closes(inner, rest, d, c) by {
                assert(!closes(premises, all, d, c));
            }
        }
    }
}

/// Lines stay justified when the first line moves from the premises to the transcript
/// and others follow.
proof fn lemma_rest_justified(premises: Seq<Prop>, first: Line, rest: Seq<Line>, more: Seq<Line>)
    requires
        !is_discharge(first),
        all_justified(premises.push(first.formula), rest),
    ensures
        forall|n: int|
            premises.len() < n <= premises.len() + rest.len() ==> #[trigger] justified(
                premises,
                seq![first] + rest + more,
                n,
            ),
{
    let b = premises.len() as int;
    let inner = premises.push(first.formula);
    let all = seq![first] + rest + more;
    lemma_shift(premises, first, rest, more);
    assert forall|n: int| b < n <= b + rest.len() implies #[trigger] justified(premises, all, n) by {
        assert(justified(inner, rest, n));
        let line = rest[n - b - 1];
        assert(all[n - b] == line);
        if is_assumption(line) && line.cited.len() == 0 {
        } else if !is_discharge(line) && !is_assumption(line) && (forall|i: int|
            0 <= i < line.cited.len() ==> citable(inner, rest, n, #[trigger] line.cited[i]))
            && follows_directly(line, formulas_at(inner, rest, line.cited)) {
            assert forall|i: int| 0 <= i < line.cited.len() implies citable(
                premises,
                all,
                n,
                #[trigger] line.cited[i],
            ) by {
                assert(citable(inner, rest, n, line.cited[i]));
            }
            assert forall|i: int| 0 <= i < line.cited.len() implies formula_at(
                inner,
                rest,
                #[trigger] line.cited[i],
            ) == formula_at(premises, all, line.cited[i]) by {
                assert(citable(inner, rest, n, line.cited[i]));
            }
            assert(formulas_at(inner, rest, line.cited) =~= formulas_at(premises, all, line.cited));
        } else {
            let t = if discharges(inner, rest, n, ProofTechnique::ConditionalProof) {
                ProofTechnique::ConditionalProof
            } else {
                ProofTechnique::IndirectProof
            };
            assert(discharges(inner, rest, n, t));
            let s = line.cited[0];
            assert(all[s - b] == rest[s - b - 1]);
            assert(citable(inner, rest, n, s));
            assert(citable(inner, rest, n, line.cited[1]));
            assert forall|p: int| s < p < n && is_assumption(#[trigger] all[p - b]) implies !citable(
                premises,
                all,
                n,
                p,
            ) by {
                assert(rest[p - inner.len()] == all[p - b]);
                assert(!citable(inner, rest, n, p));
            }
            let u = choose|u: int|
                #[trigger] citable(inner, rest, n, u) && discharge(
                    t,
                    formula_at(inner, rest, s),
                    formula_at(inner, rest, u),
                ) == Some(line.formula);
            assert(citable(premises, all, n, u));
            assert(formula_at(inner, rest, u) == formula_at(premises, all, u));
            assert(formula_at(inner, rest, s) == formula_at(premises, all, s));
            assert(discharges(premises, all, n, t));
        }
    }
}

/// A line that follows directly from premises, put before a transcript that goes on from
/// it, makes a valid transcript.
pub proof fn lemma_valid_direct(premises: Seq<Prop>, first: Line, rest: Seq<Line>)
    requires
        !is_discharge(first),
        !is_assumption(first),
        forall|i: int|
            0 <= i < first.cited.len() ==> 0 <= #[trigger] first.cited[i] < premises.len(),
        follows_directly(first, formulas_at(premises, seq![first] + rest, first.cited)),
        valid(premises.push(first.formula), rest),
    ensures
        valid(premises, seq![first] + rest),
{
    let b = premises.len() as int;
    let all = seq![first] + rest;
    assert(all =~= seq![first] + rest + Seq::<Line>::empty());
    lemma_rest_justified(premises, first, rest, seq![]);
    lemma_shift(premises, first, rest, seq![]);
    assert forall|n: int| b <= n < b + all.len() implies #[trigger] justified(premises, all, n) by {
        if n == b {
            assert(all[0] == first);
            assert forall|i: int| 0 <= i < first.cited.len() implies citable(
                premises,
                all,
                n,
                #[trigger] first.cited[i],
            ) by {}
        }
    }
    let inner = premises.push(first.formula);
    assert forall|p: int|
        #![trigger all[p]]
        0 <= p < all.len() && is_assumption(all[p]) implies !citable(
        premises,
        all,
        b + all.len(),
        p + b,
    ) by {
        if p > 0 {
            assert(rest[p - 1] == all[p]);
            assert(!citable(inner, rest, (inner.len() + rest.len()) as int, p - 1 + inner.len()));
            assert(citable(inner, rest, b + all.len(), p + b) == citable(
                premises,
                all,
                b + all.len(),
                p + b,
            ));
        } else {
            assert(all[0] == first);
        }
    }
}

/// A subproof whose inside is valid, closed by a line that discharges a formula holding
/// inside it, is a valid transcript.
pub proof fn lemma_valid_subproof(
    premises: Seq<Prop>,
    t: ProofTechnique,
    assumption: Prop,
    inside: Seq<Line>,
    last: Line,
    u: int,
)
    requires
        valid(premises.push(assumption), inside),
        last.rule == t.short_name(),
        last.cited.len() == 2,
        last.cited[0] == premises.len(),
        citable(
            premises.push(assumption),
            inside,
            (premises.len() + 1 + inside.len()) as int,
            last.cited[1],
        ),
        citable(premises.push(assumption), inside, (premises.len() + 1 + inside.len()) as int, u),
        discharge(t, assumption, formula_at(premises.push(assumption), inside, u)) == Some(
            last.formula,
        ),
    ensures
        valid(
            premises,
            seq![Line { formula: assumption, rule: t.assumption_name(), cited: seq![] }] + inside
                + seq![last],
        ),
{
    let b = premises.len() as int;
    let first = Line { formula: assumption, rule: t.assumption_name(), cited: seq![] };
    let inner = premises.push(assumption);
    let all = seq![first] + inside + seq![last];
    lemma_labels(MoveRule::Simp);
    lemma_rest_justified(premises, first, inside, seq![last]);
    lemma_shift(premises, first, inside, seq![last]);
    let n = b + 1 + inside.len();
    assert(all[n - b] == last);
    assert(all[0] == first);
    assert(citable(premises, all, n, b)) by {
        assert forall|d: int| b <= d < n implies !#[trigger] closes(premises, all, d, b) by {
            if d > b {
                assert(justified(inner, inside, d));
                assert(all[d - b] == inside[d - b - 1]);
                if is_discharge(inside[d - b - 1]) {
                    assert(inside[d - b - 1].cited[0] >= b + 1);
                }
            }
        }
    }
    assert forall|p: int| b < p < n && is_assumption(#[trigger] all[p - b]) implies !citable(
        premises,
        all,
        n,
        p,
    ) by {
        assert(inside[p - b - 1] == all[p - b]);
        assert(!citable(inner, inside, (inner.len() + inside.len()) as int, p - b - 1 + inner.len()));
        assert(citable(inner, inside, n, p) == citable(premises, all, n, p));
    }
    assert(citable(premises, all, n, u));
    assert(citable(premises, all, n, last.cited[1]));
    assert(formula_at(inner, inside, u) == formula_at(premises, all, u));
    assert(formula_at(premises, all, b) == assumption);
    assert(discharges(premises, all, n, t));
    assert forall|m: int| b <= m < b + all.len() implies #[trigger] justified(premises, all, m) by {
        if m == b {
            assert(all[m - b] == first);
        } else if m < n {
            assert(justified(premises, all, m));
        }
    }
    let end = b + all.len();
    assert forall|p: int|
        #![trigger all[p]]
        0 <= p < all.len() && is_assumption(all[p]) implies !citable(premises, all, end, p + b) by {
        assert(is_discharge(last));
        if p == all.len() - 1 {
            assert(all[p] == last);
        } else {
            assert(closes(premises, all, n, p + b));
        }
    }
}

/// Whether all that a line cites comes before position `n`, and a line that closes a
/// subproof cites its assumption, which is no premise.
pub open spec fn looks_back(premises: Seq<Prop>, line: Line, n: int) -> bool {
    &&& forall|i: int| 0 <= i < line.cited.len() ==> 0 <= #[trigger] line.cited[i] < n
    &&& is_discharge(line) ==> line.cited.len() == 2 && line.cited[0] >= premises.len()
}

/// A justified line looks back only.
pub proof fn lemma_looks_back(premises: Seq<Prop>, steps: Seq<Line>, n: int)
    requires
        justified(premises, steps, n),
    ensures
        looks_back(premises, steps[n - premises.len()], n),
{
    lemma_labels(MoveRule::Simp);
    let line = steps[n - premises.len()];
    if discharges(premises, steps, n, ProofTechnique::ConditionalProof) || discharges(
        premises,
        steps,
        n,
        ProofTechnique::IndirectProof,
    ) {
        assert(citable(premises, steps, n, line.cited[0]));
        assert(citable(premises, steps, n, line.cited[1]));
    } else if is_assumption(line) && line.cited.len() == 0 {
    } else {
        assert forall|i: int| 0 <= i < line.cited.len() implies 0 <= #[trigger] line.cited[i]
            < n by {
            assert(citable(premises, steps, n, line.cited[i]));
        }
    }
}

/// After a transcript, the premises and its last line may be cited.
pub proof fn lemma_end_citable(premises: Seq<Prop>, steps: Seq<Line>, c: int)
    requires
        all_justified(premises, steps),
        0 <= c < premises.len() || c == premises.len() + steps.len() - 1,
        0 <= c,
    ensures
        citable(premises, steps, (premises.len() + steps.len()) as int, c),
{
    let b = premises.len() as int;
    assert forall|d: int| b <= d < b + steps.len() implies !#[trigger] closes(
        premises,
        steps,
        d,
        c,
    ) by {
        assert(justified(premises, steps, d));
        lemma_looks_back(premises, steps, d);
    }
}

/// What comes later changes nothing of what the lines of a transcript may cite or close.
pub proof fn lemma_prefix(premises: Seq<Prop>, steps: Seq<Line>, more: Seq<Line>)
    ensures
        ({
            let all = steps + more;
            &&& forall|c: int|
                0 <= c < premises.len() + steps.len() ==> #[trigger] formula_at(premises, steps, c)
                    == formula_at(premises, all, c)
            &&& forall|n: int, c: int|
                n <= premises.len() + steps.len() ==> #[trigger] citable(premises, steps, n, c)
                    == citable(premises, all, n, c)
        }),
{
    let b = premises.len() as int;
    let all = steps + more;
    assert forall|n: int, c: int|
        n <= b + steps.len() implies #[trigger] citable(premises, steps, n, c) == citable(
        premises,
        all,
        n,
        c,
    ) by {
        assert forall|d: int| b <= d < n implies #[trigger] closes(premises, steps, d, c)
            == closes(premises, all, d, c) by {
            assert(all[d - b] == steps[d - b]);
        }
        if citable(premises, steps, n, c) {
            assert forall|d: int| b <= d < n implies !#[trigger] closes(premises, all, d, c) by {
                assert(!closes(premises, steps, d, c));
            }
        }
        if citable(premises, all, n, c) {
            assert forall|d: int| b <= d < n implies !#[trigger] closes(premises, steps, d, c) by {
                assert(!closes(premises, all, d, c));
            }
        }
    }
}

/// Lines stay justified when others follow.
pub proof fn lemma_prefix_justified(premises: Seq<Prop>, steps: Seq<Line>, more: Seq<Line>, n: int)
    requires
        justified(premises, steps, n),
        premises.len() <= n < premises.len() + steps.len(),
    ensures
        justified(premises, steps + more, n),
{
    let b = premises.len() as int;
    let all = steps + more;
    let line = steps[n - b];
    lemma_prefix(premises, steps, more);
    lemma_looks_back(premises, steps, n);
    assert(all[n - b] == line);
    if is_assumption(line) && line.cited.len() == 0 {
    } else if !is_discharge(line) && !is_assumption(line) {
        assert forall|i: int| 0 <= i < line.cited.len() implies citable(
            premises,
            all,
            n,
            #[trigger] line.cited[i],
        ) by {
            assert(citable(premises, steps, n, line.cited[i]));
        }
        assert forall|i: int| 0 <= i < line.cited.len() implies formula_at(
            premises,
            steps,
            #[trigger] line.cited[i],
        ) == formula_at(premises, all, line.cited[i]) by {}
        assert(formulas_at(premises, steps, line.cited) =~= formulas_at(
            premises,
            all,
            line.cited,
        ));
    } else {
        let t = if discharges(premises, steps, n, ProofTechnique::ConditionalProof) {
            ProofTechnique::ConditionalProof
        } else {
            ProofTechnique::IndirectProof
        };
        assert(discharges(premises, steps, n, t));
        let s = line.cited[0];
        assert(all[s - b] == steps[s - b]);
        assert(citable(premises, steps, n, s));
        assert(citable(premises, steps, n, line.cited[1]));
        assert forall|p: int| s < p < n && is_assumption(#[trigger] all[p - b]) implies !citable(
            premises,
            all,
            n,
            p,
        ) by {
            assert(steps[p - b] == all[p - b]);
            assert(!citable(premises, steps, n, p));
        }
        let u = choose|u: int|
            #[trigger] citable(premises, steps, n, u) && discharge(
                t,
                formula_at(premises, steps, s),
                formula_at(premises, steps, u),
            ) == Some(line.formula);
        assert(citable(premises, all, n, u));
        assert(formula_at(premises, steps, u) == formula_at(premises, all, u));
        assert(formula_at(premises, steps, s) == formula_at(premises, all, s));
        assert(discharges(premises, all, n, t));
    }
}

/// A valid transcript with one line more that follows directly from what may be cited at
/// its end is valid.
pub proof fn lemma_valid_push(premises: Seq<Prop>, steps: Seq<Line>, last: Line)
    requires
        valid(premises, steps),
        !is_discharge(last),
        !is_assumption(last),
        forall|i: int|
            0 <= i < last.cited.len() ==> citable(
                premises,
                steps,
                (premises.len() + steps.len()) as int,
                #[trigger] last.cited[i],
            ),
        follows_directly(last, formulas_at(premises, steps, last.cited)),
    ensures
        valid(premises, steps.push(last)),
{
    let b = premises.len() as int;
    let end = b + steps.len();
    let all = steps.push(last);
    assert(all =~= steps + seq![last]);
    lemma_prefix(premises, steps, seq![last]);
    assert forall|n: int| b <= n < b + all.len() implies #[trigger] justified(premises, all, n) by {
        if n < end {
            assert(justified(premises, steps, n));
            lemma_prefix_justified(premises, steps, seq![last], n);
        } else {
            assert(all[n - b] == last);
            assert forall|i: int| 0 <= i < last.cited.len() implies citable(
                premises,
                all,
                n,
                #[trigger] last.cited[i],
            ) by {
                assert(citable(premises, steps, end, last.cited[i]));
            }
            assert forall|i: int| 0 <= i < last.cited.len() implies formula_at(
                premises,
                steps,
                #[trigger] last.cited[i],
            ) == formula_at(premises, all, last.cited[i]) by {
                assert(citable(premises, steps, end, last.cited[i]));
            }
            assert(formulas_at(premises, steps, last.cited) =~= formulas_at(
                premises,
                all,
                last.cited,
            ));
        }
    }
    assert forall|p: int|
        #![trigger all[p]]
        0 <= p < all.len() && is_assumption(all[p]) implies !citable(
        premises,
        all,
        b + all.len(),
        p + b,
    ) by {
        assert(p < steps.len());
        assert(steps[p] == all[p]);
        assert(!citable(premises, steps, end, p + b));
        let d = choose|d: int| b <= d < end && #[trigger] closes(premises, steps, d, p + b);
        assert(all[d - b] == steps[d - b]);
        assert(closes(premises, all, d, p + b));
    }
}

/// Whether the assumption at `p` is open at the line `n`.
spec fn open_at(premises: Seq<Prop>, steps: Seq<Line>, n: int, p: int) -> bool {
    &&& premises.len() <= p <= n
    &&& is_assumption(steps[p - premises.len()])
    &&& forall|d: int| premises.len() <= d <= n ==> !#[trigger] closes(premises, steps, d, p)
}

/// What follows directly from true formulas is true.
pub proof fn lemma_direct_sound(line: Line, fs: Seq<Prop>, v: Valuation)
    requires
        follows_directly(line, fs),
        all_true(fs, v),
    ensures
        eval(line.formula, v),
{
    if moved(line, fs) {
        let rule = choose|rule: MoveRule|
            line.rule == rule.label() && fs.len() == rule.arity() && #[trigger] rule.gives(
                fs[0],
                fs[1],
                fs[2],
            ).contains(line.formula);
        assert(eval(fs[0], v));
        if rule.arity() >= 2 {
            assert(eval(fs[1], v));
        }
        if rule.arity() == 3 {
            assert(eval(fs[2], v));
        }
        law_rules_sound(rule, fs[0], fs[1], fs[2], line.formula, v);
    } else if built(line, fs) {
        assert(eval(fs[0], v));
        if fs.len() == 2 {
            assert(eval(fs[1], v));
        }
    } else {
        let rule = choose|rule: EquivalenceRule|
            line.rule == rule.short_name() && #[trigger] rewrites(fs[0]).contains(
                (line.formula, rule),
            );
        law_rewrites_equivalent(fs[0], line.formula, rule);
        assert(eval(fs[0], v));
    }
}

/// A line is true wherever the premises and the assumptions open at it are.
proof fn lemma_line_true(premises: Seq<Prop>, steps: Seq<Line>, n: int, v: Valuation)
    requires
        all_justified(premises, steps),
        0 <= n < premises.len() + steps.len(),
        all_true(premises, v),
        forall|p: int|
            #[trigger] open_at(premises, steps, n, p) ==> eval(formula_at(premises, steps, p), v),
    ensures
        eval(formula_at(premises, steps, n), v),
    decreases n,
{
    let b = premises.len() as int;
    if n < b {
        assert(eval(premises[n], v));
    } else {
        assert(justified(premises, steps, n));
        let line = steps[n - b];
        if is_assumption(line) && line.cited.len() == 0 {
            assert(open_at(premises, steps, n, n));
        } else if !is_discharge(line) && !is_assumption(line) && (forall|i: int|
            0 <= i < line.cited.len() ==> citable(premises, steps, n, #[trigger] line.cited[i]))
            && follows_directly(line, formulas_at(premises, steps, line.cited)) {
            let fs = formulas_at(premises, steps, line.cited);
            assert forall|i: int| 0 <= i < fs.len() implies eval(#[trigger] fs[i], v) by {
                let c = line.cited[i];
                assert(citable(premises, steps, n, c));
                assert forall|p: int| #[trigger] open_at(premises, steps, c, p) implies eval(
                    formula_at(premises, steps, p),
                    v,
                ) by {
                    lemma_still_open(premises, steps, n, c, p);
                    assert(open_at(premises, steps, n, p));
                }
                lemma_line_true(premises, steps, c, v);
            }
            lemma_direct_sound(line, fs, v);
        } else {
            let t = if discharges(premises, steps, n, ProofTechnique::ConditionalProof) {
                ProofTechnique::ConditionalProof
            } else {
                ProofTechnique::IndirectProof
            };
            assert(discharges(premises, steps, n, t));
            let s = line.cited[0];
            let a = formula_at(premises, steps, s);
            let u = choose|u: int|
                #[trigger] citable(premises, steps, n, u) && discharge(
                    t,
                    a,
                    formula_at(premises, steps, u),
                ) == Some(line.formula);
            if eval(a, v) {
                assert forall|p: int| #[trigger] open_at(premises, steps, u, p) implies eval(
                    formula_at(premises, steps, p),
                    v,
                ) by {
                    lemma_still_open(premises, steps, n, u, p);
                    if p < s {
                        assert(open_at(premises, steps, n, p));
                    } else if p > s {
                        assert(is_assumption(steps[p - b]));
                        assert(!citable(premises, steps, n, p));
                    }
                }
                lemma_line_true(premises, steps, u, v);
            }
            reveal_with_fuel(eval, 3);
        }
    }
}

/// An assumption open at a line that may be cited at `n` is closed by no line before `n`.
proof fn lemma_still_open(premises: Seq<Prop>, steps: Seq<Line>, n: int, c: int, p: int)
    requires
        citable(premises, steps, n, c),
        open_at(premises, steps, c, p),
    ensures
        citable(premises, steps, n, p),
{
    assert forall|d: int| premises.len() <= d < n implies !#[trigger] closes(
        premises,
        steps,
        d,
        p,
    ) by {
        if d > c {
            assert(!closes(premises, steps, d, c));
        }
    }
}

/// What a valid transcript ends with follows from its premises.
pub proof fn law_valid_sound(premises: Seq<Prop>, steps: Seq<Line>)
    requires
        valid(premises, steps),
        steps.len() > 0,
    ensures
        entails(premises, steps.last().formula),
{
    let n = premises.len() + steps.len() - 1;
    assert forall|v: Valuation| #[trigger] all_true(premises, v) implies eval(
        steps.last().formula,
        v,
    ) by {
        assert forall|p: int| #[trigger] open_at(premises, steps, n, p) implies eval(
            formula_at(premises, steps, p),
            v,
        ) by {
            assert(is_assumption(steps[p - premises.len()]));
            assert(!citable(
                premises,
                steps,
                (premises.len() + steps.len()) as int,
                p - premises.len() + premises.len(),
            ));
        }
        lemma_line_true(premises, steps, n, v);
    }
}

} // verus!
