//! Verification: whether each line of a proof is justified.

use vstd::prelude::*;

use crate::models::formula::{
    all_true, contains, entails, eval, is_part, law_subformulas, p_and, p_implies, p_not, p_or,
    subformula_seq, views,
};
use crate::models::formula::{Formula, Prop, Valuation};
use crate::models::lists::positions;
use crate::models::proofs::{reaches_conclusion, row_views};
use crate::models::proofs::{Draft, Justification, Proof, ProofLine, Reason};
use crate::models::rules::equivalence::{
    forms, law_forms_by_schema, law_forms_equivalent, law_replace_all_equivalent, replace_all, schema,
    EquivalenceRule,
};
use crate::models::rules::inference::{
    are_three, are_two, instance, law_conclusions_follow, law_instances_permitted,
    law_only_instances_permitted, permits, ref_views, InferenceRule,
};
use crate::models::rules::technique::{discharge, ProofTechnique};
use crate::models::scopes::{accessible, depth_at, lemma_depth_zero, Scope, Span};

verus! {

/// What is wrong with a line.
#[derive(Debug, Clone, Copy, PartialEq, Eq, Structural)]
pub enum Fault {
    /// The line is no premise of the theorem.
    NotAPremise,
    /// No subproof starts with the assumption.
    NoSubproofOpened,
    /// A cited line does not come earlier or is sealed in a subproof.
    OutOfReach,
    /// The inference rule does not conclude the formula from the cited lines.
    NotInferred,
    /// The equivalence rule does not rewrite the cited line to the formula.
    NotEquivalent,
    /// No subproof with that technique ends just before the line.
    NoSuchSubproof,
    /// The subproof does not prove the formula.
    NotDischarged,
}

impl Fault {
    /// The fault in words.
    pub open spec fn words(self) -> Seq<char> {
        match self {
            Fault::NotAPremise => "not a premise of the theorem"@,
            Fault::NoSubproofOpened => "no subproof starts with this assumption"@,
            Fault::OutOfReach => "a cited line is not accessible"@,
            Fault::NotInferred => "the rule does not give this formula"@,
            Fault::NotEquivalent => "the rule does not rewrite the line to this formula"@,
            Fault::NoSuchSubproof => "no such subproof ends here"@,
            Fault::NotDischarged => "the subproof does not prove this formula"@,
        }
    }

    /// The fault in words.
    pub fn message(&self) -> (r: String)
        ensures
            r@ == self.words(),
    {
        let s = match self {
            Fault::NotAPremise => "not a premise of the theorem",
            Fault::NoSubproofOpened => "no subproof starts with this assumption",
            Fault::OutOfReach => "a cited line is not accessible",
            Fault::NotInferred => "the rule does not give this formula",
            Fault::NotEquivalent => "the rule does not rewrite the line to this formula",
            Fault::NoSuchSubproof => "no such subproof ends here",
            Fault::NotDischarged => "the subproof does not prove this formula",
        };
        s.to_owned()
    }
}

/// The formula that addition joined to `p` in `c`, on either side.
pub open spec fn adjunct(p: Prop, c: Prop) -> Option<Prop> {
    match c {
        Prop::Or(l, r) => if *l == p {
            Some(*r)
        } else if *r == p {
            Some(*l)
        } else {
            None
        },
        _ => None,
    }
}

/// What addition needs besides its premise.
pub open spec fn extra_for(ps: Seq<Prop>, c: Prop) -> Option<Prop> {
    if ps.len() == 1 {
        adjunct(ps[0], c)
    } else {
        None
    }
}

/// Whether the rule concludes `c` from the premises, in whatever order they are cited.
pub open spec fn infers(rule: InferenceRule, ps: Seq<Prop>, c: Prop) -> bool {
    permits(rule, ps, extra_for(ps, c), c)
}

/// Whether the rule rewrites `source` to `target`: some subformula of `source`, replaced
/// wherever it occurs by one of its forms, gives `target`.
pub open spec fn rewrites_to(rule: EquivalenceRule, source: Prop, target: Prop) -> bool {
    exists|sub: Prop, form: Prop|
        subformula_seq(source).contains(sub) && forms(rule, sub).contains(form)
            && #[trigger] replace_all(source, sub, form) == target
}

/// Whether line `n` may cite line `m`.
pub open spec fn citable(d: Draft, n: int, m: int) -> bool {
    1 <= m && accessible(d.spans, n, m)
}

/// The formula of a line.
pub open spec fn line_formula(d: Draft, n: int) -> Prop {
    d.rows[n - 1].formula
}

/// The formulas of lines.
pub open spec fn line_formulas(d: Draft, lines: Seq<int>) -> Seq<Prop> {
    Seq::new(lines.len(), |i: int| line_formula(d, lines[i]))
}

/// Whether line `n` may discharge the subproof from `start` to `end`: it comes right
/// after it, the subproof was opened with the same technique, and its last line is sealed
/// off from line `n` by no other scope.
pub open spec fn ends_subproof(d: Draft, n: int, t: ProofTechnique, start: int, end: int) -> bool {
    let span = Span { start, end: Some(end) };
    &&& n == end + 1
    &&& 1 <= start <= end
    &&& d.spans.contains(span)
    &&& d.rows[start - 1].reason == Reason::Assumption(t)
    &&& forall|i: int|
        0 <= i < d.spans.len() && (#[trigger] d.spans[i]).holds(end) && d.spans[i] != span
            ==> d.spans[i].holds(n)
}

/// Whether a scope starts at line `n` and holds it.
pub open spec fn opens_scope(d: Draft, n: int) -> bool {
    exists|i: int|
        0 <= i < d.spans.len() && (#[trigger] d.spans[i]).start == n && d.spans[i].holds(n)
}

/// What is wrong with line `n`.
pub open spec fn fault_at(d: Draft, n: int) -> Option<Fault> {
    let formula = line_formula(d, n);
    match d.rows[n - 1].reason {
        Reason::Premise => if d.premises.contains(formula) {
            None
        } else {
            Some(Fault::NotAPremise)
        },
        Reason::Assumption(_) => if opens_scope(d, n) {
            None
        } else {
            Some(Fault::NoSubproofOpened)
        },
        Reason::Inference(rule, lines) => if exists|i: int|
            0 <= i < lines.len() && !citable(d, n, #[trigger] lines[i]) {
            Some(Fault::OutOfReach)
        } else if infers(rule, line_formulas(d, lines), formula) {
            None
        } else {
            Some(Fault::NotInferred)
        },
        Reason::Equivalence(rule, line) => if !citable(d, n, line) {
            Some(Fault::OutOfReach)
        } else if rewrites_to(rule, line_formula(d, line), formula) {
            None
        } else {
            Some(Fault::NotEquivalent)
        },
        Reason::Discharge(t, start, end) => if !ends_subproof(d, n, t, start, end) {
            Some(Fault::NoSuchSubproof)
        } else if discharge(t, line_formula(d, start), line_formula(d, end)) == Some(formula) {
            None
        } else {
            Some(Fault::NotDischarged)
        },
    }
}

/// Whether every line is justified.
pub open spec fn verified(d: Draft) -> bool {
    forall|n: int| 1 <= n <= d.rows.len() ==> #[trigger] fault_at(d, n) is None
}

/// Whether the assumptions of all subproofs that hold line `n` are true.
pub open spec fn assumptions_true(d: Draft, n: int, v: Valuation) -> bool {
    forall|i: int|
        0 <= i < d.spans.len() && (#[trigger] d.spans[i]).holds(n) ==> eval(
            line_formula(d, d.spans[i].start),
            v,
        )
}

/// A justified line is true wherever the premises and the assumptions in force are.
proof fn lemma_line_sound(d: Draft, n: int, v: Valuation)
    requires
        verified(d),
        1 <= n <= d.rows.len(),
        all_true(d.premises, v),
        assumptions_true(d, n, v),
    ensures
        eval(line_formula(d, n), v),
    decreases n,
{
    let formula = line_formula(d, n);
    assert(fault_at(d, n) is None);
    match d.rows[n - 1].reason {
        Reason::Premise => {
            let i = choose|i: int| 0 <= i < d.premises.len() && d.premises[i] == formula;
            assert(eval(d.premises[i], v));
        },
        Reason::Assumption(_) => {
            let i = choose|i: int|
                0 <= i < d.spans.len() && (#[trigger] d.spans[i]).start == n && d.spans[i].holds(n);
            assert(eval(line_formula(d, d.spans[i].start), v));
        },
        Reason::Inference(rule, lines) => {
            let ps = line_formulas(d, lines);
            assert forall|i: int| 0 <= i < ps.len() implies eval(#[trigger] ps[i], v) by {
                assert(citable(d, n, lines[i]));
                lemma_in_force(d, n, lines[i], v);
                lemma_line_sound(d, lines[i], v);
            }
            law_conclusions_follow(rule, ps, extra_for(ps, formula), formula);
            assert(all_true(ps, v));
        },
        Reason::Equivalence(rule, line) => {
            let source = line_formula(d, line);
            lemma_in_force(d, n, line, v);
            lemma_line_sound(d, line, v);
            let (sub, form) = choose|sub: Prop, form: Prop|
                subformula_seq(source).contains(sub) && forms(rule, sub).contains(form)
                    && #[trigger] replace_all(source, sub, form) == formula;
            law_forms_equivalent(rule, sub, form);
            law_replace_all_equivalent(source, sub, form);
            assert(eval(source, v) == eval(formula, v));
        },
        Reason::Discharge(t, start, end) => {
            let span = Span { start, end: Some(end) };
            let a = line_formula(d, start);
            if eval(a, v) {
                assert(assumptions_true(d, end, v)) by {
                    assert forall|i: int|
                        0 <= i < d.spans.len() && (#[trigger] d.spans[i]).holds(
                            end,
                        ) implies eval(line_formula(d, d.spans[i].start), v) by {
                        if d.spans[i] != span {
                            assert(d.spans[i].holds(n));
                        }
                    }
                }
                lemma_line_sound(d, end, v);
            }
            reveal_with_fuel(eval, 2);
        },
    }
}

/// Where line `n` may cite line `m`, the assumptions in force at `m` are in force at `n`.
proof fn lemma_in_force(d: Draft, n: int, m: int, v: Valuation)
    requires
        accessible(d.spans, n, m),
        assumptions_true(d, n, v),
    ensures
        assumptions_true(d, m, v),
{
    assert forall|i: int| 0 <= i < d.spans.len() && (#[trigger] d.spans[i]).holds(
        m,
    ) implies eval(line_formula(d, d.spans[i].start), v) by {
        assert(d.spans[i].holds(n));
    }
}

/// Verification is sound: where every line is justified and the proof reaches its
/// conclusion, the conclusion follows from the premises.
pub proof fn law_verified_sound(d: Draft)
    requires
        verified(d),
        reaches_conclusion(d),
    ensures
        entails(d.premises, d.conclusion),
{
    let i = choose|i: int|
        0 <= i < d.rows.len() && (#[trigger] d.rows[i]).formula == d.conclusion
            && depth_at(d.spans, i + 1) == 0;
    lemma_depth_zero(d.spans, i + 1);
    assert forall|v: Valuation| #[trigger] all_true(d.premises, v) implies eval(
        d.conclusion,
        v,
    ) by {
        assert(assumptions_true(d, i + 1, v));
        lemma_line_sound(d, i + 1, v);
    }
}

/// A rule is found to conclude a formula exactly where this is a textbook instance of it,
/// in whatever order the premises are cited.
pub proof fn law_infers_instances(rule: InferenceRule, ps: Seq<Prop>, c: Prop)
    ensures
        infers(rule, ps, c) <==> instance(rule, ps, c),
{
    let extra = extra_for(ps, c);
    if infers(rule, ps, c) {
        law_only_instances_permitted(rule, ps, extra, c);
        if ps.len() == 1 {
            assert(ps =~= seq![ps[0]]);
        }
        match rule {
            InferenceRule::Simplification => {
                let p = choose|p: Prop| #[trigger] p_and(p, c) == ps[0] || p_and(c, p) == ps[0];
                assert(ps == seq![p_and(p, c)] || ps == seq![p_and(c, p)]);
            },
            InferenceRule::Addition => {
                assert(c == p_or(ps[0], extra->0) || c == p_or(extra->0, ps[0]));
                assert(p_or(ps[0], extra->0) == p_or(ps[0], extra->0));
            },
            _ => {},
        }
    }
    if instance(rule, ps, c) {
        lemma_instance_inferred(rule, ps, c);
    }
}

/// A rule is found to conclude every instance of it.
proof fn lemma_instance_inferred(rule: InferenceRule, ps: Seq<Prop>, c: Prop)
    requires
        instance(rule, ps, c),
    ensures
        infers(rule, ps, c),
{
    let extra = extra_for(ps, c);
    match rule {
        InferenceRule::ModusPonens => {
            let p = choose|p: Prop| #[trigger] are_two(ps, p_implies(p, c), p);
            law_instances_permitted(ps, extra, p, c, c, c);
        },
        InferenceRule::ModusTollens => {
            let (p, q) = choose|p: Prop, q: Prop| #[trigger]
                are_two(ps, p_implies(p, q), p_not(q)) && c == p_not(p);
            law_instances_permitted(ps, extra, p, q, c, c);
        },
        InferenceRule::DisjunctiveSyllogism => {
            if exists|p: Prop| #[trigger] are_two(ps, p_or(p, c), p_not(p)) {
                let p = choose|p: Prop| #[trigger] are_two(ps, p_or(p, c), p_not(p));
                law_instances_permitted(ps, extra, p, c, c, c);
            } else {
                let p = choose|p: Prop| #[trigger] are_two(ps, p_or(c, p), p_not(p));
                law_instances_permitted(ps, extra, c, p, c, c);
            }
        },
        InferenceRule::Simplification => {
            let p = choose|p: Prop|
                #![trigger p_and(p, c)]
                ps == seq![p_and(p, c)] || ps == seq![p_and(c, p)];
            law_instances_permitted(ps, extra, p, c, c, c);
            law_instances_permitted(ps, extra, c, p, c, c);
        },
        InferenceRule::Conjunction => {
            let (p, q) = choose|p: Prop, q: Prop| #[trigger]
                are_two(ps, p, q) && c == p_and(p, q);
            law_instances_permitted(ps, extra, p, q, c, c);
        },
        InferenceRule::HypotheticalSyllogism => {
            let (p, q, r) = choose|p: Prop, q: Prop, r: Prop|
                #![trigger are_two(ps, p_implies(p, q), p_implies(q, r))]
                are_two(ps, p_implies(p, q), p_implies(q, r)) && c == p_implies(p, r);
            law_instances_permitted(ps, extra, p, q, r, c);
        },
        InferenceRule::Addition => {
            let (p, q) = choose|p: Prop, q: Prop|
                #![trigger p_or(p, q)]
                ps == seq![p] && (c == p_or(p, q) || c == p_or(q, p));
            law_instances_permitted(ps, extra, p, q, c, c);
        },
        InferenceRule::ConstructiveDilemma => {
            let (p, q, r, s) = choose|p: Prop, q: Prop, r: Prop, s: Prop|
                #![trigger are_three(ps, p_or(p, q), p_implies(p, r), p_implies(q, s))]
                are_three(ps, p_or(p, q), p_implies(p, r), p_implies(q, s)) && c == p_or(r, s);
            law_instances_permitted(ps, extra, p, q, r, s);
        },
        InferenceRule::Contradiction => {
            let p = choose|p: Prop| #[trigger] are_two(ps, p, p_not(p));
            law_instances_permitted(ps, extra, p, c, c, c);
        },
    }
}

/// Whether line `m` comes before line `n` and is sealed in no subproof that `n` is not in.
pub open spec fn in_reach(d: Draft, n: int, m: int) -> bool {
    1 <= m < n && forall|i: int|
        0 <= i < d.spans.len() && (#[trigger] d.spans[i]).start <= m && (d.spans[i].end matches Some(
            end,
        ) ==> m <= end) ==> (d.spans[i].end matches Some(end) ==> n <= end)
}

/// What is said of a line that is not justified: that it is no premise, or opens no
/// subproof; that it cites a line out of its reach, before anything is said of its rule; and
/// that it ends no subproof, before anything is said of what that proves.
pub proof fn law_faults(d: Draft, n: int)
    ensures
        ({
            let reason = d.rows[n - 1].reason;
            let fault = fault_at(d, n);
            &&& reason is Premise ==> fault is None || fault == Some(Fault::NotAPremise)
            &&& reason is Assumption ==> fault is None || fault == Some(Fault::NoSubproofOpened)
            &&& reason matches Reason::Inference(_, lines) ==> (fault == Some(Fault::OutOfReach)
                <==> exists|i: int|
                0 <= i < lines.len() && !in_reach(d, n, #[trigger] lines[i])) && (fault is None
                || fault == Some(Fault::OutOfReach) || fault == Some(Fault::NotInferred))
            &&& reason matches Reason::Equivalence(_, m) ==> (fault == Some(Fault::OutOfReach)
                <==> !in_reach(d, n, m)) && (fault is None || fault == Some(Fault::OutOfReach)
                || fault == Some(Fault::NotEquivalent))
            &&& reason matches Reason::Discharge(_, s, e) ==> (n != e + 1 || !d.spans.contains(
                Span { start: s, end: Some(e) },
            ) ==> fault == Some(Fault::NoSuchSubproof)) && (fault is None || fault == Some(
                Fault::NoSuchSubproof,
            ) || fault == Some(Fault::NotDischarged))
        }),
{
    assert forall|m: int| citable(d, n, m) <==> #[trigger] in_reach(d, n, m) by {
        lemma_citable(d, n, m);
    }
    if let Reason::Inference(_, lines) = d.rows[n - 1].reason {
        if exists|i: int| 0 <= i < lines.len() && !citable(d, n, #[trigger] lines[i]) {
            let i = choose|i: int| 0 <= i < lines.len() && !citable(d, n, #[trigger] lines[i]);
            assert(!in_reach(d, n, lines[i]));
        }
        if exists|i: int| 0 <= i < lines.len() && !in_reach(d, n, #[trigger] lines[i]) {
            let i = choose|i: int| 0 <= i < lines.len() && !in_reach(d, n, #[trigger] lines[i]);
            assert(!citable(d, n, lines[i]));
        }
    }
}

/// Lines in reach are those that may be cited.
proof fn lemma_citable(d: Draft, n: int, m: int)
    ensures
        citable(d, n, m) <==> in_reach(d, n, m),
{
    if citable(d, n, m) {
        assert forall|i: int|
            0 <= i < d.spans.len() && (#[trigger] d.spans[i]).start <= m && (
            d.spans[i].end matches Some(end) ==> m <= end) implies (
        d.spans[i].end matches Some(end) ==> n <= end) by {
            assert(d.spans[i].holds(m));
            assert(d.spans[i].holds(n));
        }
    }
    if in_reach(d, n, m) {
        assert forall|i: int| 0 <= i < d.spans.len() && (#[trigger] d.spans[i]).holds(
            m,
        ) implies d.spans[i].holds(n) by {}
    }
}

/// Different faults are told in different words.
pub proof fn law_faults_told_apart(a: Fault, b: Fault)
    ensures
        a.words() == b.words() ==> a == b,
{
    reveal_strlit("not a premise of the theorem");
    reveal_strlit("no subproof starts with this assumption");
    reveal_strlit("a cited line is not accessible");
    reveal_strlit("the rule does not give this formula");
    reveal_strlit("the rule does not rewrite the line to this formula");
    reveal_strlit("no such subproof ends here");
    reveal_strlit("the subproof does not prove this formula");
    if a.words() == b.words() {
        assert(a.words().len() == b.words().len());
    }
}

/// A line is found to be justified exactly where it is: a premise is one of the theorem;
/// an assumption opens a subproof; an inference is an instance of its rule over lines in
/// reach; a rewrite turns a part of a line in reach, wherever it occurs, into what a rule
/// gives of it; and a discharge comes right after a subproof of its technique, and states
/// what that proves.
pub proof fn law_justified_lines(d: Draft, n: int)
    ensures
        ({
            let row = d.rows[n - 1];
            fault_at(d, n) is None <==> match row.reason {
                Reason::Premise => d.premises.contains(row.formula),
                Reason::Assumption(_) => exists|i: int|
                    0 <= i < d.spans.len() && (#[trigger] d.spans[i]).start == n && (
                    d.spans[i].end matches Some(end) ==> n <= end),
                Reason::Inference(rule, lines) => (forall|i: int|
                    0 <= i < lines.len() ==> in_reach(d, n, #[trigger] lines[i])) && instance(
                    rule,
                    Seq::new(lines.len(), |i: int| d.rows[lines[i] - 1].formula),
                    row.formula,
                ),
                Reason::Equivalence(rule, m) => in_reach(d, n, m) && exists|x: Prop, y: Prop|
                    is_part(x, d.rows[m - 1].formula) && (schema(rule, x, y) || schema(rule, y, x))
                        && #[trigger] replace_all(d.rows[m - 1].formula, x, y) == row.formula,
                Reason::Discharge(t, s, e) => {
                    &&& n == e + 1
                    &&& 1 <= s <= e
                    &&& d.spans.contains(Span { start: s, end: Some(e) })
                    &&& d.rows[s - 1].reason == Reason::Assumption(t)
                    &&& forall|i: int|
                        0 <= i < d.spans.len() && (#[trigger] d.spans[i]).holds(e) && d.spans[i]
                            != (Span { start: s, end: Some(e) }) ==> d.spans[i].holds(n)
                    &&& match t {
                        ProofTechnique::ConditionalProof => row.formula == p_implies(
                            d.rows[s - 1].formula,
                            d.rows[e - 1].formula,
                        ),
                        ProofTechnique::IndirectProof => d.rows[e - 1].formula
                            == Prop::Contradiction && (d.rows[s - 1].formula == p_not(row.formula)
                            || (row.formula == p_not(d.rows[s - 1].formula) && !(
                        d.rows[s - 1].formula is Not))),
                    }
                },
            }
        }),
{
    let row = d.rows[n - 1];
    assert forall|m: int| citable(d, n, m) <==> #[trigger] in_reach(d, n, m) by {
        lemma_citable(d, n, m);
    }
    match row.reason {
        Reason::Premise => {},
        Reason::Assumption(_) => {
            if exists|i: int|
                0 <= i < d.spans.len() && (#[trigger] d.spans[i]).start == n && (
                d.spans[i].end matches Some(end) ==> n <= end) {
                let i = choose|i: int|
                    0 <= i < d.spans.len() && (#[trigger] d.spans[i]).start == n && (
                    d.spans[i].end matches Some(end) ==> n <= end);
                assert(d.spans[i].holds(n));
            }
        },
        Reason::Inference(rule, lines) => {
            let ps = Seq::new(lines.len(), |i: int| d.rows[lines[i] - 1].formula);
            assert(ps =~= line_formulas(d, lines));
            law_infers_instances(rule, ps, row.formula);
            if forall|i: int| 0 <= i < lines.len() ==> in_reach(d, n, #[trigger] lines[i]) {
                assert(forall|i: int| 0 <= i < lines.len() ==> citable(d, n, #[trigger] lines[i]));
            }
            if fault_at(d, n) is None {
                assert forall|i: int| 0 <= i < lines.len() implies in_reach(
                    d,
                    n,
                    #[trigger] lines[i],
                ) by {
                    assert(citable(d, n, lines[i]));
                }
            }
        },
        Reason::Equivalence(rule, m) => {
            let source = d.rows[m - 1].formula;
            assert(citable(d, n, m) <==> in_reach(d, n, m));
            if rewrites_to(rule, source, row.formula) {
                let (x, y) = choose|sub: Prop, form: Prop|
                    subformula_seq(source).contains(sub) && forms(rule, sub).contains(form)
                        && #[trigger] replace_all(source, sub, form) == row.formula;
                law_subformulas(source, x);
                law_forms_by_schema(rule, x, y);
                assert(replace_all(source, x, y) == row.formula);
            }
            if exists|x: Prop, y: Prop|
                is_part(x, source) && (schema(rule, x, y) || schema(rule, y, x))
                    && #[trigger] replace_all(source, x, y) == row.formula {
                let (x, y) = choose|x: Prop, y: Prop|
                    is_part(x, source) && (schema(rule, x, y) || schema(rule, y, x))
                        && #[trigger] replace_all(source, x, y) == row.formula;
                law_subformulas(source, x);
                law_forms_by_schema(rule, x, y);
                assert(replace_all(source, x, y) == row.formula);
            }
        },
        Reason::Discharge(t, s, e) => {},
    }
}

/// The formula that addition joined to `p` in `c`, on either side.
fn adjunct_of<'a>(p: &Formula, c: &'a Formula) -> (r: Option<&'a Formula>)
    ensures
        r matches Some(q) ==> adjunct(p@, c@) == Some(q@),
        r is None ==> adjunct(p@, c@) is None,
{
    match c {
        Formula::Or(l, r) => if l.same(p) {
            Some(&**r)
        } else if r.same(p) {
            Some(&**l)
        } else {
            None
        },
        _ => None,
    }
}

/// Whether the rule concludes `c` from the premises.
fn rule_infers(rule: InferenceRule, premises: &Vec<&Formula>, c: &Formula) -> (r: bool)
    ensures
        r == infers(rule, ref_views(premises@), c@),
{
    let extra = if premises.len() == 1 {
        adjunct_of(premises[0], c)
    } else {
        None
    };
    rule.verify(premises.as_slice(), c, extra)
}

/// Whether the rule rewrites `source` to `target`.
fn rule_rewrites(rule: EquivalenceRule, source: &Formula, target: &Formula) -> (r: bool)
    ensures
        r == rewrites_to(rule, source@, target@),
{
    let subs = source.subformulas();
    let mut i: usize = 0;
    while i < subs.len()
        invariant
            i <= subs@.len(),
            views(subs@) == subformula_seq(source@),
            forall|k: int, form: Prop|
                0 <= k < i && forms(rule, (#[trigger] subs@[k])@).contains(form)
                    ==> #[trigger] replace_all(source@, subs@[k]@, form) != target@,
        decreases subs@.len() - i,
    {
        let fs = rule.equivalent_forms(&subs[i]);
        let ghost sub = subs@[i as int]@;
        assert(views(subs@)[i as int] == sub);
        assert(subformula_seq(source@).contains(sub));
        let mut j: usize = 0;
        while j < fs.len()
            invariant
                j <= fs@.len(),
                i < subs@.len(),
                sub == subs@[i as int]@,
                subformula_seq(source@).contains(sub),
                views(fs@) == forms(rule, sub),
                forall|k: int|
                    0 <= k < j ==> #[trigger] replace_all(source@, sub, fs@[k]@) != target@,
            decreases fs@.len() - j,
        {
            let result = EquivalenceRule::replace_subformula(source, &subs[i], &fs[j]);
            assert(views(fs@)[j as int] == fs@[j as int]@);
            if result.same(target) {
                assert(forms(rule, sub).contains(fs@[j as int]@));
                return true;
            }
            j = j + 1;
        }
        assert forall|form: Prop| forms(rule, sub).contains(form) implies #[trigger] replace_all(
            source@,
            sub,
            form,
        ) != target@ by {
            let k = choose|k: int| 0 <= k < views(fs@).len() && views(fs@)[k] == form;
            assert(replace_all(source@, sub, fs@[k]@) != target@);
        }
        i = i + 1;
    }
    proof {
        if rewrites_to(rule, source@, target@) {
            let (sub, form) = choose|sub: Prop, form: Prop|
                subformula_seq(source@).contains(sub) && forms(rule, sub).contains(form)
                    && #[trigger] replace_all(source@, sub, form) == target@;
            let k = choose|k: int| 0 <= k < views(subs@).len() && views(subs@)[k] == sub;
            assert(subs@[k]@ == sub);
            assert(replace_all(source@, subs@[k]@, form) != target@);
        }
    }
    false
}

/// The formulas of the lines that an inference cites, if line `n` may cite them all.
fn cited_formulas<'a>(p: &'a Proof, n: usize, lines: &Vec<usize>) -> (r: Option<Vec<&'a Formula>>)
    requires
        n <= p.lines@.len(),
    ensures
        r is None <==> exists|i: int|
            0 <= i < lines@.len() && !citable(p@, n as int, #[trigger] positions(lines@)[i]),
        r matches Some(fs) ==> ref_views(fs@) == line_formulas(p@, positions(lines@)),
{
    let ghost ls = positions(lines@);
    let mut fs: Vec<&'a Formula> = Vec::new();
    let mut i: usize = 0;
    while i < lines.len()
        invariant
            i <= lines@.len(),
            n <= p.lines@.len(),
            ls == positions(lines@),
            forall|k: int| 0 <= k < i ==> citable(p@, n as int, #[trigger] ls[k]),
            ref_views(fs@) == line_formulas(p@, ls).take(i as int),
        decreases lines@.len() - i,
    {
        let m = lines[i];
        assert(ls[i as int] == m);
        if m < 1 || !p.is_line_accessible(n, m) {
            return None;
        }
        let ghost before = fs@;
        fs.push(&p.lines[m - 1].formula);
        assert(p@.rows[m - 1] == p.lines@[m - 1]@);
        assert(ref_views(fs@) =~= ref_views(before).push(line_formula(p@, m as int)));
        assert(line_formulas(p@, ls).take(i as int + 1) =~= line_formulas(p@, ls).take(
            i as int,
        ).push(line_formula(p@, m as int)));
        i = i + 1;
    }
    assert(line_formulas(p@, ls).take(ls.len() as int) =~= line_formulas(p@, ls));
    Some(fs)
}

/// Whether line `n` may discharge the subproof from `start` to `end`.
fn may_discharge(p: &Proof, n: usize, t: ProofTechnique, start: usize, end: usize) -> (r: bool)
    requires
        1 <= n <= p.lines@.len(),
    ensures
        r == ends_subproof(p@, n as int, t, start as int, end as int),
{
    if end != n - 1 || start < 1 || start > end {
        return false;
    }
    let ghost span = Span { start: start as int, end: Some(end as int) };
    assert((Scope { start, end: Some(end) })@ == span);
    assert(p@.rows[start - 1] == p.lines@[start - 1]@);
    let opened = match &p.lines[start - 1].justification {
        Justification::Assumption { technique } => *technique == t,
        _ => false,
    };
    opened && p.scopes.has(start, Some(end)) && p.scopes.others_hold(start, end, n)
}

/// What is wrong with line `n`.
pub fn line_fault(p: &Proof, n: usize) -> (r: Option<Fault>)
    requires
        1 <= n <= p.lines@.len(),
    ensures
        r == fault_at(p@, n as int),
{
    let line = &p.lines[n - 1];
    assert(p@.rows[n - 1] == line@);
    match &line.justification {
        Justification::Premise => {
            if contains(&p.theorem.premises, &line.formula) {
                None
            } else {
                Some(Fault::NotAPremise)
            }
        },
        Justification::Assumption { .. } => {
            if p.scopes.starts_at(n) {
                None
            } else {
                Some(Fault::NoSubproofOpened)
            }
        },
        Justification::Inference { rule, lines } => {
            match cited_formulas(p, n, lines) {
                None => Some(Fault::OutOfReach),
                Some(fs) => if rule_infers(*rule, &fs, &line.formula) {
                    None
                } else {
                    Some(Fault::NotInferred)
                },
            }
        },
        Justification::Equivalence { rule, line: m } => {
            if *m < 1 || !p.is_line_accessible(n, *m) {
                return Some(Fault::OutOfReach);
            }
            assert(p@.rows[*m - 1] == p.lines@[*m - 1]@);
            if rule_rewrites(*rule, &p.lines[*m - 1].formula, &line.formula) {
                None
            } else {
                Some(Fault::NotEquivalent)
            }
        },
        Justification::SubproofConclusion { technique, subproof_start, subproof_end } => {
            let start = *subproof_start;
            let end = *subproof_end;
            if !may_discharge(p, n, *technique, start, end) {
                return Some(Fault::NoSuchSubproof);
            }
            assert(p@.rows[start - 1] == p.lines@[start - 1]@);
            assert(p@.rows[end - 1] == p.lines@[end - 1]@);
            let proved = technique.get_conclusion(
                &p.lines[start - 1].formula,
                &p.lines[end - 1].formula,
            );
            let agrees = match &proved {
                Some(f) => f.same(&line.formula),
                None => false,
            };
            if agrees {
                None
            } else {
                Some(Fault::NotDischarged)
            }
        },
    }
}

/// Whether a line is marked with what is wrong with it.
pub open spec fn marked(line: ProofLine, fault: Option<Fault>) -> bool {
    &&& line.is_valid == fault is None
    &&& match line.validation_message {
        Some(text) => fault matches Some(f) && text@ == f.words(),
        None => fault is None,
    }
}

/// Verification of whole proofs.
pub struct ProofVerifier;

impl ProofVerifier {
    /// Marks every line with what is wrong with it.
    pub fn verify_proof(p: &mut Proof)
        ensures
            final(p)@ == old(p)@,
            final(p).theorem == old(p).theorem,
            final(p).lines@.len() == old(p).lines@.len(),
            forall|i: int|
                0 <= i < final(p).lines@.len() ==> marked(
                    #[trigger] final(p).lines@[i],
                    fault_at(old(p)@, i + 1),
                ),
            forall|i: int|
                0 <= i < final(p).lines@.len() ==> ((#[trigger] final(p).lines@[i]).is_valid
                    <==> fault_at(old(p)@, i + 1) is None),
            forall|i: int|
                0 <= i < final(p).lines@.len() ==> ((#[trigger] final(p).lines@[i]).validation_message is None <==> fault_at(old(p)@, i + 1) is None),
    {
        let ghost d = p@;
        let ghost theorem = p.theorem;
        let ghost count = p.lines@.len();
        let mut i: usize = 0;
        while i < p.lines.len()
            invariant
                i <= p.lines@.len(),
                p.lines@.len() == count,
                p@ == d,
                p.theorem == theorem,
                forall|j: int|
                    0 <= j < i ==> marked(#[trigger] p.lines@[j], fault_at(d, j + 1)),
            decreases p.lines@.len() - i,
        {
            let fault = line_fault(p, i + 1);
            let line = ProofLine {
                line_number: p.lines[i].line_number,
                formula: p.lines[i].formula.clone(),
                justification: p.lines[i].justification.clone(),
                depth: p.lines[i].depth,
                is_valid: fault.is_none(),
                validation_message: match &fault {
                    Some(f) => Some(f.message()),
                    None => None,
                },
            };
            let ghost before = p.lines@;
            p.lines.set(i, line);
            assert(row_views(p.lines@) =~= row_views(before));
            assert(p@ == d);
            i = i + 1;
        }
    }
}

} // verus!
