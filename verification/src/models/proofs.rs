//! Proofs: numbered lines with their justifications, and the scopes of their subproofs.

use vstd::prelude::*;
use vstd::string::StringExecFns;

use crate::models::formula::{views, Formula, Prop};
use crate::models::lists::{copy_positions, positions};
use crate::models::numbers::{append_decimal, decimal};
use crate::models::rules::equivalence::EquivalenceRule;
use crate::models::rules::inference::InferenceRule;
use crate::models::rules::technique::{law_technique_names, ProofTechnique};
use crate::models::scopes::{accessible, closed_at, depth_at, last_open, open_count};
use crate::models::scopes::{
    lemma_depth_zero, lemma_last_open, lemma_open_count, Scopes, Span,
};
use crate::models::theorem::Theorem;

verus! {

/// A justification, as a value. Lines are cited by their numbers.
pub enum Reason {
    Premise,
    Assumption(ProofTechnique),
    Inference(InferenceRule, Seq<int>),
    Equivalence(EquivalenceRule, int),
    Discharge(ProofTechnique, int, int),
}

/// The lines that a justification refers to.
pub open spec fn referenced(reason: Reason) -> Seq<int> {
    match reason {
        Reason::Premise | Reason::Assumption(_) => seq![],
        Reason::Inference(_, lines) => lines,
        Reason::Equivalence(_, line) => seq![line],
        Reason::Discharge(_, start, end) => seq![start, end],
    }
}

/// Line numbers, separated by commas.
pub open spec fn numbers_text(lines: Seq<int>) -> Seq<char>
    decreases lines.len(),
{
    if lines.len() == 0 {
        seq![]
    } else if lines.len() == 1 {
        decimal(lines[0] as nat)
    } else {
        numbers_text(lines.drop_last()) + ","@ + decimal(lines.last() as nat)
    }
}

/// A justification as text.
pub open spec fn reason_text(reason: Reason) -> Seq<char> {
    match reason {
        Reason::Premise => "Premise"@,
        Reason::Assumption(t) => t.assumption_name(),
        Reason::Inference(rule, lines) => rule.short_name() + " "@ + numbers_text(lines),
        Reason::Equivalence(rule, line) => rule.short_name() + " "@ + decimal(line as nat),
        Reason::Discharge(t, start, end) => t.short_name() + " "@ + decimal(start as nat) + "-"@
            + decimal(end as nat),
    }
}

/// How a line of a proof is justified.
#[derive(Debug)]
#[allow(inconsistent_fields)]
pub enum Justification {
    /// A premise of the theorem.
    Premise,
    /// The assumption that opens a subproof.
    Assumption { technique: ProofTechnique },
    /// An inference rule, applied to whole lines.
    Inference { rule: InferenceRule, lines: Vec<usize> },
    /// An equivalence rule, applied to a subformula of a line.
    Equivalence { rule: EquivalenceRule, line: usize },
    /// The discharge of the subproof that runs from one line to another.
    SubproofConclusion { technique: ProofTechnique, subproof_start: usize, subproof_end: usize },
}

impl View for Justification {
    type V = Reason;

    open spec fn view(&self) -> Reason {
        match *self {
            Justification::Premise => Reason::Premise,
            Justification::Assumption { technique } => Reason::Assumption(technique),
            Justification::Inference { rule, lines } => Reason::Inference(rule, positions(lines@)),
            Justification::Equivalence { rule, line } => Reason::Equivalence(rule, line as int),
            Justification::SubproofConclusion {
                technique,
                subproof_start,
                subproof_end,
            } => Reason::Discharge(technique, subproof_start as int, subproof_end as int),
        }
    }
}

impl Clone for Justification {
    fn clone(&self) -> (r: Justification)
        ensures
            r@ == self@,
    {
        match self {
            Justification::Premise => Justification::Premise,
            Justification::Assumption { technique } => Justification::Assumption {
                technique: *technique,
            },
            Justification::Inference { rule, lines } => Justification::Inference {
                rule: *rule,
                lines: copy_positions(lines),
            },
            Justification::Equivalence { rule, line } => Justification::Equivalence {
                rule: *rule,
                line: *line,
            },
            Justification::SubproofConclusion {
                technique,
                subproof_start,
                subproof_end,
            } => Justification::SubproofConclusion {
                technique: *technique,
                subproof_start: *subproof_start,
                subproof_end: *subproof_end,
            },
        }
    }
}

/// Appends line numbers, separated by commas.
fn append_numbers(out: &mut String, lines: &Vec<usize>)
    ensures
        final(out)@ == old(out)@ + numbers_text(positions(lines@)),
{
    let ghost start = out@;
    let ghost ps = positions(lines@);
    let mut i: usize = 0;
    assert(ps.take(0) =~= seq![]);
    assert(out@ =~= start + numbers_text(ps.take(0)));
    while i < lines.len()
        invariant
            i <= lines@.len(),
            ps == positions(lines@),
            out@ == start + numbers_text(ps.take(i as int)),
        decreases lines@.len() - i,
    {
        let ghost t = ps.take(i as int + 1);
        let ghost before = out@;
        assert(t.drop_last() =~= ps.take(i as int));
        assert(t.last() == lines@[i as int]);
        if i > 0 {
            out.append(",");
        }
        append_decimal(out, lines[i]);
        if i > 0 {
            assert(out@ =~= start + (numbers_text(ps.take(i as int)) + ","@ + decimal(
                lines@[i as int] as nat,
            )));
        } else {
            assert(out@ =~= start + decimal(lines@[i as int] as nat));
        }
        i = i + 1;
    }
    assert(ps.take(ps.len() as int) =~= ps);
}

impl Justification {
    /// The lines that the justification refers to.
    pub fn referenced_lines(&self) -> (r: Vec<usize>)
        ensures
            positions(r@) == referenced(self@),
    {
        match self {
            Justification::Premise | Justification::Assumption { .. } => {
                let r: Vec<usize> = Vec::new();
                assert(positions(r@) =~= seq![]);
                r
            },
            Justification::Inference { lines, .. } => copy_positions(lines),
            Justification::Equivalence { line, .. } => {
                let r: Vec<usize> = vec![*line];
                assert(positions(r@) =~= seq![*line as int]);
                r
            },
            Justification::SubproofConclusion { subproof_start, subproof_end, .. } => {
                let r: Vec<usize> = vec![*subproof_start, *subproof_end];
                assert(positions(r@) =~= seq![*subproof_start as int, *subproof_end as int]);
                r
            },
        }
    }

    /// The justification as text, such as `MP 1,2`.
    pub fn display_string(&self) -> (r: String)
        ensures
            r@ == reason_text(self@),
    {
        let mut r = String::new();
        match self {
            Justification::Premise => {
                r.append("Premise");
            },
            Justification::Assumption { technique } => {
                r.append(technique.assumption_abbreviation());
            },
            Justification::Inference { rule, lines } => {
                r.append(rule.abbreviation());
                r.append(" ");
                append_numbers(&mut r, lines);
            },
            Justification::Equivalence { rule, line } => {
                r.append(rule.abbreviation());
                r.append(" ");
                append_decimal(&mut r, *line);
            },
            Justification::SubproofConclusion { technique, subproof_start, subproof_end } => {
                r.append(technique.abbreviation());
                r.append(" ");
                append_decimal(&mut r, *subproof_start);
                r.append("-");
                append_decimal(&mut r, *subproof_end);
            },
        }
        assert(r@ =~= reason_text(self@));
        r
    }
}

/// A line of a proof, as a value.
pub struct Row {
    pub number: int,
    pub formula: Prop,
    pub reason: Reason,
    pub depth: nat,
}

/// A proof, as a value: what it is to prove, what it says and how its subproofs lie.
pub struct Draft {
    pub premises: Seq<Prop>,
    pub conclusion: Prop,
    pub rows: Seq<Row>,
    pub spans: Seq<Span>,
}

/// The line of the premise at a position.
pub open spec fn premise_row(premises: Seq<Prop>, i: int) -> Row {
    Row { number: i + 1, formula: premises[i], reason: Reason::Premise, depth: 0 }
}

/// A proof that holds the premises alone.
pub open spec fn drafted(premises: Seq<Prop>, conclusion: Prop) -> Draft {
    Draft {
        premises,
        conclusion,
        rows: Seq::new(premises.len(), |i: int| premise_row(premises, i)),
        spans: seq![],
    }
}

/// A proof with one line more, at the depth of the innermost open scope.
pub open spec fn with_line(d: Draft, formula: Prop, reason: Reason) -> Draft {
    Draft {
        rows: d.rows.push(
            Row { number: d.rows.len() as int + 1, formula, reason, depth: open_count(d.spans) },
        ),
        ..d
    }
}

/// A proof in which an assumption opens a subproof.
pub open spec fn with_assumption(d: Draft, formula: Prop, t: ProofTechnique) -> Draft {
    with_line(
        Draft { spans: d.spans.push(Span { start: d.rows.len() as int + 1, end: None }), ..d },
        formula,
        Reason::Assumption(t),
    )
}

/// A proof in which the innermost subproof is discharged; the same proof, where none is
/// open.
pub open spec fn with_discharge(d: Draft, formula: Prop, t: ProofTechnique) -> Draft {
    match last_open(d.spans) {
        Some(i) => with_line(
            Draft { spans: closed_at(d.spans, d.rows.len() as int), ..d },
            formula,
            Reason::Discharge(t, d.spans[i].start, d.rows.len() as int),
        ),
        None => d,
    }
}

/// Whether a proof reaches its conclusion: no subproof is open, and a line outside all
/// subproofs is the conclusion.
pub open spec fn reaches_conclusion(d: Draft) -> bool {
    &&& last_open(d.spans) is None
    &&& exists|i: int|
        0 <= i < d.rows.len() && (#[trigger] d.rows[i]).formula == d.conclusion && depth_at(
            d.spans,
            i + 1,
        ) == 0
}

/// What a justification refers to, kind by kind: a premise and an assumption refer to no
/// line, a rule to the lines that it is applied to, and a discharge to the first and the
/// last line of its subproof.
pub proof fn law_referenced(reason: Reason, n: int)
    ensures
        referenced(reason).contains(n) <==> match reason {
            Reason::Premise | Reason::Assumption(_) => false,
            Reason::Inference(_, lines) => lines.contains(n),
            Reason::Equivalence(_, line) => n == line,
            Reason::Discharge(_, start, end) => n == start || n == end,
        },
        reason matches Reason::Inference(_, lines) ==> referenced(reason) == lines,
        reason matches Reason::Discharge(_, start, end) ==> referenced(reason).len() == 2
            && referenced(reason)[0] == start && referenced(reason)[1] == end,
{
    match reason {
        Reason::Equivalence(_, line) => {
            assert(referenced(reason)[0] == line);
        },
        Reason::Discharge(_, start, end) => {
            assert(referenced(reason)[0] == start && referenced(reason)[1] == end);
        },
        _ => {},
    }
}

/// Two lists of line numbers are written with a comma between them, and a single number by
/// itself.
pub proof fn law_numbers_joined(a: Seq<int>, b: Seq<int>)
    requires
        a.len() > 0,
        b.len() > 0,
    ensures
        numbers_text(a + b) == numbers_text(a) + ","@ + numbers_text(b),
        a.len() == 1 ==> numbers_text(a) == decimal(a[0] as nat),
    decreases b.len(),
{
    let ab = a + b;
    let t = b.drop_last();
    assert(ab.drop_last() =~= a + t);
    assert(ab.last() == b.last());
    if b.len() == 1 {
        assert(a + t =~= a);
    } else {
        law_numbers_joined(a, t);
        assert(numbers_text(ab) =~= numbers_text(a) + ","@ + numbers_text(b));
    }
}

/// A justification is told by the name of what justifies the line, and the lines that it
/// refers to: for a discharge, the first and the last with a dash between them.
pub proof fn law_reason_text(reason: Reason)
    ensures
        reason is Premise ==> reason_text(reason) == "Premise"@,
        reason matches Reason::Assumption(t) ==> reason_text(reason) == "A"@ + t.short_name(),
        reason matches Reason::Inference(rule, lines) ==> reason_text(reason) == rule.short_name()
            + " "@ + numbers_text(referenced(reason)),
        reason matches Reason::Equivalence(rule, line) ==> reason_text(reason)
            == rule.short_name() + " "@ + numbers_text(referenced(reason)),
        reason matches Reason::Discharge(t, start, end) ==> reason_text(reason) == t.short_name()
            + " "@ + numbers_text(seq![start]) + "-"@ + numbers_text(seq![end]),
{
    if let Reason::Assumption(t) = reason {
        law_technique_names(t);
    }
}

/// A new line comes last, under the next number, as deep as scopes are open; nothing else
/// changes.
pub proof fn law_line_added(d: Draft, formula: Prop, reason: Reason)
    ensures
        ({
            let e = with_line(d, formula, reason);
            &&& e.rows.len() == d.rows.len() + 1
            &&& e.rows.drop_last() == d.rows
            &&& e.rows.last().formula == formula
            &&& e.rows.last().reason == reason
            &&& e.rows.last().number == e.rows.len()
            &&& e.rows.last().depth == open_count(d.spans)
            &&& e.spans == d.spans && e.premises == d.premises && e.conclusion == d.conclusion
        }),
{
    assert(with_line(d, formula, reason).rows.drop_last() =~= d.rows);
}

/// A subproof lies between its assumption and its discharge. Whatever lines come between,
/// the assumption is one deeper than what is around it, the discharge refers to the first
/// and the last line of the subproof and is no deeper than what is around it, and the one
/// scope that is new covers just the lines from the assumption to the one before the
/// discharge.
pub proof fn law_subproof(
    d: Draft,
    assumption: Prop,
    t: ProofTechnique,
    inner: Draft,
    formula: Prop,
    u: ProofTechnique,
)
    requires
        inner.spans == with_assumption(d, assumption, t).spans,
    ensures
        ({
            let opened = with_assumption(d, assumption, t);
            let n = d.rows.len() as int;
            &&& opened.rows.len() == n + 1
            &&& opened.rows.drop_last() == d.rows
            &&& opened.rows.last().formula == assumption
            &&& opened.rows.last().reason == Reason::Assumption(t)
            &&& opened.rows.last().depth == open_count(d.spans) + 1
            &&& with_discharge(inner, formula, u).rows == inner.rows.push(
                Row {
                    number: inner.rows.len() as int + 1,
                    formula,
                    reason: Reason::Discharge(u, n + 1, inner.rows.len() as int),
                    depth: open_count(d.spans),
                },
            )
            &&& with_discharge(inner, formula, u).spans == d.spans.push(
                Span { start: n + 1, end: Some(inner.rows.len() as int) },
            )
        }),
{
    let n = d.rows.len() as int;
    let end = inner.rows.len() as int;
    let pushed = d.spans.push(Span { start: n + 1, end: None });
    let closed = d.spans.push(Span { start: n + 1, end: Some(end) });
    assert(with_assumption(d, assumption, t).rows.drop_last() =~= d.rows);
    assert(pushed.drop_last() =~= d.spans);
    assert(closed.drop_last() =~= d.spans);
    assert(last_open(pushed) == Some(d.spans.len() as int));
    assert(closed_at(pushed, end) =~= closed);
}

/// Where no subproof is open, there is nothing to discharge.
pub proof fn law_nothing_to_discharge(d: Draft, formula: Prop, t: ProofTechnique)
    requires
        open_count(d.spans) == 0,
    ensures
        with_discharge(d, formula, t) == d,
{
    lemma_open_count(d.spans);
}

/// A proof reaches its conclusion exactly where all subproofs are closed and the conclusion
/// stands on a line that no subproof holds.
pub proof fn law_conclusion_reached(d: Draft)
    ensures
        reaches_conclusion(d) <==> {
            &&& forall|k: int| 0 <= k < d.spans.len() ==> (#[trigger] d.spans[k]).end is Some
            &&& exists|i: int|
                0 <= i < d.rows.len() && (#[trigger] d.rows[i]).formula == d.conclusion
                    && forall|k: int|
                    0 <= k < d.spans.len() ==> !((#[trigger] d.spans[k]).start <= i + 1
                        && match d.spans[k].end {
                        Some(end) => i + 1 <= end,
                        None => true,
                    })
        },
{
    lemma_last_open(d.spans);
    if reaches_conclusion(d) {
        let i = choose|i: int|
            0 <= i < d.rows.len() && (#[trigger] d.rows[i]).formula == d.conclusion && depth_at(
                d.spans,
                i + 1,
            ) == 0;
        lemma_depth_zero(d.spans, i + 1);
        assert(d.rows[i].formula == d.conclusion);
    } else if forall|k: int| 0 <= k < d.spans.len() ==> (#[trigger] d.spans[k]).end is Some {
        assert forall|i: int|
            0 <= i < d.rows.len() && (#[trigger] d.rows[i]).formula == d.conclusion implies !(
        forall|k: int|
            0 <= k < d.spans.len() ==> !((#[trigger] d.spans[k]).start <= i + 1
                && match d.spans[k].end {
                Some(end) => i + 1 <= end,
                None => true,
            })) by {
            lemma_depth_zero(d.spans, i + 1);
        }
    }
}

/// A proof starts as its premises, in order, each on a line of its own outside all
/// subproofs.
pub proof fn law_starts_with_premises(premises: Seq<Prop>, conclusion: Prop, i: int)
    ensures
        drafted(premises, conclusion).rows.len() == premises.len(),
        drafted(premises, conclusion).spans.len() == 0,
        drafted(premises, conclusion).conclusion == conclusion,
        drafted(premises, conclusion).premises == premises,
        0 <= i < premises.len() ==> drafted(premises, conclusion).rows[i] == (Row {
            number: i + 1,
            formula: premises[i],
            reason: Reason::Premise,
            depth: 0,
        }),
{
}

/// A line of a proof.
#[derive(Debug, Clone)]
pub struct ProofLine {
    pub line_number: usize,
    pub formula: Formula,
    pub justification: Justification,
    /// How many subproofs are open at the line.
    pub depth: usize,
    /// Whether the line was found to be justified when it was last verified.
    pub is_valid: bool,
    /// What was found to be wrong with the line.
    pub validation_message: Option<String>,
}

impl View for ProofLine {
    type V = Row;

    open spec fn view(&self) -> Row {
        Row {
            number: self.line_number as int,
            formula: self.formula@,
            reason: self.justification@,
            depth: self.depth as nat,
        }
    }
}

/// The models of a list of lines.
pub open spec fn row_views(s: Seq<ProofLine>) -> Seq<Row> {
    Seq::new(s.len(), |i: int| s[i]@)
}

/// A proof of a theorem, finished or not.
#[derive(Debug, Clone)]
pub struct Proof {
    pub theorem: Theorem,
    pub lines: Vec<ProofLine>,
    pub scopes: Scopes,
}

impl View for Proof {
    type V = Draft;

    open spec fn view(&self) -> Draft {
        Draft {
            premises: views(self.theorem.premises@),
            conclusion: self.theorem.conclusion@,
            rows: row_views(self.lines@),
            spans: self.scopes@,
        }
    }
}

impl Proof {
    /// A proof that holds the premises of the theorem alone.
    pub fn new(theorem: Theorem) -> (r: Proof)
        ensures
            r@ == drafted(views(theorem.premises@), theorem.conclusion@),
            r.theorem == theorem,
            forall|i: int| 0 <= i < r.lines@.len() ==> (#[trigger] r.lines@[i]).is_valid,
            forall|i: int|
                0 <= i < r.lines@.len() ==> (#[trigger] r.lines@[i]).validation_message is None,
    {
        let ghost ps = views(theorem.premises@);
        let mut lines: Vec<ProofLine> = Vec::new();
        let mut i: usize = 0;
        while i < theorem.premises.len()
            invariant
                i <= theorem.premises@.len(),
                ps == views(theorem.premises@),
                lines@.len() == i,
                forall|j: int| 0 <= j < i ==> (#[trigger] lines@[j])@ == premise_row(ps, j),
                forall|j: int| 0 <= j < i ==> (#[trigger] lines@[j]).is_valid,
                forall|j: int| 0 <= j < i ==> (#[trigger] lines@[j]).validation_message is None,
            decreases theorem.premises@.len() - i,
        {
            lines.push(
                ProofLine {
                    line_number: i + 1,
                    formula: theorem.premises[i].clone(),
                    justification: Justification::Premise,
                    depth: 0,
                    is_valid: true,
                    validation_message: None,
                },
            );
            i = i + 1;
        }
        let r = Proof { theorem, lines, scopes: Scopes::new() };
        assert(r@.rows =~= drafted(ps, theorem.conclusion@).rows);
        r
    }

    /// Appends a line, unchecked, and gives back its number.
    fn push_line(&mut self, formula: Formula, justification: Justification) -> (r: usize)
        ensures
            final(self)@ == with_line(old(self)@, formula@, justification@),
            final(self).theorem == old(self).theorem,
            r == final(self).lines@.len(),
            final(self).lines@.drop_last() == old(self).lines@,
            !final(self).lines@.last().is_valid,
            final(self).lines@.last().validation_message is None,
    {
        let ghost before = self.lines@;
        let depth = self.scopes.depth();
        self.lines.push(
            ProofLine {
                line_number: 0,
                formula,
                justification,
                depth,
                is_valid: false,
                validation_message: None,
            },
        );
        let n = self.lines.len();
        match self.lines.pop() {
            Some(line) => {
                let ghost kept = self.lines@;
                let numbered = ProofLine { line_number: n, ..line };
                self.lines.push(numbered);
                assert(kept =~= before);
                assert(self.lines@.drop_last() =~= before);
                assert(row_views(self.lines@) =~= row_views(before).push(numbered@));
            },
            None => {},
        }
        n
    }

    /// Appends a line.
    pub fn add_line(&mut self, formula: Formula, justification: Justification)
        ensures
            final(self)@ == with_line(old(self)@, formula@, justification@),
            final(self).theorem == old(self).theorem,
            final(self).lines@.drop_last() == old(self).lines@,
            !final(self).lines@.last().is_valid,
            final(self).lines@.last().validation_message is None,
    {
        self.push_line(formula, justification);
    }

    /// Opens a subproof with an assumption.
    pub fn open_subproof(&mut self, assumption: Formula, technique: ProofTechnique)
        ensures
            final(self)@ == with_assumption(old(self)@, assumption@, technique),
            final(self).theorem == old(self).theorem,
            final(self).lines@.drop_last() == old(self).lines@,
            !final(self).lines@.last().is_valid,
            final(self).lines@.last().validation_message is None,
    {
        let ghost before = *self;
        let start = self.next_number();
        self.scopes.open(start);
        assert(self@.rows == before@.rows);
        self.push_line(assumption, Justification::Assumption { technique });
    }

    /// The number of the line to come. A line is appended and taken off again, so that the
    /// number is known to be a machine number.
    fn next_number(&mut self) -> (r: usize)
        ensures
            r == old(self).lines@.len() + 1,
            final(self).lines@ == old(self).lines@,
            final(self).theorem == old(self).theorem,
            final(self).scopes == old(self).scopes,
    {
        let ghost before = self.lines@;
        self.lines.push(
            ProofLine {
                line_number: 0,
                formula: Formula::Contradiction,
                justification: Justification::Premise,
                depth: 0,
                is_valid: false,
                validation_message: None,
            },
        );
        let n = self.lines.len();
        let _ = self.lines.pop();
        assert(self.lines@ =~= before);
        n
    }

    /// Discharges the innermost open subproof, and says whether there was one.
    pub fn close_subproof(&mut self, conclusion: Formula, technique: ProofTechnique) -> (r: bool)
        ensures
            final(self)@ == with_discharge(old(self)@, conclusion@, technique),
            final(self).theorem == old(self).theorem,
            r == last_open(old(self)@.spans) is Some,
            r ==> final(self).lines@.drop_last() == old(self).lines@,
            r ==> !final(self).lines@.last().is_valid,
            r ==> final(self).lines@.last().validation_message is None,
            !r ==> final(self).lines@ == old(self).lines@,
    {
        let ghost before = *self;
        let end = self.lines.len();
        match self.scopes.close(end) {
            Some(start) => {
                assert(self@.rows == before@.rows);
                self.push_line(
                    conclusion,
                    Justification::SubproofConclusion {
                        technique,
                        subproof_start: start,
                        subproof_end: end,
                    },
                );
                true
            },
            None => false,
        }
    }

    /// The line with a number.
    pub fn get_line(&self, n: usize) -> (r: Option<&ProofLine>)
        ensures
            r is Some <==> 1 <= n <= self.lines@.len(),
            r matches Some(line) ==> *line == self.lines@[n - 1],
    {
        if n >= 1 && n <= self.lines.len() {
            Some(&self.lines[n - 1])
        } else {
            None
        }
    }

    /// Whether line `from` may cite line `to`.
    pub fn is_line_accessible(&self, from: usize, to: usize) -> (r: bool)
        ensures
            r == accessible(self@.spans, from as int, to as int),
    {
        self.scopes.is_accessible(from, to)
    }

    /// Whether every line was found to be justified and the proof reaches its conclusion.
    pub fn check_complete(&self) -> (r: bool)
        ensures
            r == (reaches_conclusion(self@) && forall|i: int|
                0 <= i < self.lines@.len() ==> (#[trigger] self.lines@[i]).is_valid),
    {
        let mut reached = false;
        let mut i: usize = 0;
        while i < self.lines.len()
            invariant
                i <= self.lines@.len(),
                forall|j: int| 0 <= j < i ==> (#[trigger] self.lines@[j]).is_valid,
                reached == exists|j: int|
                    0 <= j < i && (#[trigger] self@.rows[j]).formula == self@.conclusion
                        && depth_at(self@.spans, j + 1) == 0,
            decreases self.lines@.len() - i,
        {
            if !self.lines[i].is_valid {
                return false;
            }
            assert(self@.rows[i as int] == self.lines@[i as int]@);
            if self.lines[i].formula.same(&self.theorem.conclusion) && self.scopes.depth_at(i + 1)
                == 0 {
                reached = true;
            }
            i = i + 1;
        }
        proof {
            lemma_open_count(self@.spans);
        }
        reached && self.scopes.depth() == 0
    }
}

} // verus!
