//! The golf filter: which planted candidates are worth serving.
//!
//! Cheap checks come first, proof searches last, and the first failure decides.

use vstd::prelude::*;
use vstd::string::StringExecFns;

use crate::models::formula::{satisfiable, tautology, views};
use crate::models::formula::{Formula, Prop};
use crate::models::numbers::{append_decimal, decimal};
use crate::models::proofs::{Draft, Justification, Proof, ProofLine, Reason, Row};
use crate::models::scopes::accessible;
use crate::models::text::bracketed;
use crate::services::cheese::{
    disjunct_target, disjuncts, first_tautology, identity_distance, option_count, theorem_decoy,
};
use crate::services::cheese::{cheese_check, is_satisfiable_dynamic};
use crate::services::planted_gen::candidate::PlantedCandidate;
use crate::services::prover::greedy::{attempt, greedy_prove};
use crate::services::prover::optimal::{optimal_prove, OptimalConfig, OptimalOutcome};
use crate::services::prover::search::{deepen, fresh_ctx, Verdict};
use crate::services::truth_table::is_tautology_dynamic;

verus! {

/// What the filter asks for.
#[derive(Debug, Clone)]
pub struct GateConfig {
    /// How many characters a premise and the conclusion may have.
    pub max_formula_len: usize,
    /// How many rewrites the check for a disguised identity tries.
    pub cheese_max_distance: usize,
    /// How many lines the greedy prover may use.
    pub greedy_max_lines: usize,
    /// The bounds of the optimal search that every candidate must survive.
    pub probe: OptimalConfig,
    /// The bounds of a second optimal search, for finalists.
    pub freeze: Option<OptimalConfig>,
}

impl Default for GateConfig {
    fn default() -> (r: GateConfig)
        ensures
            r == (GateConfig {
                max_formula_len: 90,
                cheese_max_distance: 3,
                greedy_max_lines: 40,
                probe: OptimalConfig {
                    max_lines: 12,
                    max_nodes: 200_000,
                    equiv_moves_per_state: 64,
                },
                freeze: None,
            }),
    {
        GateConfig {
            max_formula_len: 90,
            cheese_max_distance: 3,
            greedy_max_lines: 40,
            probe: OptimalConfig::default(),
            freeze: None,
        }
    }
}

/// Why a candidate was rejected.
#[derive(Debug, Clone, PartialEq, Eq)]
pub enum GateReject {
    /// A premise or the conclusion is too long.
    TooBig,
    /// No valuation makes all premises true, so anything follows from them.
    InconsistentPremises,
    /// Every valuation makes the conclusion true, so it needs no premises.
    TautologousConclusion,
    /// A cheap check found a shortcut; the text names it.
    Cheese(String),
    /// The greedy prover found a proof.
    GreedyProvable { lines: usize },
    /// The optimal search found a proof within the bounds of the probe.
    LawyerProbeCracked { lines: usize },
    /// The optimal search found a proof within the bounds for finalists.
    LawyerFreezeCracked { lines: usize },
    /// A line repeats the formula of an earlier line that it could have cited instead.
    DuplicateLine { line: usize, duplicates: usize },
}

/// A rejection, as a value.
pub enum Refusal {
    TooBig,
    InconsistentPremises,
    TautologousConclusion,
    Cheese(Seq<char>),
    GreedyProvable(nat),
    LawyerProbeCracked(nat),
    LawyerFreezeCracked(nat),
    DuplicateLine(int, int),
}

impl View for GateReject {
    type V = Refusal;

    open spec fn view(&self) -> Refusal {
        match *self {
            GateReject::TooBig => Refusal::TooBig,
            GateReject::InconsistentPremises => Refusal::InconsistentPremises,
            GateReject::TautologousConclusion => Refusal::TautologousConclusion,
            GateReject::Cheese(text) => Refusal::Cheese(text@),
            GateReject::GreedyProvable { lines } => Refusal::GreedyProvable(lines as nat),
            GateReject::LawyerProbeCracked { lines } => Refusal::LawyerProbeCracked(lines as nat),
            GateReject::LawyerFreezeCracked { lines } => Refusal::LawyerFreezeCracked(lines as nat),
            GateReject::DuplicateLine { line, duplicates } => Refusal::DuplicateLine(
                line as int,
                duplicates as int,
            ),
        }
    }
}

/// Whether the text of a formula is too long.
pub open spec fn too_long(p: Prop, max: nat) -> bool {
    bracketed(p).len() > max
}

/// Whether a formula of the theorem is too long.
pub open spec fn too_big(premises: Seq<Prop>, conclusion: Prop, max: nat) -> bool {
    too_long(conclusion, max) || exists|i: int|
        0 <= i < premises.len() && too_long(#[trigger] premises[i], max)
}

/// The shortcut that the cheap checks find, in words.
pub open spec fn cheese_text(premises: Seq<Prop>, conclusion: Prop, max: nat) -> Option<Seq<char>> {
    match first_tautology(disjuncts(disjunct_target(conclusion)), 0) {
        Some(f) => Some("tautologous disjunct: "@ + bracketed(f)),
        None => match theorem_decoy(premises, conclusion) {
            Some(f) => Some("subformula decoy: "@ + bracketed(f)),
            None => match identity_distance(conclusion, max) {
                Some(n) => Some("disguised identity at distance "@ + decimal(n)),
                None => None,
            },
        },
    }
}

/// How many lines the proof has that the optimal search finds.
pub open spec fn cracked_in(
    premises: Seq<Prop>,
    conclusion: Prop,
    cfg: OptimalConfig,
) -> Option<nat> {
    match deepen(cfg.limits(), premises, conclusion, 1, cfg.max_lines as nat, fresh_ctx()).0 {
        Verdict::Found(steps) => Some(steps.len()),
        _ => None,
    }
}

/// Whether a line repeats the formula of an earlier line that it may cite.
pub open spec fn repeats(d: Draft, line: Row, other: Row) -> bool {
    other.number < line.number && other.formula == line.formula && accessible(
        d.spans,
        line.number,
        other.number,
    )
}

/// The number of the first line, at or after a position, that a line repeats.
pub open spec fn repeated_from(d: Draft, line: Row, from: int) -> Option<int>
    decreases d.rows.len() - from,
{
    if from < 0 || from >= d.rows.len() {
        None
    } else if repeats(d, line, d.rows[from]) {
        Some(d.rows[from].number)
    } else {
        repeated_from(d, line, from + 1)
    }
}

/// The first line at or after a position that is no premise and repeats an earlier one,
/// with the first line that it repeats.
pub open spec fn duplicate_from(d: Draft, from: int) -> Option<(int, int)>
    decreases d.rows.len() - from,
{
    if from < 0 || from >= d.rows.len() {
        None
    } else {
        let line = d.rows[from];
        match repeated_from(d, line, 0) {
            Some(other) if line.reason != Reason::Premise => Some((line.number, other)),
            _ => duplicate_from(d, from + 1),
        }
    }
}

/// What the filter says of a theorem and a proof of it.
pub open spec fn gated(
    premises: Seq<Prop>,
    conclusion: Prop,
    d: Draft,
    cfg: GateConfig,
) -> Option<Refusal> {
    let cheese = cheese_text(premises, conclusion, cfg.cheese_max_distance as nat);
    let greedy = attempt(premises, conclusion, cfg.greedy_max_lines as nat).found;
    let probe = cracked_in(premises, conclusion, cfg.probe);
    let freeze = match cfg.freeze {
        Some(bounds) => cracked_in(premises, conclusion, bounds),
        None => None,
    };
    let duplicate = duplicate_from(d, 0);
    if too_big(premises, conclusion, cfg.max_formula_len as nat) {
        Some(Refusal::TooBig)
    } else if !satisfiable(premises) {
        Some(Refusal::InconsistentPremises)
    } else if cheese is Some {
        Some(Refusal::Cheese(cheese->0))
    } else if tautology(conclusion) {
        Some(Refusal::TautologousConclusion)
    } else if greedy is Some {
        Some(Refusal::GreedyProvable(greedy->0.len()))
    } else if probe is Some {
        Some(Refusal::LawyerProbeCracked(probe->0))
    } else if freeze is Some {
        Some(Refusal::LawyerFreezeCracked(freeze->0))
    } else {
        match duplicate {
            Some((line, other)) => Some(Refusal::DuplicateLine(line, other)),
            None => None,
        }
    }
}

/// What is not found from a position on is nowhere from there on.
proof fn lemma_repeated(d: Draft, line: Row, from: int)
    requires
        0 <= from,
        repeated_from(d, line, from) is None,
    ensures
        forall|j: int| from <= j < d.rows.len() ==> !repeats(d, line, #[trigger] d.rows[j]),
    decreases d.rows.len() - from,
{
    if from < d.rows.len() {
        lemma_repeated(d, line, from + 1);
    }
}

/// [`lemma_repeated`] for all lines from a position on.
proof fn lemma_duplicate(d: Draft, from: int)
    requires
        0 <= from,
        duplicate_from(d, from) is None,
    ensures
        forall|i: int, j: int|
            from <= i < d.rows.len() && 0 <= j < d.rows.len() && d.rows[i].reason
                != Reason::Premise ==> !repeats(d, #[trigger] d.rows[i], #[trigger] d.rows[j]),
    decreases d.rows.len() - from,
{
    if from < d.rows.len() {
        lemma_duplicate(d, from + 1);
        if d.rows[from].reason != Reason::Premise {
            lemma_repeated(d, d.rows[from], 0);
        }
    }
}

/// What passes the filter is small enough, says something, has no cheap shortcut and
/// resists the provers; and no line of its proof but a premise repeats an earlier line
/// that it may cite.
pub proof fn law_gate_passed(premises: Seq<Prop>, conclusion: Prop, d: Draft, cfg: GateConfig)
    requires
        gated(premises, conclusion, d, cfg) is None,
    ensures
        !too_big(premises, conclusion, cfg.max_formula_len as nat),
        satisfiable(premises),
        !tautology(conclusion),
        cheese_text(premises, conclusion, cfg.cheese_max_distance as nat) is None,
        attempt(premises, conclusion, cfg.greedy_max_lines as nat).found is None,
        cracked_in(premises, conclusion, cfg.probe) is None,
        cfg.freeze matches Some(bounds) ==> cracked_in(premises, conclusion, bounds) is None,
        forall|i: int, j: int|
            0 <= i < d.rows.len() && 0 <= j < d.rows.len() && d.rows[i].reason != Reason::Premise
                ==> !repeats(d, #[trigger] d.rows[i], #[trigger] d.rows[j]),
{
    lemma_duplicate(d, 0);
}

/// What is found from a position on is there, and nothing before it is.
proof fn lemma_repeated_found(d: Draft, line: Row, from: int)
    requires
        0 <= from,
        repeated_from(d, line, from) is Some,
    ensures
        exists|j: int|
            from <= j < d.rows.len() && repeats(d, line, #[trigger] d.rows[j]) && repeated_from(
                d,
                line,
                from,
            ) == Some(d.rows[j].number) && forall|k: int|
                from <= k < j ==> !repeats(d, line, #[trigger] d.rows[k]),
    decreases d.rows.len() - from,
{
    if repeats(d, line, d.rows[from]) {
    } else {
        lemma_repeated_found(d, line, from + 1);
        let j = choose|j: int|
            from + 1 <= j < d.rows.len() && repeats(d, line, #[trigger] d.rows[j])
                && repeated_from(d, line, from + 1) == Some(d.rows[j].number) && forall|k: int|
                from + 1 <= k < j ==> !repeats(d, line, #[trigger] d.rows[k]);
        assert(repeats(d, line, d.rows[j]));
    }
}

/// Whether the line at `i` is no premise and repeats the earlier line at `j`, which it may
/// cite.
pub open spec fn duplicated(d: Draft, i: int, j: int) -> bool {
    &&& 0 <= i < d.rows.len()
    &&& 0 <= j < d.rows.len()
    &&& d.rows[i].reason != Reason::Premise
    &&& d.rows[j].number < d.rows[i].number
    &&& d.rows[j].formula == d.rows[i].formula
    &&& accessible(d.spans, d.rows[i].number, d.rows[j].number)
}

/// The first line that repeats one, and the first one that it repeats, are found.
proof fn lemma_duplicate_found(d: Draft, from: int)
    requires
        0 <= from,
        duplicate_from(d, from) is Some,
    ensures
        exists|i: int, j: int|
            from <= i && #[trigger] duplicated(d, i, j) && duplicate_from(d, from) == Some(
                (d.rows[i].number, d.rows[j].number),
            ) && (forall|a: int, b: int|
                from <= a < i ==> !#[trigger] duplicated(d, a, b)) && forall|b: int|
                b < j ==> !#[trigger] duplicated(d, i, b),
    decreases d.rows.len() - from,
{
    let line = d.rows[from];
    if repeated_from(d, line, 0) is Some && line.reason != Reason::Premise {
        lemma_repeated_found(d, line, 0);
        let j = choose|j: int|
            0 <= j < d.rows.len() && repeats(d, line, #[trigger] d.rows[j]) && repeated_from(
                d,
                line,
                0,
            ) == Some(d.rows[j].number) && forall|k: int|
                0 <= k < j ==> !repeats(d, line, #[trigger] d.rows[k]);
        assert(duplicated(d, from, j));
        assert forall|b: int| b < j implies !#[trigger] duplicated(d, from, b) by {
            if duplicated(d, from, b) {
                assert(repeats(d, line, d.rows[b]));
            }
        }
    } else {
        lemma_duplicate_found(d, from + 1);
        let (i, j) = choose|i: int, j: int|
            from + 1 <= i && #[trigger] duplicated(d, i, j) && duplicate_from(d, from + 1)
                == Some((d.rows[i].number, d.rows[j].number)) && (forall|a: int, b: int|
                from + 1 <= a < i ==> !#[trigger] duplicated(d, a, b)) && forall|b: int|
                b < j ==> !#[trigger] duplicated(d, i, b);
        assert forall|a: int, b: int| from <= a < i implies !#[trigger] duplicated(d, a, b) by {
            if a == from && duplicated(d, a, b) {
                assert(repeats(d, line, d.rows[b]));
                if repeated_from(d, line, 0) is None {
                    lemma_repeated(d, line, 0);
                }
            }
        }
        assert(duplicated(d, i, j));
    }
}

/// What the filter says, reason by reason, in their order. Each reason is given exactly
/// where it holds and none before it does: too long a formula; premises that cannot be
/// true together; a cheap shortcut; a conclusion that cannot be false; a greedy proof; a
/// proof within the bounds of the first search, and of the second; and a line that repeats
/// one it may cite. So a candidate that none of them holds of passes.
pub proof fn law_gate_reasons(premises: Seq<Prop>, conclusion: Prop, d: Draft, cfg: GateConfig)
    ensures
        ({
            let r = gated(premises, conclusion, d, cfg);
            let max = cfg.max_formula_len;
            let big = bracketed(conclusion).len() > max || exists|i: int|
                0 <= i < premises.len() && bracketed(#[trigger] premises[i]).len() > max;
            let wild = !satisfiable(premises);
            let cheap = first_tautology(disjuncts(disjunct_target(conclusion)), 0) is Some
                || theorem_decoy(premises, conclusion) is Some || identity_distance(
                conclusion,
                cfg.cheese_max_distance as nat,
            ) is Some;
            let empty = tautology(conclusion);
            let greedy = attempt(premises, conclusion, cfg.greedy_max_lines as nat).found;
            let first = deepen(
                cfg.probe.limits(),
                premises,
                conclusion,
                1,
                cfg.probe.max_lines as nat,
                fresh_ctx(),
            ).0;
            let second = match cfg.freeze {
                Some(bounds) => deepen(
                    bounds.limits(),
                    premises,
                    conclusion,
                    1,
                    bounds.max_lines as nat,
                    fresh_ctx(),
                ).0,
                None => Verdict::Nothing,
            };
            let twice = exists|i: int, j: int| #[trigger] duplicated(d, i, j);
            &&& r == Some(Refusal::TooBig) <==> big
            &&& r == Some(Refusal::InconsistentPremises) <==> !big && wild
            &&& (r matches Some(Refusal::Cheese(_)) && true) <==> !big && !wild && cheap
            &&& r == Some(Refusal::TautologousConclusion) <==> !big && !wild && !cheap
                && empty
            &&& (r matches Some(Refusal::GreedyProvable(_)) && true) <==> !big && !wild && !cheap
                && !empty && greedy is Some
            &&& r matches Some(Refusal::GreedyProvable(n)) ==> n == greedy->0.len()
            &&& (r matches Some(Refusal::LawyerProbeCracked(_)) && true) <==> !big && !wild
                && !cheap && !empty && greedy is None && first is Found
            &&& r matches Some(Refusal::LawyerProbeCracked(n)) ==> n == first->Found_0.len()
            &&& (r matches Some(Refusal::LawyerFreezeCracked(_)) && true) <==> !big && !wild
                && !cheap && !empty && greedy is None && !(first is Found) && second is Found
            &&& r matches Some(Refusal::LawyerFreezeCracked(n)) ==> n == second->Found_0.len()
            &&& (r matches Some(Refusal::DuplicateLine(_, _)) && true) <==> !big && !wild
                && !cheap && !empty && greedy is None && !(first is Found) && !(second is Found)
                && twice
            &&& r is None <==> !big && !wild && !cheap && !empty && greedy is None && !(
            first is Found) && !(second is Found) && !twice
        }),
{
    let max = cfg.max_formula_len;
    if exists|i: int| 0 <= i < premises.len() && bracketed(#[trigger] premises[i]).len() > max {
        let i = choose|i: int|
            0 <= i < premises.len() && bracketed(#[trigger] premises[i]).len() > max;
        assert(too_long(premises[i], max as nat));
    }
    assert(too_big(premises, conclusion, max as nat) <==> (bracketed(conclusion).len() > max
        || exists|i: int|
        0 <= i < premises.len() && bracketed(#[trigger] premises[i]).len() > max));
    if duplicate_from(d, 0) is Some {
        lemma_duplicate_found(d, 0);
    } else {
        lemma_duplicate(d, 0);
        assert forall|i: int, j: int| !#[trigger] duplicated(d, i, j) by {
            if duplicated(d, i, j) {
                assert(repeats(d, d.rows[i], d.rows[j]));
            }
        }
    }
}

/// A shortcut is told with what it is: the first tautologous disjunct, or else the decoy, or
/// else the distance, after the words for its kind.
pub proof fn law_shortcut_told(premises: Seq<Prop>, conclusion: Prop, d: Draft, cfg: GateConfig)
    ensures
        gated(premises, conclusion, d, cfg) matches Some(Refusal::Cheese(text)) ==> {
            let disjunct = first_tautology(disjuncts(disjunct_target(conclusion)), 0);
            let decoy = theorem_decoy(premises, conclusion);
            let distance = identity_distance(conclusion, cfg.cheese_max_distance as nat);
            &&& disjunct matches Some(f) ==> text == "tautologous disjunct: "@ + bracketed(f)
            &&& disjunct is None ==> (decoy matches Some(f) ==> text == "subformula decoy: "@
                + bracketed(f))
            &&& disjunct is None && decoy is None ==> (distance matches Some(n) && text
                == "disguised identity at distance "@ + decimal(n))
        },
{
}

/// A line that is reported as repeating one is the first that does, and the other is the
/// first one that it repeats.
pub proof fn law_gate_duplicate(premises: Seq<Prop>, conclusion: Prop, d: Draft, cfg: GateConfig)
    requires
        gated(premises, conclusion, d, cfg) matches Some(Refusal::DuplicateLine(_, _)) && true,
    ensures
        exists|i: int, j: int| #[trigger]
            duplicated(d, i, j) && gated(premises, conclusion, d, cfg) == Some(
                Refusal::DuplicateLine(d.rows[i].number, d.rows[j].number),
            ) && (forall|a: int, b: int| a < i ==> !#[trigger] duplicated(d, a, b)) && forall|
                b: int,
            | b < j ==> !#[trigger] duplicated(d, i, b),
{
    lemma_duplicate_found(d, 0);
    let (i, j) = choose|i: int, j: int|
        0 <= i && #[trigger] duplicated(d, i, j) && duplicate_from(d, 0) == Some(
            (d.rows[i].number, d.rows[j].number),
        ) && (forall|a: int, b: int| 0 <= a < i ==> !#[trigger] duplicated(d, a, b)) && forall|
            b: int,
        | b < j ==> !#[trigger] duplicated(d, i, b);
    assert(duplicated(d, i, j));
}

/// Whether the text of a formula is too long.
pub fn is_too_long(f: &Formula, max: usize) -> (r: bool)
    ensures
        r == too_long(f@, max as nat),
{
    f.spend(max).is_none()
}

/// Whether a formula of the theorem is too long.
fn is_too_big(premises: &Vec<Formula>, conclusion: &Formula, max: usize) -> (r: bool)
    ensures
        r == too_big(views(premises@), conclusion@, max as nat),
{
    if is_too_long(conclusion, max) {
        return true;
    }
    let mut i: usize = 0;
    while i < premises.len()
        invariant
            i <= premises@.len(),
            forall|j: int| 0 <= j < i ==> !too_long(#[trigger] views(premises@)[j], max as nat),
        decreases premises@.len() - i,
    {
        assert(views(premises@)[i as int] == premises@[i as int]@);
        if is_too_long(&premises[i], max) {
            return true;
        }
        i = i + 1;
    }
    false
}

/// The shortcut that the cheap checks find, in words.
fn cheese_message(premises: &Vec<Formula>, conclusion: &Formula, max: usize) -> (r: Option<String>)
    ensures
        r matches Some(text) ==> cheese_text(views(premises@), conclusion@, max as nat) == Some(
            text@,
        ),
        r is None ==> cheese_text(views(premises@), conclusion@, max as nat) is None,
{
    let report = cheese_check(premises, conclusion, max);
    let mut text = String::new();
    if let Some(f) = &report.tautologous_disjunct {
        text.append("tautologous disjunct: ");
        text.append(f.ascii_string_bracketed().as_str());
        assert(text@ =~= "tautologous disjunct: "@ + bracketed(f@));
        return Some(text);
    }
    if let Some(f) = &report.subformula_decoy {
        text.append("subformula decoy: ");
        text.append(f.ascii_string_bracketed().as_str());
        assert(text@ =~= "subformula decoy: "@ + bracketed(f@));
        return Some(text);
    }
    if let Some(n) = report.identity_rewrite_distance {
        text.append("disguised identity at distance ");
        append_decimal(&mut text, n);
        assert(text@ =~= "disguised identity at distance "@ + decimal(n as nat));
        return Some(text);
    }
    None
}

/// How many lines the proof has that the optimal search finds.
fn lawyer_cracks(premises: &Vec<Formula>, conclusion: &Formula, cfg: &OptimalConfig) -> (r: Option<
    usize,
>)
    ensures
        option_count(r) == cracked_in(views(premises@), conclusion@, *cfg),
{
    match optimal_prove(premises, conclusion, cfg) {
        OptimalOutcome::Proved { proof: found, .. } => Some(found.line_count),
        _ => None,
    }
}

/// The number of the first line that `line` repeats.
fn first_repeated(p: &Proof, line: &ProofLine) -> (r: Option<usize>)
    ensures
        r matches Some(n) ==> repeated_from(p@, line@, 0) == Some(n as int),
        r is None ==> repeated_from(p@, line@, 0) is None,
{
    let mut i: usize = 0;
    while i < p.lines.len()
        invariant
            i <= p.lines@.len(),
            repeated_from(p@, line@, 0) == repeated_from(p@, line@, i as int),
        decreases p.lines@.len() - i,
    {
        let other = &p.lines[i];
        assert(p@.rows[i as int] == other@);
        if other.line_number < line.line_number && other.formula.same(&line.formula)
            && p.is_line_accessible(line.line_number, other.line_number) {
            return Some(other.line_number);
        }
        i = i + 1;
    }
    None
}

/// The first line that is no premise and repeats an earlier one, with that one.
fn first_duplicate(p: &Proof) -> (r: Option<(usize, usize)>)
    ensures
        r matches Some((line, other)) ==> duplicate_from(p@, 0) == Some(
            (line as int, other as int),
        ),
        r is None ==> duplicate_from(p@, 0) is None,
{
    let mut i: usize = 0;
    while i < p.lines.len()
        invariant
            i <= p.lines@.len(),
            duplicate_from(p@, 0) == duplicate_from(p@, i as int),
        decreases p.lines@.len() - i,
    {
        let line = &p.lines[i];
        assert(p@.rows[i as int] == line@);
        let is_premise = match &line.justification {
            Justification::Premise => true,
            _ => false,
        };
        if !is_premise {
            if let Some(other) = first_repeated(p, line) {
                return Some((line.line_number, other));
            }
        }
        i = i + 1;
    }
    None
}

/// Whether a candidate is worth serving: it is small enough, says something, has no cheap
/// shortcut, resists the greedy prover and the optimal search, and its own proof repeats
/// no line.
pub fn golf_gate(c: &PlantedCandidate, cfg: &GateConfig) -> (r: Result<(), GateReject>)
    ensures
        match r {
            Ok(_) => gated(
                views(c.theorem.premises@),
                c.theorem.conclusion@,
                c.proof@,
                *cfg,
            ) is None,
            Err(reject) => gated(
                views(c.theorem.premises@),
                c.theorem.conclusion@,
                c.proof@,
                *cfg,
            ) == Some(reject@),
        },
{
    let premises = &c.theorem.premises;
    let conclusion = &c.theorem.conclusion;
    if is_too_big(premises, conclusion, cfg.max_formula_len) {
        return Err(GateReject::TooBig);
    }
    if !is_satisfiable_dynamic(premises) {
        return Err(GateReject::InconsistentPremises);
    }
    if let Some(text) = cheese_message(premises, conclusion, cfg.cheese_max_distance) {
        return Err(GateReject::Cheese(text));
    }
    if is_tautology_dynamic(conclusion) {
        return Err(GateReject::TautologousConclusion);
    }
    let greedy = greedy_prove(premises, conclusion, cfg.greedy_max_lines);
    let outcome = greedy.proof;
    if let Some(found) = outcome {
        return Err(GateReject::GreedyProvable { lines: found.line_count });
    }
    if let Some(lines) = lawyer_cracks(premises, conclusion, &cfg.probe) {
        return Err(GateReject::LawyerProbeCracked { lines });
    }
    if let Some(bounds) = &cfg.freeze {
        if let Some(lines) = lawyer_cracks(premises, conclusion, bounds) {
            return Err(GateReject::LawyerFreezeCracked { lines });
        }
    }
    if let Some((line, duplicates)) = first_duplicate(&c.proof) {
        return Err(GateReject::DuplicateLine { line, duplicates });
    }
    Ok(())
}

} // verus!
