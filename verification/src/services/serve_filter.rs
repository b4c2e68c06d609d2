//! The serve filter: the difficulty gate of the generator pipeline.
//!
//! [`analyze_for_serving`] runs a candidate theorem through the cheap checks, the greedy
//! prover and the bounded optimal prover, in this order, and either rejects it for the
//! first reason that applies or accepts it with a score. The order of the reasons is a
//! contract:
//!
//! - `TautologousDisjunct`, `SubformulaDecoy`, `DisguisedIdentity`: the cheap checks, with
//!   no prover run.
//! - `NotGreedyProvable`, `Hallway`: the greedy prover found no proof, or one without a
//!   real choice anywhere.
//! - `OptimalUnknown`: the optimal prover gave up, ran out of lines, or found a proof that
//!   it cannot certify. The length of such a proof is still reported, in
//!   `best_found_lines`; `optimal_lines` is for certified lengths alone.
//! - `TooShort`, `InsufficientDivergence`, `NoUnlock`: the certified proof is short, close
//!   to what the greedy prover found, or needs no rule that the greedy prover would not
//!   reach for.

use vstd::prelude::*;

use crate::models::formula::{entails, has_name, lemma_merge_names, merge_names, name_views, Prop};
use crate::models::lists::lemma_in_joined;
use crate::models::numbers::clamped;
use crate::models::theorem::Theorem;
use crate::services::cheese::{
    cheese_check, disjunct_target, disjuncts, first_tautology, identity_distance, implication_parts,
    law_distance_reached, theorem_decoy,
};
use crate::services::prover::greedy::{
    attempt, greedy_prove, law_greedy_sound, law_greedy_valid, rule_names, step_views,
};
use crate::services::prover::found::law_optimal_proves;
use crate::services::prover::derivation::derivable;
use crate::services::prover::minimal::law_certified_minimal;
use crate::services::prover::optimal::{optimal_prove, OptimalConfig, OptimalOutcome};
use crate::services::prover::search::{deepen, fresh_ctx, Ctx, Verdict};

verus! {

/// Why a theorem is not served.
#[derive(Debug, Clone, Copy, PartialEq, Eq, Structural)]
pub enum ServeRejection {
    TautologousDisjunct,
    SubformulaDecoy,
    DisguisedIdentity { distance: usize },
    NotGreedyProvable,
    /// The difficulty was not measured, or not certified.
    OptimalUnknown,
    /// The greedy prover never had a choice.
    Hallway,
    TooShort { optimal: usize },
    InsufficientDivergence { greedy: usize, optimal: usize },
    NoUnlock,
}

/// What is known of a theorem after the filter.
#[derive(Debug)]
pub struct ServeAnalysis {
    pub greedy_lines: Option<usize>,
    /// Set only where certified minimal.
    pub optimal_lines: Option<usize>,
    /// The best proof found, certified or not.
    pub best_found_lines: Option<usize>,
    pub optimal_certified: bool,
    pub divergence: Option<i64>,
    pub unlock_rules: Vec<String>,
    pub branch_points: usize,
    /// The divergence times one more than the branch points, of which at most three
    /// count.
    pub score: u64,
    pub rejection: Option<ServeRejection>,
}

/// The settings of the filter.
#[derive(Debug, Clone, Copy)]
pub struct ServeConfig {
    pub min_divergence: i64,
    pub max_identity_distance: usize,
    pub min_optimal_lines: usize,
    pub greedy_max_lines: usize,
    pub optimal: OptimalConfig,
}

impl Default for ServeConfig {
    fn default() -> (r: ServeConfig)
        ensures
            r.min_divergence == 3,
            r.max_identity_distance == 3,
            r.min_optimal_lines == 5,
            r.greedy_max_lines == 40,
            r.optimal == (OptimalConfig {
                max_lines: 12,
                max_nodes: 200_000,
                equiv_moves_per_state: 64,
            }),
    {
        ServeConfig {
            min_divergence: 3,
            max_identity_distance: 3,
            min_optimal_lines: 5,
            greedy_max_lines: 40,
            optimal: OptimalConfig::default(),
        }
    }
}

/// An analysis, as a value.
#[verifier::ext_equal]
pub struct Report {
    pub greedy_lines: Option<usize>,
    pub optimal_lines: Option<usize>,
    pub best_found_lines: Option<usize>,
    pub optimal_certified: bool,
    pub divergence: Option<i64>,
    pub unlock_rules: Seq<Seq<char>>,
    pub branch_points: usize,
    pub score: u64,
    pub rejection: Option<ServeRejection>,
}

impl View for ServeAnalysis {
    type V = Report;

    open spec fn view(&self) -> Report {
        Report {
            greedy_lines: self.greedy_lines,
            optimal_lines: self.optimal_lines,
            best_found_lines: self.best_found_lines,
            optimal_certified: self.optimal_certified,
            divergence: self.divergence,
            unlock_rules: name_views(self.unlock_rules@),
            branch_points: self.branch_points,
            score: self.score,
            rejection: self.rejection,
        }
    }
}

/// Nothing evaluated yet.
pub open spec fn empty_report() -> Report {
    Report {
        greedy_lines: None,
        optimal_lines: None,
        best_found_lines: None,
        optimal_certified: false,
        divergence: None,
        unlock_rules: seq![],
        branch_points: 0,
        score: 0,
        rejection: None,
    }
}

/// `r`, rejected.
pub open spec fn rejected(r: Report, why: ServeRejection) -> Report {
    Report { rejection: Some(why), ..r }
}

/// What the optimal prover says: nothing certain, or a proof with its length, whether it
/// is certified, and the rules it uses.
pub enum Measured {
    Unknown,
    Proved(usize, bool, Seq<Seq<char>>),
}

/// What an outcome of the optimal prover says.
pub open spec fn measured(o: OptimalOutcome) -> Measured {
    match o {
        OptimalOutcome::Proved { proof, minimal_proven } => Measured::Proved(
            proof.line_count,
            minimal_proven,
            rule_names(step_views(proof.steps@)),
        ),
        _ => Measured::Unknown,
    }
}

/// What the end of a deepening search says.
pub open spec fn measured_end(v: Verdict, ctx: Ctx) -> Measured {
    match v {
        Verdict::Found(steps) => Measured::Proved(
            steps.len() as usize,
            !ctx.truncated,
            rule_names(steps),
        ),
        _ => Measured::Unknown,
    }
}

/// How many lines shorter the optimal proof is, within the range of machine integers.
pub open spec fn line_divergence(greedy: usize, optimal: usize) -> i64 {
    let d = greedy as int - optimal as int;
    if d > i64::MAX {
        i64::MAX
    } else if d < i64::MIN {
        i64::MIN
    } else {
        d as i64
    }
}

/// `name`, if `used` holds it.
pub open spec fn named(used: Seq<Seq<char>>, name: Seq<char>) -> Seq<Seq<char>> {
    if used.contains(name) {
        seq![name]
    } else {
        seq![]
    }
}

/// The rules of the optimal proof that the greedy prover would not reach for, in
/// alphabetical order: CD, Dist and Exp always count, IP only where the greedy proof did
/// not use it.
pub open spec fn unlocks(used: Seq<Seq<char>>, greedy_used: Seq<Seq<char>>) -> Seq<Seq<char>> {
    named(used, "CD"@) + named(used, "Dist"@) + named(used, "Exp"@) + (if greedy_used.contains(
        "IP"@,
    ) {
        seq![]
    } else {
        named(used, "IP"@)
    })
}

/// The divergence times one more than the branch points, of which at most three count,
/// in 64-bit arithmetic.
pub open spec fn route_score(divergence: i64, branch_points: usize) -> u64 {
    let routes = if branch_points < 3 {
        branch_points as int
    } else {
        3
    };
    ((divergence * (1 + routes)) % 0x1_0000_0000_0000_0000) as u64
}

/// What the filter decides once the optimal prover has spoken.
pub open spec fn decided(
    r: Report,
    greedy_lines: usize,
    greedy_used: Seq<Seq<char>>,
    m: Measured,
    cfg: ServeConfig,
) -> Report {
    match m {
        Measured::Unknown => rejected(r, ServeRejection::OptimalUnknown),
        Measured::Proved(lines, minimal, used) => if !minimal {
            rejected(
                Report { best_found_lines: Some(lines), ..r },
                ServeRejection::OptimalUnknown,
            )
        } else {
            let divergence = line_divergence(greedy_lines, lines);
            let known = Report {
                optimal_lines: Some(lines),
                best_found_lines: Some(lines),
                optimal_certified: true,
                divergence: Some(divergence),
                ..r
            };
            let unlock_rules = unlocks(used, greedy_used);
            if lines < cfg.min_optimal_lines {
                rejected(known, ServeRejection::TooShort { optimal: lines })
            } else if divergence < cfg.min_divergence {
                rejected(
                    known,
                    ServeRejection::InsufficientDivergence { greedy: greedy_lines, optimal: lines },
                )
            } else if unlock_rules.len() == 0 {
                rejected(Report { unlock_rules, ..known }, ServeRejection::NoUnlock)
            } else {
                Report {
                    unlock_rules,
                    score: route_score(divergence, r.branch_points),
                    ..known
                }
            }
        },
    }
}

/// What the filter decides of a theorem.
pub open spec fn served(premises: Seq<Prop>, conclusion: Prop, cfg: ServeConfig) -> Report {
    let greedy = attempt(premises, conclusion, cfg.greedy_max_lines as nat);
    let tried = Report { branch_points: clamped(greedy.branches), ..empty_report() };
    let distance = identity_distance(conclusion, cfg.max_identity_distance as nat);
    if first_tautology(disjuncts(disjunct_target(conclusion)), 0) is Some {
        rejected(empty_report(), ServeRejection::TautologousDisjunct)
    } else if theorem_decoy(premises, conclusion) is Some {
        rejected(empty_report(), ServeRejection::SubformulaDecoy)
    } else if distance is Some {
        rejected(
            empty_report(),
            ServeRejection::DisguisedIdentity { distance: distance->0 as usize },
        )
    } else {
        match greedy.found {
            None => rejected(tried, ServeRejection::NotGreedyProvable),
            Some(steps) => {
                let lines = steps.len() as usize;
                let solved = Report { greedy_lines: Some(lines), ..tried };
                if greedy.branches == 0 {
                    rejected(solved, ServeRejection::Hallway)
                } else {
                    let end = deepen(
                        cfg.optimal.limits(),
                        premises,
                        conclusion,
                        1,
                        cfg.optimal.max_lines as nat,
                        fresh_ctx(),
                    );
                    decided(solved, lines, rule_names(steps), measured_end(end.0, end.1), cfg)
                }
            },
        }
    }
}

/// Only measured theorems are served: one that is not rejected has a greedy proof with a
/// real choice in it, follows from its premises, and has a certified optimal proof of at
/// least the least length and divergence, with a rule that the greedy prover lacks.
pub proof fn law_served_is_measured(premises: Seq<Prop>, conclusion: Prop, cfg: ServeConfig)
    requires
        served(premises, conclusion, cfg).rejection is None,
    ensures
        ({
            let r = served(premises, conclusion, cfg);
            &&& r.greedy_lines is Some
            &&& r.branch_points > 0
            &&& entails(premises, conclusion)
            &&& r.optimal_certified
            &&& r.optimal_lines is Some
            &&& r.optimal_lines == r.best_found_lines
            &&& r.optimal_lines->0 >= cfg.min_optimal_lines
            &&& r.divergence == Some(line_divergence(r.greedy_lines->0, r.optimal_lines->0))
            &&& r.divergence->0 >= cfg.min_divergence
            &&& r.unlock_rules.len() > 0
            &&& r.score == route_score(r.divergence->0, r.branch_points)
        }),
{
    law_greedy_sound(premises, conclusion, cfg.greedy_max_lines as nat);
}

/// Whether a rule is one that the optimal proof uses and the greedy prover would not reach
/// for.
pub open spec fn unlocking(
    name: Seq<char>,
    used: Seq<Seq<char>>,
    greedy_used: Seq<Seq<char>>,
) -> bool {
    used.contains(name) && (name == "CD"@ || name == "Dist"@ || name == "Exp"@ || (name == "IP"@
        && !greedy_used.contains("IP"@)))
}

/// What is unlocked is every rule of the optimal proof among constructive dilemma,
/// distribution, exportation and, where the greedy proof did without it, indirect proof;
/// each once, and nothing else.
pub proof fn law_unlocks(used: Seq<Seq<char>>, greedy_used: Seq<Seq<char>>, name: Seq<char>)
    ensures
        unlocks(used, greedy_used).contains(name) <==> unlocking(name, used, greedy_used),
        unlocks(used, greedy_used).no_duplicates(),
        unlocks(used, greedy_used).len() > 0 <==> exists|n: Seq<char>| #[trigger]
            unlocking(n, used, greedy_used),
{
    let a = named(used, "CD"@);
    let b = named(used, "Dist"@);
    let c = named(used, "Exp"@);
    let d = if greedy_used.contains("IP"@) {
        seq![]
    } else {
        named(used, "IP"@)
    };
    let all = unlocks(used, greedy_used);
    assert(all == a + b + c + d);
    reveal_strlit("CD");
    reveal_strlit("Dist");
    reveal_strlit("Exp");
    reveal_strlit("IP");
    assert("CD"@.len() == 2 && "Dist"@.len() == 4 && "Exp"@.len() == 3 && "IP"@.len() == 2);
    assert("CD"@[0] != "IP"@[0]);
    assert forall|n: Seq<char>| #[trigger] all.contains(n) <==> unlocking(
        n,
        used,
        greedy_used,
    ) by {
        lemma_in_joined(a, b, n);
        lemma_in_joined(a + b, c, n);
        lemma_in_joined(a + b + c, d, n);
        lemma_named(used, "CD"@, n);
        lemma_named(used, "Dist"@, n);
        lemma_named(used, "Exp"@, n);
        lemma_named(used, "IP"@, n);
    }
    if all.len() > 0 {
        assert(all.contains(all[0]));
        assert(unlocking(all[0], used, greedy_used));
    }
    if exists|n: Seq<char>| #[trigger] unlocking(n, used, greedy_used) {
        let n = choose|n: Seq<char>| #[trigger] unlocking(n, used, greedy_used);
        assert(all.contains(n));
    }
}

/// What `named` holds.
proof fn lemma_named(used: Seq<Seq<char>>, name: Seq<char>, n: Seq<char>)
    ensures
        named(used, name).contains(n) <==> used.contains(name) && n == name,
{
    if used.contains(name) {
        assert(named(used, name)[0] == name);
    }
}

/// What the filter decides once the optimal prover has spoken, reason by reason. The
/// difficulty is unknown exactly where no certified proof is there. A certified proof is
/// too short, or else too close to the greedy one, or else unlocks nothing, exactly where
/// it is; and a theorem whose certified proof is none of these is served, with the
/// divergence times one more than the branch points, of which at most three count, for its
/// score.
pub proof fn law_decided(
    r: Report,
    greedy_lines: usize,
    greedy_used: Seq<Seq<char>>,
    m: Measured,
    cfg: ServeConfig,
)
    requires
        r.rejection is None,
        r.score == 0,
        m matches Measured::Proved(lines, _, _) ==> i64::MIN <= greedy_lines - lines <= i64::MAX,
    ensures
        ({
            let d = decided(r, greedy_lines, greedy_used, m, cfg);
            &&& d.greedy_lines == r.greedy_lines && d.branch_points == r.branch_points
            &&& m is Unknown ==> d == (Report {
                rejection: Some(ServeRejection::OptimalUnknown),
                ..r
            })
            &&& m matches Measured::Proved(lines, minimal, used) ==> {
                let short = lines < cfg.min_optimal_lines;
                let close = greedy_lines - lines < cfg.min_divergence;
                let opens = exists|n: Seq<char>| #[trigger] unlocking(n, used, greedy_used);
                &&& d.best_found_lines == Some(lines)
                &&& d.rejection == Some(ServeRejection::OptimalUnknown) <==> !minimal
                &&& !minimal ==> d.optimal_lines == r.optimal_lines && d.divergence == r.divergence
                    && d.optimal_certified == r.optimal_certified
                &&& minimal ==> d.optimal_lines == Some(lines) && d.optimal_certified
                    && d.divergence == Some((greedy_lines - lines) as i64)
                &&& d.rejection == Some(ServeRejection::TooShort { optimal: lines }) <==> minimal
                    && short
                &&& d.rejection == Some(
                    ServeRejection::InsufficientDivergence { greedy: greedy_lines, optimal: lines },
                ) <==> minimal && !short && close
                &&& d.rejection == Some(ServeRejection::NoUnlock) <==> minimal && !short && !close
                    && !opens
                &&& d.rejection is None <==> minimal && !short && !close && opens
                &&& d.rejection is None ==> forall|n: Seq<char>| #[trigger]
                    d.unlock_rules.contains(n) <==> unlocking(n, used, greedy_used)
                &&& d.rejection == Some(ServeRejection::NoUnlock) ==> d.unlock_rules.len() == 0
                &&& d.rejection is None && greedy_lines >= lines && 4 * (greedy_lines - lines)
                    <= u64::MAX ==> d.score == (greedy_lines - lines) * (if r.branch_points < 3 {
                    1 + r.branch_points
                } else {
                    4int
                })
            }
            &&& d.rejection is Some ==> d.score == 0
        }),
{
    match m {
        Measured::Proved(lines, minimal, used) => {
            let d = decided(r, greedy_lines, greedy_used, m, cfg);
            law_unlocks(used, greedy_used, seq![]);
            assert forall|n: Seq<char>| #[trigger]
                unlocks(used, greedy_used).contains(n) <==> unlocking(n, used, greedy_used) by {
                law_unlocks(used, greedy_used, n);
            }
            let gap = greedy_lines - lines;
            let routes = if r.branch_points < 3 {
                r.branch_points as int
            } else {
                3
            };
            if d.rejection is None && gap >= 0 && 4 * gap <= u64::MAX {
                assert(0 <= gap * (1 + routes) <= 4 * gap) by (nonlinear_arith)
                    requires
                        0 <= gap,
                        0 <= routes <= 3,
                ;
            }
        },
        _ => {},
    }
}

/// What the filter decides of a theorem, reason by reason, in their order: the cheap
/// reasons, then those that the greedy prover gives. A theorem for which none of them
/// holds goes to the optimal prover, and is rejected for nothing but what that says.
pub proof fn law_served_reasons(premises: Seq<Prop>, conclusion: Prop, cfg: ServeConfig)
    ensures
        ({
            let r = served(premises, conclusion, cfg);
            let greedy = attempt(premises, conclusion, cfg.greedy_max_lines as nat);
            let cheap_disjunct = first_tautology(disjuncts(disjunct_target(conclusion)), 0) is Some;
            let cheap_decoy = theorem_decoy(premises, conclusion) is Some;
            let distance = identity_distance(conclusion, cfg.max_identity_distance as nat);
            let cheap = cheap_disjunct || cheap_decoy || distance is Some;
            &&& r.rejection == Some(ServeRejection::TautologousDisjunct) <==> cheap_disjunct
            &&& r.rejection == Some(ServeRejection::SubformulaDecoy) <==> !cheap_disjunct
                && cheap_decoy
            &&& r.rejection matches Some(ServeRejection::DisguisedIdentity { distance: n }) ==> distance
                == Some(n as nat)
            &&& (r.rejection matches Some(ServeRejection::DisguisedIdentity { .. }) && true)
                <==> !cheap_disjunct && !cheap_decoy && distance is Some
            &&& r.rejection == Some(ServeRejection::NotGreedyProvable) <==> !cheap
                && greedy.found is None
            &&& r.rejection == Some(ServeRejection::Hallway) <==> !cheap && greedy.found is Some
                && greedy.branches == 0
            &&& r.greedy_lines is Some <==> !cheap && greedy.found is Some
            &&& r.greedy_lines is Some ==> r.greedy_lines == Some(greedy.found->0.len() as usize)
            &&& !cheap ==> r.branch_points == if greedy.branches <= usize::MAX {
                greedy.branches as usize
            } else {
                usize::MAX
            }
        }),
{
    lemma_distance_of(conclusion, cfg.max_identity_distance as nat);
}

/// A distance between antecedent and consequent is within its bound.
proof fn lemma_distance_of(conclusion: Prop, max: nat)
    ensures
        identity_distance(conclusion, max) matches Some(d) ==> d <= max,
{
    if implication_parts(conclusion) is Some {
        let (a, b) = implication_parts(conclusion)->0;
        law_distance_reached(a, b, max);
    }
}

/// Whatever is hard enough is served: a theorem with no cheap reason against it, a greedy
/// proof with a choice in it, and a certified proof that is long enough, far enough from
/// the greedy one and uses a rule that unlocks it, is not rejected; and it is scored.
pub proof fn law_hard_enough_is_served(premises: Seq<Prop>, conclusion: Prop, cfg: ServeConfig)
    requires
        first_tautology(disjuncts(disjunct_target(conclusion)), 0) is None,
        theorem_decoy(premises, conclusion) is None,
        identity_distance(conclusion, cfg.max_identity_distance as nat) is None,
        attempt(premises, conclusion, cfg.greedy_max_lines as nat).found is Some,
        attempt(premises, conclusion, cfg.greedy_max_lines as nat).branches > 0,
        ({
            let end = deepen(
                cfg.optimal.limits(),
                premises,
                conclusion,
                1,
                cfg.optimal.max_lines as nat,
                fresh_ctx(),
            );
            let steps = attempt(premises, conclusion, cfg.greedy_max_lines as nat).found->0;
            &&& !end.1.truncated
            &&& end.0 matches Verdict::Found(best) && best.len() >= cfg.min_optimal_lines
                && steps.len() - best.len() >= cfg.min_divergence && steps.len() - best.len()
                <= i64::MAX && exists|n: Seq<char>| #[trigger]
                unlocking(n, rule_names(best), rule_names(steps))
        }),
    ensures
        served(premises, conclusion, cfg).rejection is None,
        served(premises, conclusion, cfg).optimal_certified,
{
    let limits = cfg.optimal.limits();
    let max = cfg.optimal.max_lines as nat;
    let end = deepen(limits, premises, conclusion, 1, max, fresh_ctx());
    let greedy = attempt(premises, conclusion, cfg.greedy_max_lines as nat);
    law_greedy_valid(premises, conclusion, cfg.greedy_max_lines as nat);
    law_optimal_proves(limits, premises, conclusion, 1, max, fresh_ctx());
    let lines = greedy.found->0.len() as usize;
    let solved = Report {
        greedy_lines: Some(lines),
        branch_points: clamped(greedy.branches),
        ..empty_report()
    };
    let m = measured_end(end.0, end.1);
    law_decided(solved, lines, rule_names(greedy.found->0), m, cfg);
    assert(served(premises, conclusion, cfg) == decided(
        solved,
        lines,
        rule_names(greedy.found->0),
        m,
        cfg,
    ));
}

/// A length that is reported as optimal is minimal: the conclusion cannot be derived from
/// the premises in fewer lines.
pub proof fn law_optimal_lines_minimal(
    premises: Seq<Prop>,
    conclusion: Prop,
    cfg: ServeConfig,
    fewer: nat,
)
    ensures
        served(premises, conclusion, cfg).optimal_lines matches Some(lines) ==> fewer < lines
            ==> !derivable(premises.to_multiset(), conclusion, fewer),
{
    let limits = cfg.optimal.limits();
    let max = cfg.optimal.max_lines as nat;
    law_certified_minimal(limits, premises, conclusion, max);
    law_optimal_proves(limits, premises, conclusion, 1, max, fresh_ctx());
}

/// An uncertified length is never reported as optimal: `optimal_lines` is there exactly
/// where the proof is certified, and nothing is scored that is rejected.
pub proof fn law_uncertified_stays_out(premises: Seq<Prop>, conclusion: Prop, cfg: ServeConfig)
    ensures
        ({
            let r = served(premises, conclusion, cfg);
            &&& r.optimal_certified <==> r.optimal_lines is Some
            &&& r.optimal_certified <==> r.divergence is Some
            &&& r.rejection is Some ==> r.score == 0
        }),
{
}

/// The cheap reasons come first: where one applies, no prover has run.
pub proof fn law_cheap_reasons_first(premises: Seq<Prop>, conclusion: Prop, cfg: ServeConfig)
    ensures
        ({
            let r = served(premises, conclusion, cfg);
            match r.rejection {
                Some(ServeRejection::TautologousDisjunct)
                | Some(ServeRejection::SubformulaDecoy)
                | Some(ServeRejection::DisguisedIdentity { .. }) => r == rejected(
                    empty_report(),
                    r.rejection->0,
                ),
                _ => true,
            }
        }),
{
}

impl ServeAnalysis {
    /// Nothing evaluated yet.
    pub fn empty() -> (r: ServeAnalysis)
        ensures
            r@ == empty_report(),
    {
        let r = ServeAnalysis {
            greedy_lines: None,
            optimal_lines: None,
            best_found_lines: None,
            optimal_certified: false,
            divergence: None,
            unlock_rules: Vec::new(),
            branch_points: 0,
            score: 0,
            rejection: None,
        };
        assert(name_views(r.unlock_rules@) =~= seq![]);
        r
    }
}

/// Runs a theorem through the reasons in their order, stopping at the first that rejects
/// it. The optimal prover runs only on what survived everything before it.
pub fn analyze_for_serving(theorem: &Theorem, cfg: &ServeConfig) -> (r: ServeAnalysis)
    ensures
        r@ == served(theorem.premise_views(), theorem.conclusion@, *cfg),
{
    let mut analysis = ServeAnalysis::empty();
    let cheese = cheese_check(&theorem.premises, &theorem.conclusion, cfg.max_identity_distance);
    if cheese.tautologous_disjunct.is_some() {
        analysis.rejection = Some(ServeRejection::TautologousDisjunct);
        return analysis;
    }
    if cheese.subformula_decoy.is_some() {
        analysis.rejection = Some(ServeRejection::SubformulaDecoy);
        return analysis;
    }
    if let Some(distance) = cheese.identity_rewrite_distance {
        analysis.rejection = Some(ServeRejection::DisguisedIdentity { distance });
        return analysis;
    }
    let greedy = greedy_prove(&theorem.premises, &theorem.conclusion, cfg.greedy_max_lines);
    analysis.branch_points = greedy.branch_points;
    let outcome = greedy.proof;
    match outcome {
        None => {
            analysis.rejection = Some(ServeRejection::NotGreedyProvable);
            analysis
        },
        Some(found) => {
            let lines = found.line_count;
            analysis.greedy_lines = Some(lines);
            if greedy.single_path {
                analysis.rejection = Some(ServeRejection::Hallway);
                return analysis;
            }
            let greedy_rules = found.rules_used();
            let optimal = optimal_prove(&theorem.premises, &theorem.conclusion, &cfg.optimal);
            proof {
                lemma_used(rule_names(step_views(found.steps@)), name_views(greedy_rules@));
            }
            decide_optimal_stage(analysis, lines, &greedy_rules, optimal, cfg)
        },
    }
}

/// Only what the names hold counts for what is unlocked.
proof fn lemma_used(all: Seq<Seq<char>>, once: Seq<Seq<char>>)
    requires
        once == merge_names(seq![], all),
    ensures
        forall|n: Seq<char>| #[trigger] once.contains(n) <==> all.contains(n),
        forall|g: Seq<Seq<char>>| #[trigger] unlocks(g, all) == unlocks(g, once),
        forall|g: Seq<Seq<char>>| #[trigger] unlocks(all, g) == unlocks(once, g),
{
    lemma_merge_names(seq![], all);
    assert forall|n: Seq<char>| #[trigger] once.contains(n) <==> all.contains(n) by {
        assert(!Seq::<Seq<char>>::empty().contains(n));
        assert(merge_names(seq![], all).contains(n) <==> (Seq::<Seq<char>>::empty().contains(n)
            || all.contains(n)));
    }
    assert(once.contains("CD"@) == all.contains("CD"@));
    assert(once.contains("Dist"@) == all.contains("Dist"@));
    assert(once.contains("Exp"@) == all.contains("Exp"@));
    assert(once.contains("IP"@) == all.contains("IP"@));
}

/// Appends `name` if `used` holds it.
fn push_named(out: &mut Vec<String>, used: &Vec<String>, name: &str)
    ensures
        name_views(final(out)@) == name_views(old(out)@) + named(name_views(used@), name@),
{
    let s = name.to_owned();
    let ghost before = out@;
    if has_name(used, &s) {
        out.push(s);
        assert(name_views(out@) =~= name_views(before) + seq![name@]);
    } else {
        assert(name_views(out@) =~= name_views(before) + Seq::<Seq<char>>::empty());
    }
}

/// How many lines shorter the optimal proof is, within the range of machine integers.
fn divergence_of(greedy: usize, optimal: usize) -> (r: i64)
    ensures
        r == line_divergence(greedy, optimal),
{
    let d: i128 = greedy as i128 - optimal as i128;
    if d > i64::MAX as i128 {
        i64::MAX
    } else if d < i64::MIN as i128 {
        i64::MIN
    } else {
        d as i64
    }
}

/// The divergence times one more than the branch points, of which at most three count.
fn score_of(divergence: i64, branch_points: usize) -> (r: u64)
    ensures
        r == route_score(divergence, branch_points),
{
    let routes: i128 = if branch_points < 3 {
        branch_points as i128
    } else {
        3
    };
    let d: i128 = divergence as i128;
    assert(-0x8000_0000_0000_0000int * 4 <= d * (1 + routes) <= 0x8000_0000_0000_0000int * 4)
        by (nonlinear_arith)
        requires
            -0x8000_0000_0000_0000int <= d <= 0x7FFF_FFFF_FFFF_FFFFint,
            0 <= routes <= 3,
    ;
    let product: i128 = d * (1 + routes);
    let shifted: i128 = product + 0x2_0000_0000_0000_0000;
    assert(shifted as int % 0x1_0000_0000_0000_0000 == product as int % 0x1_0000_0000_0000_0000);
    ((shifted as u128) % 0x1_0000_0000_0000_0000) as u64
}

/// What the filter decides once the optimal prover has spoken: everything from
/// `OptimalUnknown` on, and the score.
pub fn decide_optimal_stage(
    analysis: ServeAnalysis,
    greedy_lines: usize,
    greedy_rules: &Vec<String>,
    optimal: OptimalOutcome,
    cfg: &ServeConfig,
) -> (r: ServeAnalysis)
    ensures
        r@ == decided(
            analysis@,
            greedy_lines,
            name_views(greedy_rules@),
            measured(optimal),
            *cfg,
        ),
{
    let mut analysis = analysis;
    match optimal {
        OptimalOutcome::Exhausted | OptimalOutcome::NotProvedWithinBounds => {
            analysis.rejection = Some(ServeRejection::OptimalUnknown);
            analysis
        },
        OptimalOutcome::Proved { proof: found, minimal_proven } => {
            let optimal_lines = found.line_count;
            analysis.best_found_lines = Some(optimal_lines);
            if !minimal_proven {
                analysis.rejection = Some(ServeRejection::OptimalUnknown);
                return analysis;
            }
            analysis.optimal_lines = Some(optimal_lines);
            analysis.optimal_certified = true;
            let divergence = divergence_of(greedy_lines, optimal_lines);
            analysis.divergence = Some(divergence);
            if optimal_lines < cfg.min_optimal_lines {
                analysis.rejection = Some(ServeRejection::TooShort { optimal: optimal_lines });
                return analysis;
            }
            if divergence < cfg.min_divergence {
                analysis.rejection =
                Some(
                    ServeRejection::InsufficientDivergence {
                        greedy: greedy_lines,
                        optimal: optimal_lines,
                    },
                );
                return analysis;
            }
            let used = found.rules_used();
            proof {
                lemma_used(rule_names(step_views(found.steps@)), name_views(used@));
            }
            let mut unlock_rules: Vec<String> = Vec::new();
            assert(name_views(unlock_rules@) =~= seq![]);
            push_named(&mut unlock_rules, &used, "CD");
            push_named(&mut unlock_rules, &used, "Dist");
            push_named(&mut unlock_rules, &used, "Exp");
            let ip = "IP".to_owned();
            if !has_name(greedy_rules, &ip) {
                push_named(&mut unlock_rules, &used, "IP");
            }
            assert(name_views(unlock_rules@) =~= unlocks(
                name_views(used@),
                name_views(greedy_rules@),
            ));
            assert(name_views(unlock_rules@).len() == unlock_rules@.len());
            let none = unlock_rules.len() == 0;
            analysis.unlock_rules = unlock_rules;
            if none {
                analysis.rejection = Some(ServeRejection::NoUnlock);
                return analysis;
            }
            analysis.score = score_of(divergence, analysis.branch_points);
            analysis
        },
    }
}

} // verus!
