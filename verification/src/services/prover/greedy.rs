//! The greedy forward prover ("the philosopher"): deterministic, fixed priority, first
//! productive move, no backtracking, no search.
//!
//! Its purpose is diagnostic, not competitive: it measures how many Fitch lines a
//! diligent but strategically blind student would need to grind out a theorem, and it
//! flags "hallways": theorems where the philosopher never faced a real choice. Choices
//! are counted at every step, with nothing remembered from step to step.

use vstd::prelude::*;

use super::moves::{
    cites, forward_moves, law_moves_exact, law_moves_sound, leads, move_views, moves,
};
use super::moves::{Line, Move, MoveRule};
use super::transcript::{
    citable, formula_at, formulas_at, law_valid_sound, lemma_labels, lemma_valid_direct,
    lemma_valid_subproof, moved, valid,
};
use crate::models::formula::{
    all_true, contains, copy_formulas, entails, eval, first_index, has_name, lemma_first_index,
    lemma_merge_names, lemma_views_push, merge_names, name_views, not_of, p_and, p_implies, p_not,
    p_or, position, views,
};
use crate::models::formula::{Formula, Prop, Valuation};
use crate::models::lists::lemma_in_pushed;
use crate::models::numbers::{bounded_sum, clamped};
use crate::models::rules::technique::{discharge, ProofTechnique};

use crate::models::lists::{copy_positions, positions};

verus! {

/// One line of a found proof.
///
/// The positions in `cited` count through the premises and then the steps: a position
/// below the number of premises is a premise, a later one a step.
#[derive(Debug)]
pub struct ProofStep {
    pub formula: Formula,
    pub rule: String,
    pub cited: Vec<usize>,
}

impl View for ProofStep {
    type V = Line;

    open spec fn view(&self) -> Line {
        Line { formula: self.formula@, rule: self.rule@, cited: positions(self.cited@) }
    }
}

impl Clone for ProofStep {
    fn clone(&self) -> (r: ProofStep)
        ensures
            r@ == self@,
    {
        ProofStep {
            formula: self.formula.clone(),
            rule: self.rule.clone(),
            cited: copy_positions(&self.cited),
        }
    }
}

/// A completed proof: its lines, and how many there are.
#[derive(Debug, Clone)]
pub struct FoundProof {
    pub steps: Vec<ProofStep>,
    pub line_count: usize,
}

/// The models of a list of steps.
pub open spec fn step_views(s: Seq<ProofStep>) -> Seq<Line> {
    Seq::new(s.len(), |i: int| s[i]@)
}

/// The rule names of a list of steps.
pub open spec fn rule_names(s: Seq<Line>) -> Seq<Seq<char>> {
    Seq::new(s.len(), |i: int| s[i].rule)
}

impl FoundProof {
    /// The names of the rules used, each once, in the order of their first use.
    pub fn rules_used(&self) -> (r: Vec<String>)
        ensures
            name_views(r@) == merge_names(seq![], rule_names(step_views(self.steps@))),
            name_views(r@).no_duplicates(),
            forall|n: Seq<char>| #[trigger]
                name_views(r@).contains(n) <==> exists|i: int|
                    0 <= i < self.steps@.len() && (#[trigger] self.steps@[i]).rule@ == n,
    {
        let mut r: Vec<String> = Vec::new();
        let ghost all = rule_names(step_views(self.steps@));
        let mut i: usize = 0;
        assert(name_views(r@) =~= seq![]);
        assert(all.take(0) =~= seq![]);
        while i < self.steps.len()
            invariant
                i <= self.steps@.len(),
                all == rule_names(step_views(self.steps@)),
                name_views(r@) == merge_names(seq![], all.take(i as int)),
            decreases self.steps@.len() - i,
        {
            let ghost t = all.take(i as int + 1);
            let ghost before = r@;
            assert(t.drop_last() =~= all.take(i as int));
            assert(t.last() == self.steps@[i as int].rule@);
            if !has_name(&r, &self.steps[i].rule) {
                r.push(self.steps[i].rule.clone());
                assert(name_views(r@) =~= name_views(before).push(t.last()));
            }
            i = i + 1;
        }
        assert(all.take(all.len() as int) =~= all);
        proof {
            lemma_merge_names(seq![], all);
            assert forall|n: Seq<char>| #[trigger] name_views(r@).contains(n) <==> exists|k: int|
                0 <= k < self.steps@.len() && (#[trigger] self.steps@[k]).rule@ == n by {
                if all.contains(n) {
                    let k = choose|k: int| 0 <= k < all.len() && all[k] == n;
                    assert(self.steps@[k].rule@ == n);
                }
                if exists|k: int|
                    0 <= k < self.steps@.len() && (#[trigger] self.steps@[k]).rule@ == n {
                    let k = choose|k: int|
                        0 <= k < self.steps@.len() && (#[trigger] self.steps@[k]).rule@ == n;
                    assert(all[k] == n);
                }
            }
        }
        r
    }
}

/// The result of a greedy proof attempt.
#[derive(Debug, Clone)]
pub struct GreedyOutcome {
    pub proof: Option<FoundProof>,
    pub branch_points: usize,
    pub single_path: bool,
}

/// A greedy attempt, as a value: the steps, if the goal was reached, and how many
/// alternatives were passed over on the way.
pub struct Attempt {
    pub found: Option<Seq<Line>>,
    pub branches: nat,
}

/// The formulas that some steps result in.
pub open spec fn results(ms: Seq<Line>) -> Seq<Prop> {
    Seq::new(ms.len(), |i: int| ms[i].formula)
}

/// How many alternatives to the first move there are: moves with the same result are
/// one.
pub open spec fn alternatives(ms: Seq<Line>) -> nat {
    (results(ms).to_set().len() - 1) as nat
}

/// `inside` as a subproof of the given technique, after `state`, with its assumption
/// before it and the line that states `conclusion` after it.
pub open spec fn enclosed(
    state: Seq<Prop>,
    t: ProofTechnique,
    assumption: Prop,
    inside: Seq<Line>,
    conclusion: Prop,
) -> Seq<Line> {
    let open = Line { formula: assumption, rule: t.assumption_name(), cited: seq![] };
    let close = Line {
        formula: conclusion,
        rule: t.short_name(),
        cited: seq![state.len() as int, (state.len() + inside.len()) as int],
    };
    seq![open] + inside + seq![close]
}

/// A greedy attempt at a subproof that assumes `assumption`, derives `target` and
/// discharges to `goal`.
pub open spec fn attempt_subproof(
    state: Seq<Prop>,
    goal: Prop,
    t: ProofTechnique,
    assumption: Prop,
    target: Prop,
    room: nat,
) -> Attempt
    decreases room, 0int,
{
    if room < 2 {
        Attempt { found: None, branches: 0 }
    } else {
        let sub = attempt(state.push(assumption), target, (room - 2) as nat);
        match sub.found {
            None => sub,
            Some(inside) => Attempt {
                found: Some(enclosed(state, t, assumption, inside, goal)),
                branches: sub.branches,
            },
        }
    }
}

/// The one goal-directed step of the greedy prover, where no forward move is left: a
/// conditional proof for an implication; addition or conjunction where the parts are in
/// hand; an indirect proof otherwise.
pub open spec fn attempt_structural(state: Seq<Prop>, goal: Prop, room: nat) -> Attempt
    decreases room, 1int,
{
    let indirect = attempt_subproof(
        state,
        goal,
        ProofTechnique::IndirectProof,
        p_not(goal),
        Prop::Contradiction,
        room,
    );
    match goal {
        Prop::Implies(a, c) => attempt_subproof(
            state,
            goal,
            ProofTechnique::ConditionalProof,
            *a,
            *c,
            room,
        ),
        Prop::Or(l, r) => match (first_index(state, *l), first_index(state, *r)) {
            (Some(i), _) => Attempt {
                found: Some(seq![Line { formula: goal, rule: "Add"@, cited: seq![i] }]),
                branches: 0,
            },
            (None, Some(i)) => Attempt {
                found: Some(seq![Line { formula: goal, rule: "Add"@, cited: seq![i] }]),
                branches: 0,
            },
            (None, None) => indirect,
        },
        Prop::And(l, r) => match (first_index(state, *l), first_index(state, *r)) {
            (Some(i), Some(j)) => Attempt {
                found: Some(seq![Line { formula: goal, rule: "Conj"@, cited: seq![i, j] }]),
                branches: 0,
            },
            _ => indirect,
        },
        _ => indirect,
    }
}

/// The greedy attempt to reach `goal` from `state` in at most `room` lines: nothing to do
/// if the goal is there; else the first forward move, and on from there; else the one
/// goal-directed step.
pub open spec fn attempt(state: Seq<Prop>, goal: Prop, room: nat) -> Attempt
    decreases room, 2int,
{
    let ms = moves(state);
    if state.contains(goal) {
        Attempt { found: Some(seq![]), branches: 0 }
    } else if room == 0 {
        Attempt { found: None, branches: 0 }
    } else if ms.len() > 0 {
        let rest = attempt(state.push(ms[0].formula), goal, (room - 1) as nat);
        Attempt {
            found: match rest.found {
                Some(steps) => Some(seq![ms[0]] + steps),
                None => None,
            },
            branches: alternatives(ms) + rest.branches,
        }
    } else {
        attempt_structural(state, goal, room)
    }
}

/// A forward move is taken without looking back: what the attempt finds is the first move
/// and then what it finds from there, and what it passed over is what it passes over
/// there, together with the other results that a move could have had here.
pub proof fn law_greedy_first_move(state: Seq<Prop>, goal: Prop, room: nat)
    requires
        !state.contains(goal),
        room >= 1,
        moves(state).len() > 0,
    ensures
        ({
            let ms = moves(state);
            let rest = attempt(state.push(ms[0].formula), goal, (room - 1) as nat);
            let whole = attempt(state, goal, room);
            &&& whole.found is Some <==> rest.found is Some
            &&& rest.found matches Some(steps) ==> whole.found == Some(seq![ms[0]] + steps)
            &&& whole.branches == rest.branches + results(ms).to_set().len() - 1
        }),
{
    let rs = results(moves(state));
    assert(rs.to_set().contains(rs[0]));
    if rs.to_set().len() == 0 {
        assert(rs.to_set() =~= Set::empty());
    }
}

/// A goal that is known takes no line, and where no line is left nothing else is proved.
pub proof fn law_greedy_known(state: Seq<Prop>, goal: Prop, room: nat)
    ensures
        state.contains(goal) ==> attempt(state, goal, room) == (Attempt {
            found: Some(seq![]),
            branches: 0,
        }),
        !state.contains(goal) && room == 0 ==> attempt(state, goal, room).found is None,
{
}

/// With no forward move left, a conjunction of known halves is proved in one line by
/// conjunction, which cites the halves, and no alternative is counted.
pub proof fn law_greedy_conjunction(state: Seq<Prop>, l: Prop, r: Prop, room: nat)
    requires
        moves(state).len() == 0,
        !state.contains(p_and(l, r)),
        state.contains(l),
        state.contains(r),
        room >= 1,
    ensures
        ({
            let a = attempt(state, p_and(l, r), room);
            &&& a.branches == 0
            &&& a.found matches Some(steps) && steps.len() == 1 && steps[0].formula == p_and(l, r)
                && steps[0].rule == "Conj"@ && steps[0].cited.len() == 2 && 0
                <= steps[0].cited[0] < state.len() && state[steps[0].cited[0]] == l && 0
                <= steps[0].cited[1] < state.len() && state[steps[0].cited[1]] == r
        }),
{
    lemma_first_index(state, l);
    lemma_first_index(state, r);
    assert(attempt(state, p_and(l, r), room) == attempt_structural(state, p_and(l, r), room));
}

/// With no forward move left, a disjunction with a known side is proved in one line by
/// addition, which cites that side, the left one where both are known; and no alternative
/// is counted.
pub proof fn law_greedy_addition(state: Seq<Prop>, l: Prop, r: Prop, room: nat)
    requires
        moves(state).len() == 0,
        !state.contains(p_or(l, r)),
        state.contains(l) || state.contains(r),
        room >= 1,
    ensures
        ({
            let a = attempt(state, p_or(l, r), room);
            let side = if state.contains(l) {
                l
            } else {
                r
            };
            &&& a.branches == 0
            &&& a.found matches Some(steps) && steps.len() == 1 && steps[0].formula == p_or(l, r)
                && steps[0].rule == "Add"@ && steps[0].cited.len() == 1 && 0
                <= steps[0].cited[0] < state.len() && state[steps[0].cited[0]] == side
        }),
{
    lemma_first_index(state, l);
    lemma_first_index(state, r);
    assert(attempt(state, p_or(l, r), room) == attempt_structural(state, p_or(l, r), room));
}

/// With no forward move left, an implication is proved by a conditional proof exactly
/// where its consequent is proved from its antecedent in two lines less: those are the
/// first line, which assumes the antecedent, and the last.
pub proof fn law_greedy_conditional(state: Seq<Prop>, a: Prop, c: Prop, room: nat)
    requires
        moves(state).len() == 0,
        !state.contains(p_implies(a, c)),
        room >= 2,
    ensures
        ({
            let inner = attempt(state.push(a), c, (room - 2) as nat);
            let outer = attempt(state, p_implies(a, c), room);
            &&& outer.branches == inner.branches
            &&& outer.found is Some <==> inner.found is Some
            &&& inner.found matches Some(inside) ==> outer.found matches Some(steps)
                && steps.len() == inside.len() + 2 && steps[0].formula == a && steps[0].rule
                == "ACP"@ && steps.subrange(1, steps.len() - 1) == inside && steps.last().formula
                == p_implies(a, c) && steps.last().rule == "CP"@
        }),
{
    let inner = attempt(state.push(a), c, (room - 2) as nat);
    let goal = p_implies(a, c);
    assert(attempt(state, goal, room) == attempt_structural(state, goal, room));
    assert(attempt_structural(state, goal, room) == attempt_subproof(
        state,
        goal,
        ProofTechnique::ConditionalProof,
        a,
        c,
        room,
    ));
    if inner.found is Some {
        let steps = attempt(state, p_implies(a, c), room).found->0;
        assert(steps.subrange(1, steps.len() - 1) =~= inner.found->0);
    }
}

/// With no forward move left, every other goal is proved by an indirect proof exactly where
/// the contradiction is proved from its negation in two lines less: those are the first
/// line, which assumes the negation, and the last.
pub proof fn law_greedy_indirect(state: Seq<Prop>, goal: Prop, room: nat)
    requires
        moves(state).len() == 0,
        !state.contains(goal),
        room >= 2,
        !(goal is Implies),
        goal matches Prop::Or(l, r) ==> !state.contains(*l) && !state.contains(*r),
        goal matches Prop::And(l, r) ==> !state.contains(*l) || !state.contains(*r),
    ensures
        ({
            let inner = attempt(state.push(p_not(goal)), Prop::Contradiction, (room - 2) as nat);
            let outer = attempt(state, goal, room);
            &&& outer.branches == inner.branches
            &&& outer.found is Some <==> inner.found is Some
            &&& inner.found matches Some(inside) ==> outer.found matches Some(steps)
                && steps.len() == inside.len() + 2 && steps[0].formula == p_not(goal)
                && steps[0].rule == "AIP"@ && steps.subrange(1, steps.len() - 1) == inside
                && steps.last().formula == goal && steps.last().rule == "IP"@
        }),
{
    match goal {
        Prop::Or(l, r) | Prop::And(l, r) => {
            lemma_first_index(state, *l);
            lemma_first_index(state, *r);
        },
        _ => {},
    }
    let inner = attempt(state.push(p_not(goal)), Prop::Contradiction, (room - 2) as nat);
    assert(attempt(state, goal, room) == attempt_structural(state, goal, room));
    assert(attempt_structural(state, goal, room) == attempt_subproof(
        state,
        goal,
        ProofTechnique::IndirectProof,
        p_not(goal),
        Prop::Contradiction,
        room,
    ));
    if inner.found is Some {
        let steps = attempt(state, goal, room).found->0;
        assert(steps.subrange(1, steps.len() - 1) =~= inner.found->0);
    }
}

/// With one line left and no forward move, nothing is proved but a conjunction of known
/// halves and a disjunction with a known side.
pub proof fn law_greedy_last_line(state: Seq<Prop>, goal: Prop)
    requires
        moves(state).len() == 0,
        !state.contains(goal),
    ensures
        attempt(state, goal, 1).found is Some <==> match goal {
            Prop::And(l, r) => state.contains(*l) && state.contains(*r),
            Prop::Or(l, r) => state.contains(*l) || state.contains(*r),
            _ => false,
        },
{
    assert(attempt(state, goal, 1) == attempt_structural(state, goal, 1));
    match goal {
        Prop::Implies(a, c) => {
            assert(attempt_structural(state, goal, 1) == attempt_subproof(
                state,
                goal,
                ProofTechnique::ConditionalProof,
                *a,
                *c,
                1,
            ));
        },
        Prop::Or(l, r) | Prop::And(l, r) => {
            lemma_first_index(state, *l);
            lemma_first_index(state, *r);
        },
        _ => {},
    }
}

/// What a greedy attempt finds keeps to its room, is empty exactly where the goal was
/// there, ends with the goal, and is a valid transcript.
pub proof fn law_greedy_valid(state: Seq<Prop>, goal: Prop, room: nat)
    ensures
        attempt(state, goal, room).found matches Some(steps) ==> {
            &&& steps.len() <= room
            &&& steps.len() == 0 <==> state.contains(goal)
            &&& steps.len() > 0 ==> steps.last().formula == goal
            &&& valid(state, steps)
        },
    decreases room, 2int,
{
    let ms = moves(state);
    let a = attempt(state, goal, room);
    if state.contains(goal) || room == 0 {
    } else if ms.len() > 0 {
        let m = ms[0];
        let inner = state.push(m.formula);
        law_greedy_valid(inner, goal, (room - 1) as nat);
        let rest = attempt(inner, goal, (room - 1) as nat);
        if rest.found is Some {
            let steps = rest.found->0;
            assert(ms.contains(m));
            law_moves_sound(state, m);
            law_moves_exact(state, m);
            let (rule, i, j, k) = choose|rule: MoveRule, i: int, j: int, k: int|
                #![trigger leads(state, rule, i, j, k, m.formula)]
                leads(state, rule, i, j, k, m.formula) && m.rule == rule.label() && m.cited
                    == cites(rule, i, j, k);
            lemma_labels(rule);
            let all = seq![m] + steps;
            let fs = formulas_at(state, all, m.cited);
            assert(rule.gives(fs[0], fs[1], fs[2]).contains(m.formula)) by {
                assert(fs[0] == state[i]);
                if rule.arity() >= 2 {
                    assert(fs[1] == state[j]);
                }
                if rule.arity() == 3 {
                    assert(fs[2] == state[k]);
                }
            }
            assert(moved(m, fs));
            lemma_valid_direct(state, m, steps);
            if steps.len() > 0 {
                assert(all.last() == steps.last());
            } else {
                assert(all.last() == m);
                let i = choose|i: int| 0 <= i < inner.len() && inner[i] == goal;
                assert(i == state.len()) by {
                    if i < state.len() {
                        assert(state[i] == goal);
                    }
                }
            }
        }
    } else {
        lemma_structural_valid(state, goal, room);
    }
}

/// [`law_greedy_valid`] for the goal-directed step.
proof fn lemma_structural_valid(state: Seq<Prop>, goal: Prop, room: nat)
    requires
        room > 0,
    ensures
        attempt_structural(state, goal, room).found matches Some(steps) ==> {
            &&& 0 < steps.len() <= room
            &&& steps.last().formula == goal
            &&& valid(state, steps)
        },
    decreases room, 1int,
{
    lemma_labels(MoveRule::Simp);
    lemma_subproof_valid(
        state,
        goal,
        ProofTechnique::IndirectProof,
        p_not(goal),
        Prop::Contradiction,
        room,
    );
    match goal {
        Prop::Implies(a, c) => {
            lemma_subproof_valid(state, goal, ProofTechnique::ConditionalProof, *a, *c, room);
        },
        Prop::Or(l, r) => {
            lemma_first_index(state, *l);
            lemma_first_index(state, *r);
            if first_index(state, *l) is Some || first_index(state, *r) is Some {
                let steps = attempt_structural(state, goal, room).found->0;
                let line = steps[0];
                assert(steps =~= seq![line] + Seq::<Line>::empty());
                assert(formulas_at(state, seq![line] + Seq::<Line>::empty(), line.cited)[0]
                    == state[line.cited[0]]);
                lemma_valid_direct(state, line, seq![]);
            }
        },
        Prop::And(l, r) => {
            lemma_first_index(state, *l);
            lemma_first_index(state, *r);
            if first_index(state, *l) is Some && first_index(state, *r) is Some {
                let steps = attempt_structural(state, goal, room).found->0;
                let line = steps[0];
                assert(steps =~= seq![line] + Seq::<Line>::empty());
                let fs = formulas_at(state, seq![line] + Seq::<Line>::empty(), line.cited);
                assert(fs[0] == *l && fs[1] == *r);
                lemma_valid_direct(state, line, seq![]);
            }
        },
        _ => {},
    }
}

/// [`law_greedy_valid`] for a subproof.
proof fn lemma_subproof_valid(
    state: Seq<Prop>,
    goal: Prop,
    t: ProofTechnique,
    assumption: Prop,
    target: Prop,
    room: nat,
)
    requires
        discharge(t, assumption, target) == Some(goal),
    ensures
        attempt_subproof(state, goal, t, assumption, target, room).found matches Some(steps) ==> {
            &&& 0 < steps.len() <= room
            &&& steps.last().formula == goal
            &&& valid(state, steps)
        },
    decreases room, 0int,
{
    if room >= 2 {
        let inner = state.push(assumption);
        law_greedy_valid(inner, target, (room - 2) as nat);
        let sub = attempt(inner, target, (room - 2) as nat);
        if sub.found is Some {
            let inside = sub.found->0;
            let steps = enclosed(state, t, assumption, inside, goal);
            let close = steps.last();
            let n = (state.len() + 1 + inside.len()) as int;
            let u = if inside.len() > 0 {
                n - 1
            } else {
                choose|i: int| 0 <= i < inner.len() && inner[i] == target
            };
            assert(formula_at(inner, inside, u) == target);
            assert(citable(inner, inside, n, u));
            lemma_valid_subproof(state, t, assumption, inside, close, u);
        }
    }
}

/// A goal that the greedy prover reaches follows from the premises.
pub proof fn law_greedy_sound(state: Seq<Prop>, goal: Prop, room: nat)
    requires
        attempt(state, goal, room).found is Some,
    ensures
        entails(state, goal),
{
    law_greedy_valid(state, goal, room);
    let steps = attempt(state, goal, room).found->0;
    if steps.len() > 0 {
        law_valid_sound(state, steps);
    } else {
        let i = choose|i: int| 0 <= i < state.len() && state[i] == goal;
        assert forall|v: Valuation| #[trigger] all_true(state, v) implies eval(goal, v) by {
            assert(eval(state[i], v));
        }
    }
}

/// A goal that does not follow from the premises is never reached.
pub proof fn law_greedy_refuses(state: Seq<Prop>, goal: Prop, room: nat)
    requires
        !entails(state, goal),
    ensures
        attempt(state, goal, room).found is None,
{
    if attempt(state, goal, room).found is Some {
        law_greedy_sound(state, goal, room);
    }
}

/// Whether an outcome is what an attempt gives.
pub open spec fn outcome_is(r: GreedyOutcome, a: Attempt) -> bool {
    &&& match r.proof {
        Some(p) => a.found == Some(step_views(p.steps@)) && p.line_count == p.steps@.len(),
        None => a.found is None,
    }
    &&& r.branch_points == clamped(a.branches)
    &&& r.single_path == (a.branches == 0)
}

/// How many different formulas the moves result in.
fn count_results(ms: &Vec<Move>) -> (r: usize)
    ensures
        r == results(move_views(ms@)).to_set().len(),
{
    let ghost all = results(move_views(ms@));
    let mut firsts: Vec<usize> = Vec::new();
    let ghost mut uniq: Seq<Prop> = seq![];
    let mut i: usize = 0;
    assert(all.take(0).to_set() =~= uniq.to_set());
    while i < ms.len()
        invariant
            i <= ms@.len(),
            all == results(move_views(ms@)),
            uniq.len() == firsts@.len(),
            forall|k: int|
                0 <= k < firsts@.len() ==> (#[trigger] firsts@[k]) < i && uniq[k] == all[firsts@[k] as int],
            uniq.no_duplicates(),
            uniq.to_set() == all.take(i as int).to_set(),
        decreases ms@.len() - i,
    {
        let mut j: usize = 0;
        let mut seen = false;
        while j < firsts.len() && !seen
            invariant
                i < ms@.len(),
                j <= firsts@.len(),
                all == results(move_views(ms@)),
                uniq.len() == firsts@.len(),
                forall|k: int|
                    0 <= k < firsts@.len() ==> (#[trigger] firsts@[k]) < i && uniq[k] == all[firsts@[k] as int],
                seen ==> uniq.contains(all[i as int]),
                !seen ==> forall|k: int| 0 <= k < j ==> uniq[k] != all[i as int],
            decreases firsts@.len() - j + (if seen { 0int } else { 1int }),
        {
            let f = firsts[j];
            assert(all[f as int] == ms@[f as int].result@);
            assert(all[i as int] == ms@[i as int].result@);
            if ms[f].result.same(&ms[i].result) {
                assert(uniq[j as int] == all[i as int]);
                seen = true;
            } else {
                j = j + 1;
            }
        }
        proof {
            let t = all.take(i as int + 1);
            assert(t =~= all.take(i as int).push(all[i as int]));
            assert(t.to_set() =~= all.take(i as int).to_set().insert(all[i as int])) by {
                assert forall|x: Prop| t.to_set().contains(x) <==> all.take(
                    i as int,
                ).to_set().insert(all[i as int]).contains(x) by {
                    lemma_in_pushed(all.take(i as int), all[i as int], x);
                }
            }
            if seen {
                assert(uniq.to_set().contains(all[i as int]));
                assert(t.to_set() =~= uniq.to_set());
            } else {
                assert(!uniq.contains(all[i as int]));
                let grown = uniq.push(all[i as int]);
                assert(grown.to_set() =~= uniq.to_set().insert(all[i as int])) by {
                    assert forall|x: Prop| grown.to_set().contains(x) <==> uniq.to_set().insert(
                        all[i as int],
                    ).contains(x) by {
                        lemma_in_pushed(uniq, all[i as int], x);
                    }
                }
                assert(grown.no_duplicates());
                uniq = grown;
            }
        }
        if !seen {
            firsts.push(i);
        }
        i = i + 1;
    }
    proof {
        assert(all.take(all.len() as int) =~= all);
        uniq.unique_seq_to_set();
    }
    firsts.len()
}

/// Pushing commutes with taking models.
proof fn lemma_step_views_push(s: Seq<ProofStep>, x: ProofStep)
    ensures
        step_views(s.push(x)) == step_views(s).push(x@),
{
    assert(step_views(s.push(x)) =~= step_views(s).push(x@));
}

/// Moves the steps of `more` to the end of `steps`.
pub fn append_steps(steps: &mut Vec<ProofStep>, more: Vec<ProofStep>)
    ensures
        step_views(final(steps)@) == step_views(old(steps)@) + step_views(more@),
{
    let ghost start = steps@;
    let mut rest = more;
    steps.append(&mut rest);
    assert(step_views(steps@) =~= step_views(start) + step_views(more@));
}

/// Appends the formulas of the steps to `state`.
pub fn push_formulas(state: &mut Vec<Formula>, steps: &Vec<ProofStep>)
    ensures
        views(final(state)@) == views(old(state)@) + results(step_views(steps@)),
{
    broadcast use lemma_views_push;

    let ghost start = views(state@);
    let ghost all = results(step_views(steps@));
    let mut i: usize = 0;
    assert(start + all.take(0) =~= start);
    while i < steps.len()
        invariant
            i <= steps@.len(),
            all == results(step_views(steps@)),
            views(state@) == start + all.take(i as int),
        decreases steps@.len() - i,
    {
        let ghost before = state@;
        let f = steps[i].formula.clone();
        state.push(f);
        assert(views(state@) == views(before).push(f@));
        assert(all.take(i as int + 1) =~= all.take(i as int).push(steps@[i as int].formula@));
        assert(views(state@) =~= start + all.take(i as int + 1));
        i = i + 1;
    }
    assert(all.take(all.len() as int) =~= all);
}

/// One step.
pub fn step(formula: Formula, rule: &str, cited: Vec<usize>) -> (r: ProofStep)
    ensures
        r@ == (Line { formula: formula@, rule: rule@, cited: positions(cited@) }),
{
    ProofStep { formula, rule: rule.to_owned(), cited }
}

/// One step, alone.
pub fn one_step(formula: Formula, rule: &str, cited: Vec<usize>) -> (r: Vec<ProofStep>)
    ensures
        step_views(r@) == seq![
            Line { formula: formula@, rule: rule@, cited: positions(cited@) },
        ],
{
    let mut r: Vec<ProofStep> = Vec::new();
    let ghost line = Line { formula: formula@, rule: rule@, cited: positions(cited@) };
    r.push(step(formula, rule, cited));
    assert(step_views(r@) =~= seq![line]);
    r
}

/// The outcome of an attempt that found nothing.
fn nothing(branch_points: usize) -> (r: GreedyOutcome)
    ensures
        r.proof is None,
        r.branch_points == branch_points,
        r.single_path == (branch_points == 0),
{
    GreedyOutcome { proof: None, branch_points, single_path: branch_points == 0 }
}

/// The outcome of an attempt that found these steps.
fn something(steps: Vec<ProofStep>, branch_points: usize) -> (r: GreedyOutcome)
    ensures
        r.proof matches Some(p) && p.steps@ == steps@ && p.line_count == steps@.len(),
        r.branch_points == branch_points,
        r.single_path == (branch_points == 0),
{
    let line_count = steps.len();
    GreedyOutcome {
        proof: Some(FoundProof { steps, line_count }),
        branch_points,
        single_path: branch_points == 0,
    }
}

/// Attempts a subproof: assume `assumption`, reach `target`, discharge.
fn try_subproof(
    state: &Vec<Formula>,
    goal: &Formula,
    technique: ProofTechnique,
    assumption: &Formula,
    target: &Formula,
    room: usize,
) -> (r: GreedyOutcome)
    requires
        discharge(technique, assumption@, target@) == Some(goal@),
    ensures
        outcome_is(
            r,
            attempt_subproof(views(state@), goal@, technique, assumption@, target@, room as nat),
        ),
    decreases room, 0int,
{
    broadcast use lemma_views_push;

    if room < 2 {
        return nothing(0);
    }
    let assumption_index = state.len();
    let mut inner = copy_formulas(state);
    inner.push(assumption.clone());
    assert(views(inner@) =~= views(state@).push(assumption@));
    let sub = greedy_prove(&inner, target, room - 2);
    match sub.proof {
        None => nothing(sub.branch_points),
        Some(found) => {
            proof {
                law_greedy_valid(views(inner@), target@, (room - 2) as nat);
            }
            let mut steps = one_step(
                assumption.clone(),
                technique.assumption_abbreviation(),
                Vec::new(),
            );
            let ghost inside = step_views(found.steps@);
            push_formulas(&mut inner, &found.steps);
            assert(views(inner@).len() == views(state@).len() + 1 + inside.len());
            let last_index = inner.len() - 1;
            append_steps(&mut steps, found.steps);
            let mut cited: Vec<usize> = Vec::new();
            cited.push(assumption_index);
            cited.push(last_index);
            match technique.get_conclusion(assumption, target) {
                Some(conclusion) => {
                    append_steps(&mut steps, one_step(conclusion, technique.abbreviation(), cited));
                },
                None => {},
            }
            proof {
                let sv = views(state@);
                assert(positions(Seq::<usize>::empty()) =~= seq![]);
                assert(positions(cited@) =~= seq![
                    sv.len() as int,
                    (sv.len() + inside.len()) as int,
                ]);
                assert(step_views(steps@) =~= enclosed(
                    sv,
                    technique,
                    assumption@,
                    inside,
                    goal@,
                ));
            }
            something(steps, sub.branch_points)
        },
    }
}

/// Attempts an indirect proof of `goal`.
fn try_ip(state: &Vec<Formula>, goal: &Formula, room: usize) -> (r: GreedyOutcome)
    ensures
        outcome_is(
            r,
            attempt_subproof(
                views(state@),
                goal@,
                ProofTechnique::IndirectProof,
                p_not(goal@),
                Prop::Contradiction,
                room as nat,
            ),
        ),
    decreases room, 1int,
{
    let assumption = not_of(goal);
    try_subproof(
        state,
        goal,
        ProofTechnique::IndirectProof,
        &assumption,
        &Formula::Contradiction,
        room,
    )
}

/// The step by addition to `goal`, given where one of its sides stands.
fn try_add(goal: &Formula, i: usize) -> (r: GreedyOutcome)
    ensures
        outcome_is(
            r,
            (Attempt {
                found: Some(
                    seq![Line { formula: goal@, rule: "Add"@, cited: seq![i as int] }],
                ),
                branches: 0,
            }),
        ),
{
    let mut cited: Vec<usize> = Vec::new();
    cited.push(i);
    assert(positions(cited@) =~= seq![i as int]);
    something(one_step(goal.clone(), "Add", cited), 0)
}

/// The step by conjunction to `goal`, given where its sides stand.
fn try_conj(goal: &Formula, i: usize, j: usize) -> (r: GreedyOutcome)
    ensures
        outcome_is(
            r,
            (Attempt {
                found: Some(
                    seq![Line { formula: goal@, rule: "Conj"@, cited: seq![i as int, j as int] }],
                ),
                branches: 0,
            }),
        ),
{
    let mut cited: Vec<usize> = Vec::new();
    cited.push(i);
    cited.push(j);
    assert(positions(cited@) =~= seq![i as int, j as int]);
    something(one_step(goal.clone(), "Conj", cited), 0)
}

/// The one goal-directed step, where no forward move is left.
fn try_structural(state: &Vec<Formula>, goal: &Formula, room: usize) -> (r: GreedyOutcome)
    ensures
        outcome_is(r, attempt_structural(views(state@), goal@, room as nat)),
    decreases room, 2int,
{
    match goal {
        Formula::Implies(a, c) => try_subproof(
            state,
            goal,
            ProofTechnique::ConditionalProof,
            a,
            c,
            room,
        ),
        Formula::Or(l, r) => match position(state, l) {
            Some(i) => try_add(goal, i),
            None => match position(state, r) {
                Some(i) => try_add(goal, i),
                None => try_ip(state, goal, room),
            },
        },
        Formula::And(l, r) => match (position(state, l), position(state, r)) {
            (Some(i), Some(j)) => try_conj(goal, i, j),
            _ => try_ip(state, goal, room),
        },
        _ => try_ip(state, goal, room),
    }
}

/// Runs the greedy ("philosopher") policy against `goal` from `premises`.
///
/// At each step it takes the first forward move. When there is none, it makes exactly
/// one goal-directed attempt, chosen by the shape of the goal: a conditional proof for an
/// implication, addition for a disjunction with a side in hand, conjunction with both
/// sides in hand, or else an indirect proof. If that fails, the call fails.
///
/// `max_lines` bounds the number of lines that the call, with everything it recurses
/// into, may add; a subproof keeps two of them for its assumption and its discharge.
/// A count of branch points beyond the greatest machine number stays at that number.
pub fn greedy_prove(premises: &[Formula], goal: &Formula, max_lines: usize) -> (r: GreedyOutcome)
    ensures
        outcome_is(r, attempt(views(premises@), goal@, max_lines as nat)),
        r.proof is Some <==> attempt(views(premises@), goal@, max_lines as nat).found is Some,
        r.proof matches Some(p) ==> p.line_count == p.steps@.len() && step_views(p.steps@)
            == attempt(views(premises@), goal@, max_lines as nat).found->0,
        r.single_path <==> attempt(views(premises@), goal@, max_lines as nat).branches == 0,
        r.single_path <==> r.branch_points == 0,
        r.proof matches Some(p) ==> p.line_count <= max_lines && valid(
            views(premises@),
            step_views(p.steps@),
        ) && entails(views(premises@), goal@),
        r.proof is None ==> !views(premises@).contains(goal@),
    decreases max_lines, 3int,
{
    broadcast use lemma_views_push;

    let mut state: Vec<Formula> = copy_formulas(premises);
    let mut transcript: Vec<ProofStep> = Vec::new();
    let mut branch_points: usize = 0;
    let ghost whole = attempt(views(premises@), goal@, max_lines as nat);
    let ghost mut passed: nat = 0;
    proof {
        law_greedy_valid(views(premises@), goal@, max_lines as nat);
        if whole.found is Some {
            law_greedy_sound(views(premises@), goal@, max_lines as nat);
        }
        assert(step_views(transcript@) =~= seq![]);
        if whole.found is Some {
            assert(step_views(transcript@) + whole.found->0 =~= whole.found->0);
        }
    }
    loop
        invariant
            transcript@.len() <= max_lines,
            branch_points == clamped(passed),
            ({
                let rest = attempt(
                    views(state@),
                    goal@,
                    (max_lines - transcript@.len()) as nat,
                );
                &&& whole.branches == passed + rest.branches
                &&& whole.found == match rest.found {
                    Some(steps) => Some(step_views(transcript@) + steps),
                    None => None,
                }
            }),
            whole == attempt(views(premises@), goal@, max_lines as nat),
            whole.found matches Some(steps) ==> steps.len() <= max_lines && valid(
                views(premises@),
                steps,
            ) && entails(views(premises@), goal@),
            whole.found is None ==> !views(premises@).contains(goal@),
        decreases max_lines - transcript@.len(),
    {
        if contains(&state, goal) {
            assert(step_views(transcript@) + Seq::<Line>::empty() =~= step_views(transcript@));
            return something(transcript, branch_points);
        }
        if transcript.len() >= max_lines {
            return nothing(branch_points);
        }
        let candidates = forward_moves(&state);
        if candidates.len() > 0 {
            let productive = count_results(&candidates);
            proof {
                let rs = results(move_views(candidates@));
                assert(rs.to_set().contains(rs[0]));
                assert(rs.to_set().len() > 0) by {
                    if rs.to_set().len() == 0 {
                        rs.to_set().lemma_len0_is_empty();
                    }
                }
                passed = passed + alternatives(move_views(candidates@));
            }
            branch_points = bounded_sum(branch_points, productive - 1);
            let chosen = &candidates[0];
            assert(move_views(candidates@)[0] == chosen@);
            let ghost before = transcript@;
            let ghost old_state = views(state@);
            let ghost rest_state = views(state@).push(chosen.result@);
            state.push(chosen.result.clone());
            let s = step(chosen.result.clone(), chosen.rule, copy_positions(&chosen.cited));
            transcript.push(s);
            proof {
                lemma_step_views_push(before, s);
                assert(s@ == chosen@);
                assert(moves(old_state).len() > 0 && moves(old_state)[0] == chosen@);
                assert(!old_state.contains(goal@));
                let had = attempt(old_state, goal@, (max_lines - before.len()) as nat);
                let rest = attempt(
                    rest_state,
                    goal@,
                    (max_lines - transcript@.len()) as nat,
                );
                assert(had.branches == alternatives(moves(old_state)) + rest.branches);
                assert(views(state@) == rest_state);
                if rest.found is Some {
                    assert(had.found == Some(seq![chosen@] + rest.found->0));
                    assert(step_views(before) + (seq![chosen@] + rest.found->0) =~= step_views(
                        transcript@,
                    ) + rest.found->0);
                }
            }
        } else {
            let last = try_structural(&state, goal, max_lines - transcript.len());
            let branches = bounded_sum(branch_points, last.branch_points);
            return match last.proof {
                None => nothing(branches),
                Some(found) => {
                    let mut steps = transcript;
                    append_steps(&mut steps, found.steps);
                    something(steps, branches)
                },
            };
        }
    }
}

} // verus!
