//! Forward move enumeration.
//!
//! [`forward_moves`] enumerates every mechanically available next step from a proof
//! state: the forward inference rules MP, MT, DS, Simp, HS, CD and NegE, plus two
//! terminating normalisation rewrites, inward De Morgan and the stripping of a double
//! negation.
//!
//! Conj and Add are left out on purpose: both need a target formula that the state alone
//! does not give. They are goal-directed, and belong to the provers that use this module.
//!
//! No move results in a formula that the state already holds.

use vstd::prelude::*;

use super::bank::{extends, ids_within, lemma_picked_extends, picked};
use super::bank::{Bank, Kind, Node};
use crate::models::formula::{all_true, entails, eval, p_and, p_implies, p_not, p_or, views};
use crate::models::formula::{Formula, Prop, Valuation};
use crate::models::lists::{copy_positions, positions};
use crate::models::lists::{
    joined_upto, lemma_in_joined, lemma_joined_empty, lemma_joined_order, lemma_joined_upto,
};
use crate::models::rules::equivalence::{forms, law_forms_by_schema, schema, EquivalenceRule};
use crate::models::rules::inference::{
    are_three, are_two, cd, ds, hs, instance, mp, mt, neg_e, simp, InferenceRule,
};

verus! {

/// One candidate forward step: `rule` applied to the formulas at the positions `cited`
/// of a state gives `result`.
#[derive(Debug, Clone)]
pub struct Move {
    pub result: Formula,
    pub rule: &'static str,
    pub cited: Vec<usize>,
}

/// A step, as a value: a formula, the name of the rule that gives it and the positions
/// that it cites.
pub struct Line {
    pub formula: Prop,
    pub rule: Seq<char>,
    pub cited: Seq<int>,
}

impl View for Move {
    type V = Line;

    open spec fn view(&self) -> Line {
        Line { formula: self.result@, rule: self.rule@, cited: positions(self.cited@) }
    }
}

/// The models of a list of moves.
pub open spec fn move_views(s: Seq<Move>) -> Seq<Line> {
    Seq::new(s.len(), |i: int| s[i]@)
}

/// The rules of forward moves.
#[derive(Debug, Clone, Copy, PartialEq, Eq, Structural)]
pub enum MoveRule {
    Simp,
    DeM,
    DN,
    MP,
    HS,
    DS,
    MT,
    NegE,
    CD,
}

/// The rules of forward moves, in order of priority.
pub open spec fn move_rules() -> Seq<MoveRule> {
    seq![
        MoveRule::Simp,
        MoveRule::DeM,
        MoveRule::DN,
        MoveRule::MP,
        MoveRule::HS,
        MoveRule::DS,
        MoveRule::MT,
        MoveRule::NegE,
        MoveRule::CD,
    ]
}

/// De Morgan, inward: `~(a . b)` gives `~a v ~b`, and `~(a v b)` gives `~a . ~b`.
pub open spec fn dem_inward(f: Prop) -> Seq<Prop> {
    match f {
        Prop::Not(x) => match *x {
            Prop::And(a, b) => seq![p_or(p_not(*a), p_not(*b))],
            Prop::Or(a, b) => seq![p_and(p_not(*a), p_not(*b))],
            _ => seq![],
        },
        _ => seq![],
    }
}

/// Double negation, stripped: `~~x` gives `x`.
pub open spec fn dn_strip(f: Prop) -> Seq<Prop> {
    match f {
        Prop::Not(x) => match *x {
            Prop::Not(y) => seq![*y],
            _ => seq![],
        },
        _ => seq![],
    }
}

impl MoveRule {
    /// The name of the rule.
    pub open spec fn label(self) -> Seq<char> {
        match self {
            MoveRule::Simp => "Simp"@,
            MoveRule::DeM => "DeM"@,
            MoveRule::DN => "DN"@,
            MoveRule::MP => "MP"@,
            MoveRule::HS => "HS"@,
            MoveRule::DS => "DS"@,
            MoveRule::MT => "MT"@,
            MoveRule::NegE => "NegE"@,
            MoveRule::CD => "CD"@,
        }
    }

    /// How many formulas the rule takes.
    pub open spec fn arity(self) -> int {
        match self {
            MoveRule::Simp | MoveRule::DeM | MoveRule::DN => 1,
            MoveRule::CD => 3,
            _ => 2,
        }
    }

    /// What the rule gives from `f`, `g` and `h`, as far as it takes them.
    pub open spec fn gives(self, f: Prop, g: Prop, h: Prop) -> Seq<Prop> {
        match self {
            MoveRule::Simp => simp(f),
            MoveRule::DeM => dem_inward(f),
            MoveRule::DN => dn_strip(f),
            MoveRule::MP => mp(f, g),
            MoveRule::HS => hs(f, g),
            MoveRule::DS => ds(f, g),
            MoveRule::MT => mt(f, g),
            MoveRule::NegE => neg_e(f, g),
            MoveRule::CD => cd(f, g, h),
        }
    }
}

/// The steps to those of `rs` that `state` does not hold.
pub open spec fn fresh(state: Seq<Prop>, rs: Seq<Prop>, rule: Seq<char>, cited: Seq<int>) -> Seq<
    Line,
>
    decreases rs.len(),
{
    if rs.len() == 0 {
        seq![]
    } else {
        let before = fresh(state, rs.drop_last(), rule, cited);
        if state.contains(rs.last()) {
            before
        } else {
            before.push(Line { formula: rs.last(), rule, cited })
        }
    }
}

/// The moves by `rule` from positions `i`, `j` and `k`; none where positions coincide.
pub open spec fn moves_at(state: Seq<Prop>, rule: MoveRule, i: int, j: int, k: int) -> Seq<Line> {
    let rs = rule.gives(state[i], state[j], state[k]);
    if rule.arity() == 1 {
        fresh(state, rs, rule.label(), seq![i])
    } else if rule.arity() == 2 {
        if i == j {
            seq![]
        } else {
            fresh(state, rs, rule.label(), seq![i, j])
        }
    } else if i == j || k == i || k == j {
        seq![]
    } else {
        fresh(state, rs, rule.label(), seq![i, j, k])
    }
}

/// The moves by `rule` from `i` and `j`, with every third position where it takes one.
pub open spec fn moves_from_pair(state: Seq<Prop>, rule: MoveRule, i: int, j: int) -> Seq<Line> {
    if rule.arity() == 3 {
        joined_upto(state.len() as int, |k: int| moves_at(state, rule, i, j, k))
    } else {
        moves_at(state, rule, i, j, 0)
    }
}

/// The moves by `rule` from `i`, with every second position where it takes one.
pub open spec fn moves_from(state: Seq<Prop>, rule: MoveRule, i: int) -> Seq<Line> {
    if rule.arity() == 1 {
        moves_at(state, rule, i, 0, 0)
    } else {
        joined_upto(state.len() as int, |j: int| moves_from_pair(state, rule, i, j))
    }
}

/// The moves by `rule`.
pub open spec fn moves_by(state: Seq<Prop>, rule: MoveRule) -> Seq<Line> {
    joined_upto(state.len() as int, |i: int| moves_from(state, rule, i))
}

/// All forward moves, in the fixed priority order of the rules.
pub open spec fn moves(state: Seq<Prop>) -> Seq<Line> {
    joined_upto(9, |r: int| moves_by(state, move_rules()[r]))
}

/// Whether `rule` leads from the formulas at `i`, `j` and `k` to `x`, which is new.
pub open spec fn leads(state: Seq<Prop>, rule: MoveRule, i: int, j: int, k: int, x: Prop) -> bool {
    &&& 0 <= i < state.len()
    &&& rule.arity() >= 2 ==> 0 <= j < state.len() && j != i
    &&& rule.arity() == 3 ==> 0 <= k < state.len() && k != i && k != j
    &&& rule.gives(state[i], state[j], state[k]).contains(x)
    &&& !state.contains(x)
}

/// What a move by `rule` from `i`, `j` and `k` cites.
pub open spec fn cites(rule: MoveRule, i: int, j: int, k: int) -> Seq<int> {
    if rule.arity() == 1 {
        seq![i]
    } else if rule.arity() == 2 {
        seq![i, j]
    } else {
        seq![i, j, k]
    }
}

/// What is fresh.
proof fn lemma_fresh(state: Seq<Prop>, rs: Seq<Prop>, rule: Seq<char>, cited: Seq<int>, m: Line)
    ensures
        fresh(state, rs, rule, cited).contains(m) <==> (m.rule == rule && m.cited == cited
            && rs.contains(m.formula) && !state.contains(m.formula)),
    decreases rs.len(),
{
    if rs.len() > 0 {
        let t = rs.drop_last();
        lemma_fresh(state, t, rule, cited, m);
        let before = fresh(state, t, rule, cited);
        assert(rs =~= t + seq![rs.last()]);
        lemma_in_joined(t, seq![rs.last()], m.formula);
        assert(seq![rs.last()].contains(m.formula) <==> m.formula == rs.last()) by {
            assert(seq![rs.last()][0] == rs.last());
        }
        let l = Line { formula: rs.last(), rule, cited };
        assert(before.push(l) =~= before + seq![l]);
        lemma_in_joined(before, seq![l], m);
        assert(seq![l].contains(m) <==> m == l) by {
            assert(seq![l][0] == l);
        }
    }
}

/// The moves by one rule are those that the rule leads to.
proof fn lemma_moves_by(state: Seq<Prop>, rule: MoveRule, m: Line)
    ensures
        moves_by(state, rule).contains(m) <==> exists|i: int, j: int, k: int|
            #![trigger leads(state, rule, i, j, k, m.formula)]
            leads(state, rule, i, j, k, m.formula) && m.rule == rule.label() && m.cited == cites(
                rule,
                i,
                j,
                k,
            ),
{
    let n = state.len() as int;
    let f1 = |i: int| moves_from(state, rule, i);
    lemma_joined_upto(n, f1, m);
    assert forall|i: int, j: int, k: int|
        #[trigger] moves_at(state, rule, i, j, k).contains(m) <==> (m.rule == rule.label() && m.cited == cites(
            rule,
            i,
            j,
            k,
        ) && rule.gives(state[i], state[j], state[k]).contains(m.formula) && !state.contains(
            m.formula,
        ) && (rule.arity() >= 2 ==> i != j) && (rule.arity() == 3 ==> k != i && k != j)) by {
        lemma_fresh(
            state,
            rule.gives(state[i], state[j], state[k]),
            rule.label(),
            cites(rule, i, j, k),
            m,
        );
    }
    if moves_by(state, rule).contains(m) {
        let i = choose|i: int| 0 <= i < n && #[trigger] f1(i).contains(m);
        if rule.arity() == 1 {
            assert(moves_at(state, rule, i, 0, 0).contains(m));
            assert(leads(state, rule, i, 0, 0, m.formula));
        } else {
            let f2 = |j: int| moves_from_pair(state, rule, i, j);
            lemma_joined_upto(n, f2, m);
            let j = choose|j: int| 0 <= j < n && #[trigger] f2(j).contains(m);
            if rule.arity() == 3 {
                let f3 = |k: int| moves_at(state, rule, i, j, k);
                lemma_joined_upto(n, f3, m);
                let k = choose|k: int| 0 <= k < n && #[trigger] f3(k).contains(m);
                assert(moves_at(state, rule, i, j, k).contains(m));
                assert(leads(state, rule, i, j, k, m.formula));
            } else {
                assert(moves_at(state, rule, i, j, 0).contains(m));
                assert(leads(state, rule, i, j, 0, m.formula));
            }
        }
    }
    if exists|i: int, j: int, k: int|
        #![trigger leads(state, rule, i, j, k, m.formula)]
        leads(state, rule, i, j, k, m.formula) && m.rule == rule.label() && m.cited == cites(
            rule,
            i,
            j,
            k,
        ) {
        let (i, j, k) = choose|i: int, j: int, k: int|
            #![trigger leads(state, rule, i, j, k, m.formula)]
            leads(state, rule, i, j, k, m.formula) && m.rule == rule.label() && m.cited == cites(
                rule,
                i,
                j,
                k,
            );
        if rule.arity() == 1 {
            assert(rule.gives(state[i], state[0], state[0]) == rule.gives(
                state[i],
                state[j],
                state[k],
            ));
            assert(moves_at(state, rule, i, 0, 0).contains(m));
        } else {
            let f2 = |j2: int| moves_from_pair(state, rule, i, j2);
            lemma_joined_upto(n, f2, m);
            if rule.arity() == 3 {
                let f3 = |k2: int| moves_at(state, rule, i, j, k2);
                lemma_joined_upto(n, f3, m);
                assert(f3(k).contains(m));
            } else {
                assert(rule.gives(state[i], state[j], state[0]) == rule.gives(
                    state[i],
                    state[j],
                    state[k],
                ));
                assert(moves_at(state, rule, i, j, 0).contains(m));
            }
            assert(f2(j).contains(m));
        }
        assert(f1(i).contains(m));
    }
}

/// The place of a rule in the priority order.
pub open spec fn priority(rule: MoveRule) -> int {
    match rule {
        MoveRule::Simp => 0,
        MoveRule::DeM => 1,
        MoveRule::DN => 2,
        MoveRule::MP => 3,
        MoveRule::HS => 4,
        MoveRule::DS => 5,
        MoveRule::MT => 6,
        MoveRule::NegE => 7,
        MoveRule::CD => 8,
    }
}

/// The moves from a state are exactly what some rule leads to.
pub proof fn law_moves_exact(state: Seq<Prop>, m: Line)
    ensures
        moves(state).contains(m) <==> exists|rule: MoveRule, i: int, j: int, k: int|
            #![trigger leads(state, rule, i, j, k, m.formula)]
            leads(state, rule, i, j, k, m.formula) && m.rule == rule.label() && m.cited == cites(
                rule,
                i,
                j,
                k,
            ),
{
    let f = |r: int| moves_by(state, move_rules()[r]);
    lemma_joined_upto(9, f, m);
    if moves(state).contains(m) {
        let r = choose|r: int| 0 <= r < 9 && #[trigger] f(r).contains(m);
        let rule = move_rules()[r];
        lemma_moves_by(state, rule, m);
    }
    if exists|rule: MoveRule, i: int, j: int, k: int|
        #![trigger leads(state, rule, i, j, k, m.formula)]
        leads(state, rule, i, j, k, m.formula) && m.rule == rule.label() && m.cited == cites(
            rule,
            i,
            j,
            k,
        ) {
        let (rule, i, j, k) = choose|rule: MoveRule, i: int, j: int, k: int|
            #![trigger leads(state, rule, i, j, k, m.formula)]
            leads(state, rule, i, j, k, m.formula) && m.rule == rule.label() && m.cited == cites(
                rule,
                i,
                j,
                k,
            );
        lemma_moves_by(state, rule, m);
        assert(move_rules()[priority(rule)] == rule);
        assert(f(priority(rule)).contains(m));
    }
}

/// Every step that a rule allows is among the moves, if its result is new: for each rule
/// its textbook instances, over formulas at different positions.
pub proof fn law_moves_complete(
    state: Seq<Prop>,
    i: int,
    j: int,
    k: int,
    p: Prop,
    q: Prop,
    r: Prop,
    s: Prop,
)
    requires
        0 <= i < state.len(),
        0 <= j < state.len(),
        0 <= k < state.len(),
    ensures
        (state[i] == p_and(p, q) || state[i] == p_and(q, p)) && !state.contains(p) ==> moves(
            state,
        ).contains(Line { formula: p, rule: "Simp"@, cited: seq![i] }),
        state[i] == p_not(p_and(p, q)) && !state.contains(p_or(p_not(p), p_not(q))) ==> moves(
            state,
        ).contains(Line { formula: p_or(p_not(p), p_not(q)), rule: "DeM"@, cited: seq![i] }),
        state[i] == p_not(p_or(p, q)) && !state.contains(p_and(p_not(p), p_not(q))) ==> moves(
            state,
        ).contains(Line { formula: p_and(p_not(p), p_not(q)), rule: "DeM"@, cited: seq![i] }),
        state[i] == p_not(p_not(p)) && !state.contains(p) ==> moves(state).contains(
            Line { formula: p, rule: "DN"@, cited: seq![i] },
        ),
        i != j && state[i] == p_implies(p, q) && state[j] == p && !state.contains(q) ==> moves(
            state,
        ).contains(Line { formula: q, rule: "MP"@, cited: seq![i, j] }),
        i != j && state[i] == p_implies(p, q) && state[j] == p_implies(q, r) && !state.contains(
            p_implies(p, r),
        ) ==> moves(state).contains(
            Line { formula: p_implies(p, r), rule: "HS"@, cited: seq![i, j] },
        ),
        i != j && (state[i] == p_or(p, q) || state[i] == p_or(q, p)) && state[j] == p_not(q)
            && !state.contains(p) ==> moves(state).contains(
            Line { formula: p, rule: "DS"@, cited: seq![i, j] },
        ),
        i != j && state[i] == p_implies(p, q) && state[j] == p_not(q) && !state.contains(p_not(p))
            ==> moves(state).contains(
            Line { formula: p_not(p), rule: "MT"@, cited: seq![i, j] },
        ),
        i != j && state[i] == p && state[j] == p_not(p) && !state.contains(Prop::Contradiction)
            ==> moves(state).contains(
            Line { formula: Prop::Contradiction, rule: "NegE"@, cited: seq![i, j] },
        ),
        i != j && k != i && k != j && state[i] == p_or(p, q) && state[j] == p_implies(p, r)
            && state[k] == p_implies(q, s) && !state.contains(p_or(r, s)) ==> moves(
            state,
        ).contains(Line { formula: p_or(r, s), rule: "CD"@, cited: seq![i, j, k] }),
{
    if state[i] == p_and(p, q) || state[i] == p_and(q, p) {
        let all = simp(state[i]);
        assert(all[0] == p || all[1] == p);
        lemma_move_of(state, MoveRule::Simp, i, j, k, p);
    }
    if state[i] == p_not(p_and(p, q)) {
        assert(dem_inward(state[i])[0] == p_or(p_not(p), p_not(q)));
        lemma_move_of(state, MoveRule::DeM, i, j, k, p_or(p_not(p), p_not(q)));
    }
    if state[i] == p_not(p_or(p, q)) {
        assert(dem_inward(state[i])[0] == p_and(p_not(p), p_not(q)));
        lemma_move_of(state, MoveRule::DeM, i, j, k, p_and(p_not(p), p_not(q)));
    }
    if state[i] == p_not(p_not(p)) {
        assert(dn_strip(state[i])[0] == p);
        lemma_move_of(state, MoveRule::DN, i, j, k, p);
    }
    if i != j && state[i] == p_implies(p, q) && state[j] == p {
        assert(mp(state[i], state[j])[0] == q);
        lemma_move_of(state, MoveRule::MP, i, j, k, q);
    }
    if i != j && state[i] == p_implies(p, q) && state[j] == p_implies(q, r) {
        assert(hs(state[i], state[j])[0] == p_implies(p, r));
        lemma_move_of(state, MoveRule::HS, i, j, k, p_implies(p, r));
    }
    if i != j && (state[i] == p_or(p, q) || state[i] == p_or(q, p)) && state[j] == p_not(q) {
        let all = ds(state[i], state[j]);
        assert(all[0] == p || all[all.len() - 1] == p);
        lemma_move_of(state, MoveRule::DS, i, j, k, p);
    }
    if i != j && state[i] == p_implies(p, q) && state[j] == p_not(q) {
        assert(mt(state[i], state[j])[0] == p_not(p));
        lemma_move_of(state, MoveRule::MT, i, j, k, p_not(p));
    }
    if i != j && state[i] == p && state[j] == p_not(p) {
        assert(neg_e(state[i], state[j])[0] == Prop::Contradiction);
        lemma_move_of(state, MoveRule::NegE, i, j, k, Prop::Contradiction);
    }
    if i != j && k != i && k != j && state[i] == p_or(p, q) && state[j] == p_implies(p, r)
        && state[k] == p_implies(q, s) {
        assert(cd(state[i], state[j], state[k])[0] == p_or(r, s));
        lemma_move_of(state, MoveRule::CD, i, j, k, p_or(r, s));
    }
}

/// What a rule leads to is a move.
proof fn lemma_move_of(state: Seq<Prop>, rule: MoveRule, i: int, j: int, k: int, x: Prop)
    requires
        rule.gives(state[i], state[j], state[k]).contains(x),
        0 <= i < state.len(),
        rule.arity() >= 2 ==> 0 <= j < state.len() && j != i,
        rule.arity() == 3 ==> 0 <= k < state.len() && k != i && k != j,
    ensures
        !state.contains(x) ==> moves(state).contains(
            Line { formula: x, rule: rule.label(), cited: cites(rule, i, j, k) },
        ),
{
    let m = Line { formula: x, rule: rule.label(), cited: cites(rule, i, j, k) };
    law_moves_exact(state, m);
    if !state.contains(x) {
        assert(leads(state, rule, i, j, k, m.formula));
    }
}

/// The moves come by rule: simplification first, then the inward De Morgan step, the
/// stripping of a double negation, modus ponens, hypothetical syllogism, disjunctive
/// syllogism, modus tollens, contradiction, and constructive dilemma last.
pub proof fn law_moves_ordered(state: Seq<Prop>, a: int, b: int) -> (r: (int, int))
    requires
        0 <= a < b < moves(state).len(),
    ensures
        ({
            let order = seq!["Simp"@, "DeM"@, "DN"@, "MP"@, "HS"@, "DS"@, "MT"@, "NegE"@, "CD"@];
            &&& 0 <= r.0 <= r.1 < 9
            &&& moves(state)[a].rule == order[r.0]
            &&& moves(state)[b].rule == order[r.1]
        }),
{
    let f = |r: int| moves_by(state, move_rules()[r]);
    let (x, y) = lemma_joined_order(9, f, a, b);
    lemma_moves_by(state, move_rules()[x], moves(state)[a]);
    lemma_moves_by(state, move_rules()[y], moves(state)[b]);
    (x, y)
}

/// The formulas at some positions.
pub open spec fn formulas_of(state: Seq<Prop>, cited: Seq<int>) -> Seq<Prop> {
    Seq::new(cited.len(), |c: int| state[cited[c]])
}

/// Every forward move is a step that verification accepts: what it results in is an
/// instance of the inference rule of that name over what it cites, or a rewrite of it by
/// the equivalence rule of that name.
pub proof fn law_moves_accepted(state: Seq<Prop>, m: Line)
    requires
        moves(state).contains(m),
    ensures
        (exists|rule: InferenceRule|
            #![trigger rule.short_name()]
            rule.short_name() == m.rule && instance(rule, formulas_of(state, m.cited), m.formula))
            || (m.cited.len() == 1 && exists|rule: EquivalenceRule|
            #![trigger rule.short_name()]
            rule.short_name() == m.rule && (schema(rule, state[m.cited[0]], m.formula) || schema(
                rule,
                m.formula,
                state[m.cited[0]],
            ))),
{
    law_moves_exact(state, m);
    let (rule, i, j, k) = choose|rule: MoveRule, i: int, j: int, k: int|
        #![trigger leads(state, rule, i, j, k, m.formula)]
        leads(state, rule, i, j, k, m.formula) && m.rule == rule.label() && m.cited == cites(
            rule,
            i,
            j,
            k,
        );
    let f = state[i];
    let g = state[j];
    let h = state[k];
    let x = m.formula;
    let ps = formulas_of(state, m.cited);
    if rule.arity() == 1 {
        assert(ps =~= seq![f]);
    } else if rule.arity() == 2 {
        assert(ps =~= seq![f, g]);
    } else {
        assert(ps =~= seq![f, g, h]);
    }
    match rule {
        MoveRule::Simp => {
            let l = *f->And_0;
            let r = *f->And_1;
            assert(f == p_and(l, r));
            assert(x == l || x == r);
            if x == r {
                assert(ps == seq![p_and(l, x)]);
            } else {
                assert(ps == seq![p_and(x, r)]);
                assert(p_and(r, x) == p_and(r, x));
            }
            assert(instance(InferenceRule::Simplification, ps, x));
            assert(InferenceRule::Simplification.short_name() == m.rule);
        },
        MoveRule::DeM => {
            assert(forms(EquivalenceRule::DeMorgan, f)[0] == x);
            law_forms_by_schema(EquivalenceRule::DeMorgan, f, x);
            assert(EquivalenceRule::DeMorgan.short_name() == m.rule);
        },
        MoveRule::DN => {
            assert(f == p_not(p_not(x)));
            assert(schema(EquivalenceRule::DoubleNegation, x, f));
            assert(EquivalenceRule::DoubleNegation.short_name() == m.rule);
        },
        MoveRule::MP => {
            assert(f == p_implies(g, x));
            assert(are_two(ps, p_implies(g, x), g));
            assert(InferenceRule::ModusPonens.short_name() == m.rule);
        },
        MoveRule::HS => {
            let p = *f->Implies_0;
            let q = *f->Implies_1;
            let r = *g->Implies_1;
            assert(are_two(ps, p_implies(p, q), p_implies(q, r)));
            assert(InferenceRule::HypotheticalSyllogism.short_name() == m.rule);
        },
        MoveRule::DS => {
            let l = *f->Or_0;
            let r = *f->Or_1;
            let n = *g->Not_0;
            assert(f == p_or(l, r) && g == p_not(n));
            assert((n == l && x == r) || (n == r && x == l));
            if n == l && x == r {
                assert(are_two(ps, p_or(n, x), p_not(n)));
            } else {
                assert(are_two(ps, p_or(x, n), p_not(n)));
            }
            assert(InferenceRule::DisjunctiveSyllogism.short_name() == m.rule);
        },
        MoveRule::MT => {
            let p = *f->Implies_0;
            let q = *f->Implies_1;
            assert(are_two(ps, p_implies(p, q), p_not(q)));
            assert(InferenceRule::ModusTollens.short_name() == m.rule);
        },
        MoveRule::NegE => {
            assert(are_two(ps, f, p_not(f)));
            assert(InferenceRule::Contradiction.short_name() == m.rule);
        },
        MoveRule::CD => {
            let p = *f->Or_0;
            let q = *f->Or_1;
            let r = *g->Implies_1;
            let s = *h->Implies_1;
            assert(are_three(ps, p_or(p, q), p_implies(p, r), p_implies(q, s)));
            assert(InferenceRule::ConstructiveDilemma.short_name() == m.rule);
        },
    }
}

/// What a rule gives follows from what it takes.
pub proof fn law_rules_sound(rule: MoveRule, f: Prop, g: Prop, h: Prop, x: Prop, v: Valuation)
    requires
        rule.gives(f, g, h).contains(x),
        eval(f, v),
        rule.arity() >= 2 ==> eval(g, v),
        rule.arity() == 3 ==> eval(h, v),
    ensures
        eval(x, v),
{
    reveal_with_fuel(eval, 4);
}

/// Every move results in a formula that the state does not hold and that follows from
/// it, by one of the rules of the priority order, from positions within the state.
pub proof fn law_moves_sound(state: Seq<Prop>, m: Line)
    requires
        moves(state).contains(m),
    ensures
        !state.contains(m.formula),
        entails(state, m.formula),
        exists|r: int| 0 <= r < 9 && m.rule == #[trigger] move_rules()[r].label(),
        1 <= m.cited.len() <= 3,
        forall|c: int| 0 <= c < m.cited.len() ==> 0 <= #[trigger] m.cited[c] < state.len(),
{
    law_moves_exact(state, m);
    let (rule, i, j, k) = choose|rule: MoveRule, i: int, j: int, k: int|
        #![trigger leads(state, rule, i, j, k, m.formula)]
        leads(state, rule, i, j, k, m.formula) && m.rule == rule.label() && m.cited == cites(
            rule,
            i,
            j,
            k,
        );
    assert(move_rules()[priority(rule)] == rule);
    assert forall|v: Valuation| #[trigger] all_true(state, v) implies eval(m.formula, v) by {
        assert(eval(state[i], v));
        if rule.arity() >= 2 {
            assert(eval(state[j], v));
        }
        if rule.arity() == 3 {
            assert(eval(state[k], v));
        }
        law_rules_sound(rule, state[i], state[j], state[k], m.formula, v);
    }
}

/// A step over a bank of formulas.
#[derive(Debug)]
pub struct Step {
    pub id: usize,
    pub rule: &'static str,
    pub cited: Vec<usize>,
}

/// The line that a step stands for.
pub open spec fn line_of(props: Seq<Prop>, s: Step) -> Line {
    Line { formula: props[s.id as int], rule: s.rule@, cited: positions(s.cited@) }
}

/// The lines that some steps stand for.
pub open spec fn lines_of(props: Seq<Prop>, s: Seq<Step>) -> Seq<Line> {
    Seq::new(s.len(), |i: int| line_of(props, s[i]))
}

/// Whether all steps lead to formulas of the bank.
pub open spec fn steps_within(s: Seq<Step>, len: int) -> bool {
    forall|i: int| 0 <= i < s.len() ==> (#[trigger] s[i]).id < len
}

/// Steps stand for the same lines in a greater bank.
pub proof fn lemma_lines_extends(old_props: Seq<Prop>, new_props: Seq<Prop>, s: Seq<Step>)
    requires
        extends(old_props, new_props),
        steps_within(s, old_props.len() as int),
    ensures
        lines_of(old_props, s) == lines_of(new_props, s),
        steps_within(s, new_props.len() as int),
{
    assert forall|i: int| 0 <= i < s.len() implies lines_of(old_props, s)[i] == lines_of(
        new_props,
        s,
    )[i] by {
        assert(s[i].id < old_props.len());
    }
    assert(lines_of(old_props, s) =~= lines_of(new_props, s));
}

/// Whether a number is in a list.
pub fn has_id(ids: &Vec<usize>, id: usize) -> (r: bool)
    ensures
        r == ids@.contains(id),
{
    let mut i: usize = 0;
    while i < ids.len()
        invariant
            i <= ids@.len(),
            forall|j: int| 0 <= j < i ==> ids@[j] != id,
        decreases ids@.len() - i,
    {
        if ids[i] == id {
            return true;
        }
        i = i + 1;
    }
    false
}

/// A formula is among those of a state exactly where its number is.
pub proof fn lemma_has_id(bank: Bank, ids: Seq<usize>, id: usize)
    requires
        bank.wf(),
        ids_within(ids, bank.props().len() as int),
        id < bank.props().len(),
    ensures
        picked(bank.props(), ids).contains(bank.props()[id as int]) <==> ids.contains(id),
{
    bank.lemma_distinct();
    let sv = picked(bank.props(), ids);
    let p = bank.props()[id as int];
    if sv.contains(p) {
        let i = choose|i: int| 0 <= i < sv.len() && sv[i] == p;
        assert(ids[i] < bank.props().len());
        assert(ids[i] == id);
    }
    if ids.contains(id) {
        let i = choose|i: int| 0 <= i < ids.len() && ids[i] == id;
        assert(sv[i] == p);
    }
}

/// A list of one number.
fn only(id: usize) -> (r: Vec<usize>)
    ensures
        r@ == seq![id],
{
    let mut r: Vec<usize> = Vec::new();
    r.push(id);
    r
}

impl MoveRule {
    /// The name of the rule.
    fn name(&self) -> (r: &'static str)
        ensures
            r@ == self.label(),
    {
        match self {
            MoveRule::Simp => "Simp",
            MoveRule::DeM => "DeM",
            MoveRule::DN => "DN",
            MoveRule::MP => "MP",
            MoveRule::HS => "HS",
            MoveRule::DS => "DS",
            MoveRule::MT => "MT",
            MoveRule::NegE => "NegE",
            MoveRule::CD => "CD",
        }
    }

    /// How many formulas the rule takes.
    fn takes(&self) -> (r: u8)
        ensures
            r == self.arity(),
    {
        match self {
            MoveRule::Simp | MoveRule::DeM | MoveRule::DN => 1,
            MoveRule::CD => 3,
            _ => 2,
        }
    }

    /// What a rule that takes one formula gives from it.
    fn results_single(&self, bank: &mut Bank, f: usize) -> (r: Vec<usize>)
        requires
            old(bank).wf(),
            f < old(bank).props().len(),
            self.arity() == 1,
        ensures
            final(bank).wf(),
            extends(old(bank).props(), final(bank).props()),
            ids_within(r@, final(bank).props().len() as int),
            forall|g: Prop, h: Prop|
                picked(final(bank).props(), r@) == #[trigger] self.gives(
                    old(bank).props()[f as int],
                    g,
                    h,
                ),
    {
        let x = bank.node(f);
        let ghost p = bank.props()[f as int];
        let mut r: Vec<usize> = Vec::new();
        match self {
            MoveRule::Simp => {
                if let Kind::And = x.kind {
                    r.push(x.a);
                    r.push(x.b);
                }
                assert(picked(bank.props(), r@) =~= simp(p));
            },
            MoveRule::DeM => {
                if let Kind::Not = x.kind {
                    let y = bank.node(x.a);
                    if let Kind::And = y.kind {
                        let a = bank.not(y.a);
                        let b = bank.not(y.b);
                        r.push(bank.or(a, b));
                    } else if let Kind::Or = y.kind {
                        let a = bank.not(y.a);
                        let b = bank.not(y.b);
                        r.push(bank.and(a, b));
                    }
                }
                assert(picked(bank.props(), r@) =~= dem_inward(p));
            },
            _ => {
                if let Kind::Not = x.kind {
                    let y = bank.node(x.a);
                    if let Kind::Not = y.kind {
                        r.push(y.a);
                    }
                }
                assert(picked(bank.props(), r@) =~= dn_strip(p));
            },
        }
        r
    }

    /// What a rule that takes two formulas gives from them.
    fn results_pair(&self, bank: &mut Bank, f: usize, g: usize) -> (r: Vec<usize>)
        requires
            old(bank).wf(),
            f < old(bank).props().len(),
            g < old(bank).props().len(),
            self.arity() == 2,
        ensures
            final(bank).wf(),
            extends(old(bank).props(), final(bank).props()),
            ids_within(r@, final(bank).props().len() as int),
            forall|h: Prop|
                picked(final(bank).props(), r@) == #[trigger] self.gives(
                    old(bank).props()[f as int],
                    old(bank).props()[g as int],
                    h,
                ),
    {
        let x = bank.node(f);
        let y = bank.node(g);
        let ghost p = bank.props()[f as int];
        let ghost q = bank.props()[g as int];
        proof {
            bank.lemma_distinct();
        }
        let mut r: Vec<usize> = Vec::new();
        match self {
            MoveRule::MP => {
                if let Kind::Implies = x.kind {
                    if x.a == g {
                        r.push(x.b);
                    }
                }
                assert(picked(bank.props(), r@) =~= mp(p, q));
            },
            MoveRule::HS => {
                if let Kind::Implies = x.kind {
                    if let Kind::Implies = y.kind {
                        if x.b == y.a {
                            r.push(bank.implies(x.a, y.b));
                        }
                    }
                }
                assert(picked(bank.props(), r@) =~= hs(p, q));
            },
            MoveRule::DS => {
                if let Kind::Or = x.kind {
                    if let Kind::Not = y.kind {
                        if y.a == x.a {
                            r.push(x.b);
                        }
                        if y.a == x.b {
                            r.push(x.a);
                        }
                    }
                }
                assert(picked(bank.props(), r@) =~= ds(p, q));
            },
            MoveRule::MT => {
                if let Kind::Implies = x.kind {
                    if let Kind::Not = y.kind {
                        if y.a == x.b {
                            r.push(bank.not(x.a));
                        }
                    }
                }
                assert(picked(bank.props(), r@) =~= mt(p, q));
            },
            _ => {
                if let Kind::Not = y.kind {
                    if y.a == f {
                        r.push(bank.contradiction());
                    }
                }
                assert(picked(bank.props(), r@) =~= neg_e(p, q));
            },
        }
        r
    }
}

/// Appends to `out` the steps to those of `rs` that `state` does not hold.
fn push_fresh(
    bank: &Bank,
    out: &mut Vec<Step>,
    state: &Vec<usize>,
    rs: &Vec<usize>,
    rule: &MoveRule,
    cited: &Vec<usize>,
)
    requires
        bank.wf(),
        ids_within(state@, bank.props().len() as int),
        ids_within(rs@, bank.props().len() as int),
        steps_within(old(out)@, bank.props().len() as int),
    ensures
        steps_within(final(out)@, bank.props().len() as int),
        lines_of(bank.props(), final(out)@) == lines_of(bank.props(), old(out)@) + fresh(
            picked(bank.props(), state@),
            picked(bank.props(), rs@),
            rule.label(),
            positions(cited@),
        ),
{
    let ghost props = bank.props();
    let ghost start = lines_of(props, out@);
    let ghost rv = picked(props, rs@);
    let ghost sv = picked(props, state@);
    let ghost cv = positions(cited@);
    let mut i: usize = 0;
    assert(rv.take(0) =~= seq![]);
    assert(start + fresh(sv, rv.take(0), rule.label(), cv) =~= start);
    while i < rs.len()
        invariant
            i <= rs@.len(),
            bank.wf(),
            props == bank.props(),
            ids_within(state@, props.len() as int),
            ids_within(rs@, props.len() as int),
            rv == picked(props, rs@),
            sv == picked(props, state@),
            cv == positions(cited@),
            steps_within(out@, props.len() as int),
            lines_of(props, out@) == start + fresh(sv, rv.take(i as int), rule.label(), cv),
        decreases rs@.len() - i,
    {
        let ghost t = rv.take(i as int + 1);
        assert(t.drop_last() =~= rv.take(i as int));
        assert(rs@[i as int] < props.len());
        assert(t.last() == props[rs@[i as int] as int]);
        proof {
            lemma_has_id(*bank, state@, rs@[i as int]);
        }
        if !has_id(state, rs[i]) {
            let ghost before = out@;
            let m = Step { id: rs[i], rule: rule.name(), cited: copy_positions(cited) };
            out.push(m);
            proof {
                assert(lines_of(props, out@) =~= lines_of(props, before).push(line_of(props, m)));
                assert(line_of(props, m) == Line { formula: t.last(), rule: rule.label(), cited: cv });
                assert(lines_of(props, out@) =~= start + fresh(sv, t, rule.label(), cv));
            }
        }
        i = i + 1;
    }
    assert(rv.take(rv.len() as int) =~= rv);
}

/// What holds while moves by one rule are appended.
spec fn appending(
    base: Seq<Prop>,
    bank: Bank,
    state: Seq<usize>,
    out: Seq<Step>,
    done: Seq<Line>,
) -> bool {
    &&& bank.wf()
    &&& extends(base, bank.props())
    &&& ids_within(state, base.len() as int)
    &&& steps_within(out, bank.props().len() as int)
    &&& lines_of(bank.props(), out) == done
}

/// Appends to `out` the moves by a rule that takes one formula.
fn push_single(bank: &mut Bank, out: &mut Vec<Step>, state: &Vec<usize>, rule: &MoveRule)
    requires
        old(bank).wf(),
        ids_within(state@, old(bank).props().len() as int),
        steps_within(old(out)@, old(bank).props().len() as int),
        rule.arity() == 1,
    ensures
        appending(
            old(bank).props(),
            *final(bank),
            state@,
            final(out)@,
            lines_of(old(bank).props(), old(out)@) + moves_by(
                picked(old(bank).props(), state@),
                *rule,
            ),
        ),
{
    let ghost base = bank.props();
    let ghost start = lines_of(base, out@);
    let ghost sv = picked(base, state@);
    let ghost f = |i: int| moves_from(sv, *rule, i);
    let mut i: usize = 0;
    assert(start + joined_upto(0, f) =~= start);
    while i < state.len()
        invariant
            i <= state@.len(),
            appending(base, *bank, state@, out@, start + joined_upto(i as int, f)),
            sv == picked(base, state@),
            rule.arity() == 1,
            f == (|i: int| moves_from(sv, *rule, i)),
        decreases state@.len() - i,
    {
        let ghost before = bank.props();
        assert(state@[i as int] < base.len());
        let rs = rule.results_single(bank, state[i]);
        proof {
            lemma_lines_extends(before, bank.props(), out@);
            lemma_picked_extends(base, bank.props(), state@);
            assert(picked(bank.props(), rs@) == rule.gives(sv[i as int], sv[0], sv[0]));
        }
        let cited = only(i);
        assert(positions(cited@) =~= seq![i as int]);
        push_fresh(bank, out, state, &rs, rule, &cited);
        proof {
            assert(f(i as int) == moves_at(sv, *rule, i as int, 0, 0));
            assert(start + joined_upto(i as int + 1, f) =~= start + joined_upto(i as int, f) + f(
                i as int,
            ));
        }
        i = i + 1;
    }
}

/// Appends to `out` the moves by a rule that takes two formulas.
fn push_pair(bank: &mut Bank, out: &mut Vec<Step>, state: &Vec<usize>, rule: &MoveRule)
    requires
        old(bank).wf(),
        ids_within(state@, old(bank).props().len() as int),
        steps_within(old(out)@, old(bank).props().len() as int),
        rule.arity() == 2,
    ensures
        appending(
            old(bank).props(),
            *final(bank),
            state@,
            final(out)@,
            lines_of(old(bank).props(), old(out)@) + moves_by(
                picked(old(bank).props(), state@),
                *rule,
            ),
        ),
{
    let ghost base = bank.props();
    let ghost start = lines_of(base, out@);
    let ghost sv = picked(base, state@);
    let ghost f = |i: int| moves_from(sv, *rule, i);
    let mut i: usize = 0;
    assert(start + joined_upto(0, f) =~= start);
    while i < state.len()
        invariant
            i <= state@.len(),
            appending(base, *bank, state@, out@, start + joined_upto(i as int, f)),
            sv == picked(base, state@),
            rule.arity() == 2,
            f == (|i: int| moves_from(sv, *rule, i)),
        decreases state@.len() - i,
    {
        let ghost inner = start + joined_upto(i as int, f);
        let ghost g = |j: int| moves_from_pair(sv, *rule, i as int, j);
        let mut j: usize = 0;
        assert(inner + joined_upto(0, g) =~= inner);
        while j < state.len()
            invariant
                j <= state@.len(),
                i < state@.len(),
                appending(base, *bank, state@, out@, inner + joined_upto(j as int, g)),
                sv == picked(base, state@),
                rule.arity() == 2,
                g == (|j: int| moves_from_pair(sv, *rule, i as int, j)),
            decreases state@.len() - j,
        {
            if i != j {
                let ghost before = bank.props();
                assert(state@[i as int] < base.len());
                assert(state@[j as int] < base.len());
                let rs = rule.results_pair(bank, state[i], state[j]);
                proof {
                    lemma_lines_extends(before, bank.props(), out@);
                    lemma_picked_extends(base, bank.props(), state@);
                    assert(picked(bank.props(), rs@) == rule.gives(
                        sv[i as int],
                        sv[j as int],
                        sv[0],
                    ));
                }
                if rs.len() > 0 {
                    let mut cited = only(i);
                    cited.push(j);
                    assert(positions(cited@) =~= seq![i as int, j as int]);
                    push_fresh(bank, out, state, &rs, rule, &cited);
                } else {
                    assert(picked(bank.props(), rs@).len() == 0);
                }
            }
            proof {
                assert(g(j as int) == moves_at(sv, *rule, i as int, j as int, 0));
                assert(inner + joined_upto(j as int + 1, g) =~= inner + joined_upto(j as int, g)
                    + g(j as int));
            }
            j = j + 1;
        }
        proof {
            assert(f(i as int) == joined_upto(state@.len() as int, g));
            assert(start + joined_upto(i as int + 1, f) =~= inner + f(i as int));
        }
        i = i + 1;
    }
}

/// Appends to `out` the moves by constructive dilemma from `i` and `j`, where the formula
/// at `i` is `p v q` and the one at `j` is `p > r`.
fn push_dilemma(
    bank: &mut Bank,
    out: &mut Vec<Step>,
    state: &Vec<usize>,
    i: usize,
    j: usize,
    x: Node,
    y: Node,
)
    requires
        old(bank).wf(),
        ids_within(state@, old(bank).props().len() as int),
        steps_within(old(out)@, old(bank).props().len() as int),
        i < state@.len(),
        j < state@.len(),
        i != j,
        x.a < old(bank).props().len(),
        x.b < old(bank).props().len(),
        y.b < old(bank).props().len(),
        old(bank).props()[state@[i as int] as int] == p_or(
            old(bank).props()[x.a as int],
            old(bank).props()[x.b as int],
        ),
        old(bank).props()[state@[j as int] as int] == p_implies(
            old(bank).props()[x.a as int],
            old(bank).props()[y.b as int],
        ),
    ensures
        appending(
            old(bank).props(),
            *final(bank),
            state@,
            final(out)@,
            lines_of(old(bank).props(), old(out)@) + moves_from_pair(
                picked(old(bank).props(), state@),
                MoveRule::CD,
                i as int,
                j as int,
            ),
        ),
{
    let rule = MoveRule::CD;
    let ghost base = bank.props();
    let ghost start = lines_of(base, out@);
    let ghost sv = picked(base, state@);
    let ghost h = |k: int| moves_at(sv, rule, i as int, j as int, k);
    let mut k: usize = 0;
    assert(start + joined_upto(0, h) =~= start);
    while k < state.len()
        invariant
            k <= state@.len(),
            i < state@.len(),
            j < state@.len(),
            i != j,
            appending(base, *bank, state@, out@, start + joined_upto(k as int, h)),
            sv == picked(base, state@),
            rule == MoveRule::CD,
            h == (|k: int| moves_at(sv, rule, i as int, j as int, k)),
            x.a < base.len(),
            x.b < base.len(),
            y.b < base.len(),
            sv[i as int] == p_or(base[x.a as int], base[x.b as int]),
            sv[j as int] == p_implies(base[x.a as int], base[y.b as int]),
        decreases state@.len() - k,
    {
        let ghost before = bank.props();
        let ghost had = out@;
        let mut rs: Vec<usize> = Vec::new();
        assert(state@[k as int] < base.len());
        let z = bank.node(state[k]);
        if let Kind::Implies = z.kind {
            if z.a == x.b {
                rs.push(bank.or(y.b, z.b));
            }
        }
        proof {
            bank.lemma_distinct();
            lemma_lines_extends(before, bank.props(), out@);
            lemma_picked_extends(base, bank.props(), state@);
            assert(before[state@[k as int] as int] == sv[k as int]);
            assert(before[x.b as int] == base[x.b as int]);
            assert(before[y.b as int] == base[y.b as int]);
            assert(bank.props()[x.b as int] == before[x.b as int]);
            if z.kind is Implies {
                assert(bank.props()[z.a as int] == before[z.a as int]);
            }
            assert(picked(bank.props(), rs@) =~= cd(sv[i as int], sv[j as int], sv[k as int]));
        }
        if k != i && k != j {
            let mut cited = only(i);
            cited.push(j);
            cited.push(k);
            assert(positions(cited@) =~= seq![i as int, j as int, k as int]);
            push_fresh(bank, out, state, &rs, &rule, &cited);
        }
        proof {
            assert(h(k as int) == moves_at(sv, rule, i as int, j as int, k as int));
            assert(start + joined_upto(k as int + 1, h) =~= start + joined_upto(k as int, h) + h(
                k as int,
            ));
        }
        k = k + 1;
    }
}

/// Dilemma gives nothing where the first two formulas do not match.
proof fn lemma_no_dilemma(sv: Seq<Prop>, i: int, j: int)
    requires
        i == j || forall|h: Prop| (#[trigger] cd(sv[i], sv[j], h)).len() == 0,
    ensures
        moves_from_pair(sv, MoveRule::CD, i, j) == Seq::<Line>::empty(),
{
    let f = |k: int| moves_at(sv, MoveRule::CD, i, j, k);
    assert forall|k: int| 0 <= k < sv.len() implies (#[trigger] f(k)).len() == 0 by {
        if i != j {
            assert(cd(sv[i], sv[j], sv[k]).len() == 0);
        }
    }
    lemma_joined_empty(sv.len() as int, f);
}

/// Appends to `out` the moves by constructive dilemma.
fn push_triple(bank: &mut Bank, out: &mut Vec<Step>, state: &Vec<usize>)
    requires
        old(bank).wf(),
        ids_within(state@, old(bank).props().len() as int),
        steps_within(old(out)@, old(bank).props().len() as int),
    ensures
        appending(
            old(bank).props(),
            *final(bank),
            state@,
            final(out)@,
            lines_of(old(bank).props(), old(out)@) + moves_by(
                picked(old(bank).props(), state@),
                MoveRule::CD,
            ),
        ),
{
    let rule = MoveRule::CD;
    let ghost base = bank.props();
    let ghost start = lines_of(base, out@);
    let ghost sv = picked(base, state@);
    let ghost f = |i: int| moves_from(sv, rule, i);
    let mut i: usize = 0;
    assert(start + joined_upto(0, f) =~= start);
    while i < state.len()
        invariant
            i <= state@.len(),
            appending(base, *bank, state@, out@, start + joined_upto(i as int, f)),
            sv == picked(base, state@),
            rule == MoveRule::CD,
            f == (|i: int| moves_from(sv, rule, i)),
        decreases state@.len() - i,
    {
        let ghost inner = start + joined_upto(i as int, f);
        let ghost g = |j: int| moves_from_pair(sv, rule, i as int, j);
        assert(state@[i as int] < base.len());
        let x = bank.node(state[i]);
        let ghost at_i = bank.props();
        let is_or = if let Kind::Or = x.kind { true } else { false };
        let mut j: usize = 0;
        assert(inner + joined_upto(0, g) =~= inner);
        proof {
            if !is_or {
                assert forall|j: int| 0 <= j < sv.len() implies (#[trigger] g(j)).len() == 0 by {
                    assert forall|h: Prop| (#[trigger] cd(sv[i as int], sv[j], h)).len() == 0 by {}
                    lemma_no_dilemma(sv, i as int, j);
                }
                lemma_joined_empty(sv.len() as int, g);
                assert(inner + joined_upto(sv.len() as int, g) =~= inner);
            }
        }
        while is_or && j < state.len()
            invariant
                j <= state@.len(),
                i < state@.len(),
                is_or ==> appending(base, *bank, state@, out@, inner + joined_upto(j as int, g)),
                !is_or ==> appending(base, *bank, state@, out@, inner),
                sv == picked(base, state@),
                rule == MoveRule::CD,
                g == (|j: int| moves_from_pair(sv, rule, i as int, j)),
                extends(at_i, bank.props()),
                is_or ==> x.a < at_i.len() && x.b < at_i.len() && sv[i as int] == p_or(
                    at_i[x.a as int],
                    at_i[x.b as int],
                ),
            decreases state@.len() - j,
        {
            let ghost done = inner + joined_upto(j as int, g);
            let ghost before = bank.props();
            assert(state@[j as int] < base.len());
            assert(state@[i as int] < base.len());
            let y = bank.node(state[j]);
            let matching = if let Kind::Implies = y.kind { i != j && y.a == x.a } else { false };
            proof {
                bank.lemma_distinct();
                lemma_picked_extends(base, before, state@);
                assert(before[state@[j as int] as int] == sv[j as int]);
                assert(before[state@[i as int] as int] == sv[i as int]);
                assert(before[x.a as int] == at_i[x.a as int]);
                assert(before[x.b as int] == at_i[x.b as int]);
            }
            if matching {
                push_dilemma(bank, out, state, i, j, x, y);
            } else {
                proof {
                    if i != j {
                        assert forall|h: Prop|
                            (#[trigger] cd(sv[i as int], sv[j as int], h)).len() == 0 by {}
                    }
                    lemma_no_dilemma(sv, i as int, j as int);
                }
            }
            proof {
                assert(g(j as int) == moves_from_pair(sv, rule, i as int, j as int));
                assert(inner + joined_upto(j as int + 1, g) =~= done + g(j as int));
                assert(done + Seq::<Line>::empty() =~= done);
            }
            j = j + 1;
        }
        proof {
            assert(f(i as int) == joined_upto(state@.len() as int, g));
            assert(start + joined_upto(i as int + 1, f) =~= inner + f(i as int));
        }
        i = i + 1;
    }
}

/// The rules of forward moves, in order of priority.
fn rules_in_order() -> (r: [MoveRule; 9])
    ensures
        r@ == move_rules(),
{
    let r = [
        MoveRule::Simp,
        MoveRule::DeM,
        MoveRule::DN,
        MoveRule::MP,
        MoveRule::HS,
        MoveRule::DS,
        MoveRule::MT,
        MoveRule::NegE,
        MoveRule::CD,
    ];
    assert(r@ =~= move_rules());
    r
}

/// Every forward move from a state over a bank.
pub fn bank_moves(bank: &mut Bank, state: &Vec<usize>) -> (r: Vec<Step>)
    requires
        old(bank).wf(),
        ids_within(state@, old(bank).props().len() as int),
    ensures
        final(bank).wf(),
        extends(old(bank).props(), final(bank).props()),
        steps_within(r@, final(bank).props().len() as int),
        lines_of(final(bank).props(), r@) == moves(picked(old(bank).props(), state@)),
{
    let mut out: Vec<Step> = Vec::new();
    let ghost base = bank.props();
    let ghost sv = picked(base, state@);
    let ghost f = |r: int| moves_by(sv, move_rules()[r]);
    let rules = rules_in_order();
    let mut r: usize = 0;
    assert(lines_of(base, out@) =~= joined_upto(0, f));
    while r < 9
        invariant
            r <= 9,
            rules@ == move_rules(),
            appending(base, *bank, state@, out@, joined_upto(r as int, f)),
            sv == picked(base, state@),
            f == (|r: int| moves_by(sv, move_rules()[r])),
        decreases 9 - r,
    {
        let rule = rules[r];
        let takes = rule.takes();
        proof {
            lemma_picked_extends(base, bank.props(), state@);
        }
        if takes == 1 {
            push_single(bank, &mut out, state, &rule);
        } else if takes == 2 {
            push_pair(bank, &mut out, state, &rule);
        } else {
            push_triple(bank, &mut out, state);
        }
        assert(f(r as int) == moves_by(sv, rule));
        r = r + 1;
    }
    out
}

/// Every forward move from `state` to a formula that it does not hold, in the fixed
/// priority order of the rules: Simp, DeM, DN, MP, HS, DS, MT, NegE, CD.
pub fn forward_moves(state: &[Formula]) -> (r: Vec<Move>)
    ensures
        move_views(r@) == moves(views(state@)),
{
    let mut bank = Bank::new(61);
    let ids = bank.intern_all(state);
    let steps = bank_moves(&mut bank, &ids);
    let ghost props = bank.props();
    let mut out: Vec<Move> = Vec::new();
    let mut i: usize = 0;
    while i < steps.len()
        invariant
            i <= steps@.len(),
            bank.wf(),
            props == bank.props(),
            steps_within(steps@, props.len() as int),
            out@.len() == i,
            forall|j: int| 0 <= j < i ==> (#[trigger] out@[j])@ == line_of(props, steps@[j]),
        decreases steps@.len() - i,
    {
        assert(steps@[i as int].id < props.len());
        let m = Move {
            result: bank.formula(steps[i].id),
            rule: steps[i].rule,
            cited: copy_positions(&steps[i].cited),
        };
        out.push(m);
        i = i + 1;
    }
    assert(move_views(out@) =~= lines_of(props, steps@));
    out
}

} // verus!
