//! Cheese predicates: cheap rejections of degenerate theorems, before any prover runs.
//!
//! - Tautologous disjunct: the conclusion (or its consequent, where it has the shape of an
//!   implication) has a disjunct that is a tautology by itself, so that the whole can be
//!   proved by addition, and the antecedent is decoration.
//! - Subformula decoy: a proper part of the antecedent, or of a premise, already entails
//!   the target by itself.
//! - Disguised identity: the antecedent and the consequent are the same formula, written
//!   a few equivalence rewrites apart.
//!
//! None of these is a proof of degeneracy; they are cheap warnings.

use vstd::hash_set::StringHashSet;
use vstd::prelude::*;

use crate::models::formula::{
    entails, equivalent, eval, is_part, law_subformulas, lemma_views_push, model, p_implies, p_not,
    p_or, subformula_seq, tautology, views,
};
use crate::models::formula::{Formula, Prop, Valuation};
use crate::models::lists::lemma_in_joined;
use crate::models::rewriting::{
    law_rewrites_equivalent, one_step_equiv_rewrites, rewrite_views, rewrites, Rewrite,
};
use crate::models::rules::equivalence::EquivalenceRule;
use crate::models::text::ascii;
use crate::services::truth_table::{are_equivalent_dynamic, entails_dynamic, is_tautology_dynamic};

pub use crate::services::truth_table::is_satisfiable_dynamic;

verus! {

/// What the cheap checks found in a candidate theorem. The checks are independent: a
/// theorem can be flagged by more than one.
#[derive(Debug, Clone)]
pub struct CheeseReport {
    /// The first disjunct of the target that is a tautology by itself.
    pub tautologous_disjunct: Option<Formula>,
    /// The first proper part of the antecedent, or else of a premise, that entails the
    /// target by itself.
    pub subformula_decoy: Option<Formula>,
    /// How many rewrites lead from the antecedent to the consequent, if few enough do.
    pub identity_rewrite_distance: Option<usize>,
}

/// A sweep that hits at some depth does so under every bound that allows the depth.
proof fn lemma_sweep_bounds(
    frontier: Seq<Prop>,
    b: Prop,
    visited: Set<Seq<char>>,
    count: nat,
    depth: nat,
    m: nat,
    n: nat,
)
    ensures
        sweep_from(frontier, b, visited, count, depth, m) matches Some(d) ==> depth <= d
            && sweep_from(frontier, b, visited, count, depth, n) == if d <= n {
            Some(d)
        } else {
            None
        },
    decreases m + 1 - depth,
{
    if depth <= m {
        match sweep_frontier(frontier, b, seq![], visited, count) {
            Sweep::Next(next, v, c) => {
                if next.len() > 0 {
                    lemma_sweep_bounds(next, b, v, c, depth + 1, m, n);
                }
            },
            _ => {},
        }
    }
}

/// A distance found under one bound is found under every bound that allows it, and under
/// no other.
pub proof fn law_distance_bounds(a: Prop, b: Prop, m: nat, n: nat)
    ensures
        distance(a, b, m) matches Some(d) ==> distance(a, b, n) == if d <= n {
            Some(d)
        } else {
            None
        },
{
    if equivalent(a, b) && a != b {
        lemma_sweep_bounds(seq![a], b, set![ascii(a)], 1, 1, m, n);
    }
}

/// `a > b` and `~a v b` have the parts `a` and `b`.
pub open spec fn implication_parts(p: Prop) -> Option<(Prop, Prop)> {
    match p {
        Prop::Implies(a, b) => Some((*a, *b)),
        Prop::Or(l, b) => match *l {
            Prop::Not(a) => Some((*a, *b)),
            _ => None,
        },
        _ => None,
    }
}

/// The disjuncts of a formula, from left to right.
pub open spec fn disjuncts(p: Prop) -> Seq<Prop>
    decreases p,
{
    match p {
        Prop::Or(l, r) => disjuncts(*l) + disjuncts(*r),
        _ => seq![p],
    }
}

/// What the disjuncts are looked for in: the consequent, or the whole.
pub open spec fn disjunct_target(conclusion: Prop) -> Prop {
    match implication_parts(conclusion) {
        Some((_, b)) => b,
        None => conclusion,
    }
}

/// The first tautology at or after `from`.
pub open spec fn first_tautology(s: Seq<Prop>, from: int) -> Option<Prop>
    decreases s.len() - from,
{
    if from < 0 || from >= s.len() {
        None
    } else if tautology(s[from]) {
        Some(s[from])
    } else {
        first_tautology(s, from + 1)
    }
}

/// Whether `s` entails the target by itself without being the container or the target
/// over again.
pub open spec fn is_decoy(s: Prop, container: Prop, target: Prop) -> bool {
    !equivalent(s, container) && !equivalent(s, target) && entails(seq![s], target)
}

/// The first decoy at or after `from`.
pub open spec fn first_decoy(s: Seq<Prop>, container: Prop, target: Prop, from: int) -> Option<Prop>
    decreases s.len() - from,
{
    if from < 0 || from >= s.len() {
        None
    } else if is_decoy(s[from], container, target) {
        Some(s[from])
    } else {
        first_decoy(s, container, target, from + 1)
    }
}

/// The first part of `container` that is a decoy for `target`.
pub open spec fn decoy_in(container: Prop, target: Prop) -> Option<Prop> {
    first_decoy(subformula_seq(container), container, target, 0)
}

/// The first decoy in a premise at or after `from`.
pub open spec fn decoy_in_premises(premises: Seq<Prop>, target: Prop, from: int) -> Option<Prop>
    decreases premises.len() - from,
{
    if from < 0 || from >= premises.len() {
        None
    } else {
        match decoy_in(premises[from], target) {
            Some(d) => Some(d),
            None => decoy_in_premises(premises, target, from + 1),
        }
    }
}

/// The decoy of a theorem: in the antecedent for the consequent, or else in a premise
/// for the conclusion.
pub open spec fn theorem_decoy(premises: Seq<Prop>, conclusion: Prop) -> Option<Prop> {
    let own = match implication_parts(conclusion) {
        Some((a, b)) => decoy_in(a, b),
        None => None,
    };
    match own {
        Some(d) => Some(d),
        None => decoy_in_premises(premises, conclusion, 0),
    }
}

/// How many formulas a search for a rewrite path may visit.
pub const NODE_CAP: usize = 20_000;

/// Where a sweep over rewrites has got to: the target was met, too much was visited, or
/// these formulas are the next to go on from, with the texts visited and their number.
pub enum Sweep {
    Hit,
    Capped,
    Next(Seq<Prop>, Set<Seq<char>>, nat),
}

/// Sweeps over the rewrites `rs`.
pub open spec fn sweep_rewrites(
    rs: Seq<Rewrite>,
    b: Prop,
    next: Seq<Prop>,
    visited: Set<Seq<char>>,
    count: nat,
) -> Sweep
    decreases rs.len(),
{
    if rs.len() == 0 {
        Sweep::Next(next, visited, count)
    } else {
        let c = rs[0].0;
        if c == b {
            Sweep::Hit
        } else if visited.contains(ascii(c)) {
            sweep_rewrites(rs.drop_first(), b, next, visited, count)
        } else if count >= NODE_CAP {
            Sweep::Capped
        } else {
            sweep_rewrites(
                rs.drop_first(),
                b,
                next.push(c),
                visited.insert(ascii(c)),
                count + 1,
            )
        }
    }
}

/// Sweeps over the rewrites of every formula of `frontier`.
pub open spec fn sweep_frontier(
    frontier: Seq<Prop>,
    b: Prop,
    next: Seq<Prop>,
    visited: Set<Seq<char>>,
    count: nat,
) -> Sweep
    decreases frontier.len(),
{
    if frontier.len() == 0 {
        Sweep::Next(next, visited, count)
    } else {
        match sweep_rewrites(rewrites(frontier[0]), b, next, visited, count) {
            Sweep::Next(n, v, c) => sweep_frontier(frontier.drop_first(), b, n, v, c),
            other => other,
        }
    }
}

/// Breadth-first search for `b` from `frontier`, `depth` being the next number of steps.
pub open spec fn sweep_from(
    frontier: Seq<Prop>,
    b: Prop,
    visited: Set<Seq<char>>,
    count: nat,
    depth: nat,
    max: nat,
) -> Option<nat>
    decreases max + 1 - depth,
{
    if depth > max {
        None
    } else {
        match sweep_frontier(frontier, b, seq![], visited, count) {
            Sweep::Hit => Some(depth),
            Sweep::Capped => None,
            Sweep::Next(n, v, c) => if n.len() == 0 {
                None
            } else {
                sweep_from(n, b, v, c, depth + 1, max)
            },
        }
    }
}

/// How many rewrites the search finds from `a` to `b`.
pub open spec fn distance(a: Prop, b: Prop, max: nat) -> Option<nat> {
    if !equivalent(a, b) {
        None
    } else if a == b {
        Some(0)
    } else {
        sweep_from(seq![a], b, set![ascii(a)], 1, 1, max)
    }
}

/// How many rewrites the search finds from the antecedent to the consequent.
pub open spec fn identity_distance(conclusion: Prop, max: nat) -> Option<nat> {
    match implication_parts(conclusion) {
        Some((a, b)) => distance(a, b, max),
        None => None,
    }
}

/// Whether `n` rewrites lead from `a` to `b`.
pub open spec fn rewrites_in(a: Prop, b: Prop, n: nat) -> bool
    decreases n,
{
    if n == 0 {
        a == b
    } else {
        exists|m: Prop, rule: EquivalenceRule|
            #[trigger] rewrites(m).contains((b, rule)) && rewrites_in(a, m, (n - 1) as nat)
    }
}

/// Every disjunct that is a tautology makes the whole one.
proof fn lemma_disjunct_tautology(p: Prop, d: Prop)
    requires
        disjuncts(p).contains(d),
        tautology(d),
    ensures
        tautology(p),
    decreases p,
{
    match p {
        Prop::Or(l, r) => {
            lemma_in_joined(disjuncts(*l), disjuncts(*r), d);
            if disjuncts(*l).contains(d) {
                lemma_disjunct_tautology(*l, d);
                assert forall|v: Valuation| #[trigger] eval(p, v) by {
                    assert(eval(*l, v));
                }
            } else {
                lemma_disjunct_tautology(*r, d);
                assert forall|v: Valuation| #[trigger] eval(p, v) by {
                    assert(eval(*r, v));
                }
            }
        },
        _ => {},
    }
}

/// A first tautology is one of the list.
proof fn lemma_first_tautology(s: Seq<Prop>, from: int)
    requires
        0 <= from,
    ensures
        first_tautology(s, from) matches Some(d) ==> tautology(d) && s.contains(d),
    decreases s.len() - from,
{
    if from < s.len() && !tautology(s[from]) {
        lemma_first_tautology(s, from + 1);
    }
}

/// A conclusion with a tautologous disjunct is a tautology: it needs neither its premises
/// nor its antecedent.
pub proof fn law_tautologous_disjunct(conclusion: Prop)
    requires
        first_tautology(disjuncts(disjunct_target(conclusion)), 0) is Some,
    ensures
        tautology(conclusion),
{
    let t = disjunct_target(conclusion);
    lemma_first_tautology(disjuncts(t), 0);
    let d = first_tautology(disjuncts(t), 0)->0;
    lemma_disjunct_tautology(t, d);
    assert forall|v: Valuation| #[trigger] eval(conclusion, v) by {
        assert(eval(t, v));
        reveal_with_fuel(eval, 2);
    }
}

/// A first decoy is a decoy, and one of the list.
proof fn lemma_first_decoy(s: Seq<Prop>, container: Prop, target: Prop, from: int)
    requires
        0 <= from,
    ensures
        first_decoy(s, container, target, from) matches Some(d) ==> is_decoy(d, container, target)
            && s.contains(d),
    decreases s.len() - from,
{
    if from < s.len() && !is_decoy(s[from], container, target) {
        lemma_first_decoy(s, container, target, from + 1);
    }
}

/// A decoy of a theorem entails its target by itself: the consequent, where it is part of
/// the antecedent, or the conclusion, where it is part of a premise. It is neither the
/// formula it is part of nor the target over again.
pub proof fn law_decoy(premises: Seq<Prop>, conclusion: Prop)
    requires
        theorem_decoy(premises, conclusion) is Some,
    ensures
        ({
            let d = theorem_decoy(premises, conclusion)->0;
            ||| {
                &&& implication_parts(conclusion) matches Some((a, b))
                &&& subformula_seq(a).contains(d)
                &&& is_decoy(d, a, b)
            }
            ||| exists|i: int|
                0 <= i < premises.len() && #[trigger] subformula_seq(premises[i]).contains(d)
                    && is_decoy(d, premises[i], conclusion)
        }),
{
    let own = match implication_parts(conclusion) {
        Some((a, b)) => decoy_in(a, b),
        None => None,
    };
    if own is Some {
        let (a, b) = implication_parts(conclusion)->0;
        lemma_first_decoy(subformula_seq(a), a, b, 0);
    } else {
        lemma_premise_decoy(premises, conclusion, 0);
    }
}

/// A decoy among the premises is part of one.
proof fn lemma_premise_decoy(premises: Seq<Prop>, target: Prop, from: int)
    requires
        0 <= from,
    ensures
        decoy_in_premises(premises, target, from) matches Some(d) ==> exists|i: int|
            0 <= i < premises.len() && #[trigger] subformula_seq(premises[i]).contains(d)
                && is_decoy(d, premises[i], target),
    decreases premises.len() - from,
{
    if from < premises.len() {
        lemma_first_decoy(subformula_seq(premises[from]), premises[from], target, 0);
        if decoy_in(premises[from], target) is None {
            lemma_premise_decoy(premises, target, from + 1);
        }
    }
}

/// Whether `d` is one of the formulas that `p` is a disjunction of, however it is nested.
pub open spec fn is_disjunct(d: Prop, p: Prop) -> bool
    decreases p,
{
    match p {
        Prop::Or(l, r) => is_disjunct(d, *l) || is_disjunct(d, *r),
        _ => d == p,
    }
}

/// The disjuncts of a formula are those that it is a disjunction of.
proof fn lemma_disjuncts(p: Prop, d: Prop)
    ensures
        disjuncts(p).contains(d) <==> is_disjunct(d, p),
    decreases p,
{
    match p {
        Prop::Or(l, r) => {
            lemma_disjuncts(*l, d);
            lemma_disjuncts(*r, d);
            lemma_in_joined(disjuncts(*l), disjuncts(*r), d);
        },
        _ => {
            assert(seq![p][0] == p);
        },
    }
}

/// Where there is a tautology, one is found.
proof fn lemma_tautology_found(s: Seq<Prop>, from: int, i: int)
    requires
        0 <= from <= i < s.len(),
        tautology(s[i]),
    ensures
        first_tautology(s, from) is Some,
    decreases s.len() - from,
{
    if !tautology(s[from]) {
        lemma_tautology_found(s, from + 1, i);
    }
}

/// Where there is a decoy, one is found.
proof fn lemma_decoy_found(s: Seq<Prop>, container: Prop, target: Prop, from: int, i: int)
    requires
        0 <= from <= i < s.len(),
        is_decoy(s[i], container, target),
    ensures
        first_decoy(s, container, target, from) is Some,
    decreases s.len() - from,
{
    if !is_decoy(s[from], container, target) {
        lemma_decoy_found(s, container, target, from + 1, i);
    }
}

/// Where a premise has a decoy, one is found.
proof fn lemma_premise_decoy_found(premises: Seq<Prop>, target: Prop, from: int, i: int)
    requires
        0 <= from <= i < premises.len(),
        decoy_in(premises[i], target) is Some,
    ensures
        decoy_in_premises(premises, target, from) is Some,
    decreases premises.len() - from,
{
    if decoy_in(premises[from], target) is None {
        lemma_premise_decoy_found(premises, target, from + 1, i);
    }
}

/// Whether a part of `container` entails `target` by itself, without being equivalent to
/// either.
pub open spec fn has_decoy(container: Prop, target: Prop) -> bool {
    exists|d: Prop| #[trigger]
        is_part(d, container) && !equivalent(d, container) && !equivalent(d, target) && entails(
            seq![d],
            target,
        )
}

/// A part that is a decoy is found.
proof fn lemma_has_decoy(container: Prop, target: Prop)
    ensures
        decoy_in(container, target) is Some <==> has_decoy(container, target),
{
    let s = subformula_seq(container);
    if has_decoy(container, target) {
        let d = choose|d: Prop| #[trigger]
            is_part(d, container) && !equivalent(d, container) && !equivalent(d, target)
                && entails(seq![d], target);
        law_subformulas(container, d);
        let i = choose|i: int| 0 <= i < s.len() && s[i] == d;
        assert(is_decoy(s[i], container, target));
        lemma_decoy_found(s, container, target, 0, i);
    }
    lemma_first_decoy(s, container, target, 0);
    if decoy_in(container, target) is Some {
        let d = decoy_in(container, target)->0;
        law_subformulas(container, d);
        assert(is_part(d, container));
    }
}

/// What is told of a conclusion's disjuncts is the first of them that is a tautology.
pub proof fn law_first_tautology(s: Seq<Prop>, from: int)
    requires
        0 <= from,
    ensures
        first_tautology(s, from) matches Some(d) ==> exists|i: int|
            from <= i < s.len() && #[trigger] s[i] == d && tautology(d) && forall|j: int|
                from <= j < i ==> !tautology(#[trigger] s[j]),
        first_tautology(s, from) is None ==> forall|j: int|
            from <= j < s.len() ==> !tautology(#[trigger] s[j]),
    decreases s.len() - from,
{
    if from < s.len() {
        if tautology(s[from]) {
            assert(s[from] == first_tautology(s, from)->0);
        } else {
            law_first_tautology(s, from + 1);
            if first_tautology(s, from) is Some {
                let d = first_tautology(s, from)->0;
                let i = choose|i: int|
                    from + 1 <= i < s.len() && #[trigger] s[i] == d && tautology(d) && forall|
                        j: int,
                    |
                        from + 1 <= j < i ==> !tautology(#[trigger] s[j]);
                assert(s[i] == d);
            }
        }
    }
}

/// What is told of a formula's parts is the first of them that is a decoy.
pub proof fn law_first_decoy(s: Seq<Prop>, container: Prop, target: Prop, from: int)
    requires
        0 <= from,
    ensures
        first_decoy(s, container, target, from) matches Some(d) ==> exists|i: int|
            from <= i < s.len() && #[trigger] s[i] == d && is_decoy(d, container, target)
                && forall|j: int| from <= j < i ==> !is_decoy(#[trigger] s[j], container, target),
        first_decoy(s, container, target, from) is None ==> forall|j: int|
            from <= j < s.len() ==> !is_decoy(#[trigger] s[j], container, target),
    decreases s.len() - from,
{
    if from < s.len() {
        if is_decoy(s[from], container, target) {
            assert(s[from] == first_decoy(s, container, target, from)->0);
        } else {
            law_first_decoy(s, container, target, from + 1);
            if first_decoy(s, container, target, from) is Some {
                let d = first_decoy(s, container, target, from)->0;
                let i = choose|i: int|
                    from + 1 <= i < s.len() && #[trigger] s[i] == d && is_decoy(
                        d,
                        container,
                        target,
                    ) && forall|j: int|
                        from + 1 <= j < i ==> !is_decoy(#[trigger] s[j], container, target);
                assert(s[i] == d);
            }
        }
    }
}

/// The decoy of a theorem is looked for in its antecedent first, and then in its premises in
/// their order.
pub proof fn law_decoy_order(premises: Seq<Prop>, a: Prop, b: Prop, conclusion: Prop, i: int)
    ensures
        decoy_in(a, b) is Some ==> theorem_decoy(premises, p_implies(a, b)) == decoy_in(a, b),
        decoy_in(a, b) is Some ==> theorem_decoy(premises, p_or(p_not(a), b)) == decoy_in(a, b),
        0 <= i < premises.len() && decoy_in(premises[i], conclusion) is Some && (forall|j: int|
            0 <= j < i ==> decoy_in(#[trigger] premises[j], conclusion) is None) && (
        implication_parts(conclusion) matches Some((x, y)) ==> decoy_in(x, y) is None)
            ==> theorem_decoy(premises, conclusion) == decoy_in(premises[i], conclusion),
{
    if 0 <= i < premises.len() && decoy_in(premises[i], conclusion) is Some && (forall|j: int|
        0 <= j < i ==> decoy_in(#[trigger] premises[j], conclusion) is None) {
        lemma_premise_order(premises, conclusion, 0, i);
    }
}

/// The first premise with a decoy gives it.
proof fn lemma_premise_order(premises: Seq<Prop>, target: Prop, from: int, i: int)
    requires
        0 <= from <= i < premises.len(),
        decoy_in(premises[i], target) is Some,
        forall|j: int| from <= j < i ==> decoy_in(#[trigger] premises[j], target) is None,
    ensures
        decoy_in_premises(premises, target, from) == decoy_in(premises[i], target),
    decreases i - from,
{
    if from < i {
        assert(decoy_in(premises[from], target) is None);
        lemma_premise_order(premises, target, from + 1, i);
    }
}

/// The distance of a conclusion is that from its antecedent to its consequent, in either
/// form; a conclusion that is no implication has none.
pub proof fn law_identity_distance(a: Prop, b: Prop, conclusion: Prop, max: nat)
    ensures
        identity_distance(p_implies(a, b), max) == distance(a, b, max),
        identity_distance(p_or(p_not(a), b), max) == distance(a, b, max),
        !(conclusion is Implies) && (conclusion matches Prop::Or(l, _) ==> !(*l is Not))
            ==> identity_distance(conclusion, max) is None,
{
}

/// A conclusion is flagged for a tautologous disjunct exactly where it has one: where some
/// disjunct of its consequent, or of the whole where it is no implication, is a tautology.
pub proof fn law_tautologous_disjunct_flagged(conclusion: Prop, a: Prop, b: Prop)
    ensures
        conclusion == p_implies(a, b) || conclusion == p_or(p_not(a), b) ==> (first_tautology(
            disjuncts(disjunct_target(conclusion)),
            0,
        ) is Some <==> exists|d: Prop| tautology(d) && #[trigger] is_disjunct(d, b)),
        !(conclusion is Implies) && (conclusion matches Prop::Or(l, _) ==> !(*l is Not)) ==> (
        first_tautology(disjuncts(disjunct_target(conclusion)), 0) is Some <==> exists|d: Prop|
            tautology(d) && #[trigger] is_disjunct(d, conclusion)),
{
    let t = disjunct_target(conclusion);
    let s = disjuncts(t);
    lemma_first_tautology(s, 0);
    if first_tautology(s, 0) is Some {
        let d = first_tautology(s, 0)->0;
        lemma_disjuncts(t, d);
        assert(tautology(d) && is_disjunct(d, t));
    }
    assert forall|d: Prop| tautology(d) && #[trigger] is_disjunct(d, t) implies first_tautology(
        s,
        0,
    ) is Some by {
        lemma_disjuncts(t, d);
        let i = choose|i: int| 0 <= i < s.len() && s[i] == d;
        lemma_tautology_found(s, 0, i);
    }
}

/// A theorem is flagged for a decoy exactly where it has one: a part of the antecedent that
/// entails the consequent by itself, or a part of a premise that entails the conclusion by
/// itself, without being the formula it is part of or the target over again.
pub proof fn law_decoy_flagged(premises: Seq<Prop>, conclusion: Prop)
    ensures
        theorem_decoy(premises, conclusion) is Some <==> (match conclusion {
            Prop::Implies(a, b) => has_decoy(*a, *b),
            Prop::Or(l, b) => *l matches Prop::Not(a) && has_decoy(*a, *b),
            _ => false,
        }) || exists|i: int|
            0 <= i < premises.len() && has_decoy(#[trigger] premises[i], conclusion),
{
    if implication_parts(conclusion) is Some {
        let (a, b) = implication_parts(conclusion)->0;
        lemma_has_decoy(a, b);
    }
    if exists|i: int| 0 <= i < premises.len() && has_decoy(#[trigger] premises[i], conclusion) {
        let i = choose|i: int|
            0 <= i < premises.len() && has_decoy(#[trigger] premises[i], conclusion);
        lemma_has_decoy(premises[i], conclusion);
        lemma_premise_decoy_found(premises, conclusion, 0, i);
    }
    lemma_premise_decoy(premises, conclusion, 0);
    if decoy_in_premises(premises, conclusion, 0) is Some {
        let d = decoy_in_premises(premises, conclusion, 0)->0;
        let i = choose|i: int|
            0 <= i < premises.len() && #[trigger] subformula_seq(premises[i]).contains(d)
                && is_decoy(d, premises[i], conclusion);
        law_subformulas(premises[i], d);
        assert(is_part(d, premises[i]));
        assert(has_decoy(premises[i], conclusion));
    }
}

/// Formulas that rewrites lead between are equivalent.
pub proof fn law_rewritten_equivalent(a: Prop, b: Prop, n: nat)
    requires
        rewrites_in(a, b, n),
    ensures
        equivalent(a, b),
    decreases n,
{
    if n > 0 {
        let (m, rule) = choose|m: Prop, rule: EquivalenceRule|
            #[trigger] rewrites(m).contains((b, rule)) && rewrites_in(a, m, (n - 1) as nat);
        law_rewritten_equivalent(a, m, (n - 1) as nat);
        law_rewrites_equivalent(m, b, rule);
        assert forall|v: Valuation| #[trigger] eval(a, v) == eval(b, v) by {
            assert(eval(a, v) == eval(m, v));
            assert(eval(m, v) == eval(b, v));
        }
    }
}

/// Whether `n` rewrites lead from `a` to each of `s`.
spec fn all_rewritten(a: Prop, s: Seq<Prop>, n: nat) -> bool {
    forall|i: int| 0 <= i < s.len() ==> rewrites_in(a, #[trigger] s[i], n)
}

/// A sweep over rewrites of `m` meets only what is one rewrite from it.
proof fn lemma_sweep_rewrites(
    a: Prop,
    m: Prop,
    rs: Seq<Rewrite>,
    b: Prop,
    next: Seq<Prop>,
    visited: Set<Seq<char>>,
    count: nat,
    n: nat,
)
    requires
        rewrites_in(a, m, n),
        forall|i: int| 0 <= i < rs.len() ==> rewrites(m).contains(#[trigger] rs[i]),
        all_rewritten(a, next, n + 1),
    ensures
        match sweep_rewrites(rs, b, next, visited, count) {
            Sweep::Hit => rewrites_in(a, b, n + 1),
            Sweep::Capped => true,
            Sweep::Next(s, _, _) => all_rewritten(a, s, n + 1),
        },
    decreases rs.len(),
{
    if rs.len() > 0 {
        let c = rs[0].0;
        assert(rewrites(m).contains((c, rs[0].1)));
        assert(rewrites_in(a, c, n + 1));
        let rest = rs.drop_first();
        assert forall|i: int| 0 <= i < rest.len() implies rewrites(m).contains(
            #[trigger] rest[i],
        ) by {
            assert(rest[i] == rs[i + 1]);
        }
        if c == b {
        } else if visited.contains(ascii(c)) {
            lemma_sweep_rewrites(a, m, rest, b, next, visited, count, n);
        } else if count >= NODE_CAP {
        } else {
            lemma_sweep_rewrites(
                a,
                m,
                rest,
                b,
                next.push(c),
                visited.insert(ascii(c)),
                count + 1,
                n,
            );
        }
    }
}

/// A sweep over a frontier meets only what is one rewrite from it.
proof fn lemma_sweep_frontier(
    a: Prop,
    frontier: Seq<Prop>,
    b: Prop,
    next: Seq<Prop>,
    visited: Set<Seq<char>>,
    count: nat,
    n: nat,
)
    requires
        all_rewritten(a, frontier, n),
        all_rewritten(a, next, n + 1),
    ensures
        match sweep_frontier(frontier, b, next, visited, count) {
            Sweep::Hit => rewrites_in(a, b, n + 1),
            Sweep::Capped => true,
            Sweep::Next(s, _, _) => all_rewritten(a, s, n + 1),
        },
    decreases frontier.len(),
{
    if frontier.len() > 0 {
        let m = frontier[0];
        let rs = rewrites(m);
        assert forall|i: int| 0 <= i < rs.len() implies rewrites(m).contains(#[trigger] rs[i]) by {}
        lemma_sweep_rewrites(a, m, rs, b, next, visited, count, n);
        match sweep_rewrites(rs, b, next, visited, count) {
            Sweep::Next(s, v, c) => {
                let rest = frontier.drop_first();
                assert forall|i: int| 0 <= i < rest.len() implies rewrites_in(
                    a,
                    #[trigger] rest[i],
                    n,
                ) by {
                    assert(rest[i] == frontier[i + 1]);
                }
                lemma_sweep_frontier(a, rest, b, s, v, c, n);
            },
            _ => {},
        }
    }
}

/// What a sweep finds is as far as it says.
proof fn lemma_sweep_from(
    a: Prop,
    frontier: Seq<Prop>,
    b: Prop,
    visited: Set<Seq<char>>,
    count: nat,
    depth: nat,
    max: nat,
)
    requires
        depth > 0,
        all_rewritten(a, frontier, (depth - 1) as nat),
    ensures
        sweep_from(frontier, b, visited, count, depth, max) matches Some(d) ==> depth <= d <= max
            && rewrites_in(a, b, d),
    decreases max + 1 - depth,
{
    if depth <= max {
        lemma_sweep_frontier(a, frontier, b, seq![], visited, count, (depth - 1) as nat);
        match sweep_frontier(frontier, b, seq![], visited, count) {
            Sweep::Next(n, v, c) => {
                if n.len() > 0 {
                    lemma_sweep_from(a, n, b, v, c, depth + 1, max);
                }
            },
            _ => {},
        }
    }
}

/// A distance is the length of a path of rewrites, no longer than asked for; it is 0
/// exactly for the formula itself.
pub proof fn law_distance_reached(a: Prop, b: Prop, max: nat)
    ensures
        distance(a, b, max) matches Some(d) ==> {
            &&& rewrites_in(a, b, d)
            &&& d <= max
            &&& d == 0 <==> a == b
        },
{
    if equivalent(a, b) && a != b {
        assert(rewrites_in(a, a, 0));
        lemma_sweep_from(a, seq![a], b, set![ascii(a)], 1, 1, max);
    }
}

/// Formulas that are not equivalent have no distance.
pub proof fn law_distance_refuses(a: Prop, b: Prop, max: nat)
    requires
        !equivalent(a, b),
    ensures
        distance(a, b, max) is None,
{
}

/// `a > b` and `~a v b` have the parts `a` and `b`.
fn implication_parts_of(f: &Formula) -> (r: Option<(Formula, Formula)>)
    ensures
        r is Some <==> implication_parts(f@) is Some,
        r matches Some((a, b)) ==> implication_parts(f@) == Some((a@, b@)),
{
    proof {
        reveal_with_fuel(model, 3);
    }
    match f {
        Formula::Implies(a, b) => Some(((&**a).clone(), (&**b).clone())),
        Formula::Or(l, b) => match &**l {
            Formula::Not(a) => Some(((&**a).clone(), (&**b).clone())),
            _ => None,
        },
        _ => None,
    }
}

/// The disjuncts of a formula, from left to right.
fn flatten_or(f: &Formula) -> (r: Vec<Formula>)
    ensures
        views(r@) == disjuncts(f@),
    decreases f,
{
    match f {
        Formula::Or(a, b) => {
            let mut r = flatten_or(a);
            let mut more = flatten_or(b);
            let ghost (x, y) = (r@, more@);
            r.append(&mut more);
            assert(views(r@) =~= views(x) + views(y));
            r
        },
        _ => {
            let mut r: Vec<Formula> = Vec::new();
            r.push(f.clone());
            assert(views(r@) =~= seq![f@]);
            r
        },
    }
}

/// The model of a formula that may not be there.
pub open spec fn option_view(f: Option<Formula>) -> Option<Prop> {
    match f {
        Some(x) => Some(x@),
        None => None,
    }
}

/// A count that may not be there, as a number.
pub open spec fn option_count(n: Option<usize>) -> Option<nat> {
    match n {
        Some(x) => Some(x as nat),
        None => None,
    }
}

/// The first tautology of a list.
fn find_tautology(fs: &Vec<Formula>) -> (r: Option<Formula>)
    ensures
        option_view(r) == first_tautology(views(fs@), 0),
{
    let mut i: usize = 0;
    while i < fs.len()
        invariant
            i <= fs@.len(),
            first_tautology(views(fs@), 0) == first_tautology(views(fs@), i as int),
        decreases fs@.len() - i,
    {
        assert(views(fs@)[i as int] == fs@[i as int]@);
        if is_tautology_dynamic(&fs[i]) {
            return Some(fs[i].clone());
        }
        i = i + 1;
    }
    None
}

/// The first part of `container` that entails `target` by itself, without being either of
/// them over again.
fn find_decoy(container: &Formula, target: &Formula) -> (r: Option<Formula>)
    ensures
        option_view(r) == decoy_in(container@, target@),
{
    let parts = container.subformulas();
    let ghost s = subformula_seq(container@);
    let mut i: usize = 0;
    while i < parts.len()
        invariant
            i <= parts@.len(),
            s == views(parts@),
            first_decoy(s, container@, target@, 0) == first_decoy(
                s,
                container@,
                target@,
                i as int,
            ),
            s == subformula_seq(container@),
        decreases parts@.len() - i,
    {
        assert(s[i as int] == parts@[i as int]@);
        if !are_equivalent_dynamic(&parts[i], container) && !are_equivalent_dynamic(
            &parts[i],
            target,
        ) {
            let mut alone: Vec<Formula> = Vec::new();
            alone.push(parts[i].clone());
            assert(views(alone@) =~= seq![s[i as int]]);
            if entails_dynamic(&alone, target) {
                return Some(parts[i].clone());
            }
        }
        i = i + 1;
    }
    None
}

/// The first decoy in a premise.
fn find_premise_decoy(premises: &[Formula], target: &Formula) -> (r: Option<Formula>)
    ensures
        option_view(r) == decoy_in_premises(views(premises@), target@, 0),
{
    let mut i: usize = 0;
    while i < premises.len()
        invariant
            i <= premises@.len(),
            decoy_in_premises(views(premises@), target@, 0) == decoy_in_premises(
                views(premises@),
                target@,
                i as int,
            ),
        decreases premises@.len() - i,
    {
        assert(views(premises@)[i as int] == premises@[i as int]@);
        match find_decoy(&premises[i], target) {
            Some(d) => {
                return Some(d);
            },
            None => {},
        }
        i = i + 1;
    }
    None
}

/// Runs all cheap checks against a candidate theorem. `max_rewrite_distance` bounds the
/// search for a disguised identity.
pub fn cheese_check(premises: &[Formula], conclusion: &Formula, max_rewrite_distance: usize) -> (r:
    CheeseReport)
    ensures
        option_view(r.tautologous_disjunct) == first_tautology(
            disjuncts(disjunct_target(conclusion@)),
            0,
        ),
        option_view(r.subformula_decoy) == theorem_decoy(views(premises@), conclusion@),
        option_count(r.identity_rewrite_distance) == identity_distance(
            conclusion@,
            max_rewrite_distance as nat,
        ),
{
    let parts = implication_parts_of(conclusion);
    let tautologous_disjunct = match &parts {
        Some((_, b)) => find_tautology(&flatten_or(b)),
        None => find_tautology(&flatten_or(conclusion)),
    };
    let own = match &parts {
        Some((a, b)) => find_decoy(a, b),
        None => None,
    };
    let subformula_decoy = match own {
        Some(d) => Some(d),
        None => find_premise_decoy(premises, conclusion),
    };
    let identity_rewrite_distance = match &parts {
        Some((a, b)) => rewrite_distance(a, b, max_rewrite_distance),
        None => None,
    };
    CheeseReport { tautologous_disjunct, subformula_decoy, identity_rewrite_distance }
}

/// Where a sweep over formulas has got to.
enum Swept {
    Hit,
    Capped,
    Next,
}

/// Whether a sweep has got to where it should.
spec fn swept_is(
    r: Swept,
    next: Seq<Formula>,
    visited: Set<Seq<char>>,
    count: usize,
    expected: Sweep,
) -> bool {
    match (r, expected) {
        (Swept::Hit, Sweep::Hit) => true,
        (Swept::Capped, Sweep::Capped) => true,
        (Swept::Next, Sweep::Next(n, v, c)) => views(next) == n && visited == v && count == c,
        _ => false,
    }
}

/// Sweeps over the rewrites of one formula.
fn sweep_one(
    f: &Formula,
    b: &Formula,
    next: &mut Vec<Formula>,
    visited: &mut StringHashSet,
    count: &mut usize,
) -> (r: Swept)
    requires
        *old(count) <= NODE_CAP,
    ensures
        *final(count) <= NODE_CAP,
        swept_is(
            r,
            final(next)@,
            final(visited)@,
            *final(count),
            sweep_rewrites(
                rewrites(f@),
                b@,
                views(old(next)@),
                old(visited)@,
                *old(count) as nat,
            ),
        ),
{
    broadcast use lemma_views_push;

    let rs = one_step_equiv_rewrites(f);
    let ghost all = rewrites(f@);
    let ghost whole = sweep_rewrites(all, b@, views(next@), visited@, *count as nat);
    let mut i: usize = 0;
    assert(all.skip(0) =~= all);
    while i < rs.len()
        invariant
            i <= rs@.len(),
            all == rewrite_views(rs@),
            *count <= NODE_CAP,
            whole == sweep_rewrites(
                all.skip(i as int),
                b@,
                views(next@),
                visited@,
                *count as nat,
            ),
            whole == sweep_rewrites(
                rewrites(f@),
                b@,
                views(old(next)@),
                old(visited)@,
                *old(count) as nat,
            ),
        decreases rs@.len() - i,
    {
        assert(all.skip(i as int)[0] == all[i as int]);
        assert(all[i as int].0 == rs@[i as int].0@);
        assert(all.skip(i as int).drop_first() =~= all.skip(i as int + 1));
        if rs[i].0.same(b) {
            return Swept::Hit;
        }
        let text = rs[i].0.ascii_string();
        if visited.contains(text.as_str()) {
        } else if *count >= NODE_CAP {
            return Swept::Capped;
        } else {
            let ghost before = next@;
            visited.insert(text);
            *count = *count + 1;
            let f = rs[i].0.clone();
            next.push(f);
            assert(views(next@) == views(before).push(f@));
        }
        i = i + 1;
    }
    Swept::Next
}

/// Sweeps over the rewrites of every formula of `frontier`.
fn sweep_all(
    frontier: &Vec<Formula>,
    b: &Formula,
    next: &mut Vec<Formula>,
    visited: &mut StringHashSet,
    count: &mut usize,
) -> (r: Swept)
    requires
        *old(count) <= NODE_CAP,
    ensures
        *final(count) <= NODE_CAP,
        swept_is(
            r,
            final(next)@,
            final(visited)@,
            *final(count),
            sweep_frontier(
                views(frontier@),
                b@,
                views(old(next)@),
                old(visited)@,
                *old(count) as nat,
            ),
        ),
{
    let ghost all = views(frontier@);
    let ghost whole = sweep_frontier(all, b@, views(next@), visited@, *count as nat);
    let mut i: usize = 0;
    assert(all.skip(0) =~= all);
    while i < frontier.len()
        invariant
            i <= frontier@.len(),
            all == views(frontier@),
            *count <= NODE_CAP,
            whole == sweep_frontier(
                all.skip(i as int),
                b@,
                views(next@),
                visited@,
                *count as nat,
            ),
            whole == sweep_frontier(
                views(frontier@),
                b@,
                views(old(next)@),
                old(visited)@,
                *old(count) as nat,
            ),
        decreases frontier@.len() - i,
    {
        assert(all.skip(i as int)[0] == frontier@[i as int]@);
        assert(all.skip(i as int).drop_first() =~= all.skip(i as int + 1));
        match sweep_one(&frontier[i], b, next, visited, count) {
            Swept::Hit => {
                return Swept::Hit;
            },
            Swept::Capped => {
                return Swept::Capped;
            },
            Swept::Next => {},
        }
        i = i + 1;
    }
    Swept::Next
}

/// The number of equivalence rewrites that a breadth-first search finds from `a` to `b`;
/// none if they are not equivalent, if it takes more than `max`, or if the search visits
/// too many formulas. A search cut short never claims a distance.
pub fn rewrite_distance(a: &Formula, b: &Formula, max: usize) -> (r: Option<usize>)
    ensures
        option_count(r) == distance(a@, b@, max as nat),
{
    if !are_equivalent_dynamic(a, b) {
        return None;
    }
    if a.same(b) {
        return Some(0);
    }
    let mut visited = StringHashSet::new();
    visited.insert(a.ascii_string());
    let mut frontier: Vec<Formula> = Vec::new();
    frontier.push(a.clone());
    let mut count: usize = 1;
    let ghost whole = distance(a@, b@, max as nat);
    assert(views(frontier@) =~= seq![a@]);
    assert(visited@ =~= set![ascii(a@)]);
    let mut depth: usize = 1;
    let mut done = max == 0;
    while !done
        invariant
            1 <= depth,
            count <= NODE_CAP,
            whole == distance(a@, b@, max as nat),
            !done ==> depth <= max && whole == sweep_from(
                views(frontier@),
                b@,
                visited@,
                count as nat,
                depth as nat,
                max as nat,
            ),
            done ==> whole is None,
        decreases max - depth + (if done { 0int } else { 1int }),
    {
        let mut next: Vec<Formula> = Vec::new();
        assert(views(next@) =~= seq![]);
        match sweep_all(&frontier, b, &mut next, &mut visited, &mut count) {
            Swept::Hit => {
                return Some(depth);
            },
            Swept::Capped => {
                return None;
            },
            Swept::Next => {},
        }
        assert(views(next@).len() == next@.len());
        if next.len() == 0 {
            return None;
        }
        frontier = next;
        if depth == max {
            assert(sweep_from(
                views(frontier@),
                b@,
                visited@,
                count as nat,
                (depth + 1) as nat,
                max as nat,
            ) is None);
            done = true;
        } else {
            depth = depth + 1;
        }
    }
    None
}

} // verus!
