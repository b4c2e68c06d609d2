//! Costumes: equivalence steps around a proof that disguise its premises and its
//! conclusion.

use vstd::prelude::*;

use super::cone::{replay, replayed};
use super::dressing::{lemma_dressed_sewn, lemma_prologue, lemma_replayed, sewn};
use super::growth::{fits, Entry};
use super::rebuilding::{finished, lemma_finished_verified, lemma_refers_back};
use super::scratch::within_len;
use crate::models::formula::{
    contains, copy_formulas, lemma_views_add, lemma_views_push, subformula_seq, views,
};
use crate::models::formula::{Formula, Prop};
use crate::models::proofs::{
    drafted, referenced, with_line, Draft, Justification, Proof, Reason, Row,
};
use crate::models::rules::equivalence::{
    all_equivalence_rules, forms, replace_all, EquivalenceRule,
};
use crate::models::theorem::Theorem;
use crate::services::dice::{index_drawn, passes_drawn, Dice};
use crate::services::planted_gen::candidate::PlantSpec;
use crate::services::verification::{fault_at, verified};

verus! {

/// A step of a disguise, as a value: `before`, replaced by `after` wherever it occurs,
/// gives `next`.
pub struct Disguise {
    pub rule: EquivalenceRule,
    pub before: Prop,
    pub after: Prop,
    pub next: Prop,
}

/// The step that replaces `sub` by `form`.
pub open spec fn disguise(current: Prop, rule: EquivalenceRule, sub: Prop, form: Prop) -> Disguise {
    Disguise { rule, before: sub, after: form, next: replace_all(current, sub, form) }
}

/// Whether a step of a disguise may be taken: it changes something, its result is short
/// enough and not to be avoided, and it can be undone by the same rule.
pub open spec fn admissible(current: Prop, max: nat, avoid: Seq<Prop>, x: Disguise) -> bool {
    &&& x.after != x.before
    &&& fits(x.next, max)
    &&& !avoid.contains(x.next)
    &&& forms(x.rule, x.after).contains(x.before)
    &&& replace_all(x.next, x.after, x.before) == current
}

/// The admissible steps by one rule on one subformula.
pub open spec fn by_forms(
    current: Prop,
    max: nat,
    avoid: Seq<Prop>,
    rule: EquivalenceRule,
    sub: Prop,
    fs: Seq<Prop>,
) -> Seq<Disguise>
    decreases fs.len(),
{
    if fs.len() == 0 {
        seq![]
    } else {
        let before = by_forms(current, max, avoid, rule, sub, fs.drop_last());
        let x = disguise(current, rule, sub, fs.last());
        if admissible(current, max, avoid, x) {
            before.push(x)
        } else {
            before
        }
    }
}

/// The admissible steps by the first `n` rules on one subformula.
pub open spec fn by_rules(current: Prop, max: nat, avoid: Seq<Prop>, sub: Prop, n: int) -> Seq<
    Disguise,
>
    decreases n,
{
    if n <= 0 {
        seq![]
    } else {
        let rule = all_equivalence_rules()[n - 1];
        by_rules(current, max, avoid, sub, n - 1) + by_forms(
            current,
            max,
            avoid,
            rule,
            sub,
            forms(rule, sub),
        )
    }
}

/// The admissible steps on the first `n` subformulas.
pub open spec fn disguises_upto(current: Prop, max: nat, avoid: Seq<Prop>, n: int) -> Seq<Disguise>
    decreases n,
{
    if n <= 0 {
        seq![]
    } else {
        disguises_upto(current, max, avoid, n - 1) + by_rules(
            current,
            max,
            avoid,
            subformula_seq(current)[n - 1],
            all_equivalence_rules().len() as int,
        )
    }
}

/// The admissible steps from a formula.
pub open spec fn disguises(current: Prop, max: nat, avoid: Seq<Prop>) -> Seq<Disguise> {
    disguises_upto(current, max, avoid, subformula_seq(current).len() as int)
}

/// A formula in its costume: what it has become, by which steps, and through which
/// formulas, the first one included.
pub struct Costume {
    pub formula: Prop,
    pub trace: Seq<Disguise>,
    pub stages: Seq<Prop>,
}

/// A formula without a costume.
pub open spec fn plain(f: Prop) -> Costume {
    Costume { formula: f, trace: seq![], stages: seq![f] }
}

/// A costume after so many more passes, each of which takes a step if there is one that
/// leads to none of the formulas to be avoided and not back to an earlier stage.
pub open spec fn worn(c: Costume, max: nat, avoid: Seq<Prop>, passes: nat, held: Seq<u32>) -> (
    Costume,
    Seq<u32>,
)
    decreases passes,
{
    if passes == 0 {
        (c, held)
    } else {
        let all = disguises(c.formula, max, avoid + c.stages);
        if all.len() == 0 {
            worn(c, max, avoid, (passes - 1) as nat, held)
        } else {
            let (i, h1) = index_drawn(held, all.len() as int);
            let x = all[i];
            let next = Costume {
                formula: x.next,
                trace: c.trace.push(x),
                stages: c.stages.push(x.next),
            };
            worn(next, max, avoid, (passes - 1) as nat, h1)
        }
    }
}

/// A formula disguised by at most so many steps, and what the dice hold afterwards.
pub open spec fn disguised(f: Prop, most: u8, max: nat, avoid: Seq<Prop>, held: Seq<u32>) -> (
    Costume,
    Seq<u32>,
) {
    let (n, h1) = passes_drawn(held, most);
    worn(plain(f), max, avoid, n, h1)
}

/// The formulas of some rows.
pub open spec fn row_formulas(rows: Seq<Row>) -> Seq<Prop> {
    Seq::new(rows.len(), |i: int| rows[i].formula)
}

/// The formulas of the lines after the premises.
pub open spec fn body(d: Draft) -> Seq<Prop> {
    row_formulas(d.rows.skip(d.premises.len() as int))
}

/// The costumes of the first `n` premises, all formulas that they passed through, and
/// what the dice hold afterwards. A costume avoids the premises to come, the conclusion,
/// what the earlier ones passed through, and the lines after the premises.
pub open spec fn dressed_upto(d: Draft, most: u8, max: nat, n: int, held: Seq<u32>) -> (
    Seq<Costume>,
    Seq<Prop>,
    Seq<u32>,
)
    decreases n,
{
    if n <= 0 {
        (seq![], seq![], held)
    } else {
        let (costumes, stages, h1) = dressed_upto(d, most, max, n - 1, held);
        let avoid = d.premises.skip(n) + seq![d.conclusion] + stages + body(d);
        let (c, h2) = disguised(d.premises[n - 1], most, max, avoid, h1);
        (costumes.push(c), stages + c.stages, h2)
    }
}

/// The formulas in their costumes.
pub open spec fn looks(costumes: Seq<Costume>) -> Seq<Prop> {
    Seq::new(costumes.len(), |i: int| costumes[i].formula)
}

/// A proof in which the first `k` steps of a disguise are undone, the last one first,
/// from the formula `current` at `line`; and the line where that ends.
pub open spec fn undone(d: Draft, trace: Seq<Disguise>, k: int, current: Prop, line: int) -> (
    Draft,
    int,
)
    decreases k,
{
    if k <= 0 {
        (d, line)
    } else {
        let x = trace[k - 1];
        let next = replace_all(current, x.after, x.before);
        let d1 = with_line(d, next, Reason::Equivalence(x.rule, line));
        undone(d1, trace, k - 1, next, d1.rows.len() as int)
    }
}

/// A proof in which the costumes of the first `n` premises are undone, and the lines
/// where each of them ends.
pub open spec fn prologue(d: Draft, costumes: Seq<Costume>, n: int) -> (Draft, Seq<int>)
    decreases n,
{
    if n <= 0 {
        (d, seq![])
    } else {
        let (d1, ends) = prologue(d, costumes, n - 1);
        let c = costumes[n - 1];
        let (d2, line) = undone(d1, c.trace, c.trace.len() as int, c.formula, n);
        (d2, ends.push(line))
    }
}

/// The new numbers of the lines: premises are found where their costumes are undone, and
/// all other lines are shifted.
pub open spec fn shifted(ends: Seq<int>, shift: int) -> spec_fn(int) -> int {
    |i: int|
        if 1 <= i <= ends.len() {
            ends[i - 1]
        } else if i <= 0 {
            0
        } else {
            i + shift
        }
}

/// A proof in which the lines after the premises, up to line `n` of `old_draft`, are
/// written down anew.
pub open spec fn replayed_upto(d: Draft, old_draft: Draft, number: spec_fn(int) -> int, n: int) -> Draft
    decreases n - old_draft.premises.len(),
{
    if n <= old_draft.premises.len() {
        d
    } else {
        let row = old_draft.rows[n - 1];
        replayed(
            replayed_upto(d, old_draft, number, n - 1),
            Entry { formula: row.formula, reason: row.reason },
            number,
        )
    }
}

/// A proof in which the steps of a disguise from position `k` on are taken, from the
/// formula `current` at `line`.
pub open spec fn redone(d: Draft, trace: Seq<Disguise>, k: int, current: Prop, line: int) -> Draft
    decreases trace.len() - k,
{
    if k < 0 || k >= trace.len() {
        d
    } else {
        let x = trace[k];
        let next = replace_all(current, x.before, x.after);
        let d1 = with_line(d, next, Reason::Equivalence(x.rule, line));
        redone(d1, trace, k + 1, next, d1.rows.len() as int)
    }
}

/// A proof around which costumes are put.
pub open spec fn dressed(d: Draft, costumes: Seq<Costume>, last: Costume) -> Draft {
    let (d1, ends) = prologue(
        drafted(looks(costumes), last.formula),
        costumes,
        costumes.len() as int,
    );
    let number = shifted(ends, d1.rows.len() - costumes.len());
    let d2 = replayed_upto(d1, d, number, d.rows.len() as int);
    redone(d2, last.trace, 0, d.conclusion, number(d.rows.len() as int))
}

/// A proof in costume, and what the dice hold afterwards.
pub open spec fn costumed(d: Draft, most: u8, max: nat, held: Seq<u32>) -> (Draft, Seq<u32>) {
    let (costumes, stages, h1) = dressed_upto(d, most, max, d.premises.len() as int, held);
    let (last, h2) = disguised(d.conclusion, most, max, stages + body(d), h1);
    (dressed(d, costumes, last), h2)
}

/// A step of a disguise.
#[derive(Debug)]
pub struct RewriteStep {
    pub rule: EquivalenceRule,
    pub before: Formula,
    pub after: Formula,
    pub next: Formula,
}

impl View for RewriteStep {
    type V = Disguise;

    open spec fn view(&self) -> Disguise {
        Disguise {
            rule: self.rule,
            before: self.before@,
            after: self.after@,
            next: self.next@,
        }
    }
}

/// The models of a list of steps.
pub open spec fn step_views(s: Seq<RewriteStep>) -> Seq<Disguise> {
    Seq::new(s.len(), |i: int| s[i]@)
}

/// Appends the admissible steps by one rule on one subformula.
fn push_steps(
    out: &mut Vec<RewriteStep>,
    current: &Formula,
    spec: &PlantSpec,
    avoid: &Vec<Formula>,
    rule: EquivalenceRule,
    sub: &Formula,
)
    ensures
        step_views(final(out)@) == step_views(old(out)@) + by_forms(
            current@,
            spec.max_formula_len as nat,
            views(avoid@),
            rule,
            sub@,
            forms(rule, sub@),
        ),
{
    let ghost max = spec.max_formula_len as nat;
    let ghost av = views(avoid@);
    let ghost start = step_views(out@);
    let fs = rule.equivalent_forms(sub);
    let ghost all = views(fs@);
    let mut i: usize = 0;
    assert(all.take(0) =~= seq![]);
    assert(start + by_forms(current@, max, av, rule, sub@, all.take(0)) =~= start);
    while i < fs.len()
        invariant
            i <= fs@.len(),
            max == spec.max_formula_len as nat,
            av == views(avoid@),
            all == views(fs@),
            step_views(out@) == start + by_forms(
                current@,
                max,
                av,
                rule,
                sub@,
                all.take(i as int),
            ),
        decreases fs@.len() - i,
    {
        let ghost t = all.take(i as int + 1);
        assert(t.drop_last() =~= all.take(i as int));
        assert(t.last() == fs@[i as int]@);
        let form = &fs[i];
        if !form.same(sub) {
            let next = EquivalenceRule::replace_subformula(current, sub, form);
            if within_len(&next, spec) && !contains(avoid, &next) && contains(
                &rule.equivalent_forms(form),
                sub,
            ) && EquivalenceRule::replace_subformula(&next, form, sub).same(current) {
                let ghost before = out@;
                let x = RewriteStep { rule, before: sub.clone(), after: form.clone(), next };
                out.push(x);
                assert(step_views(out@) =~= step_views(before).push(x@));
                assert(step_views(out@) =~= start + by_forms(current@, max, av, rule, sub@, t));
            }
        }
        i = i + 1;
    }
    assert(all.take(all.len() as int) =~= all);
}

/// The admissible steps from a formula.
pub fn admissible_rewrite_steps(current: &Formula, spec: &PlantSpec, avoid: &Vec<Formula>) -> (r:
    Vec<RewriteStep>)
    ensures
        step_views(r@) == disguises(current@, spec.max_formula_len as nat, views(avoid@)),
{
    let ghost max = spec.max_formula_len as nat;
    let ghost av = views(avoid@);
    let subs = current.subformulas();
    let rules = EquivalenceRule::all();
    let mut out: Vec<RewriteStep> = Vec::new();
    let mut i: usize = 0;
    assert(step_views(out@) =~= seq![]);
    while i < subs.len()
        invariant
            i <= subs@.len(),
            max == spec.max_formula_len as nat,
            av == views(avoid@),
            views(subs@) == subformula_seq(current@),
            rules@ == all_equivalence_rules(),
            step_views(out@) == disguises_upto(current@, max, av, i as int),
        decreases subs@.len() - i,
    {
        let ghost start = step_views(out@);
        let ghost sub = subs@[i as int]@;
        assert(views(subs@)[i as int] == sub);
        let mut r: usize = 0;
        assert(step_views(out@) =~= start + by_rules(current@, max, av, sub, 0));
        while r < rules.len()
            invariant
                r <= rules@.len(),
                i < subs@.len(),
                max == spec.max_formula_len as nat,
                av == views(avoid@),
                sub == subs@[i as int]@,
                rules@ == all_equivalence_rules(),
                step_views(out@) == start + by_rules(current@, max, av, sub, r as int),
            decreases rules@.len() - r,
        {
            push_steps(&mut out, current, spec, avoid, rules[r], &subs[i]);
            assert(step_views(out@) =~= start + by_rules(current@, max, av, sub, r as int + 1));
            r = r + 1;
        }
        i = i + 1;
    }
    out
}

/// A formula in its costume.
pub struct Dress {
    pub formula: Formula,
    pub trace: Vec<RewriteStep>,
    pub stages: Vec<Formula>,
}

impl View for Dress {
    type V = Costume;

    open spec fn view(&self) -> Costume {
        Costume {
            formula: self.formula@,
            trace: step_views(self.trace@),
            stages: views(self.stages@),
        }
    }
}

/// The models of a list of costumes.
pub open spec fn dress_views(s: Seq<Dress>) -> Seq<Costume> {
    Seq::new(s.len(), |i: int| s[i]@)
}

/// Appends copies of formulas.
fn append_copies(out: &mut Vec<Formula>, more: &[Formula])
    ensures
        views(final(out)@) == views(old(out)@) + views(more@),
{
    broadcast use lemma_views_add;

    let mut copies = copy_formulas(more);
    out.append(&mut copies);
}

/// A formula disguised by at most so many steps.
pub fn obfuscate_with_trace(
    f: &Formula,
    passes: u8,
    dice: &mut Dice,
    spec: &PlantSpec,
    avoid: &Vec<Formula>,
) -> (r: Dress)
    requires
        passes > 0,
    ensures
        (r@, final(dice)@) == disguised(
            f@,
            passes,
            spec.max_formula_len as nat,
            views(avoid@),
            old(dice)@,
        ),
{
    let ghost max = spec.max_formula_len as nat;
    let ghost av = views(avoid@);
    let mut left = dice.passes(passes);
    let mut stages: Vec<Formula> = Vec::new();
    stages.push(f.clone());
    let mut dress = Dress { formula: f.clone(), trace: Vec::new(), stages };
    assert(dress@.trace =~= plain(f@).trace);
    assert(dress@.stages =~= plain(f@).stages);
    let ghost whole = worn(plain(f@), max, av, left as nat, dice@);
    while left > 0
        invariant
            max == spec.max_formula_len as nat,
            av == views(avoid@),
            whole == worn(dress@, max, av, left as nat, dice@),
        decreases left,
    {
        let mut local = copy_formulas(avoid);
        append_copies(&mut local, &dress.stages);
        let mut cands = admissible_rewrite_steps(&dress.formula, spec, &local);
        if cands.len() > 0 {
            let chosen = dice.index(cands.len());
            let ghost before = dress@;
            let ghost x = cands@[chosen as int]@;
            assert(step_views(cands@)[chosen as int] == x);
            let step = cands.swap_remove(chosen);
            assert(step@ == x);
            let next = step.next.clone();
            dress.stages.push(next.clone());
            dress.trace.push(step);
            dress.formula = next;
            assert(dress@.stages =~= before.stages.push(x.next));
            assert(dress@.trace =~= before.trace.push(x));
        }
        left = left - 1;
    }
    dress
}

/// The formulas of the lines after the premises.
fn body_formulas(p: &Proof, premises: usize) -> (r: Vec<Formula>)
    requires
        premises == p@.premises.len(),
        premises <= p.lines@.len(),
    ensures
        views(r@) == body(p@),
{
    let ghost all = body(p@);
    let mut r: Vec<Formula> = Vec::new();
    let mut i: usize = premises;
    assert(views(r@) =~= all.take(0));
    while i < p.lines.len()
        invariant
            premises <= i <= p.lines@.len(),
            premises == p@.premises.len(),
            all == body(p@),
            views(r@) == all.take(i - premises),
        decreases p.lines@.len() - i,
    {
        broadcast use lemma_views_push;

        assert(all[i - premises] == p.lines@[i as int].formula@);
        assert(all.take(i - premises + 1) =~= all.take(i - premises).push(all[i - premises]));
        r.push(p.lines[i].formula.clone());
        i = i + 1;
    }
    assert(all.take(all.len() as int) =~= all);
    r
}

/// The costumes of the premises, and all formulas that they passed through.
fn dress_premises(
    p: &Proof,
    body_lines: &Vec<Formula>,
    spec: &PlantSpec,
    dice: &mut Dice,
) -> (r: (Vec<Dress>, Vec<Formula>))
    requires
        spec.obfuscation_passes > 0,
        views(body_lines@) == body(p@),
    ensures
        (dress_views(r.0@), views(r.1@), final(dice)@) == dressed_upto(
            p@,
            spec.obfuscation_passes,
            spec.max_formula_len as nat,
            p@.premises.len() as int,
            old(dice)@,
        ),
{
    let ghost start = dice@;
    let ghost d = p@;
    let ghost max = spec.max_formula_len as nat;
    let n = p.theorem.premises.len();
    let mut dresses: Vec<Dress> = Vec::new();
    let mut stages: Vec<Formula> = Vec::new();
    let mut i: usize = 0;
    assert(dress_views(dresses@) =~= seq![]);
    assert(views(stages@) =~= seq![]);
    while i < n
        invariant
            i <= n,
            d == p@,
            n == d.premises.len(),
            n == p.theorem.premises@.len(),
            max == spec.max_formula_len as nat,
            spec.obfuscation_passes > 0,
            views(body_lines@) == body(d),
            (dress_views(dresses@), views(stages@), dice@) == dressed_upto(
                d,
                spec.obfuscation_passes,
                max,
                i as int,
                start,
            ),
        decreases n - i,
    {
        broadcast use lemma_views_push;

        let mut avoid: Vec<Formula> = Vec::new();
        let mut k: usize = i + 1;
        assert(views(avoid@) =~= d.premises.skip(i + 1).take(0));
        while k < n
            invariant
                i + 1 <= k <= n,
                d == p@,
                n == d.premises.len(),
                n == p.theorem.premises@.len(),
                views(avoid@) == d.premises.skip(i + 1).take(k - i - 1),
            decreases n - k,
        {
            broadcast use lemma_views_push;

            assert(d.premises.skip(i + 1).take(k - i) =~= d.premises.skip(i + 1).take(
                k - i - 1,
            ).push(p.theorem.premises@[k as int]@));
            avoid.push(p.theorem.premises[k].clone());
            k = k + 1;
        }
        assert(d.premises.skip(i + 1).take(n - i - 1) =~= d.premises.skip(i + 1));
        avoid.push(p.theorem.conclusion.clone());
        append_copies(&mut avoid, &stages);
        append_copies(&mut avoid, body_lines);
        assert(views(avoid@) =~= d.premises.skip(i + 1) + seq![d.conclusion] + views(stages@)
            + body(d));
        let dress = obfuscate_with_trace(
            &p.theorem.premises[i],
            spec.obfuscation_passes,
            dice,
            spec,
            &avoid,
        );
        append_copies(&mut stages, &dress.stages);
        let ghost before = dresses@;
        dresses.push(dress);
        assert(dress_views(dresses@) =~= dress_views(before).push(dress@));
        i = i + 1;
    }
    (dresses, stages)
}

/// Undoes a disguise, from the formula at `line`, and gives back the line where that
/// ends.
fn undo_costume(p: &mut Proof, dress: &Dress, line: usize) -> (r: usize)
    ensures
        (final(p)@, r as int) == undone(
            old(p)@,
            dress@.trace,
            dress@.trace.len() as int,
            dress@.formula,
            line as int,
        ),
        final(p).theorem == old(p).theorem,
{
    let ghost trace = dress@.trace;
    let ghost whole = undone(p@, trace, trace.len() as int, dress@.formula, line as int);
    let ghost theorem = p.theorem;
    let mut current = dress.formula.clone();
    let mut at = line;
    let mut k: usize = dress.trace.len();
    while k > 0
        invariant
            k <= dress.trace@.len(),
            trace == dress@.trace,
            p.theorem == theorem,
            whole == undone(p@, trace, k as int, current@, at as int),
        decreases k,
    {
        k = k - 1;
        let x = &dress.trace[k];
        assert(trace[k as int] == x@);
        current = EquivalenceRule::replace_subformula(&current, &x.after, &x.before);
        p.add_line(current.clone(), Justification::Equivalence { rule: x.rule, line: at });
        at = p.lines.len();
    }
    at
}

/// Takes the steps of a disguise, from the formula `f` at `line`.
fn redo_costume(p: &mut Proof, dress: &Dress, f: &Formula, line: usize)
    ensures
        final(p)@ == redone(old(p)@, dress@.trace, 0, f@, line as int),
        final(p).theorem == old(p).theorem,
{
    let ghost trace = dress@.trace;
    let ghost whole = redone(p@, trace, 0, f@, line as int);
    let ghost theorem = p.theorem;
    let mut current = f.clone();
    let mut at = line;
    let mut k: usize = 0;
    while k < dress.trace.len()
        invariant
            k <= dress.trace@.len(),
            trace == dress@.trace,
            p.theorem == theorem,
            whole == redone(p@, trace, k as int, current@, at as int),
        decreases dress.trace@.len() - k,
    {
        let x = &dress.trace[k];
        assert(trace[k as int] == x@);
        current = EquivalenceRule::replace_subformula(&current, &x.before, &x.after);
        p.add_line(current.clone(), Justification::Equivalence { rule: x.rule, line: at });
        at = p.lines.len();
        k = k + 1;
    }
}

/// A proof around which costumes are put.
fn dress_proof(p: &Proof, dresses: &Vec<Dress>, last: &Dress) -> (r: Proof)
    requires
        finished(p@),
        dresses@.len() == p@.premises.len(),
        forall|i: int|
            0 <= i < dresses@.len() ==> sewn(dress_views(dresses@)[i], #[trigger] p@.premises[i]),
    ensures
        r@ == dressed(p@, dress_views(dresses@), last@),
        r.theorem.id@ == ""@,
        r.theorem.difficulty == p.theorem.difficulty,
        r.theorem.difficulty_value == p.theorem.difficulty.spec_value(),
        r.theorem.tier is None,
        r.theorem.theme == p.theorem.theme,
        r.theorem.name == p.theorem.name,
        !r.theorem.is_classic,
{
    let ghost d = p@;
    let ghost costumes = dress_views(dresses@);
    let premises = dresses.len();
    let mut formulas: Vec<Formula> = Vec::new();
    let mut i: usize = 0;
    assert(views(formulas@) =~= looks(costumes).take(0));
    while i < premises
        invariant
            i <= premises,
            premises == dresses@.len(),
            costumes == dress_views(dresses@),
            views(formulas@) == looks(costumes).take(i as int),
        decreases premises - i,
    {
        broadcast use lemma_views_push;

        assert(looks(costumes).take(i as int + 1) =~= looks(costumes).take(i as int).push(
            dresses@[i as int].formula@,
        ));
        formulas.push(dresses[i].formula.clone());
        i = i + 1;
    }
    assert(looks(costumes).take(premises as int) =~= looks(costumes));
    let theorem = Theorem::new(
        formulas,
        last.formula.clone(),
        p.theorem.difficulty,
        p.theorem.theme.clone(),
        p.theorem.name.clone(),
    );
    let mut q = Proof::new(theorem);
    let ghost made = q.theorem;
    let ghost d0 = q@;
    let mut numbers: Vec<usize> = Vec::new();
    numbers.push(0);
    let mut k: usize = 0;
    while k < premises
        invariant
            k <= premises,
            premises == dresses@.len(),
            costumes == dress_views(dresses@),
            q.theorem == made,
            numbers@.len() == k + 1,
            numbers@[0] == 0,
            q@ == prologue(d0, costumes, k as int).0,
            prologue(d0, costumes, k as int).1.len() == k,
            forall|j: int|
                0 <= j < k ==> #[trigger] numbers@[j + 1] == prologue(
                    d0,
                    costumes,
                    k as int,
                ).1[j],
        decreases premises - k,
    {
        assert(costumes[k as int] == dresses@[k as int]@);
        let line = undo_costume(&mut q, &dresses[k], k + 1);
        numbers.push(line);
        k = k + 1;
    }
    let ghost d1 = q@;
    let ghost ends = prologue(d0, costumes, premises as int).1;
    let ghost shift = d1.rows.len() - premises;
    let ghost number = shifted(ends, shift);
    proof {
        assert forall|i: int| 0 <= i < costumes.len() implies sewn(
            #[trigger] costumes[i],
            d.premises[i],
        ) by {
            assert(sewn(dress_views(dresses@)[i], p@.premises[i]));
        }
        lemma_prologue(d.premises, costumes, last@.formula, premises as int);
        lemma_finished_verified(d);
        assert forall|j: int| 0 <= j < numbers@.len() implies #[trigger] numbers@[j] == number(j) by {
            if j > 0 {
                assert(numbers@[j - 1 + 1] == ends[j - 1]);
            }
        }
    }
    let mut n: usize = premises;
    while n < p.lines.len()
        invariant
            premises <= n <= p.lines@.len(),
            d == p@,
            finished(d),
            verified(d),
            premises == d.premises.len(),
            d1.spans.len() == 0,
            ends.len() == premises,
            d1.rows.len() >= premises,
            shift == d1.rows.len() - premises,
            number == shifted(ends, shift),
            q.theorem == made,
            q@ == replayed_upto(d1, d, number, n as int),
            numbers@.len() == n + 1,
            forall|j: int| 0 <= j < numbers@.len() ==> #[trigger] numbers@[j] == number(j),
        decreases p.lines@.len() - n,
    {
        let line = &p.lines[n];
        assert(d.rows[n as int] == line@);
        proof {
            assert(fault_at(d, n as int + 1) is None);
            assert forall|i: int| 0 <= i < referenced(line.justification@).len() implies 0
                <= #[trigger] referenced(line.justification@)[i] < numbers@.len() by {
                assert(referenced(d.rows[n as int].reason).contains(
                    referenced(line.justification@)[i],
                ));
                lemma_refers_back(d, n as int + 1, referenced(line.justification@)[i]);
            }
            lemma_replayed(d, d1, ends, n as int + 1);
        }
        replay(&mut q, &line.formula, &line.justification, &numbers, Ghost(number));
        n = n + 1;
        let at = q.lines.len();
        numbers.push(at);
        assert(number(n as int) == n + shift);
    }
    redo_costume(&mut q, last, &p.theorem.conclusion, numbers[n]);
    q
}

/// A proof in costume.
pub fn apply_costume_pass(p: &Proof, spec: &PlantSpec, dice: &mut Dice) -> (r: Proof)
    requires
        finished(p@),
        spec.obfuscation_passes > 0,
    ensures
        (r@, final(dice)@) == costumed(
            p@,
            spec.obfuscation_passes,
            spec.max_formula_len as nat,
            old(dice)@,
        ),
        r.theorem.id@ == ""@,
        r.theorem.difficulty == p.theorem.difficulty,
        r.theorem.difficulty_value == p.theorem.difficulty.spec_value(),
        r.theorem.tier is None,
        r.theorem.theme == p.theorem.theme,
        r.theorem.name == p.theorem.name,
        !r.theorem.is_classic,
{
    let ghost d = p@;
    let ghost start = dice@;
    let body_lines = body_formulas(p, p.theorem.premises.len());
    let (dresses, stages) = dress_premises(p, &body_lines, spec, dice);
    let mut avoid = copy_formulas(&stages);
    append_copies(&mut avoid, &body_lines);
    let last = obfuscate_with_trace(
        &p.theorem.conclusion,
        spec.obfuscation_passes,
        dice,
        spec,
        &avoid,
    );
    proof {
        lemma_dressed_sewn(
            d,
            spec.obfuscation_passes,
            spec.max_formula_len as nat,
            d.premises.len() as int,
            start,
        );
        assert forall|i: int| 0 <= i < dresses@.len() implies sewn(
            dress_views(dresses@)[i],
            #[trigger] p@.premises[i],
        ) by {
            let c = dress_views(dresses@)[i];
            assert(sewn(c, d.premises[i]));
        }
    }
    dress_proof(p, &dresses, &last)
}

} // verus!
