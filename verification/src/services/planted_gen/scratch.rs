//! The derivation in the making.

use vstd::prelude::*;

use super::growth::{
    added_upto, assumed, at, choices, combo_weight, conditionally_proved, conj_template,
    discharged, disj_template, fits, grown, grown_by, grown_to, in_reach, indirectly_proved,
    inferred, known, led_by, offer_weights, offered_upto, offers, reach_weights, reachable,
    rewritten, rolled, sifted, stepped, used_more, with_entry, EQUIVALENCE_SHARE, SUBPROOF_SHARE,
};
use super::growth::{Entry, Growth, Offer, Soil, Template};
use super::sampling::{sample_literal, sample_small_formula};
use super::tending::{
    ascending, extends, lemma_assumed, lemma_choices, lemma_extends_trans, lemma_grown,
    lemma_grown_by, lemma_inferred, lemma_offers, lemma_reachable, lemma_refuted, lemma_rewritten,
    lemma_rolled, lemma_with_entry, offer_sound, steady,
};
use super::weights::{
    line_weight, summable, weigh_line, weighted_pick_index, weighted_pick_rule, weights,
    WEIGHT_LIMIT,
};
use crate::models::formula::{
    and_of, implies_of, name_views, not_of, or_of, subformula_seq, views,
};
use crate::models::formula::{Formula, Prop};
use crate::models::lists::{copy_positions, lemma_in_pushed, positions};
use crate::models::proofs::{referenced, Justification, Reason};
use crate::models::rules::equivalence::EquivalenceRule;
use crate::models::rules::inference::{premise_count, ref_views, InferenceRule};
use crate::models::rules::technique::ProofTechnique;
use crate::models::scopes::{accessible, lemma_last_open, starting_before, Scopes, Span};
use crate::services::dice::Dice;
use crate::services::planted_gen::candidate::PlantSpec;

verus! {

/// A line of a derivation.
#[derive(Debug)]
pub struct ScratchLine {
    pub formula: Formula,
    pub justification: Justification,
}

impl View for ScratchLine {
    type V = Entry;

    open spec fn view(&self) -> Entry {
        Entry { formula: self.formula@, reason: self.justification@ }
    }
}

/// The models of a list of lines.
pub open spec fn entries(s: Seq<ScratchLine>) -> Seq<Entry> {
    Seq::new(s.len(), |i: int| s[i]@)
}

/// A derivation in the making, with the dice that it is grown by.
pub struct Scratch {
    pub lines: Vec<ScratchLine>,
    pub consumed: Vec<usize>,
    pub scopes: Scopes,
    pub dice: Dice,
}

impl View for Scratch {
    type V = Growth;

    open spec fn view(&self) -> Growth {
        Growth {
            lines: entries(self.lines@),
            used: positions(self.consumed@),
            spans: self.scopes@,
            held: self.dice@,
        }
    }
}

/// What formulas are made of, and how long they may be.
pub open spec fn soil_of(atoms: Seq<String>, spec: PlantSpec) -> Soil {
    Soil { atoms: name_views(atoms), max_len: spec.max_formula_len as nat }
}

/// The models of a list of lists of positions.
pub open spec fn lists_of(s: Seq<Vec<usize>>) -> Seq<Seq<int>> {
    Seq::new(s.len(), |i: int| positions(s[i]@))
}

/// All ways to choose `k` of the items from a position on, in order.
pub fn combinations(items: &Vec<usize>, k: usize, from: usize) -> (r: Vec<Vec<usize>>)
    requires
        from <= items@.len(),
    ensures
        lists_of(r@) == choices(positions(items@), k as nat, from as int),
    decreases items@.len() - from,
{
    let ghost ps = positions(items@);
    let mut r: Vec<Vec<usize>> = Vec::new();
    if k == 0 {
        let none: Vec<usize> = Vec::new();
        assert(positions(none@) =~= Seq::<int>::empty());
        r.push(none);
        assert(lists_of(r@) =~= seq![Seq::<int>::empty()]);
        return r;
    }
    if from >= items.len() {
        assert(lists_of(r@) =~= Seq::<Seq<int>>::empty());
        return r;
    }
    let inner = combinations(items, k - 1, from + 1);
    let ghost led = led_by(ps[from as int], lists_of(inner@));
    let mut i: usize = 0;
    assert(lists_of(r@) =~= led.take(0));
    while i < inner.len()
        invariant
            i <= inner@.len(),
            from < items@.len(),
            ps == positions(items@),
            led == led_by(ps[from as int], lists_of(inner@)),
            lists_of(r@) == led.take(i as int),
        decreases inner@.len() - i,
    {
        let mut c: Vec<usize> = Vec::new();
        c.push(items[from]);
        let mut tail = copy_positions(&inner[i]);
        c.append(&mut tail);
        assert(positions(c@) =~= seq![ps[from as int]] + positions(inner@[i as int]@));
        let ghost before = r@;
        r.push(c);
        assert(lists_of(r@) =~= lists_of(before).push(positions(c@)));
        assert(led.take(i as int + 1) =~= led.take(i as int).push(led[i as int]));
        i = i + 1;
    }
    assert(led.take(led.len() as int) =~= led);
    let mut rest = combinations(items, k, from + 1);
    let ghost before = r@;
    let ghost more = rest@;
    r.append(&mut rest);
    assert(lists_of(r@) =~= lists_of(before) + lists_of(more));
    r
}

/// A formula that an inference may add, and the lines that it follows from.
pub struct Candidate {
    pub combo: Vec<usize>,
    pub conclusion: Formula,
}

impl View for Candidate {
    type V = Offer;

    open spec fn view(&self) -> Offer {
        Offer { combo: positions(self.combo@), conclusion: self.conclusion@ }
    }
}

/// The models of a list of candidates.
pub open spec fn offer_views(s: Seq<Candidate>) -> Seq<Offer> {
    Seq::new(s.len(), |i: int| s[i]@)
}

/// Whether the text of a formula is short enough.
pub fn within_len(f: &Formula, spec: &PlantSpec) -> (r: bool)
    ensures
        r == fits(f@, spec.max_formula_len as nat),
{
    f.spend(spec.max_formula_len).is_some()
}

impl Scratch {
    /// A derivation that holds the premises alone.
    pub fn new(premises: Vec<Formula>, dice: Dice) -> (r: Scratch)
        ensures
            r@ == (Growth {
                lines: Seq::new(
                    premises@.len(),
                    |i: int| Entry { formula: premises@[i]@, reason: Reason::Premise },
                ),
                used: Seq::new(premises@.len(), |i: int| 0int),
                spans: seq![],
                held: dice@,
            }),
    {
        let mut lines: Vec<ScratchLine> = Vec::new();
        let mut consumed: Vec<usize> = Vec::new();
        let mut i: usize = 0;
        while i < premises.len()
            invariant
                i <= premises@.len(),
                lines@.len() == i,
                consumed@.len() == i,
                forall|j: int|
                    0 <= j < i ==> (#[trigger] lines@[j])@ == (Entry {
                        formula: premises@[j]@,
                        reason: Reason::Premise,
                    }),
                forall|j: int| 0 <= j < i ==> #[trigger] consumed@[j] == 0,
            decreases premises@.len() - i,
        {
            lines.push(
                ScratchLine {
                    formula: premises[i].clone(),
                    justification: Justification::Premise,
                },
            );
            consumed.push(0);
            i = i + 1;
        }
        let r = Scratch { lines, consumed, scopes: Scopes::new(), dice };
        assert(r@.lines =~= Seq::new(
            premises@.len(),
            |i: int| Entry { formula: premises@[i]@, reason: Reason::Premise },
        ));
        assert(r@.used =~= Seq::new(premises@.len(), |i: int| 0int));
        r
    }

    /// The lines that the next line may cite.
    pub fn accessible_positions(&self) -> (r: Vec<usize>)
        ensures
            positions(r@) == in_reach(self@),
            forall|i: int| 0 <= i < r@.len() ==> 1 <= #[trigger] r@[i] <= self.lines@.len(),
            ascending(positions(r@)),
    {
        let n = self.lines.len();
        let mut r: Vec<usize> = Vec::new();
        let mut p: usize = 0;
        assert(positions(r@) =~= seq![]);
        while p < n
            invariant
                p <= n,
                n == self.lines@.len(),
                positions(r@) == reachable(self.scopes@, n as int, p as int),
            decreases n - p,
        {
            p = p + 1;
            if self.may_cite_next(p) {
                let ghost before = r@;
                r.push(p);
                assert(positions(r@) =~= positions(before).push(p as int));
            }
        }
        proof {
            lemma_reachable(self.scopes@, n as int, n as int);
            assert forall|i: int| 0 <= i < r@.len() implies 1 <= #[trigger] r@[i]
                <= self.lines@.len() by {
                assert(positions(r@)[i] == r@[i]);
            }
        }
        r
    }

    /// Whether the next line may cite line `p`.
    fn may_cite_next(&self, p: usize) -> (r: bool)
        requires
            p <= self.lines@.len(),
        ensures
            r == accessible(self.scopes@, self.lines@.len() as int + 1, p as int),
    {
        self.scopes.may_cite_after(self.lines.len(), p)
    }

    /// Whether a line has the formula.
    pub fn is_duplicate(&self, f: &Formula) -> (r: bool)
        ensures
            r == known(self@.lines).contains(f@),
    {
        let mut i: usize = 0;
        while i < self.lines.len()
            invariant
                i <= self.lines@.len(),
                forall|j: int| 0 <= j < i ==> (#[trigger] self.lines@[j]).formula@ != f@,
            decreases self.lines@.len() - i,
        {
            if self.lines[i].formula.same(f) {
                assert(known(self@.lines)[i as int] == f@);
                return true;
            }
            i = i + 1;
        }
        proof {
            if known(self@.lines).contains(f@) {
                let j = choose|j: int|
                    0 <= j < known(self@.lines).len() && known(self@.lines)[j] == f@;
                assert(self.lines@[j].formula@ == f@);
            }
        }
        false
    }

    /// Whether one of some lines has the formula.
    pub fn formula_duplicates_pool(&self, pool: &Vec<usize>, f: &Formula) -> (r: bool)
        requires
            forall|i: int| 0 <= i < pool@.len() ==> 1 <= #[trigger] pool@[i] <= self.lines@.len(),
        ensures
            r == at(self@.lines, positions(pool@)).contains(f@),
    {
        let ghost fs = at(self@.lines, positions(pool@));
        let mut i: usize = 0;
        while i < pool.len()
            invariant
                i <= pool@.len(),
                fs == at(self@.lines, positions(pool@)),
                forall|j: int|
                    0 <= j < pool@.len() ==> 1 <= #[trigger] pool@[j] <= self.lines@.len(),
                forall|j: int| 0 <= j < i ==> #[trigger] fs[j] != f@,
            decreases pool@.len() - i,
        {
            let p = pool[i];
            assert(fs[i as int] == self.lines@[p - 1].formula@);
            if self.lines[p - 1].formula.same(f) {
                return true;
            }
            i = i + 1;
        }
        false
    }

    /// Appends a line, and counts what it cites.
    pub fn push(&mut self, formula: Formula, justification: Justification)
        requires
            steady(old(self)@),
            ascending(referenced(justification@)),
            forall|i: int|
                0 <= i < referenced(justification@).len() ==> 1 <= #[trigger] referenced(
                    justification@,
                )[i] <= old(self).lines@.len(),
        ensures
            final(self)@ == with_entry(old(self)@, formula@, justification@),
            steady(final(self)@),
    {
        let ghost g = self@;
        let ghost refs = referenced(justification@);
        let ghost entry = Entry { formula: formula@, reason: justification@ };
        let cited = justification.referenced_lines();
        let ghost lines = self.lines@;
        self.lines.push(ScratchLine { formula, justification });
        assert(entries(self.lines@) =~= entries(lines).push(entry));
        let ghost counts = self.consumed@;
        self.consumed.push(0);
        let n = self.lines.len();
        let mut i: usize = 0;
        assert(positions(self.consumed@) =~= used_more(g.used, refs.take(0)).push(0));
        while i < cited.len()
            invariant
                i <= cited@.len(),
                steady(g),
                refs == positions(cited@),
                ascending(refs),
                forall|j: int| 0 <= j < refs.len() ==> 1 <= #[trigger] refs[j] < n,
                n == g.lines.len() + 1,
                self.lines@.len() == n,
                self@.lines == g.lines.push(entry),
                self@.spans == g.spans,
                self@.held == g.held,
                self.consumed@.len() == n,
                positions(self.consumed@) == used_more(g.used, refs.take(i as int)).push(0),
            decreases cited@.len() - i,
        {
            let p = cited[i];
            assert(refs[i as int] == p);
            assert(!refs.take(i as int).contains(p as int)) by {
                if refs.take(i as int).contains(p as int) {
                    let j = choose|j: int|
                        0 <= j < refs.take(i as int).len() && refs.take(i as int)[j] == p as int;
                    assert(refs[j] < refs[i as int]);
                }
            }
            assert(positions(self.consumed@)[p - 1] == g.used[p - 1]);
            let ghost before = self.consumed@;
            let c = self.consumed[p - 1];
            self.consumed.set(p - 1, c + 1);
            assert(refs.take(i as int + 1) =~= refs.take(i as int).push(p as int));
            assert(positions(self.consumed@) =~= used_more(
                g.used,
                refs.take(i as int + 1),
            ).push(0)) by {
                let more = used_more(g.used, refs.take(i as int + 1)).push(0);
                assert forall|j: int| 0 <= j < n implies positions(self.consumed@)[j]
                    == more[j] by {
                    lemma_in_pushed(refs.take(i as int), p as int, j + 1);
                    assert(positions(before)[j] == used_more(g.used, refs.take(i as int)).push(
                        0,
                    )[j]);
                }
            }
            i = i + 1;
        }
        assert(refs.take(refs.len() as int) =~= refs);
        proof {
            lemma_with_entry(g, formula@, justification@);
        }
    }

    /// How attractive some lines are.
    fn weigh_lines(&self, reach: &Vec<usize>) -> (r: Vec<u128>)
        requires
            steady(self@),
            forall|i: int| 0 <= i < reach@.len() ==> 1 <= #[trigger] reach@[i] <= self.lines@.len(),
        ensures
            weights(r@) == reach_weights(
                positions(reach@),
                self.lines@.len() as int,
                self@.used,
            ),
            r@.len() == reach@.len(),
            summable(r@),
    {
        let n = self.lines.len();
        let ghost all = reach_weights(positions(reach@), n as int, self@.used);
        let mut r: Vec<u128> = Vec::new();
        let mut i: usize = 0;
        while i < reach.len()
            invariant
                i <= reach@.len(),
                n == self.lines@.len(),
                steady(self@),
                all == reach_weights(positions(reach@), n as int, self@.used),
                forall|j: int|
                    0 <= j < reach@.len() ==> 1 <= #[trigger] reach@[j] <= self.lines@.len(),
                r@.len() == i,
                forall|j: int| 0 <= j < i ==> #[trigger] r@[j] == all[j],
                summable(r@),
            decreases reach@.len() - i,
        {
            let p = reach[i];
            assert(self@.used.len() == self.consumed@.len());
            r.push(weigh_line(p, n, self.consumed[p - 1]));
            assert(all[i as int] == line_weight(p as int, n as int, self@.used[p - 1]));
            i = i + 1;
        }
        assert(weights(r@) =~= all);
        r
    }

    /// How attractive a combination of lines is.
    fn weigh_combo(&self, combo: &Vec<usize>) -> (r: u128)
        requires
            steady(self@),
            combo@.len() <= 3,
            forall|i: int| 0 <= i < combo@.len() ==> 1 <= #[trigger] combo@[i] <= self.lines@.len(),
        ensures
            r == combo_weight(positions(combo@), self.lines@.len() as int, self@.used),
            r <= WEIGHT_LIMIT,
    {
        let n = self.lines.len();
        let ghost ps = positions(combo@);
        let mut r: u128 = 0;
        let mut i: usize = 0;
        assert(ps.take(0) =~= seq![]);
        while i < combo.len()
            invariant
                i <= combo@.len() <= 3,
                n == self.lines@.len(),
                steady(self@),
                ps == positions(combo@),
                forall|j: int|
                    0 <= j < combo@.len() ==> 1 <= #[trigger] combo@[j] <= self.lines@.len(),
                r == combo_weight(ps.take(i as int), n as int, self@.used),
                r <= 0x119_9999_9999 * i,
            decreases combo@.len() - i,
        {
            let p = combo[i];
            assert(self@.used.len() == self.consumed@.len());
            let w = weigh_line(p, n, self.consumed[p - 1]);
            let ghost t = ps.take(i as int + 1);
            assert(t.drop_last() =~= ps.take(i as int));
            assert(t.last() == p);
            r = r + w;
            i = i + 1;
        }
        assert(ps.take(ps.len() as int) =~= ps);
        r
    }

    /// How attractive the candidates are.
    fn weigh_candidates(&self, cands: &Vec<Candidate>) -> (r: Vec<u128>)
        requires
            steady(self@),
            forall|i: int| 0 <= i < cands@.len() ==> (#[trigger] cands@[i]).combo@.len() <= 3,
            forall|i: int, j: int|
                0 <= i < cands@.len() && 0 <= j < cands@[i].combo@.len() ==> 1
                    <= #[trigger] cands@[i].combo@[j] <= self.lines@.len(),
        ensures
            weights(r@) == offer_weights(
                offer_views(cands@),
                self.lines@.len() as int,
                self@.used,
            ),
            summable(r@),
    {
        let ghost all = offer_weights(offer_views(cands@), self.lines@.len() as int, self@.used);
        let mut r: Vec<u128> = Vec::new();
        let mut i: usize = 0;
        while i < cands.len()
            invariant
                i <= cands@.len(),
                steady(self@),
                all == offer_weights(
                    offer_views(cands@),
                    self.lines@.len() as int,
                    self@.used,
                ),
                forall|i: int| 0 <= i < cands@.len() ==> (#[trigger] cands@[i]).combo@.len() <= 3,
                forall|i: int, j: int|
                    0 <= i < cands@.len() && 0 <= j < cands@[i].combo@.len() ==> 1
                        <= #[trigger] cands@[i].combo@[j] <= self.lines@.len(),
                r@.len() == i,
                forall|j: int| 0 <= j < i ==> #[trigger] r@[j] == all[j],
                summable(r@),
            decreases cands@.len() - i,
        {
            r.push(self.weigh_combo(&cands[i].combo));
            i = i + 1;
        }
        assert(weights(r@) =~= all);
        r
    }

    /// Appends to `out` the conclusions that are new and short enough.
    fn sift(
        &self,
        out: &mut Vec<Candidate>,
        combo: &Vec<usize>,
        cs: &Vec<Formula>,
        spec: &PlantSpec,
    )
        ensures
            offer_views(final(out)@) == offer_views(old(out)@) + sifted(
                known(self@.lines),
                spec.max_formula_len as nat,
                positions(combo@),
                views(cs@),
            ),
    {
        let ghost max = spec.max_formula_len as nat;
        let ghost ps = positions(combo@);
        let ghost kn = known(self@.lines);
        let ghost start = offer_views(out@);
        let ghost all = views(cs@);
        let mut i: usize = 0;
        assert(all.take(0) =~= seq![]);
        assert(start + sifted(kn, max, ps, all.take(0)) =~= start);
        while i < cs.len()
            invariant
                i <= cs@.len(),
                max == spec.max_formula_len as nat,
                ps == positions(combo@),
                kn == known(self@.lines),
                all == views(cs@),
                offer_views(out@) == start + sifted(kn, max, ps, all.take(i as int)),
            decreases cs@.len() - i,
        {
            let ghost t = all.take(i as int + 1);
            assert(t.drop_last() =~= all.take(i as int));
            assert(t.last() == cs@[i as int]@);
            if !self.is_duplicate(&cs[i]) && within_len(&cs[i], spec) {
                let ghost before = out@;
                let c = Candidate { combo: copy_positions(combo), conclusion: cs[i].clone() };
                out.push(c);
                assert(offer_views(out@) =~= offer_views(before).push(c@));
                assert(offer_views(out@) =~= start + sifted(kn, max, ps, t));
            }
            i = i + 1;
        }
        assert(all.take(all.len() as int) =~= all);
    }

    /// The formulas of some lines.
    fn formulas_at<'a>(&'a self, combo: &Vec<usize>) -> (r: Vec<&'a Formula>)
        requires
            forall|i: int| 0 <= i < combo@.len() ==> 1 <= #[trigger] combo@[i] <= self.lines@.len(),
        ensures
            ref_views(r@) == at(self@.lines, positions(combo@)),
    {
        let ghost all = at(self@.lines, positions(combo@));
        let mut r: Vec<&'a Formula> = Vec::new();
        let mut i: usize = 0;
        while i < combo.len()
            invariant
                i <= combo@.len(),
                all == at(self@.lines, positions(combo@)),
                forall|j: int|
                    0 <= j < combo@.len() ==> 1 <= #[trigger] combo@[j] <= self.lines@.len(),
                r@.len() == i,
                forall|j: int| 0 <= j < i ==> (#[trigger] r@[j])@ == all[j],
            decreases combo@.len() - i,
        {
            let p = combo[i];
            r.push(&self.lines[p - 1].formula);
            assert(all[i as int] == self.lines@[p - 1].formula@);
            i = i + 1;
        }
        assert(ref_views(r@) =~= all);
        r
    }

    /// What a rule other than addition offers.
    fn combined_offers(&self, rule: InferenceRule, reach: &Vec<usize>, spec: &PlantSpec) -> (r: Vec<
        Candidate,
    >)
        requires
            forall|i: int| 0 <= i < reach@.len() ==> 1 <= #[trigger] reach@[i] <= self.lines@.len(),
            ascending(positions(reach@)),
        ensures
            offer_views(r@) == offered_upto(
                self@.lines,
                spec.max_formula_len as nat,
                rule,
                choices(positions(reach@), premise_count(rule), 0),
                choices(positions(reach@), premise_count(rule), 0).len() as int,
            ),
    {
        let ghost max = spec.max_formula_len as nat;
        let ghost items = positions(reach@);
        let combos = combinations(reach, rule.premise_count(), 0);
        let ghost all = choices(items, premise_count(rule), 0);
        let mut r: Vec<Candidate> = Vec::new();
        let mut i: usize = 0;
        assert(offer_views(r@) =~= seq![]);
        while i < combos.len()
            invariant
                i <= combos@.len(),
                max == spec.max_formula_len as nat,
                items == positions(reach@),
                ascending(items),
                forall|j: int|
                    0 <= j < reach@.len() ==> 1 <= #[trigger] reach@[j] <= self.lines@.len(),
                all == choices(items, premise_count(rule), 0),
                lists_of(combos@) == all,
                offer_views(r@) == offered_upto(self@.lines, max, rule, all, i as int),
            decreases combos@.len() - i,
        {
            let combo = &combos[i];
            assert(all[i as int] == positions(combo@));
            proof {
                assert(all.contains(all[i as int]));
                lemma_choices(items, premise_count(rule), 0, all[i as int]);
                assert forall|j: int| 0 <= j < combo@.len() implies 1 <= #[trigger] combo@[j]
                    <= self.lines@.len() by {
                    assert(positions(combo@)[j] == combo@[j]);
                    let m = choose|m: int|
                        0 <= m < items.len() && #[trigger] items[m] == all[i as int][j];
                    assert(reach@[m] == combo@[j]);
                }
            }
            let premises = self.formulas_at(combo);
            let cs = rule.all_conclusions(premises.as_slice(), None);
            self.sift(&mut r, combo, &cs, spec);
            i = i + 1;
        }
        r
    }

    /// What addition offers.
    fn added_offers(&mut self, reach: &Vec<usize>, spec: &PlantSpec, atoms: &Vec<String>) -> (r: Vec<
        Candidate,
    >)
        requires
            atoms@.len() > 0,
            forall|i: int|
                0 <= i < reach@.len() ==> 1 <= #[trigger] reach@[i] <= old(self).lines@.len(),
        ensures
            final(self)@ == rolled(old(self)@, final(self)@.held),
            (offer_views(r@), final(self)@.held) == added_upto(
                old(self)@.lines,
                soil_of(atoms@, *spec),
                positions(reach@),
                reach@.len() as int,
                old(self)@.held,
            ),
    {
        let ghost g = self@;
        let ghost soil = soil_of(atoms@, *spec);
        let ghost items = positions(reach@);
        let mut r: Vec<Candidate> = Vec::new();
        let mut i: usize = 0;
        assert(offer_views(r@) =~= seq![]);
        while i < reach.len()
            invariant
                i <= reach@.len(),
                atoms@.len() > 0,
                soil == soil_of(atoms@, *spec),
                items == positions(reach@),
                forall|j: int|
                    0 <= j < reach@.len() ==> 1 <= #[trigger] reach@[j] <= g.lines.len(),
                self@ == rolled(g, self@.held),
                (offer_views(r@), self@.held) == added_upto(
                    g.lines,
                    soil,
                    items,
                    i as int,
                    g.held,
                ),
            decreases reach@.len() - i,
        {
            let literal = sample_literal(&mut self.dice, atoms);
            let combo: Vec<usize> = vec![reach[i]];
            assert(positions(combo@) =~= seq![items[i as int]]);
            let premises = self.formulas_at(&combo);
            let cs = InferenceRule::Addition.all_conclusions(premises.as_slice(), Some(&literal));
            self.sift(&mut r, &combo, &cs, spec);
            i = i + 1;
        }
        r
    }

    /// What a rule offers.
    fn candidates(
        &mut self,
        rule: InferenceRule,
        reach: &Vec<usize>,
        spec: &PlantSpec,
        atoms: &Vec<String>,
    ) -> (r: Vec<Candidate>)
        requires
            atoms@.len() > 0,
            positions(reach@) == in_reach(old(self)@),
            forall|i: int|
                0 <= i < reach@.len() ==> 1 <= #[trigger] reach@[i] <= old(self).lines@.len(),
            ascending(positions(reach@)),
        ensures
            final(self)@ == rolled(old(self)@, final(self)@.held),
            (offer_views(r@), final(self)@.held) == offers(
                soil_of(atoms@, *spec),
                old(self)@,
                rule,
            ),
    {
        if rule == InferenceRule::Addition {
            self.added_offers(reach, spec, atoms)
        } else {
            self.combined_offers(rule, reach, spec)
        }
    }

    /// An attempt at an inference.
    pub fn try_inference_step(&mut self, spec: &PlantSpec, atoms: &Vec<String>)
        requires
            atoms@.len() > 0,
            steady(old(self)@),
        ensures
            final(self)@ == inferred(soil_of(atoms@, *spec), old(self)@),
            steady(final(self)@),
    {
        let ghost g = self@;
        let ghost soil = soil_of(atoms@, *spec);
        proof {
            lemma_inferred(soil, g);
        }
        let rule = weighted_pick_rule(&mut self.dice);
        let reach = self.accessible_positions();
        if rule.premise_count() > reach.len() {
            return ;
        }
        let ghost g1 = self@;
        let mut cands = self.candidates(rule, &reach, spec, atoms);
        let ghost all = offers(soil, g1, rule).0;
        if cands.len() == 0 {
            return ;
        }
        proof {
            assert forall|i: int| 0 <= i < cands@.len() implies offer_sound(
                soil,
                g1,
                rule,
                #[trigger] cands@[i]@,
            ) by {
                assert(offer_views(cands@)[i] == cands@[i]@);
                assert(all.contains(cands@[i]@));
                lemma_offers(soil, g1, rule, cands@[i]@);
            }
            lemma_reachable(g.spans, g.lines.len() as int, g.lines.len() as int);
            assert forall|i: int| 0 <= i < cands@.len() implies (#[trigger] cands@[i]).combo@.len()
                <= 3 by {
                assert(offer_sound(soil, g1, rule, cands@[i]@));
            }
            assert forall|i: int, j: int|
                0 <= i < cands@.len() && 0 <= j < cands@[i].combo@.len() implies 1
                <= #[trigger] cands@[i].combo@[j] <= self.lines@.len() by {
                assert(offer_sound(soil, g1, rule, cands@[i]@));
                assert(cands@[i]@.combo[j] == cands@[i].combo@[j]);
                assert(in_reach(g1).contains(cands@[i]@.combo[j]));
            }
        }
        let ws = self.weigh_candidates(&cands);
        let chosen = weighted_pick_index(&ws, &mut self.dice);
        let ghost picked = cands@[chosen as int]@;
        let c = cands.swap_remove(chosen);
        assert(c@ == picked);
        proof {
            assert(offer_sound(soil, g1, rule, picked));
            assert forall|i: int| 0 <= i < picked.combo.len() implies 1
                <= #[trigger] picked.combo[i] <= self.lines@.len() by {
                assert(in_reach(g1).contains(picked.combo[i]));
            }
        }
        self.push(c.conclusion, Justification::Inference { rule, lines: c.combo });
    }

    /// An attempt at an equivalence.
    pub fn try_equivalence_step(&mut self, spec: &PlantSpec, atoms: &Vec<String>)
        requires
            steady(old(self)@),
        ensures
            final(self)@ == rewritten(soil_of(atoms@, *spec), old(self)@),
            steady(final(self)@),
    {
        let ghost g = self@;
        let ghost soil = soil_of(atoms@, *spec);
        proof {
            lemma_rewritten(soil, g);
        }
        let reach = self.accessible_positions();
        if reach.len() == 0 {
            return ;
        }
        let ws = self.weigh_lines(&reach);
        let chosen = weighted_pick_index(&ws, &mut self.dice);
        let line = reach[chosen];
        assert(in_reach(g)[chosen as int] == line);
        let source = self.lines[line - 1].formula.clone();
        let subs = source.subformulas();
        proof {
            lemma_has_subformula(source@);
        }
        let j = self.dice.index(subs.len());
        assert(views(subs@)[j as int] == subs@[j as int]@);
        let rules = EquivalenceRule::all();
        let r = self.dice.index(rules.len());
        let rule = rules[r];
        let fs = rule.equivalent_forms(&subs[j]);
        if fs.len() == 0 {
            return ;
        }
        let k = self.dice.index(fs.len());
        assert(views(fs@)[k as int] == fs@[k as int]@);
        let result = EquivalenceRule::replace_subformula(&source, &subs[j], &fs[k]);
        if self.is_duplicate(&result) || !within_len(&result, spec) {
            return ;
        }
        self.push(result, Justification::Equivalence { rule, line });
    }

    /// An attempt at an inference or an equivalence.
    fn try_step(&mut self, spec: &PlantSpec, atoms: &Vec<String>)
        requires
            atoms@.len() > 0,
            steady(old(self)@),
        ensures
            final(self)@ == stepped(soil_of(atoms@, *spec), old(self)@),
            steady(final(self)@),
    {
        let k = self.dice.unit();
        if k < EQUIVALENCE_SHARE {
            self.try_equivalence_step(spec, atoms);
        } else {
            self.try_inference_step(spec, atoms);
        }
    }

    /// Opens a subproof with an assumption.
    fn assume_formula(&mut self, formula: Formula, technique: ProofTechnique) -> (r: usize)
        requires
            steady(old(self)@),
        ensures
            final(self)@ == assumed(old(self)@, formula@, technique),
            steady(final(self)@),
            r == final(self).lines@.len(),
    {
        let ghost g = self@;
        self.push(formula, Justification::Assumption { technique });
        let start = self.lines.len();
        self.scopes.open(start);
        proof {
            lemma_assumed(g, formula@, technique);
        }
        start
    }

    /// Discharges the innermost subproof, opened at line `start`.
    fn discharge_formula(&mut self, formula: Formula, technique: ProofTechnique, start: usize)
        requires
            steady(old(self)@),
            1 <= start < old(self).lines@.len(),
        ensures
            final(self)@ == discharged(old(self)@, formula@, technique, start as int),
            steady(final(self)@),
    {
        let end = self.lines.len();
        let ghost g = self@;
        proof {
            lemma_last_open(g.spans);
        }
        let _ = self.scopes.close(end);
        assert(steady(self@)) by {
            assert forall|i: int| 0 <= i < self@.spans.len() implies 1 <= (
            #[trigger] self@.spans[i]).start <= self@.lines.len() by {
                assert(1 <= g.spans[i].start <= g.lines.len());
            }
        }
        self.push(
            formula,
            Justification::SubproofConclusion {
                technique,
                subproof_start: start,
                subproof_end: end,
            },
        );
    }

    /// Takes back everything after the first `size` lines.
    fn restore(&mut self, size: usize, consumed: Vec<usize>, Ghost(g): Ghost<Growth>)
        requires
            steady(g),
            g.lines.len() == size,
            g.used == positions(consumed@),
            old(self)@.lines.len() > size,
            old(self)@.lines.take(size as int) == g.lines,
            starting_before(old(self)@.spans, size + 1) == g.spans,
        ensures
            final(self)@ == rolled(g, old(self)@.held),
    {
        let ghost before = self.lines@;
        assert(size < self.lines.len());
        self.lines.truncate(size);
        self.consumed = consumed;
        self.scopes.truncate_to(size + 1);
        assert(self@.lines =~= g.lines) by {
            assert forall|i: int| 0 <= i < size implies self@.lines[i] == g.lines[i] by {
                assert(entries(before).take(size as int)[i] == g.lines[i]);
            }
        }
    }

    /// A copy of the counts.
    fn counts(&self) -> (r: Vec<usize>)
        ensures
            r@ == self.consumed@,
    {
        copy_positions(&self.consumed)
    }

    /// One attempt to grow, and how many lines it added. Subproofs may nest `room` deep.
    pub fn grow_one_step(&mut self, room: u8, spec: &PlantSpec, atoms: &Vec<String>) -> (r: usize)
        requires
            atoms@.len() > 0,
            steady(old(self)@),
        ensures
            final(self)@ == grown(soil_of(atoms@, *spec), room as nat, old(self)@),
            steady(final(self)@),
            r == final(self).lines@.len() - old(self).lines@.len(),
        decreases room, 2int,
    {
        let ghost g = self@;
        proof {
            lemma_grown(soil_of(atoms@, *spec), room as nat, g);
        }
        let before = self.lines.len();
        if room == 0 {
            self.try_step(spec, atoms);
        } else {
            let k = self.dice.unit();
            if k < SUBPROOF_SHARE {
                if self.dice.coin() {
                    self.grow_cp_subproof(room, spec, atoms);
                } else {
                    self.grow_ip_subproof(room, spec, atoms);
                }
            } else {
                self.try_step(spec, atoms);
            }
        }
        self.lines.len() - before
    }

    /// Attempts to grow until `want` of them have added something or `tries` are made;
    /// gives back how many were still wanted.
    fn grow_steps(
        &mut self,
        room: u8,
        want: usize,
        tries: usize,
        spec: &PlantSpec,
        atoms: &Vec<String>,
    ) -> (r: usize)
        requires
            atoms@.len() > 0,
            steady(old(self)@),
        ensures
            (r as nat, final(self)@) == grown_by(
                soil_of(atoms@, *spec),
                room as nat,
                old(self)@,
                want as nat,
                tries as nat,
            ),
            steady(final(self)@),
        decreases room, 3int,
    {
        let ghost soil = soil_of(atoms@, *spec);
        let ghost whole = grown_by(soil, room as nat, self@, want as nat, tries as nat);
        let mut left = want;
        let mut tries_left = tries;
        while left > 0 && tries_left > 0
            invariant
                atoms@.len() > 0,
                soil == soil_of(atoms@, *spec),
                steady(self@),
                whole == grown_by(soil, room as nat, self@, left as nat, tries_left as nat),
            decreases tries_left,
        {
            if self.grow_one_step(room, spec, atoms) > 0 {
                left = left - 1;
            }
            tries_left = tries_left - 1;
        }
        left
    }

    /// An attempt at a conditional proof.
    fn grow_cp_subproof(&mut self, room: u8, spec: &PlantSpec, atoms: &Vec<String>)
        requires
            room > 0,
            atoms@.len() > 0,
            steady(old(self)@),
        ensures
            final(self)@ == conditionally_proved(
                soil_of(atoms@, *spec),
                room as nat,
                old(self)@,
            ),
            steady(final(self)@),
        decreases room, 1int,
    {
        let ghost g = self@;
        let ghost soil = soil_of(atoms@, *spec);
        let technique = ProofTechnique::ConditionalProof;
        let assumption = sample_small_formula(&mut self.dice, atoms);
        if !within_len(&assumption, spec) {
            return ;
        }
        let outer = self.accessible_positions();
        if self.formula_duplicates_pool(&outer, &assumption) {
            return ;
        }
        let size = self.lines.len();
        let consumed = self.counts();
        let ghost g0 = self@;
        let start = self.assume_formula(assumption.clone(), technique);
        let ghost g1 = self@;
        let want = self.dice.count(2, 5);
        let tries = if want * 15 < 40 {
            40
        } else {
            want * 15
        };
        let ghost g1r = self@;
        let left = self.grow_steps(room - 1, want, tries, spec, atoms);
        let ghost g2 = self@;
        proof {
            lemma_subproof_grown(soil, room, g0, assumption@, technique, g1r, want as nat, tries as nat);
        }
        assert(at(g2.lines, positions(outer@)) =~= at(g.lines, in_reach(g))) by {
            assert forall|i: int| 0 <= i < outer@.len() implies g2.lines[outer@[i] - 1]
                == g.lines[outer@[i] - 1] by {
                assert(g2.lines.take(g0.lines.len() as int)[outer@[i] - 1] == g0.lines[outer@[i]
                    - 1]);
            }
            assert forall|i: int| 0 <= i < outer@.len() implies at(
                g2.lines,
                positions(outer@),
            )[i] == at(g.lines, in_reach(g))[i] by {
                assert(in_reach(g)[i] == outer@[i]);
            }
        }
        if want - left < 2 {
            self.restore(size, consumed, Ghost(g0));
            return ;
        }
        let last = self.lines.len();
        let conclusion = implies_of(&assumption, &self.lines[last - 1].formula);
        assert(g2.lines.last() == self.lines@[last - 1]@);
        if self.formula_duplicates_pool(&outer, &conclusion) || !within_len(&conclusion, spec) {
            self.restore(size, consumed, Ghost(g0));
            return ;
        }
        self.discharge_formula(conclusion, technique, start);
    }

    /// An attempt at an indirect proof.
    fn grow_ip_subproof(&mut self, room: u8, spec: &PlantSpec, atoms: &Vec<String>)
        requires
            room > 0,
            atoms@.len() > 0,
            steady(old(self)@),
        ensures
            final(self)@ == indirectly_proved(soil_of(atoms@, *spec), room as nat, old(self)@),
            steady(final(self)@),
        decreases room, 1int,
    {
        let ghost g = self@;
        let ghost soil = soil_of(atoms@, *spec);
        let technique = ProofTechnique::IndirectProof;
        let reach = self.accessible_positions();
        if reach.len() == 0 {
            return ;
        }
        let ws = self.weigh_lines(&reach);
        let chosen = weighted_pick_index(&ws, &mut self.dice);
        let anchor = reach[chosen];
        assert(in_reach(g)[chosen as int] == anchor);
        let a = self.lines[anchor - 1].formula.clone();
        let b = sample_literal(&mut self.dice, atoms);
        let t = if self.dice.coin() {
            conj_neg_elim_template(&a, &b)
        } else {
            disj_neg_elim_template(&a, &b)
        };
        if !within_len(&t.assumption, spec) || !within_len(&t.opened, spec) || !within_len(
            &t.refuted,
            spec,
        ) || !within_len(&t.goal, spec) || self.formula_duplicates_pool(&reach, &t.assumption)
            || self.formula_duplicates_pool(&reach, &t.goal) {
            return ;
        }
        let size = self.lines.len();
        let consumed = self.counts();
        let ghost g0 = self@;
        let start = self.assume_formula(t.assumption.clone(), technique);
        let want = self.dice.count(0, 3);
        let tries = if want * 15 < 20 {
            20
        } else {
            want * 15
        };
        let ghost g1r = self@;
        let _ = self.grow_steps(room - 1, want, tries, spec, atoms);
        let ghost g2 = self@;
        proof {
            lemma_subproof_grown(
                soil,
                room,
                g0,
                t.assumption@,
                technique,
                g1r,
                want as nat,
                tries as nat,
            );
            lemma_refuted(g, g0.held, g2, t@, anchor as int);
            lemma_restored(g0, t.assumption@, technique, g2);
        }
        self.push(t.opened, Justification::Equivalence { rule: t.rule, line: start });
        let opened_at = self.lines.len();
        let simplified: Vec<usize> = vec![opened_at];
        assert(positions(simplified@) =~= seq![opened_at as int]);
        self.push(
            t.refuted,
            Justification::Inference { rule: InferenceRule::Simplification, lines: simplified },
        );
        let refuted_at = self.lines.len();
        if self.is_duplicate(&Formula::Contradiction) {
            assert(self@.lines.take(size as int) =~= g2.lines.take(size as int));
            self.restore(size, consumed, Ghost(g0));
            return ;
        }
        let clash: Vec<usize> = vec![anchor, refuted_at];
        assert(positions(clash@) =~= seq![anchor as int, refuted_at as int]);
        self.push(
            Formula::Contradiction,
            Justification::Inference { rule: InferenceRule::Contradiction, lines: clash },
        );
        self.discharge_formula(t.goal, technique, start);
    }

    /// Attempts to grow until there are `want` lines after the first `base` or `tries` are
    /// made.
    pub fn grow_to(
        &mut self,
        room: u8,
        base: usize,
        want: usize,
        tries: usize,
        spec: &PlantSpec,
        atoms: &Vec<String>,
    )
        requires
            atoms@.len() > 0,
            steady(old(self)@),
            base <= old(self).lines@.len(),
        ensures
            final(self)@ == grown_to(
                soil_of(atoms@, *spec),
                room as nat,
                old(self)@,
                (base + want) as nat,
                tries as nat,
            ),
            steady(final(self)@),
    {
        let ghost soil = soil_of(atoms@, *spec);
        let ghost size = (base + want) as nat;
        let ghost whole = grown_to(soil, room as nat, self@, size, tries as nat);
        let mut tries_left = tries;
        while self.lines.len() - base < want && tries_left > 0
            invariant
                atoms@.len() > 0,
                soil == soil_of(atoms@, *spec),
                steady(self@),
                base <= self.lines@.len(),
                size == base + want,
                whole == grown_to(soil, room as nat, self@, size, tries_left as nat),
            decreases tries_left,
        {
            proof {
                lemma_grown(soil, room as nat, self@);
            }
            let _ = self.grow_one_step(room, spec, atoms);
            tries_left = tries_left - 1;
        }
    }
}

/// A formula is one of its own subformulas.
proof fn lemma_has_subformula(p: Prop)
    ensures
        subformula_seq(p).len() > 0,
{
}

/// Growing a subproof keeps what was there, which is found again by its size.
proof fn lemma_subproof_grown(
    soil: Soil,
    room: u8,
    g0: Growth,
    a: Prop,
    t: ProofTechnique,
    g1r: Growth,
    want: nat,
    tries: nat,
)
    requires
        room > 0,
        steady(g0),
        g1r == rolled(assumed(g0, a, t), g1r.held),
    ensures
        ({
            let (left, g2) = grown_by(soil, (room - 1) as nat, g1r, want, tries);
            &&& left <= want
            &&& g2.lines.len() >= g0.lines.len() + 1 + want - left
            &&& steady(g2)
            &&& extends(assumed(g0, a, t), g2)
            &&& g2.lines.take(g0.lines.len() as int) == g0.lines
            &&& starting_before(g2.spans, g0.lines.len() + 1int) == g0.spans
        }),
{
    let g1 = assumed(g0, a, t);
    lemma_assumed(g0, a, t);
    lemma_rolled(g1, g1r.held);
    lemma_grown_by(soil, (room - 1) as nat, g1r, want, tries);
    let g2 = grown_by(soil, (room - 1) as nat, g1r, want, tries).1;
    lemma_extends_trans(g1, g1r, g2);
    lemma_restored(g0, a, t, g2);
}

/// What a subproof was opened on is found again by its size.
proof fn lemma_restored(g0: Growth, a: Prop, t: ProofTechnique, g2: Growth)
    requires
        steady(g0),
        extends(assumed(g0, a, t), g2),
    ensures
        g2.lines.take(g0.lines.len() as int) == g0.lines,
        starting_before(g2.spans, g0.lines.len() + 1int) == g0.spans,
{
    let g1 = assumed(g0, a, t);
    let n = g0.lines.len() as int;
    lemma_assumed(g0, a, t);
    assert forall|i: int| 0 <= i < n implies g2.lines[i] == g0.lines[i] by {
        assert(g2.lines.take(g1.lines.len() as int)[i] == g1.lines[i]);
        assert(g1.lines.take(n)[i] == g0.lines[i]);
    }
    assert(g2.lines.take(n) =~= g0.lines);
    assert forall|i: int| 0 <= i < g1.spans.len() implies g2.spans[i] == g1.spans[i] by {
        assert(g2.spans.take(g1.spans.len() as int)[i] == g1.spans[i]);
    }
    assert(g2.spans.take(g0.spans.len() as int) =~= g0.spans);
    assert forall|i: int| g0.spans.len() <= i < g2.spans.len() implies (
    #[trigger] g2.spans[i]).start > n by {
        if i < g1.spans.len() {
            assert(g2.spans[i] == g1.spans[i]);
        }
    }
    lemma_starting_before(g2.spans, g0.spans.len() as int, n + 1);
}

/// Where the first `k` scopes start before line `n` and the others do not, the first `k`
/// are kept.
proof fn lemma_starting_before(spans: Seq<Span>, k: int, n: int)
    requires
        0 <= k <= spans.len(),
        forall|i: int| 0 <= i < k ==> (#[trigger] spans[i]).start < n,
        forall|i: int| k <= i < spans.len() ==> (#[trigger] spans[i]).start >= n,
    ensures
        starting_before(spans, n) == spans.take(k),
    decreases spans.len(),
{
    if spans.len() > 0 {
        let t = spans.drop_last();
        if k == spans.len() {
            assert(spans[k - 1].start < n);
            lemma_starting_before(t, k - 1, n);
            assert(t.take(k - 1).push(spans.last()) =~= spans.take(k));
        } else {
            lemma_starting_before(t, k, n);
            assert(t.take(k) =~= spans.take(k));
        }
    } else {
        assert(spans.take(k) =~= spans);
    }
}

/// How an indirect proof refutes its assumption.
struct Refutation {
    rule: EquivalenceRule,
    assumption: Formula,
    opened: Formula,
    refuted: Formula,
    goal: Formula,
}

impl View for Refutation {
    type V = Template;

    closed spec fn view(&self) -> Template {
        Template {
            rule: self.rule,
            assumption: self.assumption@,
            opened: self.opened@,
            refuted: self.refuted@,
            goal: self.goal@,
        }
    }
}

/// From `a`, the template for `~(b . ~a)`.
fn conj_neg_elim_template(a: &Formula, b: &Formula) -> (r: Refutation)
    ensures
        r@ == conj_template(a@, b@),
{
    let refuted = not_of(a);
    let opened = and_of(b, &refuted);
    let goal = not_of(&opened);
    let assumption = not_of(&goal);
    Refutation { rule: EquivalenceRule::DoubleNegation, assumption, opened, refuted, goal }
}

/// From `a`, the template for `a v b`.
fn disj_neg_elim_template(a: &Formula, b: &Formula) -> (r: Refutation)
    ensures
        r@ == disj_template(a@, b@),
{
    let refuted = not_of(a);
    let opened = and_of(&refuted, &not_of(b));
    let goal = or_of(a, b);
    let assumption = not_of(&goal);
    Refutation { rule: EquivalenceRule::DeMorgan, assumption, opened, refuted, goal }
}

} // verus!
