//! Cones: what a line depends on, and the proof that is left when all else is cut away.

use vstd::prelude::*;

use super::growth::{Entry, Growth};
use super::scratch::{entries, Scratch, ScratchLine};
use crate::models::formula::{lemma_views_push, views, Formula, Prop};
use crate::models::lists::{lemma_in_pushed, positions};
use crate::models::proofs::{
    drafted, referenced, with_assumption, with_discharge, with_line, Draft, Justification, Proof,
    Reason,
};
use crate::models::scopes::depth_at;
use crate::models::theorem::{Difficulty, Theorem};

verus! {

/// The lines that line `j` refers to.
pub open spec fn refs_at(lines: Seq<Entry>, j: int) -> Seq<int> {
    referenced(lines[j - 1].reason)
}

/// Whether line `target` depends on line `i`: it is that line, or a line that it depends
/// on refers to `i`.
pub open spec fn needed(lines: Seq<Entry>, target: int, i: int) -> bool
    decreases target - i,
{
    i == target || exists|j: int|
        i < j <= target && needed(lines, target, j) && (#[trigger] refs_at(lines, j)).contains(i)
}

/// What a line depends on is itself, and with each line all that it refers to, and nothing
/// that a set of lines with those two properties could do without.
pub proof fn law_needed_least(lines: Seq<Entry>, target: int, keep: spec_fn(int) -> bool, i: int)
    requires
        keep(target),
        forall|j: int, k: int|
            #![trigger keep(j), refs_at(lines, j).contains(k)]
            keep(j) && k < j <= target && refs_at(lines, j).contains(k) ==> keep(k),
    ensures
        needed(lines, target, target),
        forall|j: int|
            i < j <= target && needed(lines, target, j) && (#[trigger] refs_at(lines, j)).contains(
                i,
            ) ==> needed(lines, target, i),
        needed(lines, target, i) ==> keep(i),
    decreases target - i,
{
    if needed(lines, target, i) && i != target {
        let j = choose|j: int|
            i < j <= target && needed(lines, target, j) && (#[trigger] refs_at(lines, j)).contains(
                i,
            );
        law_needed_least(lines, target, keep, j);
        assert(keep(j) && refs_at(lines, j).contains(i));
    }
}

/// The rank of a line is the number of lines up to it that are needed.
pub proof fn law_rank_counts(lines: Seq<Entry>, target: int, n: int)
    requires
        n >= 0,
    ensures
        rank(lines, target, n) == Seq::new(n as nat, |i: int| i + 1).filter(
            |i: int| needed(lines, target, i),
        ).len(),
    decreases n,
{
    reveal(Seq::filter);
    let all = Seq::new(n as nat, |i: int| i + 1);
    if n > 0 {
        law_rank_counts(lines, target, n - 1);
        assert(all.drop_last() =~= Seq::new((n - 1) as nat, |i: int| i + 1));
    }
}

/// How many of the lines from the first to line `n` the line `target` depends on.
pub open spec fn rank(lines: Seq<Entry>, target: int, n: int) -> int
    decreases n,
{
    if n <= 0 {
        0
    } else {
        rank(lines, target, n - 1) + if needed(lines, target, n) {
            1int
        } else {
            0int
        }
    }
}

/// How many lines besides the premises a line depends on, itself included.
pub open spec fn derived_in_cone(lines: Seq<Entry>, premises: int, target: int) -> int {
    rank(lines, target, target) - rank(lines, target, premises)
}

/// The first of the lines up to `n`, outside all subproofs, that depends on most lines.
pub open spec fn best_upto(g: Growth, premises: int, n: int) -> Option<int>
    decreases n - premises,
{
    if n <= premises {
        None
    } else {
        let before = best_upto(g, premises, n - 1);
        if depth_at(g.spans, n) != 0 {
            before
        } else {
            match before {
                Some(m) => if derived_in_cone(g.lines, premises, n) > derived_in_cone(
                    g.lines,
                    premises,
                    m,
                ) {
                    Some(n)
                } else {
                    before
                },
                None => Some(n),
            }
        }
    }
}

/// A justification that refers to lines by other numbers. Where a subproof lies is left
/// as it is.
pub open spec fn renumbered(reason: Reason, number: spec_fn(int) -> int) -> Reason {
    match reason {
        Reason::Inference(rule, lines) => Reason::Inference(
            rule,
            Seq::new(lines.len(), |i: int| number(lines[i])),
        ),
        Reason::Equivalence(rule, line) => Reason::Equivalence(rule, number(line)),
        _ => reason,
    }
}

/// A proof in which a line is written down anew: assumptions open subproofs, discharges
/// close them, and other lines refer to lines by their new numbers.
pub open spec fn replayed(d: Draft, entry: Entry, number: spec_fn(int) -> int) -> Draft {
    match entry.reason {
        Reason::Assumption(t) => with_assumption(d, entry.formula, t),
        Reason::Discharge(t, _, _) => with_discharge(d, entry.formula, t),
        _ => with_line(d, entry.formula, renumbered(entry.reason, number)),
    }
}

/// The formulas of the lines up to `n` that a line depends on.
pub open spec fn kept_upto(lines: Seq<Entry>, target: int, n: int) -> Seq<Prop>
    decreases n,
{
    if n <= 0 {
        seq![]
    } else if needed(lines, target, n) {
        kept_upto(lines, target, n - 1).push(lines[n - 1].formula)
    } else {
        kept_upto(lines, target, n - 1)
    }
}

/// The new numbers of the lines that are kept.
pub open spec fn ranks(lines: Seq<Entry>, target: int) -> spec_fn(int) -> int {
    |i: int| rank(lines, target, i)
}

/// The proof of a line from the premises that it depends on, written down as far as line
/// `n`.
pub open spec fn rebuilt_upto(lines: Seq<Entry>, premises: int, target: int, n: int) -> Draft
    decreases n - premises,
{
    if n <= premises {
        drafted(kept_upto(lines, target, premises), lines[target - 1].formula)
    } else {
        let before = rebuilt_upto(lines, premises, target, n - 1);
        if needed(lines, target, n) {
            replayed(before, lines[n - 1], ranks(lines, target))
        } else {
            before
        }
    }
}

/// The proof of a line that holds nothing but what the line depends on.
pub open spec fn rebuilt(lines: Seq<Entry>, premises: int, target: int) -> Draft {
    rebuilt_upto(lines, premises, target, target)
}

/// For each line up to `target`, whether `target` depends on it; the first item is not
/// used.
pub fn compute_cone(lines: &Vec<ScratchLine>, target: usize) -> (r: Vec<bool>)
    requires
        1 <= target <= lines@.len(),
    ensures
        r@.len() == target + 1,
        forall|i: int|
            1 <= i <= target ==> #[trigger] r@[i] == needed(entries(lines@), target as int, i),
{
    let ghost es = entries(lines@);
    let ghost t = target as int;
    let mut r: Vec<bool> = Vec::new();
    let mut k: usize = 0;
    while k < target
        invariant
            k <= target,
            r@.len() == k,
            forall|i: int| 0 <= i < k ==> !#[trigger] r@[i],
        decreases target - k,
    {
        r.push(false);
        k = k + 1;
    }
    r.push(true);
    let mut n: usize = target;
    while n > 0
        invariant
            n <= target <= lines@.len(),
            es == entries(lines@),
            t == target,
            r@.len() == target + 1,
            forall|i: int| n <= i <= target && 1 <= i ==> #[trigger] r@[i] == needed(es, t, i),
            forall|i: int|
                1 <= i < n ==> #[trigger] r@[i] == exists|j: int|
                    n < j <= t && needed(es, t, j) && (#[trigger] refs_at(es, j)).contains(i),
        decreases n,
    {
        if r[n] {
            let refs = lines[n - 1].justification.referenced_lines();
            let ghost before = r@;
            let ghost rs = refs_at(es, n as int);
            assert(es[n - 1] == lines@[n - 1]@);
            let mut k: usize = 0;
            while k < refs.len()
                invariant
                    k <= refs@.len(),
                    1 <= n <= target,
                    rs == positions(refs@),
                    r@.len() == target + 1,
                    before.len() == r@.len(),
                    forall|i: int|
                        n <= i <= target ==> #[trigger] r@[i] == before[i],
                    forall|i: int|
                        1 <= i < n ==> #[trigger] r@[i] == (before[i] || rs.take(
                            k as int,
                        ).contains(i)),
                decreases refs@.len() - k,
            {
                let m = refs[k];
                assert(rs[k as int] == m);
                assert(rs.take(k as int + 1) =~= rs.take(k as int).push(m as int));
                let ghost old_r = r@;
                if m >= 1 && m < n {
                    r.set(m, true);
                }
                assert forall|i: int| 1 <= i < n implies #[trigger] r@[i] == (before[i]
                    || rs.take(k as int + 1).contains(i)) by {
                    lemma_in_pushed(rs.take(k as int), m as int, i);
                    assert(old_r[i] == (before[i] || rs.take(k as int).contains(i)));
                }
                k = k + 1;
            }
            assert(rs.take(rs.len() as int) =~= rs);
            assert(needed(es, t, n as int));
            assert forall|i: int| 1 <= i < n implies #[trigger] r@[i] == exists|j: int|
                n - 1 < j <= t && needed(es, t, j) && (#[trigger] refs_at(es, j)).contains(i) by {
                if rs.contains(i) {
                    assert(refs_at(es, n as int).contains(i));
                }
                if before[i] {
                    let j = choose|j: int|
                        n < j <= t && needed(es, t, j) && (#[trigger] refs_at(es, j)).contains(i);
                    assert(refs_at(es, j).contains(i));
                }
            }
        } else {
            assert(!needed(es, t, n as int));
            assert forall|i: int| 1 <= i < n implies #[trigger] r@[i] == exists|j: int|
                n - 1 < j <= t && needed(es, t, j) && (#[trigger] refs_at(es, j)).contains(i) by {
                if r@[i] {
                    let j = choose|j: int|
                        n < j <= t && needed(es, t, j) && (#[trigger] refs_at(es, j)).contains(i);
                    assert(refs_at(es, j).contains(i));
                }
            }
        }
        n = n - 1;
        assert(n >= 1 ==> (r@[n as int] == needed(es, t, n as int)));
    }
    r
}

/// For each line up to `target`, how many lines up to it are kept.
fn rank_lines(cone: &Vec<bool>, Ghost(lines): Ghost<Seq<Entry>>, target: usize) -> (r: Vec<usize>)
    requires
        cone@.len() == target + 1,
        forall|i: int|
            1 <= i <= target ==> #[trigger] cone@[i] == needed(lines, target as int, i),
    ensures
        r@.len() == target + 1,
        forall|i: int|
            0 <= i <= target ==> #[trigger] r@[i] == rank(lines, target as int, i) && r@[i] <= i,
{
    let mut r: Vec<usize> = Vec::new();
    r.push(0);
    let mut count: usize = 0;
    let mut n: usize = 0;
    while n < target
        invariant
            n <= target,
            cone@.len() == target + 1,
            forall|i: int|
                1 <= i <= target ==> #[trigger] cone@[i] == needed(lines, target as int, i),
            count == rank(lines, target as int, n as int),
            count <= n,
            r@.len() == n + 1,
            forall|i: int|
                0 <= i <= n ==> #[trigger] r@[i] == rank(lines, target as int, i) && r@[i] <= i,
        decreases target - n,
    {
        n = n + 1;
        if cone[n] {
            count = count + 1;
        }
        r.push(count);
    }
    r
}

/// How many lines besides the premises a line depends on, itself included.
pub fn cone_size(lines: &Vec<ScratchLine>, premises: usize, target: usize) -> (r: usize)
    requires
        premises < target <= lines@.len(),
    ensures
        r == derived_in_cone(entries(lines@), premises as int, target as int),
{
    let cone = compute_cone(lines, target);
    let ghost es = entries(lines@);
    let mut r: usize = 0;
    let mut n: usize = premises;
    while n < target
        invariant
            premises <= n <= target,
            cone@.len() == target + 1,
            forall|i: int| 1 <= i <= target ==> #[trigger] cone@[i] == needed(es, target as int, i),
            r == rank(es, target as int, n as int) - rank(es, target as int, premises as int),
            r <= n - premises,
        decreases target - n,
    {
        n = n + 1;
        if cone[n] {
            r = r + 1;
        }
    }
    r
}

/// The first line outside all subproofs that depends on most lines, and on how many.
pub fn best_line(s: &Scratch, premises: usize) -> (r: Option<(usize, usize)>)
    requires
        premises <= s.lines@.len(),
    ensures
        r is None ==> best_upto(s@, premises as int, s.lines@.len() as int) is None,
        r matches Some((line, size)) ==> best_upto(s@, premises as int, s.lines@.len() as int)
            == Some(line as int) && premises < line <= s.lines@.len() && size == derived_in_cone(
            s@.lines,
            premises as int,
            line as int,
        ),
{
    let mut best: Option<(usize, usize)> = None;
    let mut n: usize = premises;
    while n < s.lines.len()
        invariant
            premises <= n <= s.lines@.len(),
            best is None ==> best_upto(s@, premises as int, n as int) is None,
            best matches Some((line, size)) ==> best_upto(s@, premises as int, n as int) == Some(
                line as int,
            ) && premises < line <= n && size == derived_in_cone(
                s@.lines,
                premises as int,
                line as int,
            ),
        decreases s.lines@.len() - n,
    {
        n = n + 1;
        if s.scopes.depth_at(n) == 0 {
            let size = cone_size(&s.lines, premises, n);
            let better = match &best {
                Some((_, most)) => size > *most,
                None => true,
            };
            if better {
                best = Some((n, size));
            }
        }
    }
    best
}

/// A justification that refers to lines by other numbers.
pub(crate) fn remap_justification(j: &Justification, numbers: &Vec<usize>, Ghost(number): Ghost<
    spec_fn(int) -> int,
>) -> (r: Justification)
    requires
        forall|i: int| 0 <= i < numbers@.len() ==> #[trigger] numbers@[i] == number(i),
        forall|i: int|
            0 <= i < referenced(j@).len() ==> 0 <= #[trigger] referenced(j@)[i] < numbers@.len(),
    ensures
        r@ == renumbered(j@, number),
{
    match j {
        Justification::Inference { rule, lines } => {
            let ghost ls = positions(lines@);
            assert forall|k: int| 0 <= k < ls.len() implies 0 <= #[trigger] ls[k]
                < numbers@.len() by {
                assert(referenced(j@)[k] == ls[k]);
            }
            let mut out: Vec<usize> = Vec::new();
            let mut i: usize = 0;
            while i < lines.len()
                invariant
                    i <= lines@.len(),
                    ls == positions(lines@),
                    forall|k: int|
                        0 <= k < numbers@.len() ==> #[trigger] numbers@[k] == number(k),
                    forall|k: int| 0 <= k < ls.len() ==> 0 <= #[trigger] ls[k] < numbers@.len(),
                    out@.len() == i,
                    forall|k: int| 0 <= k < i ==> #[trigger] out@[k] == number(ls[k]),
                decreases lines@.len() - i,
            {
                let m = lines[i];
                assert(ls[i as int] == m);
                out.push(numbers[m]);
                i = i + 1;
            }
            assert(positions(out@) =~= Seq::new(ls.len(), |i: int| number(ls[i])));
            Justification::Inference { rule: *rule, lines: out }
        },
        Justification::Equivalence { rule, line } => {
            assert(referenced(j@)[0] == *line as int);
            Justification::Equivalence { rule: *rule, line: numbers[*line] }
        },
        _ => j.clone(),
    }
}

/// Writes a line down anew.
pub(crate) fn replay(
    p: &mut Proof,
    formula: &Formula,
    justification: &Justification,
    numbers: &Vec<usize>,
    Ghost(number): Ghost<spec_fn(int) -> int>,
)
    requires
        forall|i: int| 0 <= i < numbers@.len() ==> #[trigger] numbers@[i] == number(i),
        forall|i: int|
            0 <= i < referenced(justification@).len() ==> 0 <= #[trigger] referenced(
                justification@,
            )[i] < numbers@.len(),
    ensures
        final(p)@ == replayed(
            old(p)@,
            (Entry { formula: formula@, reason: justification@ }),
            number,
        ),
        final(p).theorem == old(p).theorem,
{
    match justification {
        Justification::Assumption { technique } => {
            p.open_subproof(formula.clone(), *technique);
        },
        Justification::SubproofConclusion { technique, .. } => {
            let _ = p.close_subproof(formula.clone(), *technique);
        },
        _ => {
            let remapped = remap_justification(justification, numbers, Ghost(number));
            p.add_line(formula.clone(), remapped);
        },
    }
}

/// Whether every line refers to earlier lines alone.
pub open spec fn refers_back(lines: Seq<Entry>) -> bool {
    forall|n: int, i: int|
        1 <= n <= lines.len() && 0 <= i < referenced(lines[n - 1].reason).len() ==> 1
            <= #[trigger] referenced(lines[n - 1].reason)[i] < n
}

/// The proof of a line that holds nothing but what the line depends on.
pub fn rebuild_proof(lines: &Vec<ScratchLine>, premises: usize, target: usize) -> (r: Proof)
    requires
        premises < target <= lines@.len(),
        refers_back(entries(lines@)),
    ensures
        r@ == rebuilt(entries(lines@), premises as int, target as int),
        r.theorem.id@ == ""@,
        r.theorem.difficulty == Difficulty::Medium,
        r.theorem.difficulty_value == Difficulty::Medium.spec_value(),
        r.theorem.tier is None,
        r.theorem.theme is None,
        r.theorem.name is None,
        !r.theorem.is_classic,
{
    let ghost es = entries(lines@);
    let ghost t = target as int;
    let cone = compute_cone(lines, target);
    let numbers = rank_lines(&cone, Ghost(es), target);
    let ghost number = ranks(es, t);
    let mut kept: Vec<Formula> = Vec::new();
    let mut n: usize = 0;
    assert(views(kept@) =~= seq![]);
    while n < premises
        invariant
            n <= premises < target <= lines@.len(),
            es == entries(lines@),
            t == target,
            cone@.len() == target + 1,
            forall|i: int| 1 <= i <= target ==> #[trigger] cone@[i] == needed(es, t, i),
            views(kept@) == kept_upto(es, t, n as int),
        decreases premises - n,
    {
        broadcast use lemma_views_push;

        n = n + 1;
        if cone[n] {
            kept.push(lines[n - 1].formula.clone());
            assert(es[n - 1] == lines@[n - 1]@);
        }
    }
    let conclusion = lines[target - 1].formula.clone();
    assert(es[t - 1] == lines@[t - 1]@);
    let theorem = Theorem::new(kept, conclusion, Difficulty::Medium, None, None);
    let mut p = Proof::new(theorem);
    let ghost made = p.theorem;
    while n < target
        invariant
            premises <= n <= target <= lines@.len(),
            es == entries(lines@),
            t == target,
            refers_back(es),
            cone@.len() == target + 1,
            forall|i: int| 1 <= i <= target ==> #[trigger] cone@[i] == needed(es, t, i),
            numbers@.len() == target + 1,
            forall|i: int| 0 <= i <= target ==> #[trigger] numbers@[i] == rank(es, t, i),
            number == ranks(es, t),
            p@ == rebuilt_upto(es, premises as int, t, n as int),
            p.theorem == made,
        decreases target - n,
    {
        n = n + 1;
        if cone[n] {
            let line = &lines[n - 1];
            assert(es[n - 1] == line@);
            assert forall|i: int| 0 <= i < referenced(line.justification@).len() implies 0
                <= #[trigger] referenced(line.justification@)[i] < numbers@.len() by {
                assert(1 <= referenced(es[n - 1].reason)[i] < n);
            }
            replay(&mut p, &line.formula, &line.justification, &numbers, Ghost(number));
        }
    }
    p
}

} // verus!
