//! Deciding truth: satisfiability, tautology, entailment and equivalence over every
//! assignment of the atoms that occur.

use vstd::prelude::*;

use crate::models::formula::{
    all_names, all_true, atom_names, atom_universe, copy_formulas, entails, equivalent, eval,
    iff_of, lemma_all_names, lemma_eval_agree, lemma_views_push, name_views, not_of, p_iff, p_not,
    satisfiable, tautology, views,
};
use crate::models::formula::{Formula, Prop, Valuation};

verus! {

/// The valuation that makes true the names whose value in `vals` is `true`.
pub open spec fn row_valuation(names: Seq<Seq<char>>, vals: Seq<bool>) -> Valuation {
    |n: Seq<char>| exists|i: int| 0 <= i < names.len() && i < vals.len() && names[i] == n && vals[i]
}

/// `v` gives the first names the values in `vals`.
pub open spec fn agrees(v: Valuation, names: Seq<Seq<char>>, vals: Seq<bool>) -> bool {
    forall|i: int| 0 <= i < vals.len() && i < names.len() ==> v(#[trigger] names[i]) == vals[i]
}

/// The value of the atom `name` in one row of a truth table.
fn row_value(name: &String, names: &Vec<String>, vals: &Vec<bool>) -> (r: bool)
    requires
        names@.len() == vals@.len(),
    ensures
        r == (row_valuation(name_views(names@), vals@))(name@),
{
    let mut i: usize = 0;
    while i < names.len()
        invariant
            i <= names@.len(),
            names@.len() == vals@.len(),
            forall|j: int| 0 <= j < i ==> !(names@[j]@ == name@ && vals@[j]),
        decreases names@.len() - i,
    {
        if vals[i] && names[i] == *name {
            assert(name_views(names@)[i as int] == name@ && vals@[i as int]);
            return true;
        }
        i = i + 1;
    }
    assert(!(row_valuation(name_views(names@), vals@))(name@)) by {
        if (row_valuation(name_views(names@), vals@))(name@) {
            let j = choose|j: int|
                0 <= j < name_views(names@).len() && j < vals@.len() && name_views(names@)[j]
                    == name@ && vals@[j];
            assert(names@[j]@ == name@ && vals@[j]);
        }
    }
    false
}

/// The truth value of `f` in one row of a truth table.
fn eval_row(f: &Formula, names: &Vec<String>, vals: &Vec<bool>) -> (r: bool)
    requires
        names@.len() == vals@.len(),
    ensures
        r == eval(f@, row_valuation(name_views(names@), vals@)),
    decreases f,
{
    match f {
        Formula::Atom(name) => row_value(name, names, vals),
        Formula::Not(a) => !eval_row(a, names, vals),
        Formula::And(a, b) => eval_row(a, names, vals) && eval_row(b, names, vals),
        Formula::Or(a, b) => eval_row(a, names, vals) || eval_row(b, names, vals),
        Formula::Implies(a, b) => !eval_row(a, names, vals) || eval_row(b, names, vals),
        Formula::Biconditional(a, b) => eval_row(a, names, vals) == eval_row(b, names, vals),
        Formula::Contradiction => false,
    }
}

/// Whether every formula is true in one row of a truth table.
fn all_true_row(formulas: &[Formula], names: &Vec<String>, vals: &Vec<bool>) -> (r: bool)
    requires
        names@.len() == vals@.len(),
    ensures
        r == all_true(views(formulas@), row_valuation(name_views(names@), vals@)),
{
    let ghost v = row_valuation(name_views(names@), vals@);
    let mut i: usize = 0;
    while i < formulas.len()
        invariant
            i <= formulas@.len(),
            names@.len() == vals@.len(),
            v == row_valuation(name_views(names@), vals@),
            forall|j: int| 0 <= j < i ==> eval(#[trigger] views(formulas@)[j], v),
        decreases formulas@.len() - i,
    {
        if !eval_row(&formulas[i], names, vals) {
            assert(!eval(views(formulas@)[i as int], v));
            return false;
        }
        i = i + 1;
    }
    true
}

/// A row that covers all atoms decides every valuation that agrees with it.
proof fn lemma_full_row(s: Seq<Prop>, names: Seq<Seq<char>>, vals: Seq<bool>, v: Valuation)
    requires
        names.no_duplicates(),
        names.len() == vals.len(),
        forall|i: int, n: Seq<char>|
            0 <= i < s.len() && #[trigger] atom_names(s[i]).contains(n) ==> names.contains(n),
        agrees(v, names, vals),
    ensures
        all_true(s, v) == all_true(s, row_valuation(names, vals)),
{
    let w = row_valuation(names, vals);
    assert forall|i: int| 0 <= i < s.len() implies eval(#[trigger] s[i], v) == eval(s[i], w) by {
        assert forall|n: Seq<char>| #[trigger] atom_names(s[i]).contains(n) implies v(n) == w(n) by {
            assert(names.contains(n));
            let k = choose|k: int| 0 <= k < names.len() && names[k] == n;
            assert(v(names[k]) == vals[k]);
            if w(n) {
                let m = choose|m: int|
                    0 <= m < names.len() && m < vals.len() && names[m] == n && vals[m];
                assert(m == k);
            }
        }
        lemma_eval_agree(s[i], v, w);
    }
}

/// A row agrees with its own valuation.
proof fn lemma_row_agrees(names: Seq<Seq<char>>, vals: Seq<bool>)
    requires
        names.no_duplicates(),
        vals.len() <= names.len(),
    ensures
        agrees(row_valuation(names, vals), names, vals),
{
    let w = row_valuation(names, vals);
    assert forall|i: int| 0 <= i < vals.len() && i < names.len() implies w(#[trigger] names[i])
        == vals[i] by {
        if w(names[i]) {
            let m = choose|m: int|
                0 <= m < names.len() && m < vals.len() && names[m] == names[i] && vals[m];
            assert(m == i);
        }
    }
}

/// The value that `f` has under every valuation that agrees with `vals`, where the values
/// so far settle it.
fn settled(f: &Formula, names: &Vec<String>, vals: &Vec<bool>) -> (r: Option<bool>)
    requires
        vals@.len() <= names@.len(),
    ensures
        r matches Some(b) ==> forall|v: Valuation| #[trigger]
            agrees(v, name_views(names@), vals@) ==> eval(f@, v) == b,
    decreases f,
{
    match f {
        Formula::Atom(name) => {
            let mut i: usize = 0;
            while i < vals.len()
                invariant
                    i <= vals@.len(),
                    vals@.len() <= names@.len(),
                    f@ == Prop::Atom(name@),
                decreases vals@.len() - i,
            {
                if names[i] == *name {
                    proof {
                        let nv = name_views(names@);
                        assert(nv[i as int] == name@);
                        assert forall|v: Valuation| #[trigger] agrees(v, nv, vals@) implies eval(
                            f@,
                            v,
                        ) == vals@[i as int] by {
                            assert(v(nv[i as int]) == vals@[i as int]);
                        }
                    }
                    return Some(vals[i]);
                }
                i = i + 1;
            }
            None
        },
        Formula::Not(a) => match settled(a, names, vals) {
            Some(b) => Some(!b),
            None => None,
        },
        Formula::And(a, b) => match (settled(a, names, vals), settled(b, names, vals)) {
            (Some(x), Some(y)) => Some(x && y),
            (Some(false), _) => Some(false),
            (_, Some(false)) => Some(false),
            _ => None,
        },
        Formula::Or(a, b) => match (settled(a, names, vals), settled(b, names, vals)) {
            (Some(x), Some(y)) => Some(x || y),
            (Some(true), _) => Some(true),
            (_, Some(true)) => Some(true),
            _ => None,
        },
        Formula::Implies(a, b) => match (settled(a, names, vals), settled(b, names, vals)) {
            (Some(x), Some(y)) => Some(!x || y),
            (Some(false), _) => Some(true),
            (_, Some(true)) => Some(true),
            _ => None,
        },
        Formula::Biconditional(a, b) => match (
            settled(a, names, vals),
            settled(b, names, vals),
        ) {
            (Some(x), Some(y)) => Some(x == y),
            _ => None,
        },
        Formula::Contradiction => Some(false),
    }
}

/// Whether the values so far make some formula false, whatever the rest.
fn ruled_out(formulas: &[Formula], names: &Vec<String>, vals: &Vec<bool>) -> (r: bool)
    requires
        vals@.len() <= names@.len(),
    ensures
        r ==> forall|v: Valuation| #[trigger]
            agrees(v, name_views(names@), vals@) ==> !all_true(views(formulas@), v),
{
    let mut i: usize = 0;
    while i < formulas.len()
        invariant
            i <= formulas@.len(),
            vals@.len() <= names@.len(),
        decreases formulas@.len() - i,
    {
        if let Some(b) = settled(&formulas[i], names, vals) {
            if !b {
                proof {
                    let s = views(formulas@);
                    assert forall|v: Valuation| #[trigger]
                        agrees(v, name_views(names@), vals@) implies !all_true(s, v) by {
                        assert(!eval(s[i as int], v));
                    }
                }
                return true;
            }
        }
        i = i + 1;
    }
    false
}

/// Whether some valuation that agrees with `vals` makes every formula true.
fn exists_row(formulas: &[Formula], names: &Vec<String>, vals: &mut Vec<bool>) -> (r: bool)
    requires
        old(vals)@.len() <= names@.len(),
        name_views(names@) == all_names(views(formulas@)),
    ensures
        final(vals)@ == old(vals)@,
        r == exists|v: Valuation|
            #![trigger all_true(views(formulas@), v)]
            agrees(v, name_views(names@), old(vals)@) && all_true(views(formulas@), v),
    decreases names@.len() - old(vals)@.len(),
{
    let ghost start = vals@;
    let ghost nv = name_views(names@);
    let ghost s = views(formulas@);
    proof {
        lemma_all_names(s);
    }
    if vals.len() == names.len() {
        let r = all_true_row(formulas, names, vals);
        proof {
            let w = row_valuation(nv, start);
            lemma_row_agrees(nv, start);
            if r {
                assert(agrees(w, nv, start) && all_true(s, w));
            }
            assert forall|v: Valuation| agrees(v, nv, start) && #[trigger] all_true(s, v) implies r by {
                lemma_full_row(s, nv, start, v);
            }
        }
        return r;
    }
    if ruled_out(formulas, names, vals) {
        return false;
    }
    vals.push(true);
    assert(vals@.drop_last() =~= start);
    let found = exists_row(formulas, names, vals);
    let ghost with_true = start.push(true);
    let _ = vals.pop();
    assert(vals@ =~= start);
    proof {
        assert forall|v: Valuation| #[trigger] all_true(s, v) implies (agrees(v, nv, with_true) <==> (
        agrees(v, nv, start) && v(nv[start.len() as int]))) by {
            if agrees(v, nv, with_true) {
                assert forall|i: int| 0 <= i < start.len() && i < nv.len() implies v(
                    #[trigger] nv[i],
                ) == start[i] by {
                    assert(with_true[i] == start[i]);
                }
                assert(with_true[start.len() as int]);
            }
        }
    }
    if found {
        return true;
    }
    vals.push(false);
    let found_false = exists_row(formulas, names, vals);
    let ghost with_false = start.push(false);
    let _ = vals.pop();
    assert(vals@ =~= start);
    proof {
        assert forall|v: Valuation| #[trigger] all_true(s, v) implies (agrees(v, nv, with_false) <==> (
        agrees(v, nv, start) && !v(nv[start.len() as int]))) by {
            if agrees(v, nv, with_false) {
                assert forall|i: int| 0 <= i < start.len() && i < nv.len() implies v(
                    #[trigger] nv[i],
                ) == start[i] by {
                    assert(with_false[i] == start[i]);
                }
                assert(!with_false[start.len() as int]);
            }
        }
    }
    found_false
}

/// Whether some assignment makes all of `formulas` true at once. No formula at all is
/// satisfiable.
pub fn is_satisfiable_dynamic(formulas: &[Formula]) -> (r: bool)
    ensures
        r == satisfiable(views(formulas@)),
{
    let names = atom_universe(formulas);
    let mut vals: Vec<bool> = Vec::new();
    let r = exists_row(formulas, &names, &mut vals);
    proof {
        let s = views(formulas@);
        if satisfiable(s) {
            let v = choose|v: Valuation| all_true(s, v);
            assert(agrees(v, name_views(names@), seq![]) && all_true(s, v));
        }
    }
    r
}

/// Whether every assignment makes `f` true.
pub fn is_tautology_dynamic(f: &Formula) -> (r: bool)
    ensures
        r == tautology(f@),
{
    let mut one: Vec<Formula> = Vec::new();
    one.push(not_of(f));
    let r = is_satisfiable_dynamic(one.as_slice());
    proof {
        let s = views(one@);
        assert(s.len() == 1 && s[0] == p_not(f@));
        assert forall|v: Valuation| #[trigger] all_true(s, v) == !eval(f@, v) by {
            assert(all_true(s, v) ==> eval(s[0], v));
        }
        if !tautology(f@) {
            let v = choose|v: Valuation| !#[trigger] eval(f@, v);
            assert(all_true(s, v));
        }
        if satisfiable(s) {
            let v = choose|v: Valuation| all_true(s, v);
            assert(!eval(f@, v));
        }
    }
    !r
}

/// Whether `a` and `b` have the same truth value under every assignment.
pub fn are_equivalent_dynamic(a: &Formula, b: &Formula) -> (r: bool)
    ensures
        r == equivalent(a@, b@),
{
    let r = is_tautology_dynamic(&iff_of(a, b));
    proof {
        let q = p_iff(a@, b@);
        assert forall|v: Valuation| #[trigger] eval(q, v) == (eval(a@, v) == eval(b@, v)) by {}
        if tautology(q) {
            assert forall|v: Valuation| #[trigger] eval(a@, v) == eval(b@, v) by {
                assert(eval(q, v));
            }
        }
        if equivalent(a@, b@) {
            assert forall|v: Valuation| #[trigger] eval(q, v) by {
                assert(eval(a@, v) == eval(b@, v));
            }
        }
    }
    r
}

/// Whether every assignment that makes all of `premises` true makes `conclusion` true.
pub fn entails_dynamic(premises: &[Formula], conclusion: &Formula) -> (r: bool)
    ensures
        r == entails(views(premises@), conclusion@),
{
    broadcast use lemma_views_push;

    let mut all = copy_formulas(premises);
    all.push(not_of(conclusion));
    let r = is_satisfiable_dynamic(all.as_slice());
    proof {
        let s = views(premises@);
        let t = views(all@);
        let c = conclusion@;
        assert(t == s.push(p_not(c)));
        assert forall|v: Valuation| #[trigger] all_true(t, v) <==> (all_true(s, v) && !eval(c, v)) by {
            if all_true(t, v) {
                assert forall|i: int| 0 <= i < s.len() implies eval(#[trigger] s[i], v) by {
                    assert(eval(t[i], v));
                }
                assert(eval(t[s.len() as int], v));
            }
        }
        if satisfiable(t) {
            let v = choose|v: Valuation| all_true(t, v);
            assert(all_true(s, v) && !eval(c, v));
        } else {
            assert forall|v: Valuation| #[trigger] all_true(s, v) implies eval(c, v) by {
                assert(!all_true(t, v));
            }
        }
    }
    !r
}

} // verus!
